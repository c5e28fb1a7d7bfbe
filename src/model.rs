//! The ghost model shared by every strategy: groups of handles that alias
//! one payload, and the three transitions `create`, `clone` and `release`.

use vstd::prelude::*;

verus! {

/// One payload and the ids of the live handles that refer to it.
pub struct Group<T> {
    pub value: T,
    pub holders: Set<nat>,
}

/// What a handle is in the model: the group it refers to and its own id.
pub struct HandleView {
    pub group: nat,
    pub id: nat,
}

/// The state of an arena: its live groups, keyed by group, and the id that
/// the next handle will receive.
pub struct RcModel<T> {
    pub groups: Map<nat, Group<T>>,
    pub next_id: nat,
}

impl<T> RcModel<T> {
    /// Every group has at least one live handle, and every id in use is
    /// below `next_id`.
    pub open spec fn wf(self) -> bool {
        &&& self.groups.dom().finite()
        &&& forall|g: nat| #[trigger] self.groups.contains_key(g) ==> {
            &&& self.groups[g].holders.finite()
            &&& self.groups[g].holders.len() >= 1
            &&& forall|i: nat| #[trigger] self.groups[g].holders.contains(i) ==> i < self.next_id
        }
    }

    /// `h` is a live handle of this state.
    pub open spec fn holds(self, h: HandleView) -> bool {
        self.groups.contains_key(h.group) && self.groups[h.group].holders.contains(h.id)
    }

    /// The strong count that `h` reports: the number of live handles of its group.
    pub open spec fn count(self, h: HandleView) -> nat {
        self.groups[h.group].holders.len()
    }

    /// The payload that `h` refers to.
    pub open spec fn value(self, h: HandleView) -> T {
        self.groups[h.group].value
    }

    /// The number of payloads whose storage is still allocated.
    pub open spec fn live_groups(self) -> nat {
        self.groups.dom().len()
    }

    /// `post` follows from `self` by one creation, clone or release.
    pub open spec fn step(self, post: Self) -> bool {
        ||| exists|v: T, h: HandleView| self.created(v, post, h)
        ||| exists|h: HandleView, r: HandleView| self.cloned(h, post, r)
        ||| exists|h: HandleView| self.released(h, post)
    }

    /// `post` is `self` with a new group holding `v`, whose only handle is `h`.
    pub open spec fn created(self, v: T, post: Self, h: HandleView) -> bool {
        &&& !self.groups.contains_key(h.group)
        &&& h.id == self.next_id
        &&& post.next_id == self.next_id + 1
        &&& post.groups == self.groups.insert(h.group, Group { value: v, holders: set![h.id] })
    }

    /// `post` is `self` after cloning `h` into the new handle `r`.
    pub open spec fn cloned(self, h: HandleView, post: Self, r: HandleView) -> bool {
        &&& self.holds(h)
        &&& r.group == h.group
        &&& r.id == self.next_id
        &&& post.next_id == self.next_id + 1
        &&& post.groups == self.groups.insert(
            h.group,
            Group {
                value: self.groups[h.group].value,
                holders: self.groups[h.group].holders.insert(r.id),
            },
        )
    }

    /// `post` is `self` after releasing `h`: the group loses `h`, and is
    /// reclaimed when `h` was its last handle.
    pub open spec fn released(self, h: HandleView, post: Self) -> bool {
        &&& self.holds(h)
        &&& post.next_id == self.next_id
        &&& post.groups == if self.count(h) == 1 {
            self.groups.remove(h.group)
        } else {
            self.groups.insert(
                h.group,
                Group {
                    value: self.groups[h.group].value,
                    holders: self.groups[h.group].holders.remove(h.id),
                },
            )
        }
    }
}

/// A set of one element holds nothing else.
proof fn lemma_singleton_holders(s: Set<nat>, a: nat, b: nat)
    requires
        s.finite(),
        s.len() == 1,
        s.contains(a),
        s.contains(b),
    ensures
        a == b,
{
    if a != b {
        assert(s.remove(a).contains(b));
        assert(s.remove(a).len() == 0);
    }
}

/// Creating a payload keeps the model well formed.
pub proof fn lemma_created_wf<T>(pre: RcModel<T>, v: T, post: RcModel<T>, h: HandleView)
    requires
        pre.wf(),
        pre.created(v, post, h),
    ensures
        post.wf(),
        post.holds(h),
        post.count(h) == 1,
        post.value(h) == v,
        post.live_groups() == pre.live_groups() + 1,
{
    assert(set![h.id].len() == 1);
}

/// Cloning keeps the model well formed.
pub proof fn lemma_cloned_wf<T>(pre: RcModel<T>, h: HandleView, post: RcModel<T>, r: HandleView)
    requires
        pre.wf(),
        pre.cloned(h, post, r),
    ensures
        post.wf(),
        post.live_groups() == pre.live_groups(),
{
    assert(post.groups.dom() =~= pre.groups.dom());
}

/// Releasing keeps the model well formed.
pub proof fn lemma_released_wf<T>(pre: RcModel<T>, h: HandleView, post: RcModel<T>)
    requires
        pre.wf(),
        pre.released(h, post),
    ensures
        post.wf(),
{
    if pre.count(h) != 1 {
        assert(post.groups.dom() =~= pre.groups.dom());
    }
}

/// Cloning `h` gives every handle of its group, the new one included, a
/// count one higher than before, and leaves every other group alone; no
/// payload changes.
pub proof fn lemma_clone_increments<T>(
    pre: RcModel<T>,
    h: HandleView,
    post: RcModel<T>,
    r: HandleView,
    g: HandleView,
)
    requires
        pre.wf(),
        pre.cloned(h, post, r),
        pre.holds(g),
    ensures
        g != r,
        post.holds(g),
        post.holds(r),
        post.count(r) == pre.count(h) + 1,
        post.value(r) == pre.value(h),
        post.value(g) == pre.value(g),
        post.count(g) == if g.group == h.group {
            pre.count(g) + 1
        } else {
            pre.count(g)
        },
{
}

/// Releasing one handle lowers the count of every other handle of its
/// group by exactly one, never below one, and leaves every other group and
/// every payload alone.
pub proof fn lemma_release_decrements<T>(
    pre: RcModel<T>,
    h: HandleView,
    post: RcModel<T>,
    g: HandleView,
)
    requires
        pre.wf(),
        pre.released(h, post),
        pre.holds(g),
        g != h,
    ensures
        post.holds(g),
        post.value(g) == pre.value(g),
        post.count(g) >= 1,
        post.count(g) == if g.group == h.group {
            pre.count(g) - 1
        } else {
            pre.count(g) as int
        },
{
    if g.group == h.group && pre.count(h) == 1 {
        lemma_singleton_holders(pre.groups[h.group].holders, g.id, h.id);
    }
    lemma_released_wf(pre, h, post);
}

/// Releasing the last handle of a payload reclaims it, once: its group
/// leaves the model, no handle of it is left, and one payload fewer is
/// allocated. Releasing any other handle reclaims nothing.
pub proof fn lemma_release_reclaims<T>(pre: RcModel<T>, h: HandleView, post: RcModel<T>)
    requires
        pre.wf(),
        pre.released(h, post),
    ensures
        pre.count(h) == 1 ==> {
            &&& !post.groups.contains_key(h.group)
            &&& forall|g: HandleView| g.group == h.group ==> !#[trigger] post.holds(g)
            &&& post.live_groups() == pre.live_groups() - 1
        },
        pre.count(h) > 1 ==> {
            &&& post.groups.contains_key(h.group)
            &&& post.groups[h.group].value == pre.groups[h.group].value
            &&& post.live_groups() == pre.live_groups()
        },
{
    if pre.count(h) != 1 {
        assert(post.groups.dom() =~= pre.groups.dom());
    }
}

/// Step `i` of a clone chain: `hs[i]` is cloned from the earlier handle
/// `hs[parent[i]]`, taking `states[i - 1]` to `states[i]`.
pub open spec fn clone_step<T>(states: Seq<RcModel<T>>, hs: Seq<HandleView>, parent: Seq<int>, i: int) -> bool {
    &&& 0 <= parent[i] < i
    &&& states[i - 1].cloned(hs[parent[i]], states[i], hs[i])
}

/// The facts of a clone chain after its `k`-th step.
proof fn lemma_clone_prefix<T>(
    pre: RcModel<T>,
    v: T,
    states: Seq<RcModel<T>>,
    hs: Seq<HandleView>,
    parent: Seq<int>,
    k: int,
)
    requires
        pre.wf(),
        states.len() == hs.len(),
        parent.len() == hs.len(),
        0 <= k < hs.len(),
        pre.created(v, states[0], hs[0]),
        forall|i: int| 1 <= i < hs.len() ==> #[trigger] clone_step(states, hs, parent, i),
    ensures
        states[k].wf(),
        forall|i: int|
            #![trigger hs[i]]
            0 <= i <= k ==> {
                &&& states[k].holds(hs[i])
                &&& hs[i].group == hs[0].group
                &&& states[k].count(hs[i]) == k + 1
                &&& states[k].value(hs[i]) == v
            },
    decreases k,
{
    if k == 0 {
        lemma_created_wf(pre, v, states[0], hs[0]);
    } else {
        lemma_clone_prefix(pre, v, states, hs, parent, k - 1);
        let mid = states[k - 1];
        let post = states[k];
        let r = hs[k];
        let j = parent[k];
        assert(clone_step(states, hs, parent, k));
        assert(mid.cloned(hs[j], post, r));
        lemma_cloned_wf(mid, hs[j], post, r);
        assert forall|i: int| #![trigger hs[i]] 0 <= i <= k implies {
            &&& post.holds(hs[i])
            &&& hs[i].group == hs[0].group
            &&& post.count(hs[i]) == k + 1
            &&& post.value(hs[i]) == v
        } by {
            assert(mid.holds(hs[0]));
            if i < k {
                lemma_clone_increments(mid, hs[j], post, r, hs[i]);
            } else {
                lemma_clone_increments(mid, hs[j], post, r, hs[j]);
            }
        }
    }
}

/// Starting parent the only handle of a new payload, clones made one after
/// another, each parent a handle made before it (`hs[i]` is cloned parent
/// `hs[parent[i]]`), leave as many live handles as there were steps; every one
/// of them reports that number as its strong count and sees the payload that
/// was created.
pub proof fn lemma_clone_chain<T>(
    pre: RcModel<T>,
    v: T,
    states: Seq<RcModel<T>>,
    hs: Seq<HandleView>,
    parent: Seq<int>,
)
    requires
        pre.wf(),
        states.len() == hs.len(),
        parent.len() == hs.len(),
        hs.len() >= 1,
        pre.created(v, states[0], hs[0]),
        forall|i: int| 1 <= i < hs.len() ==> #[trigger] clone_step(states, hs, parent, i),
    ensures
        states.last().wf(),
        forall|i: int|
            #![trigger hs[i]]
            0 <= i < hs.len() ==> {
                &&& states.last().holds(hs[i])
                &&& states.last().count(hs[i]) == hs.len()
                &&& states.last().value(hs[i]) == v
            },
{
    lemma_clone_prefix(pre, v, states, hs, parent, hs.len() - 1);
}

/// A payload never changes while a handle to it is live: through any run
/// of creations, clones and releases during which `h` stays live, `h` sees
/// the same value.
pub proof fn lemma_value_stable<T>(states: Seq<RcModel<T>>, h: HandleView)
    requires
        states.len() >= 1,
        forall|i: int| #![trigger states[i]] 0 <= i < states.len() - 1 ==> states[i].step(states[i + 1]),
        forall|i: int| 0 <= i < states.len() ==> #[trigger] states[i].holds(h),
    ensures
        states.last().value(h) == states[0].value(h),
    decreases states.len(),
{
    let n = states.len() as int;
    if n > 1 {
        let ps = states.subrange(0, n - 1);
        assert forall|i: int| #![trigger ps[i]] 0 <= i < ps.len() - 1 implies ps[i].step(ps[i + 1]) by {
            assert(states[i].step(states[i + 1]));
        }
        assert forall|i: int| 0 <= i < ps.len() implies #[trigger] ps[i].holds(h) by {
            assert(states[i].holds(h));
        }
        lemma_value_stable(ps, h);
        let a = states[n - 2];
        let b = states[n - 1];
        assert(a.step(b));
        assert(states[n - 2].holds(h) && states[n - 1].holds(h));
        if exists|v: T, x: HandleView| a.created(v, b, x) {
            let (v, x) = choose|v: T, x: HandleView| a.created(v, b, x);
            assert(x.group != h.group);
        } else if exists|x: HandleView, r: HandleView| a.cloned(x, b, r) {
        } else {
            let x = choose|x: HandleView| a.released(x, b);
            if a.count(x) == 1 {
                assert(x.group != h.group);
            }
        }
        assert(a.holds(h) && b.holds(h));
        assert(b.value(h) == a.value(h));
    }
}

/// The facts about releasing the handles of one group in turn, up to the
/// release of `hs[k]`.
proof fn lemma_release_prefix<T>(states: Seq<RcModel<T>>, hs: Seq<HandleView>, k: int)
    requires
        states.len() == hs.len() + 1,
        0 <= k < hs.len(),
        states[0].wf(),
        hs.no_duplicates(),
        forall|i: int| #![trigger hs[i]] 0 <= i < hs.len() ==> states[0].holds(hs[i]) && hs[i].group == hs[0].group,
        states[0].count(hs[0]) == hs.len(),
        forall|i: int| #![trigger hs[i]] 0 <= i < hs.len() ==> states[i].released(hs[i], states[i + 1]),
    ensures
        states[k].wf(),
        states[k].count(hs[k]) == hs.len() - k,
        states[k].live_groups() == states[0].live_groups(),
        forall|i: int| k <= i < hs.len() ==> #[trigger] states[k].holds(hs[i]),
    decreases k,
{
    if k > 0 {
        lemma_release_prefix(states, hs, k - 1);
        let a = states[k - 1];
        let b = states[k];
        assert(a.released(hs[k - 1], b));
        lemma_released_wf(a, hs[k - 1], b);
        lemma_release_reclaims(a, hs[k - 1], b);
        assert forall|i: int| k <= i < hs.len() implies #[trigger] b.holds(hs[i]) by {
            assert(a.holds(hs[i]));
            assert(hs[i] != hs[k - 1]);
            lemma_release_decrements(a, hs[k - 1], b, hs[i]);
        }
        assert(a.holds(hs[k]));
        assert(hs[k] != hs[k - 1]);
        assert(states[0].holds(hs[k]) && states[0].holds(hs[k - 1]));
        lemma_release_decrements(a, hs[k - 1], b, hs[k]);
    }
}

/// Releasing every handle of a payload, in any order, frees it: after the
/// last release its group is gone, and one payload fewer is allocated.
pub proof fn lemma_release_all<T>(states: Seq<RcModel<T>>, hs: Seq<HandleView>)
    requires
        states.len() == hs.len() + 1,
        hs.len() >= 1,
        states[0].wf(),
        hs.no_duplicates(),
        forall|i: int| #![trigger hs[i]] 0 <= i < hs.len() ==> states[0].holds(hs[i]) && hs[i].group == hs[0].group,
        states[0].count(hs[0]) == hs.len(),
        forall|i: int| #![trigger hs[i]] 0 <= i < hs.len() ==> states[i].released(hs[i], states[i + 1]),
    ensures
        !states.last().groups.contains_key(hs[0].group),
        states.last().live_groups() == states[0].live_groups() - 1,
{
    let n = hs.len() as int;
    lemma_release_prefix(states, hs, n - 1);
    assert(states[n - 1].released(hs[n - 1], states[n]));
    lemma_release_reclaims(states[n - 1], hs[n - 1], states[n]);
    assert(states[0].holds(hs[n - 1]));
}

} // verus!
