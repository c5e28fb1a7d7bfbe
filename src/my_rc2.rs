//! Shared handles whose payload and strong count live in two independent
//! cells: a handle holds a locator for each, and releasing the last handle
//! reclaims both cells.

use crate::model::{Group, HandleView, RcModel};
use std::marker::PhantomData;
use vstd::prelude::*;

verus! {

/// The storage of shared payloads: a pool of payload cells and a pool of
/// count cells, each with the list of its vacant cells.
pub struct RcArena<T> {
    values: Vec<Option<T>>,
    counts: Vec<Option<usize>>,
    free_values: Vec<usize>,
    free_counts: Vec<usize>,
    live: usize,
    /// For each occupied count cell, the payload cell it belongs to.
    payload_of: Ghost<Map<nat, nat>>,
    model: Ghost<RcModel<T>>,
}

/// One reference to a payload of an [`RcArena`]: the locators of its
/// payload cell and of its count cell.
pub struct MyRc2<T> {
    value: usize,
    count: usize,
    id: Ghost<nat>,
    marker: PhantomData<T>,
}

impl<T> View for MyRc2<T> {
    type V = HandleView;

    /// A handle's group is its count cell.
    closed spec fn view(&self) -> HandleView {
        HandleView { group: self.count as nat, id: self.id@ }
    }
}

impl<T> View for RcArena<T> {
    type V = RcModel<T>;

    closed spec fn view(&self) -> RcModel<T> {
        self.model@
    }
}

impl<T> RcArena<T> {
    /// Count cell `s` is occupied exactly when group `s` is live, and then
    /// holds the group's number of handles; a vacant one is listed as free.
    closed spec fn count_agrees(&self, s: int) -> bool {
        let m = self.model@;
        match self.counts@[s] {
            Some(c) => m.groups.contains_key(s as nat) && c as nat == m.groups[s as nat].holders.len(),
            None => !m.groups.contains_key(s as nat) && self.free_counts@.contains(s as usize),
        }
    }

    /// A vacant payload cell is listed as free.
    closed spec fn value_agrees(&self, s: int) -> bool {
        self.values@[s] is None ==> self.free_values@.contains(s as usize)
    }

    /// Live group `g` owns a payload cell that holds its payload.
    closed spec fn group_agrees(&self, g: nat) -> bool {
        let p = self.payload_of@[g];
        &&& self.payload_of@.contains_key(g)
        &&& p < self.values@.len()
        &&& self.values@[p as int] == Some(self.model@.groups[g].value)
    }

    /// The arena's invariant.
    pub closed spec fn wf(&self) -> bool {
        let m = self.model@;
        &&& m.wf()
        &&& self.live as nat == m.live_groups()
        &&& self.payload_of@.dom() == m.groups.dom()
        &&& forall|g: nat| #[trigger] m.groups.contains_key(g) ==> g < self.counts@.len() && self.group_agrees(g)
        &&& forall|g1: nat, g2: nat|
            #[trigger] m.groups.contains_key(g1) && #[trigger] m.groups.contains_key(g2) && g1 != g2
                ==> self.payload_of@[g1] != self.payload_of@[g2]
        &&& forall|s: int| 0 <= s < self.counts@.len() ==> #[trigger] self.count_agrees(s)
        &&& forall|s: int| 0 <= s < self.values@.len() ==> #[trigger] self.value_agrees(s)
        &&& self.free_counts@.no_duplicates()
        &&& self.free_values@.no_duplicates()
        &&& forall|k: int|
            0 <= k < self.free_counts@.len() ==> {
                &&& #[trigger] self.free_counts@[k] < self.counts@.len()
                &&& self.counts@[self.free_counts@[k] as int] is None
            }
        &&& forall|k: int|
            0 <= k < self.free_values@.len() ==> {
                &&& #[trigger] self.free_values@[k] < self.values@.len()
                &&& self.values@[self.free_values@[k] as int] is None
            }
    }

    /// `h` is a live handle of this arena: live in the model, and pointing
    /// at its group's payload cell.
    pub closed spec fn holds(&self, h: MyRc2<T>) -> bool {
        &&& self@.holds(h@)
        &&& self.payload_of@[h.count as nat] == h.value as nat
    }

    /// What the invariant gives a caller: the model is well formed.
    pub proof fn lemma_model_wf(&self)
        requires
            self.wf(),
        ensures
            self@.wf(),
    {
    }

    /// A live handle of the arena is live in its model.
    pub proof fn lemma_holds(&self, h: MyRc2<T>)
        requires
            self.holds(h),
        ensures
            self@.holds(h@),
    {
    }

    /// An empty arena.
    pub fn new() -> (r: Self)
        ensures
            r.wf(),
            r@.groups.is_empty(),
            r@.next_id == 0,
    {
        let r = RcArena {
            values: Vec::new(),
            counts: Vec::new(),
            free_values: Vec::new(),
            free_counts: Vec::new(),
            live: 0,
            payload_of: Ghost(Map::empty()),
            model: Ghost(RcModel { groups: Map::empty(), next_id: 0 }),
        };
        proof {
            assert(r.model@.groups.dom() =~= Set::empty());
            assert(r.payload_of@.dom() =~= Set::empty());
        }
        r
    }

    /// The number of payloads whose storage is still allocated.
    pub fn live_blocks(&self) -> (r: usize)
        requires
            self.wf(),
        ensures
            r as nat == self@.live_groups(),
    {
        self.live
    }
}

/// Taking the last entry of a list of free cells without duplicates leaves
/// a list without duplicates that lacks that entry and keeps the others.
proof fn lemma_take_free(pre: Seq<usize>, post: Seq<usize>)
    requires
        pre.len() > 0,
        pre.no_duplicates(),
        post == pre.drop_last(),
    ensures
        post.no_duplicates(),
        !post.contains(pre.last()),
        forall|x: usize| pre.contains(x) && x != pre.last() ==> #[trigger] post.contains(x),
{
    assert forall|x: usize| pre.contains(x) && x != pre.last() implies #[trigger] post.contains(x) by {
        let k = choose|k: int| 0 <= k < pre.len() && pre[k] == x;
        assert(post[k] == x);
    }
    assert forall|j: int| 0 <= j < post.len() implies post[j] != pre.last() by {
        assert(pre[j] == post[j]);
    }
}

/// Adding an entry that a list of free cells lacks keeps it free of
/// duplicates.
proof fn lemma_give_free(pre: Seq<usize>, x: usize)
    requires
        pre.no_duplicates(),
        !pre.contains(x),
    ensures
        pre.push(x).no_duplicates(),
        pre.push(x).contains(x),
        forall|y: usize| pre.contains(y) ==> #[trigger] pre.push(x).contains(y),
{
    assert(pre.push(x)[pre.len() as int] == x);
    assert forall|y: usize| pre.contains(y) implies #[trigger] pre.push(x).contains(y) by {
        let k = choose|k: int| 0 <= k < pre.len() && pre[k] == y;
        assert(pre.push(x)[k] == y);
    }
}

impl<T> MyRc2<T> {
    /// Puts `value` in a fresh payload cell, beside a fresh count cell set
    /// to 1, and returns the only handle. Vacant cells are reused before a
    /// pool grows.
    pub fn new(value: T, arena: &mut RcArena<T>) -> (h: Self)
        requires
            old(arena).wf(),
            old(arena)@.live_groups() < usize::MAX,
        ensures
            final(arena).wf(),
            old(arena)@.created(value, final(arena)@, h@),
            final(arena).holds(h),
            forall|g: MyRc2<T>| #[trigger] old(arena).holds(g) ==> final(arena).holds(g),
            final(arena)@.live_groups() == old(arena)@.live_groups() + 1,
    {
        let ghost v = value;
        let ghost pre = arena.model@;
        let ghost id = pre.next_id;
        let c: usize = match arena.free_counts.pop() {
            Some(s) => {
                arena.counts.set(s, Some(1));
                s
            },
            None => {
                let s = arena.counts.len();
                arena.counts.push(Some(1));
                s
            },
        };
        let p: usize = match arena.free_values.pop() {
            Some(s) => {
                arena.values.set(s, Some(value));
                s
            },
            None => {
                let s = arena.values.len();
                arena.values.push(Some(value));
                s
            },
        };
        arena.live = arena.live + 1;
        let ghost groups = pre.groups.insert(c as nat, Group { value: v, holders: set![id] });
        arena.model = Ghost(RcModel { groups, next_id: id + 1 });
        arena.payload_of = Ghost(arena.payload_of@.insert(c as nat, p as nat));
        proof {
            assert(arena.counts.len() == arena.counts@.len());
            assert(arena.values.len() == arena.values@.len());
            let fc = old(arena).free_counts@;
            let fv = old(arena).free_values@;
            if fc.len() > 0 {
                lemma_take_free(fc, arena.free_counts@);
                assert(c == fc.last());
            }
            if fv.len() > 0 {
                lemma_take_free(fv, arena.free_values@);
                assert(p == fv.last());
            }
            assert(!pre.groups.contains_key(c as nat)) by {
                if c < old(arena).counts@.len() {
                    assert(old(arena).count_agrees(c as int));
                }
            }
            assert forall|g: nat| #[trigger] pre.groups.contains_key(g) implies old(arena).payload_of@[g] != p by {
                assert(old(arena).group_agrees(g));
                if p < old(arena).values@.len() {
                    assert(old(arena).values@[p as int] is None);
                }
            }
            assert(set![id].len() == 1);
            assert(arena.payload_of@.dom() =~= groups.dom());
            assert forall|g: nat| #[trigger] groups.contains_key(g) implies g < arena.counts@.len() && arena.group_agrees(g) by {
                if g != c {
                    assert(old(arena).group_agrees(g));
                }
            }
            assert forall|s: int| 0 <= s < arena.counts@.len() implies #[trigger] arena.count_agrees(s) by {
                if s != c {
                    assert(old(arena).count_agrees(s));
                    if old(arena).counts@[s] is None {
                        assert(old(arena).free_counts@.contains(s as usize));
                        assert(arena.free_counts@.contains(s as usize));
                    }
                }
            }
            assert forall|s: int| 0 <= s < arena.values@.len() implies #[trigger] arena.value_agrees(s) by {
                if s != p {
                    assert(old(arena).value_agrees(s));
                    if old(arena).values@[s] is None {
                        assert(old(arena).free_values@.contains(s as usize));
                        assert(arena.free_values@.contains(s as usize));
                    }
                }
            }
            assert forall|k: int| 0 <= k < arena.free_counts@.len() implies {
                &&& #[trigger] arena.free_counts@[k] < arena.counts@.len()
                &&& arena.counts@[arena.free_counts@[k] as int] is None
            } by {
                assert(old(arena).free_counts@[k] == arena.free_counts@[k]);
            }
            assert forall|k: int| 0 <= k < arena.free_values@.len() implies {
                &&& #[trigger] arena.free_values@[k] < arena.values@.len()
                &&& arena.values@[arena.free_values@[k] as int] is None
            } by {
                assert(old(arena).free_values@[k] == arena.free_values@[k]);
            }
        }
        MyRc2 { value: p, count: c, id: Ghost(id), marker: PhantomData }
    }

    /// The number of live handles of this handle's payload.
    pub fn strong_count(&self, arena: &RcArena<T>) -> (r: usize)
        requires
            arena.wf(),
            arena.holds(*self),
        ensures
            r as nat == arena@.count(self@),
    {
        proof {
            assert(arena.count_agrees(self.count as int));
        }
        *arena.counts[self.count].as_ref().unwrap()
    }

    /// A shared view of the payload this handle refers to.
    pub fn deref<'a>(&self, arena: &'a RcArena<T>) -> (r: &'a T)
        requires
            arena.wf(),
            arena.holds(*self),
        ensures
            *r == arena@.value(self@),
    {
        proof {
            assert(arena.group_agrees(self.count as nat));
        }
        arena.values[self.value].as_ref().unwrap()
    }

    /// A new handle to the same payload; the shared count grows by one.
    pub fn clone(&self, arena: &mut RcArena<T>) -> (r: Self)
        requires
            old(arena).wf(),
            old(arena).holds(*self),
            old(arena)@.count(self@) < usize::MAX,
        ensures
            final(arena).wf(),
            old(arena)@.cloned(self@, final(arena)@, r@),
            final(arena).holds(r),
            forall|g: MyRc2<T>| #[trigger] old(arena).holds(g) ==> final(arena).holds(g),
            final(arena)@.live_groups() == old(arena)@.live_groups(),
    {
        let ghost pre = arena.model@;
        let ghost id = pre.next_id;
        let c = self.count;
        proof {
            assert(arena.count_agrees(c as int));
        }
        let n: usize = *arena.counts[c].as_ref().unwrap();
        arena.counts.set(c, Some(n + 1));
        let ghost g = pre.groups[c as nat];
        let ghost groups = pre.groups.insert(c as nat, Group { value: g.value, holders: g.holders.insert(id) });
        arena.model = Ghost(RcModel { groups, next_id: id + 1 });
        proof {
            assert(!g.holders.contains(id));
            assert(groups.dom() =~= pre.groups.dom());
            assert forall|x: nat| #[trigger] groups.contains_key(x) implies x < arena.counts@.len() && arena.group_agrees(x) by {
                assert(old(arena).group_agrees(x));
            }
            assert forall|s: int| 0 <= s < arena.counts@.len() implies #[trigger] arena.count_agrees(s) by {
                assert(old(arena).count_agrees(s));
            }
            assert forall|s: int| 0 <= s < arena.values@.len() implies #[trigger] arena.value_agrees(s) by {
                assert(old(arena).value_agrees(s));
            }
        }
        MyRc2 { value: self.value, count: c, id: Ghost(id), marker: PhantomData }
    }

    /// Gives up this handle. The shared count drops by one; when this was
    /// the last handle, both the payload cell and the count cell are
    /// reclaimed and become vacant.
    pub fn release(self, arena: &mut RcArena<T>)
        requires
            old(arena).wf(),
            old(arena).holds(self),
        ensures
            final(arena).wf(),
            old(arena)@.released(self@, final(arena)@),
            forall|g: MyRc2<T>| #[trigger] old(arena).holds(g) && g@ != self@ ==> final(arena).holds(g),
            final(arena)@.live_groups() == if old(arena)@.count(self@) == 1 {
                old(arena)@.live_groups() - 1
            } else {
                old(arena)@.live_groups() as int
            },
    {
        let ghost pre = arena.model@;
        let c = self.count;
        let p = self.value;
        proof {
            assert(arena.count_agrees(c as int));
            assert(arena.group_agrees(c as nat));
            assert(arena.counts.len() == arena.counts@.len());
            assert(arena.values.len() == arena.values@.len());
        }
        let n: usize = *arena.counts[c].as_ref().unwrap();
        let ghost g = pre.groups[c as nat];
        if n == 1 {
            arena.counts.set(c, None);
            arena.free_counts.push(c);
            arena.values.set(p, None);
            arena.free_values.push(p);
            arena.live = arena.live - 1;
            arena.model = Ghost(RcModel { groups: pre.groups.remove(c as nat), next_id: pre.next_id });
            arena.payload_of = Ghost(arena.payload_of@.remove(c as nat));
            proof {
                let fc = old(arena).free_counts@;
                let fv = old(arena).free_values@;
                assert(!fc.contains(c)) by {
                    if fc.contains(c) {
                        let k = choose|k: int| 0 <= k < fc.len() && fc[k] == c;
                        assert(old(arena).free_counts@[k] < old(arena).counts@.len());
                    }
                }
                assert(!fv.contains(p)) by {
                    if fv.contains(p) {
                        let k = choose|k: int| 0 <= k < fv.len() && fv[k] == p;
                        assert(old(arena).free_values@[k] < old(arena).values@.len());
                    }
                }
                lemma_give_free(fc, c);
                lemma_give_free(fv, p);
                assert(arena.payload_of@.dom() =~= pre.groups.remove(c as nat).dom());
                assert forall|x: nat| #[trigger] arena.model@.groups.contains_key(x) implies x < arena.counts@.len()
                    && arena.group_agrees(x) by {
                    assert(old(arena).group_agrees(x));
                    assert(old(arena).payload_of@[x] != p);
                }
                assert forall|s: int| 0 <= s < arena.counts@.len() implies #[trigger] arena.count_agrees(s) by {
                    assert(old(arena).count_agrees(s));
                    if s != c && old(arena).counts@[s] is None {
                        assert(fc.contains(s as usize));
                    }
                }
                assert forall|s: int| 0 <= s < arena.values@.len() implies #[trigger] arena.value_agrees(s) by {
                    assert(old(arena).value_agrees(s));
                    if s != p && old(arena).values@[s] is None {
                        assert(fv.contains(s as usize));
                    }
                }
                assert forall|k: int| 0 <= k < arena.free_counts@.len() implies {
                    &&& #[trigger] arena.free_counts@[k] < arena.counts@.len()
                    &&& arena.counts@[arena.free_counts@[k] as int] is None
                } by {
                    if k < fc.len() {
                        assert(fc[k] == arena.free_counts@[k]);
                    }
                }
                assert forall|k: int| 0 <= k < arena.free_values@.len() implies {
                    &&& #[trigger] arena.free_values@[k] < arena.values@.len()
                    &&& arena.values@[arena.free_values@[k] as int] is None
                } by {
                    if k < fv.len() {
                        assert(fv[k] == arena.free_values@[k]);
                    }
                }
                assert forall|h: MyRc2<T>| #[trigger] old(arena).holds(h) && h@ != self@ implies arena.holds(h) by {
                    if h.count == c {
                        assert(g.holders.remove(self.id@).len() == 0);
                        assert(g.holders.remove(self.id@).contains(h.id@));
                    }
                }
            }
        } else {
            arena.counts.set(c, Some(n - 1));
            let ghost groups = pre.groups.insert(
                c as nat,
                Group { value: g.value, holders: g.holders.remove(self.id@) },
            );
            arena.model = Ghost(RcModel { groups, next_id: pre.next_id });
            proof {
                assert(groups.dom() =~= pre.groups.dom());
                assert forall|x: nat| #[trigger] groups.contains_key(x) implies x < arena.counts@.len()
                    && arena.group_agrees(x) by {
                    assert(old(arena).group_agrees(x));
                }
                assert forall|s: int| 0 <= s < arena.counts@.len() implies #[trigger] arena.count_agrees(s) by {
                    assert(old(arena).count_agrees(s));
                }
                assert forall|s: int| 0 <= s < arena.values@.len() implies #[trigger] arena.value_agrees(s) by {
                    assert(old(arena).value_agrees(s));
                }
            }
        }
    }

}

} // verus!
