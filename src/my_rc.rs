//! Shared handles whose payload and strong count sit together in one control
//! block: releasing the last handle frees the block in one step.

use crate::model::{Group, HandleView, RcModel};
use std::marker::PhantomData;
use vstd::prelude::*;

verus! {

/// A payload and its strong count, allocated together.
struct ControlBlock<T> {
    value: T,
    count: usize,
}

/// The storage of shared payloads: one control block per occupied slot, and
/// the list of vacant slots that the next payloads reuse.
pub struct RcArena<T> {
    blocks: Vec<Option<ControlBlock<T>>>,
    free: Vec<usize>,
    live: usize,
    model: Ghost<RcModel<T>>,
}

/// One reference to a payload of an [`RcArena`].
pub struct MyRc2<T> {
    slot: usize,
    id: Ghost<nat>,
    marker: PhantomData<T>,
}

impl<T> View for MyRc2<T> {
    type V = HandleView;

    closed spec fn view(&self) -> HandleView {
        HandleView { group: self.slot as nat, id: self.id@ }
    }
}

impl<T> View for RcArena<T> {
    type V = RcModel<T>;

    closed spec fn view(&self) -> RcModel<T> {
        self.model@
    }
}

impl<T> RcArena<T> {
    /// Slot `s` holds a block exactly when the model has group `s`, and
    /// that block carries the group's payload and its number of handles.
    closed spec fn slot_agrees(&self, s: int) -> bool {
        let m = self.model@;
        match self.blocks@[s] {
            Some(b) => {
                &&& m.groups.contains_key(s as nat)
                &&& b.value == m.groups[s as nat].value
                &&& b.count as nat == m.groups[s as nat].holders.len()
            },
            None => !m.groups.contains_key(s as nat) && self.free@.contains(s as usize),
        }
    }

    /// The arena's invariant.
    pub closed spec fn wf(&self) -> bool {
        let m = self.model@;
        &&& m.wf()
        &&& self.live as nat == m.live_groups()
        &&& forall|g: nat| #[trigger] m.groups.contains_key(g) ==> g < self.blocks@.len()
        &&& forall|s: int| 0 <= s < self.blocks@.len() ==> #[trigger] self.slot_agrees(s)
        &&& self.free@.no_duplicates()
        &&& forall|k: int|
            0 <= k < self.free@.len() ==> {
                &&& #[trigger] self.free@[k] < self.blocks@.len()
                &&& self.blocks@[self.free@[k] as int] is None
            }
    }

    /// What the invariant gives a caller: the model is well formed.
    pub proof fn lemma_model_wf(&self)
        requires
            self.wf(),
        ensures
            self@.wf(),
    {
    }

    /// An empty arena.
    pub fn new() -> (r: Self)
        ensures
            r.wf(),
            r@.groups.is_empty(),
            r@.next_id == 0,
    {
        let r = RcArena {
            blocks: Vec::new(),
            free: Vec::new(),
            live: 0,
            model: Ghost(RcModel { groups: Map::empty(), next_id: 0 }),
        };
        proof {
            assert(r.model@.groups.dom() =~= Set::empty());
        }
        r
    }

    /// The number of payloads whose storage is still allocated.
    pub fn live_blocks(&self) -> (r: usize)
        requires
            self.wf(),
        ensures
            r as nat == self@.live_groups(),
    {
        self.live
    }
}

impl<T> MyRc2<T> {
    /// Puts `value` in a fresh control block with a strong count of 1 and
    /// returns its only handle. A vacant slot is reused before the arena grows.
    pub fn new(value: T, arena: &mut RcArena<T>) -> (h: Self)
        requires
            old(arena).wf(),
            old(arena)@.live_groups() < usize::MAX,
        ensures
            final(arena).wf(),
            old(arena)@.created(value, final(arena)@, h@),
            final(arena)@.live_groups() == old(arena)@.live_groups() + 1,
    {
        let ghost v = value;
        let ghost pre = arena.model@;
        let ghost id = pre.next_id;
        let block = ControlBlock { value, count: 1 };
        let slot: usize;
        match arena.free.pop() {
            Some(s) => {
                proof {
                    let k = arena.free@.len() as int;
                    assert(old(arena).free@[k] == s);
                    assert forall|j: int| 0 <= j < k implies arena.free@[j] != s by {
                        assert(old(arena).free@[j] == arena.free@[j]);
                    }
                }
                arena.blocks.set(s, Some(block));
                slot = s;
            },
            None => {
                slot = arena.blocks.len();
                arena.blocks.push(Some(block));
            },
        }
        arena.live = arena.live + 1;
        let ghost groups = pre.groups.insert(slot as nat, Group { value: v, holders: set![id] });
        arena.model = Ghost(RcModel { groups, next_id: id + 1 });
        proof {
            assert(!pre.groups.contains_key(slot as nat)) by {
                if slot < old(arena).blocks@.len() {
                    assert(old(arena).slot_agrees(slot as int));
                }
            }
            assert(set![id].len() == 1);
            assert forall|s: int| 0 <= s < arena.blocks@.len() implies #[trigger] arena.slot_agrees(s) by {
                if s != slot {
                    assert(old(arena).slot_agrees(s));
                    if old(arena).blocks@[s] is None {
                        assert(arena.free@.contains(s as usize)) by {
                            let k = choose|k: int| 0 <= k < old(arena).free@.len() && old(arena).free@[k] == s as usize;
                            assert(arena.free@[k] == s as usize);
                        }
                    }
                }
            }
        }
        MyRc2 { slot, id: Ghost(id), marker: PhantomData }
    }

    /// The number of live handles of this handle's payload.
    pub fn strong_count(&self, arena: &RcArena<T>) -> (r: usize)
        requires
            arena.wf(),
            arena@.holds(self@),
        ensures
            r as nat == arena@.count(self@),
    {
        proof {
            assert(arena.slot_agrees(self.slot as int));
        }
        arena.blocks[self.slot].as_ref().unwrap().count
    }

    /// A shared view of the payload this handle refers to.
    pub fn deref<'a>(&self, arena: &'a RcArena<T>) -> (r: &'a T)
        requires
            arena.wf(),
            arena@.holds(self@),
        ensures
            *r == arena@.value(self@),
    {
        proof {
            assert(arena.slot_agrees(self.slot as int));
        }
        &arena.blocks[self.slot].as_ref().unwrap().value
    }

    /// A new handle to the same payload; the shared count grows by one.
    pub fn clone(&self, arena: &mut RcArena<T>) -> (r: Self)
        requires
            old(arena).wf(),
            old(arena)@.holds(self@),
            old(arena)@.count(self@) < usize::MAX,
        ensures
            final(arena).wf(),
            old(arena)@.cloned(self@, final(arena)@, r@),
            final(arena)@.live_groups() == old(arena)@.live_groups(),
    {
        let ghost pre = arena.model@;
        let ghost id = pre.next_id;
        let slot = self.slot;
        proof {
            assert(arena.slot_agrees(slot as int));
        }
        match &mut arena.blocks[slot] {
            Some(b) => {
                b.count = b.count + 1;
            },
            None => {},
        }
        let ghost g = pre.groups[slot as nat];
        let ghost groups = pre.groups.insert(
            slot as nat,
            Group { value: g.value, holders: g.holders.insert(id) },
        );
        arena.model = Ghost(RcModel { groups, next_id: id + 1 });
        proof {
            assert(!g.holders.contains(id));
            assert(groups.dom() =~= pre.groups.dom());
            assert forall|s: int| 0 <= s < arena.blocks@.len() implies #[trigger] arena.slot_agrees(s) by {
                assert(old(arena).slot_agrees(s));
            }
        }
        MyRc2 { slot, id: Ghost(id), marker: PhantomData }
    }

    /// Gives up this handle. The shared count drops by one; when this was
    /// the last handle, the control block is freed and its slot becomes
    /// vacant.
    pub fn release(self, arena: &mut RcArena<T>)
        requires
            old(arena).wf(),
            old(arena)@.holds(self@),
        ensures
            final(arena).wf(),
            old(arena)@.released(self@, final(arena)@),
            final(arena)@.live_groups() == if old(arena)@.count(self@) == 1 {
                old(arena)@.live_groups() - 1
            } else {
                old(arena)@.live_groups() as int
            },
    {
        let ghost pre = arena.model@;
        let slot = self.slot;
        proof {
            assert(arena.slot_agrees(slot as int));
        }
        let c: usize = arena.blocks[slot].as_ref().unwrap().count;
        let ghost g = pre.groups[slot as nat];
        if c == 1 {
            arena.blocks.set(slot, None);
            arena.free.push(slot);
            arena.live = arena.live - 1;
            arena.model = Ghost(RcModel { groups: pre.groups.remove(slot as nat), next_id: pre.next_id });
            proof {
                assert(!old(arena).free@.contains(slot)) by {
                    if old(arena).free@.contains(slot) {
                        let k = choose|k: int| 0 <= k < old(arena).free@.len() && old(arena).free@[k] == slot;
                        assert(old(arena).free@[k] < old(arena).blocks@.len());
                    }
                }
                assert forall|k: int| 0 <= k < arena.free@.len() implies {
                    &&& #[trigger] arena.free@[k] < arena.blocks@.len()
                    &&& arena.blocks@[arena.free@[k] as int] is None
                } by {
                    if k < old(arena).free@.len() {
                        assert(old(arena).free@[k] == arena.free@[k]);
                    }
                }
                assert forall|s: int| 0 <= s < arena.blocks@.len() implies #[trigger] arena.slot_agrees(s) by {
                    assert(old(arena).slot_agrees(s));
                    if s != slot && old(arena).blocks@[s] is None {
                        let k = choose|k: int| 0 <= k < old(arena).free@.len() && old(arena).free@[k] == s as usize;
                        assert(arena.free@[k] == s as usize);
                    }
                    if s == slot {
                        assert(arena.free@[arena.free@.len() - 1] == slot);
                    }
                }
            }
        } else {
            match &mut arena.blocks[slot] {
                Some(b) => {
                    b.count = c - 1;
                },
                None => {},
            }
            let ghost groups = pre.groups.insert(
                slot as nat,
                Group { value: g.value, holders: g.holders.remove(self.id@) },
            );
            arena.model = Ghost(RcModel { groups, next_id: pre.next_id });
            proof {
                assert(groups.dom() =~= pre.groups.dom());
                assert forall|s: int| 0 <= s < arena.blocks@.len() implies #[trigger] arena.slot_agrees(s) by {
                    assert(old(arena).slot_agrees(s));
                }
            }
        }
    }
}

} // verus!
