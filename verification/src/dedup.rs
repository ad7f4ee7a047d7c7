use vstd::prelude::*;

use crate::msg::MsgId;

verus! {

/// The ids of every message this node has already processed, as sender
/// or as first-time receiver.  The store only grows for the life of the
/// process; it is the flood-suppression point of the protocol.
pub struct DedupStore {
    seen: Vec<MsgId>,
}

impl View for DedupStore {
    type V = Set<MsgId>;

    closed spec fn view(&self) -> Set<MsgId> {
        Set::new(|x: MsgId| self.seen@.contains(x))
    }
}

impl DedupStore {
    /// An empty store: nothing has been seen yet.
    pub fn new() -> (s: DedupStore)
        ensures
            s@ == Set::<MsgId>::empty(),
    {
        let s = DedupStore { seen: Vec::new() };
        proof {
            assert(s@ =~= Set::<MsgId>::empty());
        }
        s
    }

    /// Record `id` as seen.  Returns true exactly when `id` was new to
    /// this node: the sole admission gate for "is this message new to
    /// me".
    pub fn mark_seen(&mut self, id: MsgId) -> (fresh: bool)
        ensures
            fresh == !old(self)@.contains(id),
            final(self)@ == old(self)@.insert(id),
    {
        let n = self.seen.len();
        let mut i: usize = 0;
        while i < n
            invariant
                i <= n,
                n == self.seen.len(),
                self == old(self),
                forall|j: int| 0 <= j < i ==> self.seen@[j] != id,
            decreases n - i,
        {
            if self.seen[i] == id {
                proof {
                    assert(self.seen@[i as int] == id);
                    assert(old(self)@.contains(id));
                    assert(self@ =~= old(self)@.insert(id));
                }
                return false;
            }
            i += 1;
        }
        proof {
            assert(!old(self)@.contains(id));
        }
        self.seen.push(id);
        proof {
            assert forall|x: MsgId| #[trigger] self@.contains(x) implies old(self)@.insert(
                id,
            ).contains(x) by {
                let j = choose|j: int| 0 <= j < self.seen@.len() && self.seen@[j] == x;
                if j < self.seen@.len() - 1 {
                    assert(old(self).seen@[j] == x);
                }
            }
            assert forall|x: MsgId| old(self)@.insert(id).contains(x) implies #[trigger] self@.contains(
                x,
            ) by {
                if x == id {
                    assert(self.seen@[self.seen@.len() - 1] == x);
                } else {
                    let j = choose|j: int| 0 <= j < old(self).seen@.len() && old(self).seen@[j]
                        == x;
                    assert(self.seen@[j] == x);
                }
            }
            assert(self@ =~= old(self)@.insert(id));
        }
        return true;
    }
}

/// The dedup gate admits each id at most once.  The requires clauses are
/// two successive `mark_seen(id)` calls as their contract describes them:
/// the first call on a store without `id` answers true, the second call
/// always answers false and leaves the store as it was.
pub proof fn lemma_mark_seen_gate(
    s0: Set<MsgId>,
    fresh1: bool,
    s1: Set<MsgId>,
    fresh2: bool,
    s2: Set<MsgId>,
    id: MsgId,
)
    requires
        fresh1 == !s0.contains(id),
        s1 == s0.insert(id),
        fresh2 == !s1.contains(id),
        s2 == s1.insert(id),
    ensures
        !s0.contains(id) ==> fresh1,
        !fresh2,
        s2 == s1,
{
    assert(s1.insert(id) =~= s1);
}

} // verus!
