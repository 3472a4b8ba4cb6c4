//! Connection identities: a bounded pool of small integers, the lowest free
//! one handed out first. Identity 0 is never handed out.
use vstd::prelude::*;

verus! {

/// A 1024-bit set of the `bitmaps` crate, held opaque.
#[verifier::external_body]
pub struct SlotBits {
    bits: bitmaps::Bitmap<1024>,
}

/// The indices whose bits are set.
pub uninterp spec fn set_bits(b: SlotBits) -> Set<int>;

/// Relies on `Bitmap::new`: every bit is false.
#[verifier::external_body]
fn empty_bitmap() -> (r: SlotBits)
    ensures
        set_bits(r) == Set::<int>::empty(),
{
    SlotBits { bits: bitmaps::Bitmap::new() }
}

/// Relies on `Bitmap::set`: the bit at `index` takes `value`, the others
/// stay. An index past the end panics.
#[verifier::external_body]
fn set_bit(b: &mut SlotBits, index: usize, value: bool)
    requires
        index < 1024,
    ensures
        set_bits(*final(b)) == if value {
            set_bits(*old(b)).insert(index as int)
        } else {
            set_bits(*old(b)).remove(index as int)
        },
{
    b.bits.set(index, value);
}

/// Relies on `Bitmap::first_false_index`: the lowest index whose bit is
/// false, or `None` when all 1024 are set.
#[verifier::external_body]
fn first_false(b: &SlotBits) -> (r: Option<usize>)
    ensures
        match r {
            Some(i) => i < 1024 && !set_bits(*b).contains(i as int) && forall|j: int|
                0 <= j < i ==> #[trigger] set_bits(*b).contains(j),
            None => forall|j: int| 0 <= j < 1024 ==> #[trigger] set_bits(*b).contains(j),
        },
{
    b.bits.first_false_index()
}

/// The number of slots in the pool, the reserved slot 0 included.
pub const ID_SLOTS: usize = 1024;

/// How many identities can be live at once.
pub open spec fn capacity() -> int {
    ID_SLOTS - 1
}

/// The lowest identity at or above `i` that `used` does not hold.
pub open spec fn lowest_free_from(used: Set<int>, i: int) -> Option<int>
    decreases ID_SLOTS - i,
{
    if i < 0 || i >= ID_SLOTS {
        None
    } else if !used.contains(i) {
        Some(i)
    } else {
        lowest_free_from(used, i + 1)
    }
}

/// The identity that an allocation hands out when `used` are taken.
pub open spec fn lowest_free(used: Set<int>) -> Option<int> {
    lowest_free_from(used, 1)
}

proof fn lemma_lowest_free_skip(used: Set<int>, i: int, k: int)
    requires
        1 <= i <= k <= ID_SLOTS,
        forall|j: int| i <= j < k ==> #[trigger] used.contains(j),
    ensures
        lowest_free_from(used, i) == lowest_free_from(used, k),
    decreases k - i,
{
    if i < k {
        lemma_lowest_free_skip(used, i + 1, k);
    }
}

/// The pool of connection identities.
pub struct IdGen {
    id_slots: SlotBits,
}

impl IdGen {
    /// The identities in use, the reserved 0 among them.
    pub closed spec fn in_use(&self) -> Set<int> {
        set_bits(self.id_slots)
    }

    pub open spec fn wf(&self) -> bool {
        &&& self.in_use().contains(0)
        &&& forall|i: int| #[trigger] self.in_use().contains(i) ==> 0 <= i < ID_SLOTS
    }

    /// A pool with no identity handed out.
    pub fn new() -> (r: IdGen)
        ensures
            r.wf(),
            r.in_use() == set![0int],
    {
        let mut id_slots = empty_bitmap();
        set_bit(&mut id_slots, 0, true);
        let r = IdGen { id_slots };
        assert(r.in_use() =~= set![0int]);
        r
    }

    /// Hands out the lowest free identity, or `None` when all are taken.
    pub fn new_id(&mut self) -> (r: Option<u64>)
        requires
            old(self).wf(),
        ensures
            final(self).wf(),
            match lowest_free(old(self).in_use()) {
                Some(i) => r == Some(i as u64) && final(self).in_use() == old(self).in_use().insert(
                    i,
                ),
                None => r is None && final(self).in_use() == old(self).in_use(),
            },
    {
        let ghost used = self.in_use();
        match first_false(&self.id_slots) {
            None => {
                proof {
                    lemma_lowest_free_skip(used, 1, ID_SLOTS as int);
                }
                None
            },
            Some(i) => {
                proof {
                    assert(used.contains(0));
                    lemma_lowest_free_skip(used, 1, i as int);
                }
                set_bit(&mut self.id_slots, i, true);
                Some(i as u64)
            },
        }
    }

    /// Gives an identity back to the pool.
    pub fn recycle_id(&mut self, id: u64)
        requires
            old(self).wf(),
            old(self).in_use().contains(id as int),
            id != 0,
        ensures
            final(self).wf(),
            final(self).in_use() == old(self).in_use().remove(id as int),
    {
        set_bit(&mut self.id_slots, id as usize, false);
    }

    /// Whether `id` is handed out now.
    pub fn is_live(&self, id: u64) -> (r: bool)
        requires
            self.wf(),
        ensures
            r == (id != 0 && self.in_use().contains(id as int)),
    {
        if id == 0 || id >= 1024 {
            false
        } else {
            get_bit(&self.id_slots, id as usize)
        }
    }
}

/// Relies on `Bitmap::get`: the bit at `index`. An index past the end panics.
#[verifier::external_body]
fn get_bit(b: &SlotBits, index: usize) -> (r: bool)
    requires
        index < 1024,
    ensures
        r == set_bits(*b).contains(index as int),
{
    b.bits.get(index)
}

/// From a fresh pool, allocations hand out 1, 2, ... up to the capacity,
/// each distinct from those before; once the capacity is reached the next
/// allocation fails.
pub proof fn law_allocations_fill_the_pool(k: int)
    requires
        0 <= k <= capacity(),
    ensures
        k < capacity() ==> lowest_free(Set::new(|j: int| 0 <= j <= k)) == Some(k + 1),
        k < capacity() ==> Set::new(|j: int| 0 <= j <= k).insert(k + 1) == Set::new(
            |j: int| 0 <= j <= k + 1,
        ),
        !Set::new(|j: int| 0 <= j <= k).contains(k + 1),
        k == capacity() ==> lowest_free(Set::new(|j: int| 0 <= j <= k)) is None,
{
    let used = Set::new(|j: int| 0 <= j <= k);
    if k < capacity() {
        lemma_lowest_free_skip(used, 1, k + 1);
        assert(used.insert(k + 1) =~= Set::new(|j: int| 0 <= j <= k + 1));
    } else {
        lemma_lowest_free_skip(used, 1, ID_SLOTS as int);
    }
}

/// After any identity is given back, the next allocation succeeds, with an
/// identity no higher than the one given back.
pub proof fn law_release_then_allocate(used: Set<int>, id: int)
    requires
        used.contains(0),
        forall|i: int| #[trigger] used.contains(i) ==> 0 <= i < ID_SLOTS,
        used.contains(id),
        id != 0,
    ensures
        lowest_free(used.remove(id)) matches Some(j) && 1 <= j <= id,
{
    let freed = used.remove(id);
    lowest_free_at_most(freed, 1, id);
}

proof fn lowest_free_at_most(used: Set<int>, i: int, id: int)
    requires
        1 <= i <= id < ID_SLOTS,
        !used.contains(id),
    ensures
        lowest_free_from(used, i) matches Some(j) && i <= j <= id,
    decreases id - i,
{
    if used.contains(i) {
        lowest_free_at_most(used, i + 1, id);
    }
}

} // verus!
