//! A pool of recycled identifiers that hands out the smallest one it has.
use vstd::prelude::*;

verus! {

/// Types whose values can be stepped to the next one without wrapping.
pub trait CheckedIncr: Sized {
    /// The next value, or `None` at the largest one.
    fn checked_incr(&self) -> Option<Self>;
}

impl CheckedIncr for u16 {
    fn checked_incr(&self) -> (r: Option<u16>)
        ensures
            r == (if *self < u16::MAX { Some((*self + 1) as u16) } else { None::<u16> }),
    {
        self.checked_add(1)
    }
}

/// Whether `s` is sorted from largest to smallest.
pub open spec fn descending(s: Seq<u16>) -> bool {
    forall|i: int, j: int| 0 <= i < j < s.len() ==> s[i] >= s[j]
}

/// Whether `id` is still to be handed out fresh, with `next` the next fresh identifier.
pub open spec fn still_fresh(next: Option<u16>, id: u16) -> bool {
    next matches Some(n) && n <= id
}

/// A recycling pool of identifiers that gives returned identifiers back smallest first,
/// and fresh ones in increasing order once none are returned. Dense identifiers make
/// good indexes into vectors and arrays.
pub struct IdPool {
    next: Option<u16>,
    free_list: Vec<u16>,
}

impl Default for IdPool {
    fn default() -> (r: Self)
        ensures
            r.wf(),
            r.sound(),
            r.next_fresh() == Some(0u16),
            r.returned() == Seq::<u16>::empty(),
    {
        IdPool { next: Some(0), free_list: Vec::new() }
    }
}

impl IdPool {
    /// The pool's internal invariant: returned identifiers are kept largest first.
    pub closed spec fn wf(&self) -> bool {
        descending(self.free_list@)
    }

    /// The next fresh identifier, or `None` once every identifier has been handed out.
    pub closed spec fn next_fresh(&self) -> Option<u16> {
        self.next
    }

    /// The identifiers given back and not handed out again, largest first.
    pub closed spec fn returned(&self) -> Seq<u16> {
        self.free_list@
    }

    /// No identifier is held twice: each one given back is held once and is not still
    /// to be handed out fresh.
    pub open spec fn sound(&self) -> bool {
        &&& self.returned().no_duplicates()
        &&& forall|i: int| 0 <= i < self.returned().len() ==> !still_fresh(self.next_fresh(), #[trigger] self.returned()[i])
    }

    /// Hands out the smallest returned identifier, or else the next fresh one. Of a sound
    /// pool, the identifier handed out is then held nowhere in it, and the pool stays
    /// sound.
    pub fn get(&mut self) -> (r: Option<u16>)
        requires
            old(self).wf(),
        ensures
            final(self).wf(),
            old(self).sound() ==> final(self).sound(),
            old(self).sound() ==> (r matches Some(v) ==> !final(self).returned().contains(v) && !still_fresh(
                final(self).next_fresh(),
                v,
            )),
            old(self).returned().len() > 0 ==> r == Some(old(self).returned().last()) && final(
                self).returned() == old(self).returned().drop_last() && final(self).next_fresh()
                == old(self).next_fresh(),
            old(self).returned().len() > 0 ==> forall|i: int| 0 <= i < old(self).returned().len()
                ==> r->0 <= #[trigger] old(self).returned()[i],
            old(self).returned().len() == 0 ==> r == old(self).next_fresh() && final(self).returned()
                == old(self).returned() && final(self).next_fresh() == (match old(self).next_fresh() {
                Some(v) => if v < u16::MAX { Some((v + 1) as u16) } else { None::<u16> },
                None => None::<u16>,
            }),
    {
        let ghost before = self.free_list@;
        if let Some(id) = self.free_list.pop() {
            proof {
                assert(before.drop_last() == self.free_list@);
                if before.no_duplicates() {
                    assert forall|i: int| 0 <= i < self.free_list@.len() implies self.free_list@[i] != id by {
                        assert(before[i] == self.free_list@[i]);
                        assert(before[before.len() - 1] == id);
                    }
                }
            }
            return Some(id);
        }
        let id = self.next;
        self.next = match self.next {
            Some(v) => v.checked_incr(),
            None => None,
        };
        id
    }

    /// Gives an identifier back to the pool. An identifier handed out before and not
    /// given back since keeps a sound pool sound.
    pub fn put(&mut self, value: u16)
        requires
            old(self).wf(),
        ensures
            final(self).wf(),
            old(self).sound() && !old(self).returned().contains(value) && !still_fresh(old(self).next_fresh(), value)
                ==> final(self).sound(),
            final(self).next_fresh() == old(self).next_fresh(),
            final(self).returned().to_multiset() == old(self).returned().to_multiset().insert(value),
    {
        let ghost before = self.free_list@;
        let mut i: usize = 0;
        while i < self.free_list.len() && self.free_list[i] > value
            invariant
                i <= self.free_list@.len(),
                self.free_list@ == before,
                descending(before),
                forall|j: int| 0 <= j < i ==> #[trigger] before[j] > value,
            decreases before.len() - i,
        {
            i = i + 1;
        }
        self.free_list.insert(i, value);
        proof {
            let after = self.free_list@;
            assert(after == before.insert(i as int, value));
            if self.sound_before(before, value) {
                assert forall|a: int, b: int| 0 <= a < after.len() && 0 <= b < after.len() && a != b implies after[a]
                    != after[b] by {
                    if a != i && b != i {
                        let a0 = if a < i { a } else { a - 1 };
                        let b0 = if b < i { b } else { b - 1 };
                        assert(after[a] == before[a0]);
                        assert(after[b] == before[b0]);
                    } else if a == i {
                        let b0 = if b < i { b } else { b - 1 };
                        assert(after[b] == before[b0]);
                    } else {
                        let a0 = if a < i { a } else { a - 1 };
                        assert(after[a] == before[a0]);
                    }
                }
                assert forall|k: int| 0 <= k < after.len() implies !still_fresh(self.next, #[trigger] after[k]) by {
                    if k != i {
                        let k0 = if k < i { k } else { k - 1 };
                        assert(after[k] == before[k0]);
                    }
                }
            }
            vstd::seq_lib::to_multiset_insert(before, i as int, value);
        }
    }
}

impl IdPool {
    /// A sound pool's returned identifiers, and `value`, handed out and not given back.
    spec fn sound_before(&self, before: Seq<u16>, value: u16) -> bool {
        &&& before.no_duplicates()
        &&& forall|k: int| 0 <= k < before.len() ==> !still_fresh(self.next, #[trigger] before[k])
        &&& !before.contains(value)
        &&& !still_fresh(self.next, value)
    }
}

/// When every returned identifier was handed out before, the pool hands out the
/// smallest identifier it holds: no returned identifier, nor the next fresh one, is
/// smaller.
pub proof fn law_smallest_first(returned: Seq<u16>, next: Option<u16>)
    requires
        descending(returned),
        returned.len() > 0,
        next matches Some(n) ==> forall|i: int| 0 <= i < returned.len() ==> #[trigger] returned[i] < n,
    ensures
        forall|i: int| 0 <= i < returned.len() ==> returned.last() <= #[trigger] returned[i],
        next matches Some(n) ==> returned.last() < n,
{
}

} // verus!
