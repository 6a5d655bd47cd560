//! A bucket: a fixed group of four fingerprint slots.
//!
//! A slot holding 0 is empty; a stored fingerprint is a byte in 1..=255.
//! Slots carry no ordering semantics; operations act on the first slot
//! that matches, in storage order.

use vstd::prelude::*;

verus! {

/// Number of fingerprint slots in each bucket.
pub const BUCKET_SIZE: usize = 4;

/// A fixed-capacity container of four fingerprint bytes.
#[derive(Copy, Clone)]
pub struct Bucket {
    data: [u8; BUCKET_SIZE],
}

impl View for Bucket {
    type V = Seq<u8>;

    closed spec fn view(&self) -> Seq<u8> {
        self.data@
    }
}

/// Number of occupied (non-zero) slots of a four-slot bucket.
pub open spec fn occupied_slots(s: Seq<u8>) -> int
    recommends
        s.len() == 4,
{
    (if s[0] == 0 {
        0int
    } else {
        1int
    }) + (if s[1] == 0 {
        0int
    } else {
        1int
    }) + (if s[2] == 0 {
        0int
    } else {
        1int
    }) + (if s[3] == 0 {
        0int
    } else {
        1int
    })
}

impl Default for Bucket {
    /// Same as `Bucket::new`: all four slots empty.
    fn default() -> (b: Bucket)
        ensures
            b@.len() == 4,
            forall|i: int| 0 <= i < 4 ==> b@[i] == 0u8,
    {
        Bucket::new()
    }
}

impl Bucket {
    /// A fresh bucket with all four slots empty.
    pub fn new() -> (b: Bucket)
        ensures
            b@.len() == 4,
            forall|i: int| 0 <= i < 4 ==> b@[i] == 0u8,
    {
        Bucket { data: [0u8; BUCKET_SIZE] }
    }

    /// Stores `finger` in the first empty slot, if any; reports whether
    /// a slot was found. On failure the bucket is unchanged.
    pub fn insert(&mut self, finger: u8) -> (r: bool)
        requires
            finger != 0,
        ensures
            r == old(self)@.contains(0u8),
            r ==> exists|i: int|
                0 <= i < 4 && old(self)@[i] == 0 && (forall|j: int|
                    0 <= j < i ==> old(self)@[j] != 0) && final(self)@ == old(self)@.update(
                    i,
                    finger,
                ),
            !r ==> final(self)@ == old(self)@,
    {
        for idx in 0..BUCKET_SIZE
            invariant
                finger != 0,
                self@ == old(self)@,
                forall|j: int| 0 <= j < idx ==> self@[j] != 0,
        {
            if self.data[idx] == 0 {
                self.data[idx] = finger;
                proof {
                    assert(self@ =~= old(self)@.update(idx as int, finger));
                }
                return true;
            }
        }
        false
    }

    /// Clears the first slot holding `finger`, if any; reports whether
    /// a match was found. Only one occurrence is removed.
    pub fn delete(&mut self, finger: u8) -> (r: bool)
        ensures
            r == old(self)@.contains(finger),
            r ==> exists|i: int|
                0 <= i < 4 && old(self)@[i] == finger && (forall|j: int|
                    0 <= j < i ==> old(self)@[j] != finger) && final(self)@ == old(self)@.update(
                    i,
                    0u8,
                ),
            !r ==> final(self)@ == old(self)@,
    {
        for idx in 0..BUCKET_SIZE
            invariant
                self@ == old(self)@,
                forall|j: int| 0 <= j < idx ==> self@[j] != finger,
        {
            if self.data[idx] == finger {
                self.data[idx] = 0;
                proof {
                    assert(self@ =~= old(self)@.update(idx as int, 0u8));
                }
                return true;
            }
        }
        false
    }

    /// Position of the first slot holding `finger`, if any.
    pub fn get_fingerprint_index(self, finger: u8) -> (r: Option<usize>)
        ensures
            match r {
                Some(i) => 0 <= i < 4 && self@[i as int] == finger && (forall|j: int|
                    0 <= j < i ==> self@[j] != finger),
                None => !self@.contains(finger),
            },
            r is Some == self@.contains(finger),
    {
        for idx in 0..BUCKET_SIZE
            invariant
                forall|j: int| 0 <= j < idx ==> self@[j] != finger,
        {
            if self.data[idx] == finger {
                return Some(idx);
            }
        }
        None
    }

    /// Empties every slot.
    pub fn reset(&mut self)
        ensures
            final(self)@.len() == 4,
            forall|i: int| 0 <= i < 4 ==> final(self)@[i] == 0u8,
    {
        for idx in 0..BUCKET_SIZE
            invariant
                forall|j: int| 0 <= j < idx ==> self@[j] == 0u8,
        {
            let ghost prev = self@;
            self.data[idx] = 0;
            proof {
                assert(self@ =~= prev.update(idx as int, 0u8));
            }
        }
    }

    /// Reads the slot at position `i`.
    pub fn slot(&self, i: usize) -> (r: u8)
        requires
            i < 4,
        ensures
            r == self@[i as int],
    {
        self.data[i]
    }

    /// Overwrites the slot at position `i`; the eviction loop uses this
    /// to swap a victim fingerprint in place.
    pub fn set_slot(&mut self, i: usize, value: u8)
        requires
            i < 4,
        ensures
            final(self)@ == old(self)@.update(i as int, value),
    {
        self.data[i] = value;
        proof {
            assert(self@ =~= old(self)@.update(i as int, value));
        }
    }
}

} // verus!
