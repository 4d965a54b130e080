//! Commands on single bits and parts of strings.
use vstd::prelude::*;
use super::Store;
use crate::bitmap::{bit_at, count_ones, find_bit, find_window, overwrite, put_bit};
use crate::text::range_bounds;
use crate::types::StoreError;
use crate::value::Value;

verus! {

/// The string that a command on parts of it starts from: empty if there is
/// none.
pub open spec fn start_bytes(o: Option<Seq<u8>>) -> Seq<u8> {
    match o {
        Some(b) => b,
        None => Seq::empty(),
    }
}

/// A keyspace in which a key was bound anew to a string, with the deadline
/// that it had.
pub open spec fn rebound(s: super::StoreModel, key: Seq<u8>, b: Seq<u8>) -> super::StoreModel {
    super::put(
        s,
        key,
        crate::entry::Slot {
            value: crate::value::Val::Str(b),
            expire: if s.slots.dom().contains(key) {
                s.slots[key].expire
            } else {
                None
            },
        },
    )
}

/// How many bits of a string are set in a range.
pub open spec fn bitcount_spec(b: Seq<u8>, range: Option<(i64, i64)>) -> u64 {
    match crate::bitmap::window(range, b.len()) {
        Some((s, e)) => crate::list_data::capped(
            crate::bitmap::ones_between(b, 8 * s, 8 * (e + 1)),
        ),
        None => 0,
    }
}

/// Where a range of a string holds a bit of this value first. An empty
/// string holds a 0 at its start.
pub open spec fn bitpos_spec(b: Seq<u8>, bit: u8, range: Option<(i64, i64)>) -> Option<u64> {
    if b.len() == 0 {
        if bit == 0 {
            Some(0)
        } else {
            None
        }
    } else {
        match crate::bitmap::window(range, b.len()) {
            Some((s, e)) => match crate::bitmap::first_bit(b, bit, 8 * s, 8 * (e + 1)) {
                Some(p) => Some(crate::list_data::capped(p)),
                None => None,
            },
            None => None,
        }
    }
}

/// The part of a string that an inclusive range covers.
pub open spec fn getrange_spec(b: Seq<u8>, start: i64, end: i64) -> Seq<u8> {
    match crate::text::range_bounds_spec(start, end, b.len()) {
        Some((s, e)) => b.subrange(s as int, (e + 1) as int),
        None => Seq::empty(),
    }
}

impl Store {
    /// The bit at a place of the string under a key, 0 past its end or if
    /// there is none.
    pub fn getbit(&mut self, key: &[u8], offset: u64) -> (r: Result<u8, StoreError>)
        requires
            old(self).wf(),
        ensures
            final(self).became(*old(self), super::seen(old(self)@, key@)),
            match super::strings::string_at(super::seen(old(self)@, key@), key@) {
                Ok(o) => r == Ok::<u8, StoreError>(
                    crate::bitmap::bit(start_bytes(o), offset as nat),
                ),
                Err(e) => r == Err::<u8, StoreError>(e),
            },
            final(self).kept_others(*old(self), key@),
            final(self).used_at(*old(self), key@),
    {
        match self.get(key) {
            Err(e) => Err(e),
            Ok(None) => Ok(0),
            Ok(Some(b)) => Ok(bit_at(b.as_slice(), offset)),
        }
    }

    /// Sets one bit of the string under a key, with zeros up to it. The
    /// deadline stays. Gives what the bit was.
    pub fn setbit(&mut self, key: &[u8], offset: u64, value: u8) -> (r: Result<u8, StoreError>)
        requires
            old(self).wf(),
            offset / 8 < usize::MAX,
        ensures
            value > 1 ==> r == Err::<u8, StoreError>(StoreError::OutOfRange) && *final(self)
                == *old(self),
            value <= 1 ==> match super::strings::string_at(super::seen(old(self)@, key@), key@) {
                Ok(o) => r == Ok::<u8, StoreError>(
                    crate::bitmap::bit(start_bytes(o), offset as nat),
                ) && final(self).became(
                    *old(self),
                    rebound(
                        super::seen(old(self)@, key@),
                        key@,
                        crate::bitmap::bit_set(start_bytes(o), offset as nat, value),
                    ),
                ) && final(self).held(key@) is ArcBulk,
                Err(e) => r == Err::<u8, StoreError>(e) && final(self).became(
                    *old(self),
                    super::seen(old(self)@, key@),
                ),
            },
            final(self).kept_others(*old(self), key@),
            value <= 1 && r is Ok ==> final(self).stored_at(*old(self), key@, 2),
            value <= 1 && r is Err ==> final(self).used_at(*old(self), key@),
    {
        if value > 1 {
            return Err(StoreError::OutOfRange);
        }
        let mut b = match self.get(key) {
            Err(e) => {
                return Err(e);
            },
            Ok(None) => Vec::new(),
            Ok(Some(b)) => b,
        };
        let was: u8 = put_bit(&mut b, offset, value);
        proof {
            super::lemma_one_use(*old(self), key@);
            super::lemma_uses(self@, 0, old(self).use_clock(), 1, 2);
        }
        self.write_raw(key, b);
        Ok(was)
    }

    /// Binds a key anew to bytes, as bytes, once it was looked up. The key is
    /// looked up again for its deadline, which it keeps if it has one.
    fn write_raw(&mut self, key: &[u8], b: Vec<u8>)
        requires
            old(self).wf(),
            old(self)@.slots.dom().contains(key@) ==> super::key_live(
                old(self)@,
                key@,
                super::read_now(old(self)@),
            ),
        ensures
            final(self).became(*old(self), rebound(old(self)@, key@, b@)),
            b@.len() > 0 ==> final(self).held(key@) is ArcBulk,
            final(self).kept_others(*old(self), key@),
            final(self).stored_at(*old(self), key@, 1),
    {
        let v = Value::raw(b);
        let ghost s = *self;
        proof {
            self.lemma_accounting();
            super::lemma_one_use(s, key@);
        }
        if self.has(key) {
            let deadline: Option<u64> = match self.deadline_of(key) {
                Some(d) => d,
                None => None,
            };
            self.use_times(key, 1);
            proof {
                super::lemma_one_use(*self, key@);
                super::lemma_uses(s@, 0, s.use_clock(), 1, 1);
            }
            self.insert_entry(key, v, deadline);
        } else {
            self.insert_entry(key, v, None);
        }
    }

    /// How many bits of the string under a key are set, in a range of its
    /// bytes or in all of it.
    pub fn bitcount(&mut self, key: &[u8], range: Option<(i64, i64)>) -> (r: Result<
        u64,
        StoreError,
    >)
        requires
            old(self).wf(),
        ensures
            final(self).became(*old(self), super::seen(old(self)@, key@)),
            match super::strings::string_at(super::seen(old(self)@, key@), key@) {
                Ok(o) => r == Ok::<u64, StoreError>(bitcount_spec(start_bytes(o), range)),
                Err(e) => r == Err::<u64, StoreError>(e),
            },
            final(self).kept_others(*old(self), key@),
            final(self).used_at(*old(self), key@),
    {
        match self.get(key) {
            Err(e) => Err(e),
            Ok(None) => Ok(0),
            Ok(Some(b)) => match find_window(range, b.len()) {
                None => Ok(0),
                Some((s, e)) => Ok(count_ones(b.as_slice(), s, e)),
            },
        }
    }

    /// Where the string under a key, or a range of its bytes, first holds a
    /// bit of this value.
    pub fn bitpos(&mut self, key: &[u8], bit: u8, range: Option<(i64, i64)>) -> (r: Result<
        Option<u64>,
        StoreError,
    >)
        requires
            old(self).wf(),
        ensures
            bit > 1 ==> r == Err::<Option<u64>, StoreError>(StoreError::OutOfRange)
                && *final(self) == *old(self),
            bit <= 1 ==> final(self).became(*old(self), super::seen(old(self)@, key@)),
            bit <= 1 ==> match super::strings::string_at(super::seen(old(self)@, key@), key@) {
                Ok(o) => r == Ok::<Option<u64>, StoreError>(
                    bitpos_spec(start_bytes(o), bit, range),
                ),
                Err(e) => r == Err::<Option<u64>, StoreError>(e),
            },
            final(self).kept_others(*old(self), key@),
            bit <= 1 ==> final(self).used_at(*old(self), key@),
    {
        if bit > 1 {
            return Err(StoreError::OutOfRange);
        }
        let b = match self.get(key) {
            Err(e) => {
                return Err(e);
            },
            Ok(None) => Vec::new(),
            Ok(Some(b)) => b,
        };
        assert(b@.len() == 0 ==> b@ =~= Seq::empty());
        if b.len() == 0 {
            return Ok(if bit == 0 {
                Some(0)
            } else {
                None
            });
        }
        match find_window(range, b.len()) {
            None => Ok(None),
            Some((s, e)) => Ok(find_bit(b.as_slice(), bit, s, e)),
        }
    }

    /// The part of the string under a key that an inclusive range covers.
    pub fn getrange(&mut self, key: &[u8], start: i64, end: i64) -> (r: Result<
        Vec<u8>,
        StoreError,
    >)
        requires
            old(self).wf(),
        ensures
            final(self).became(*old(self), super::seen(old(self)@, key@)),
            match super::strings::string_at(super::seen(old(self)@, key@), key@) {
                Ok(o) => r matches Ok(v) && v@ == getrange_spec(start_bytes(o), start, end),
                Err(e) => r == Err::<Vec<u8>, StoreError>(e),
            },
            final(self).kept_others(*old(self), key@),
            final(self).used_at(*old(self), key@),
    {
        match self.get(key) {
            Err(e) => Err(e),
            Ok(None) => Ok(Vec::new()),
            Ok(Some(b)) => match range_bounds(start, end, b.len()) {
                None => Ok(Vec::new()),
                Some((s, e)) => Ok(crate::bytes::copy_part(b.as_slice(), s, e + 1)),
            },
        }
    }

    /// Overwrites the string under a key from a place on, with zeros up to
    /// it. The deadline stays. Gives the new length.
    pub fn setrange(&mut self, key: &[u8], offset: u64, value: &[u8]) -> (r: Result<
        usize,
        StoreError,
    >)
        requires
            old(self).wf(),
            offset + value@.len() <= usize::MAX,
        ensures
            match super::strings::string_at(super::seen(old(self)@, key@), key@) {
                Ok(o) => {
                    let b = crate::bitmap::overwritten(start_bytes(o), offset as nat, value@);
                    &&& r matches Ok(n)
                    &&& n == b.len()
                    &&& final(self).became(
                        *old(self),
                        rebound(super::seen(old(self)@, key@), key@, b),
                    )
                    &&& n > 0 ==> final(self).held(key@) is ArcBulk
                },
                Err(e) => r == Err::<usize, StoreError>(e) && final(self).became(
                    *old(self),
                    super::seen(old(self)@, key@),
                ),
            },
            final(self).kept_others(*old(self), key@),
            r is Ok ==> final(self).stored_at(*old(self), key@, 2),
            r is Err ==> final(self).used_at(*old(self), key@),
    {
        let mut b = match self.get(key) {
            Err(e) => {
                return Err(e);
            },
            Ok(None) => Vec::new(),
            Ok(Some(b)) => b,
        };
        overwrite(&mut b, offset as usize, value);
        let n: usize = b.len();
        proof {
            super::lemma_one_use(*old(self), key@);
            super::lemma_uses(self@, 0, old(self).use_clock(), 1, 2);
        }
        self.write_raw(key, b);
        Ok(n)
    }
}

/// What was written at a place is what is read there.
pub proof fn lemma_setrange_getrange(b: Seq<u8>, at: nat, v: Seq<u8>)
    requires
        v.len() > 0,
        at + v.len() <= i64::MAX,
    ensures
        getrange_spec(
            crate::bitmap::overwritten(b, at, v),
            at as i64,
            (at + v.len() - 1) as i64,
        ) == v,
{
    let w = crate::bitmap::overwritten(b, at, v);
    assert(getrange_spec(w, at as i64, (at + v.len() - 1) as i64) =~= v);
}

} // verus!
