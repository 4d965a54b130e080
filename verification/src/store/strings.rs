//! String commands.
use vstd::prelude::*;
use std::sync::Arc;
use super::Store;
use crate::bytes::copy_bytes;
use crate::cold::ColdKind;
use crate::entry::deadline_at;
use crate::shared::share;
use crate::text::{parse_i64, push_digits};
use crate::types::StoreError;
use crate::value::Value;

verus! {

/// A string as a read finds it.
pub enum GetReply {
    /// Bytes, copied out.
    Bytes(Vec<u8>),
    /// A handle on the bytes.
    ArcBulk(Arc<Vec<u8>>),
}

/// A string as a read that holds on to it finds it.
pub enum GetShared {
    /// A handle on the bytes.
    Arc(Arc<Vec<u8>>),
    /// Bytes, copied out.
    Bytes(Vec<u8>),
}

/// The string under a key, if there is one.
pub open spec fn string_at(s: super::StoreModel, key: Seq<u8>) -> Result<
    Option<Seq<u8>>,
    StoreError,
> {
    if !s.slots.dom().contains(key) {
        Ok(None)
    } else {
        match s.slots[key].value {
            crate::value::Val::Str(b) => Ok(Some(b)),
            v => Err(super::refused(v, ColdKind::Str)),
        }
    }
}

/// The string under a key whose deadline has not come, if there is one.
pub open spec fn live_string_at(s: super::StoreModel, key: Seq<u8>) -> Result<
    Option<Seq<u8>>,
    StoreError,
> {
    if super::key_live(s, key, super::read_now(s)) {
        string_at(s, key)
    } else {
        Ok(None)
    }
}

/// The bytes of a result.
pub open spec fn bytes_result(r: Result<Option<Vec<u8>>, StoreError>) -> Result<
    Option<Seq<u8>>,
    StoreError,
> {
    match r {
        Ok(Some(v)) => Ok(Some(v@)),
        Ok(None) => Ok(None),
        Err(e) => Err(e),
    }
}

/// The bytes that a reply stands for.
pub open spec fn reply_bytes(r: GetReply) -> Seq<u8> {
    match r {
        GetReply::Bytes(v) => v@,
        GetReply::ArcBulk(a) => a@,
    }
}

/// The bytes that a shared reply stands for.
pub open spec fn shared_bytes(r: GetShared) -> Seq<u8> {
    match r {
        GetShared::Arc(a) => a@,
        GetShared::Bytes(v) => v@,
    }
}

/// Whether a store writes a key: with `nx` only a new one, with `xx` only
/// one that is there.
pub open spec fn set_allowed(there: bool, nx: bool, xx: bool) -> bool {
    !(nx && there) && !(xx && !there)
}

/// The deadline that a write sets, from the fresh clock.
pub open spec fn deadline_in(s: super::StoreModel, ttl_ns: Option<u64>) -> Option<u64> {
    match ttl_ns {
        Some(t) => crate::entry::packed(Some(crate::entry::deadline_spec(s.now, t as nat))),
        None => None,
    }
}

/// A keyspace after a string was stored.
pub open spec fn after_set(
    s: super::StoreModel,
    key: Seq<u8>,
    value: Seq<u8>,
    ttl_ns: Option<u64>,
    nx: bool,
    xx: bool,
) -> super::StoreModel {
    let t = super::seen(s, key);
    if set_allowed(t.slots.dom().contains(key), nx, xx) {
        super::put(
            t,
            key,
            crate::entry::Slot {
                value: crate::value::Val::Str(value),
                expire: deadline_in(s, ttl_ns),
            },
        )
    } else {
        t
    }
}

/// The number that an increment leaves under a key.
pub open spec fn incr_result(s: super::StoreModel, key: Seq<u8>, delta: i64) -> Result<
    i64,
    StoreError,
> {
    match string_at(s, key) {
        Err(e) => Err(e),
        Ok(None) => Ok(delta),
        Ok(Some(b)) => match crate::text::parse_i64_spec(b) {
            None => Err(StoreError::NotInteger),
            Some(n) => if i64::MIN <= n + delta <= i64::MAX {
                Ok((n + delta) as i64)
            } else {
                Err(StoreError::Overflow)
            },
        },
    }
}

/// A string in place of the one under a key, whose deadline stays, or under
/// a new key without one.
pub open spec fn restrung(s: super::StoreModel, key: Seq<u8>, b: Seq<u8>) -> super::StoreModel {
    if s.slots.dom().contains(key) {
        super::revalued(s, key, crate::value::Val::Str(b))
    } else {
        super::put(
            s,
            key,
            crate::entry::Slot { value: crate::value::Val::Str(b), expire: None },
        )
    }
}

/// The head of a reply that carries `len` bytes.
pub open spec fn bulk_header(len: nat) -> Seq<u8> {
    seq![36u8] + crate::text::digits(len) + seq![13u8, 10u8]
}

/// Writes the head of a reply that carries `len` bytes.
pub fn bulk_header_into(out: &mut Vec<u8>, len: usize)
    ensures
        final(out)@ == old(out)@ + bulk_header(len as nat),
{
    let ghost before = out@;
    out.push(36);
    push_digits(out, len as u64);
    out.push(13);
    out.push(10);
    assert(out@ =~= before + bulk_header(len as nat));
}

/// Appends bytes.
fn append_bytes(out: &mut Vec<u8>, b: &[u8])
    ensures
        final(out)@ == old(out)@ + b@,
{
    let ghost before = out@;
    let mut i: usize = 0;
    assert(b@.take(0) =~= Seq::empty());
    while i < b.len()
        invariant
            i <= b@.len(),
            out@ == before + b@.take(i as int),
        decreases b@.len() - i,
    {
        out.push(b[i]);
        assert(out@ =~= before + b@.take(i + 1));
        i = i + 1;
    }
    assert(b@.take(b@.len() as int) =~= b@);
}

/// What a string read writes out: the bytes in line or, where they are
/// shared, a handle on them and the place where they belong.
pub open spec fn written(
    before: Seq<u8>,
    after: Seq<u8>,
    arcs_before: Seq<(usize, Arc<Vec<u8>>)>,
    arcs_after: Seq<(usize, Arc<Vec<u8>>)>,
    b: Seq<u8>,
    shared: bool,
) -> bool {
    let head = before + bulk_header(b.len());
    if shared {
        &&& after == head + seq![13u8, 10u8]
        &&& arcs_after.len() == arcs_before.len() + 1
        &&& arcs_after.drop_last() == arcs_before
        &&& arcs_after.last().0 == head.len()
        &&& arcs_after.last().1@ == b
    } else {
        &&& after == head + b + seq![13u8, 10u8]
        &&& arcs_after == arcs_before
    }
}

impl Store {
    /// The string under a key.
    pub fn get(&mut self, key: &[u8]) -> (r: Result<Option<Vec<u8>>, StoreError>)
        requires
            old(self).wf(),
        ensures
            final(self).became(*old(self), super::seen(old(self)@, key@)),
            final(self).used() <= old(self).used(),
            final(self).kept_others(*old(self), key@),
            final(self).used_at(*old(self), key@),
            bytes_result(r) == string_at(super::seen(old(self)@, key@), key@),
    {
        if !self.live(key) {
            return Ok(None);
        }
        match self.value_ref(key) {
            None => Ok(None),
            Some(v) => if v.is_string() {
                Ok(Some(v.string_bytes()))
            } else {
                Err(self.refusal(key, ColdKind::Str))
            },
        }
    }

    /// The string under a key, as a handle on it where it is shared.
    pub fn get_for_reply(&mut self, key: &[u8]) -> (r: Result<Option<GetReply>, StoreError>)
        requires
            old(self).wf(),
        ensures
            final(self).became(*old(self), super::seen(old(self)@, key@)),
            match r {
                Ok(Some(g)) => string_at(super::seen(old(self)@, key@), key@) == Ok::<
                    Option<Seq<u8>>,
                    StoreError,
                >(Some(reply_bytes(g))) && (g is ArcBulk <==> old(self).held(key@) is ArcBulk),
                Ok(None) => string_at(super::seen(old(self)@, key@), key@) == Ok::<
                    Option<Seq<u8>>,
                    StoreError,
                >(None),
                Err(e) => string_at(super::seen(old(self)@, key@), key@) == Err::<
                    Option<Seq<u8>>,
                    StoreError,
                >(e),
            },
            final(self).kept_others(*old(self), key@),
            final(self).used_at(*old(self), key@),
    {
        if !self.live(key) {
            return Ok(None);
        }
        match self.value_ref(key) {
            None => Ok(None),
            Some(v) => match v {
                Value::ArcBulk(a) => Ok(Some(GetReply::ArcBulk(share(a)))),
                _ => if v.is_string() {
                    Ok(Some(GetReply::Bytes(v.string_bytes())))
                } else {
                    Err(self.refusal(key, ColdKind::Str))
                },
            },
        }
    }

    /// Writes the string under a key out as a reply: in line, or as a handle
    /// and the place where it belongs. Says whether there was one.
    pub fn get_into_output(
        &mut self,
        key: &[u8],
        output: &mut Vec<u8>,
        output_arcs: &mut Vec<(usize, Arc<Vec<u8>>)>,
    ) -> (r: Result<bool, StoreError>)
        requires
            old(self).wf(),
        ensures
            final(self).became(*old(self), super::seen(old(self)@, key@)),
            match string_at(super::seen(old(self)@, key@), key@) {
                Ok(Some(b)) => r == Ok::<bool, StoreError>(true) && written(
                    old(output)@,
                    final(output)@,
                    old(output_arcs)@,
                    final(output_arcs)@,
                    b,
                    old(self).held(key@) is ArcBulk,
                ),
                Ok(None) => r == Ok::<bool, StoreError>(false) && final(output)@ == old(output)@
                    && final(output_arcs)@ == old(output_arcs)@,
                Err(e) => r == Err::<bool, StoreError>(e) && final(output)@ == old(output)@
                    && final(output_arcs)@ == old(output_arcs)@,
            },
            final(self).kept_others(*old(self), key@),
            final(self).used_at(*old(self), key@),
    {
        let ghost before = output@;
        let ghost arcs = output_arcs@;
        match self.get_for_reply(key) {
            Err(e) => Err(e),
            Ok(None) => Ok(false),
            Ok(Some(GetReply::Bytes(v))) => {
                bulk_header_into(output, v.len());
                append_bytes(output, v.as_slice());
                output.push(13);
                output.push(10);
                assert(output@ =~= before + bulk_header(v@.len()) + v@ + seq![13u8, 10u8]);
                Ok(true)
            },
            Ok(Some(GetReply::ArcBulk(a))) => {
                bulk_header_into(output, a.len());
                let at: usize = output.len();
                let ghost b = a@;
                output_arcs.push((at, a));
                output.push(13);
                output.push(10);
                proof {
                    assert(output@ =~= before + bulk_header(b.len()) + seq![13u8, 10u8]);
                    assert(output_arcs@.drop_last() =~= arcs);
                }
                Ok(true)
            },
        }
    }

    /// The string under a key, without dropping it if its deadline has come.
    pub fn get_shared(&self, key: &[u8]) -> (r: Result<Option<Vec<u8>>, StoreError>)
        requires
            self.wf(),
        ensures
            bytes_result(r) == live_string_at(self@, key@),
    {
        if self.expired(key, self.read_clock()) {
            return Ok(None);
        }
        match self.value_ref(key) {
            None => Ok(None),
            Some(v) => if v.is_string() {
                Ok(Some(v.string_bytes()))
            } else {
                Err(self.refusal(key, ColdKind::Str))
            },
        }
    }

    /// The string under a key, as a handle on it where it is shared, without
    /// dropping it if its deadline has come.
    pub fn get_shared_owned(&self, key: &[u8]) -> (r: Result<Option<GetShared>, StoreError>)
        requires
            self.wf(),
        ensures
            match r {
                Ok(Some(g)) => live_string_at(self@, key@) == Ok::<Option<Seq<u8>>, StoreError>(
                    Some(shared_bytes(g)),
                ) && (g is Arc <==> self.held(key@) is ArcBulk),
                Ok(None) => live_string_at(self@, key@) == Ok::<Option<Seq<u8>>, StoreError>(None),
                Err(e) => live_string_at(self@, key@) == Err::<Option<Seq<u8>>, StoreError>(e),
            },
    {
        if self.expired(key, self.read_clock()) {
            return Ok(None);
        }
        match self.value_ref(key) {
            None => Ok(None),
            Some(v) => match v {
                Value::ArcBulk(a) => Ok(Some(GetShared::Arc(share(a)))),
                _ => if v.is_string() {
                    Ok(Some(GetShared::Bytes(v.string_bytes())))
                } else {
                    Err(self.refusal(key, ColdKind::Str))
                },
            },
        }
    }

    /// The length of the string under a key, 0 if there is none.
    pub fn strlen(&mut self, key: &[u8]) -> (r: Result<usize, StoreError>)
        requires
            old(self).wf(),
        ensures
            final(self).became(*old(self), super::seen(old(self)@, key@)),
            match string_at(super::seen(old(self)@, key@), key@) {
                Ok(Some(b)) => r matches Ok(n) && n == b.len(),
                Ok(None) => r == Ok::<usize, StoreError>(0),
                Err(e) => r == Err::<usize, StoreError>(e),
            },
            final(self).kept_others(*old(self), key@),
            final(self).used_at(*old(self), key@),
    {
        match self.get(key) {
            Err(e) => Err(e),
            Ok(None) => Ok(0),
            Ok(Some(v)) => Ok(v.len()),
        }
    }

    /// Stores a string under a key, in place of whatever it held, to expire
    /// after `ttl_ns` nanoseconds if that is given. With `nx` only if the key
    /// is new, with `xx` only if it is there. Says whether it did.
    pub fn set(&mut self, key: &[u8], value: Vec<u8>, ttl_ns: Option<u64>, nx: bool, xx: bool) -> (r:
        bool)
        requires
            old(self).wf(),
        ensures
            final(self).became(
                *old(self),
                after_set(old(self)@, key@, value@, ttl_ns, nx, xx),
            ),
            r == set_allowed(
                super::seen(old(self)@, key@).slots.dom().contains(key@),
                nx,
                xx,
            ),
            r ==> crate::value::suits(value@, final(self).held(key@)),
            final(self).kept_others(*old(self), key@),
            final(self).used_at(*old(self), key@),
    {
        self.set_value(key, Value::pick(value), ttl_ns, nx, xx)
    }

    /// As [`Store::set`], for borrowed bytes.
    pub fn set_slice(
        &mut self,
        key: &[u8],
        value: &[u8],
        ttl_ns: Option<u64>,
        nx: bool,
        xx: bool,
    ) -> (r: bool)
        requires
            old(self).wf(),
        ensures
            final(self).became(
                *old(self),
                after_set(old(self)@, key@, value@, ttl_ns, nx, xx),
            ),
            r == set_allowed(
                super::seen(old(self)@, key@).slots.dom().contains(key@),
                nx,
                xx,
            ),
            r ==> crate::value::suits(value@, final(self).held(key@)),
            final(self).kept_others(*old(self), key@),
            final(self).used_at(*old(self), key@),
    {
        self.set_value(key, Value::pick(copy_bytes(value)), ttl_ns, nx, xx)
    }

    fn set_value(
        &mut self,
        key: &[u8],
        value: Value,
        ttl_ns: Option<u64>,
        nx: bool,
        xx: bool,
    ) -> (r: bool)
        requires
            old(self).wf(),
            value.wf(),
            value@ is Str,
        ensures
            final(self).became(
                *old(self),
                after_set(old(self)@, key@, value@->Str_0, ttl_ns, nx, xx),
            ),
            r == set_allowed(
                super::seen(old(self)@, key@).slots.dom().contains(key@),
                nx,
                xx,
            ),
            r ==> final(self).held(key@) == value,
            final(self).kept_others(*old(self), key@),
            final(self).used_at(*old(self), key@),
    {
        let deadline: Option<u64> = match ttl_ns {
            Some(t) => Some(deadline_at(self.now_ns(), t)),
            None => None,
        };
        let there: bool = self.live(key);
        if (nx && there) || (xx && !there) {
            return false;
        }
        if there {
            self.overwrite(key, value, deadline);
        } else {
            self.insert_entry(key, value, deadline);
        }
        true
    }

    /// Adds `delta` to the number under a key, which counts as 0 if it is
    /// not there. The deadline stays.
    pub fn incr_by(&mut self, key: &[u8], delta: i64) -> (r: Result<i64, StoreError>)
        requires
            old(self).wf(),
        ensures
            r == incr_result(super::seen(old(self)@, key@), key@, delta),
            match r {
                Ok(n) => final(self).became(
                    *old(self),
                    restrung(
                        super::seen(old(self)@, key@),
                        key@,
                        crate::text::decimal(n as int),
                    ),
                ) && final(self).held(key@) == Value::Int(n),
                Err(_e) => final(self).became(*old(self), super::seen(old(self)@, key@)),
            },
            final(self).kept_others(*old(self), key@),
            final(self).used_at(*old(self), key@),
    {
        if !self.live(key) {
            self.insert_entry(key, Value::Int(delta), None);
            return Ok(delta);
        }
        let ghost s1 = self@;
        let n: i64 = match self.value_ref(key) {
            Some(Value::Int(n)) => {
                proof {
                    crate::text::lemma_decimal_roundtrip(*n);
                }
                *n
            },
            Some(Value::Str(v)) => match parse_i64(v.as_slice()) {
                Some(n) => n,
                None => {
                    return Err(StoreError::NotInteger);
                },
            },
            Some(Value::ArcBulk(a)) => match parse_i64(a.as_slice()) {
                Some(n) => n,
                None => {
                    return Err(StoreError::NotInteger);
                },
            },
            _ => {
                return Err(self.refusal(key, ColdKind::Str));
            },
        };
        match n.checked_add(delta) {
            None => Err(StoreError::Overflow),
            Some(next) => {
                let mut v = Value::Int(next);
                self.swap_value(key, &mut v);
                Ok(next)
            },
        }
    }

    /// Appends to the string under a key, which counts as empty if it is not
    /// there. The deadline stays. Gives the new length.
    pub fn append(&mut self, key: &[u8], data: &[u8]) -> (r: Result<usize, StoreError>)
        requires
            old(self).wf(),
        ensures
            match string_at(super::seen(old(self)@, key@), key@) {
                Err(e) => r == Err::<usize, StoreError>(e) && final(self).became(
                    *old(self),
                    super::seen(old(self)@, key@),
                ),
                Ok(o) => {
                    let b = match o {
                        Some(b) => b + data@,
                        None => data@,
                    };
                    &&& r matches Ok(n)
                    &&& n == b.len()
                    &&& final(self).became(
                        *old(self),
                        restrung(super::seen(old(self)@, key@), key@, b),
                    )
                    &&& if o is None || old(self).held(key@) is Str {
                        final(self).held(key@) is Str
                    } else {
                        crate::value::suits(b, final(self).held(key@))
                    }
                },
            },
            final(self).kept_others(*old(self), key@),
            final(self).used_at(*old(self), key@),
    {
        if !self.live(key) {
            self.insert_entry(key, Value::Str(copy_bytes(data)), None);
            return Ok(data.len());
        }
        let plain: bool = match self.value_ref(key) {
            Some(Value::Str(_)) => true,
            Some(Value::Int(_)) | Some(Value::ArcBulk(_)) => false,
            _ => {
                return Err(self.refusal(key, ColdKind::Str));
            },
        };
        let mut v = Value::Int(0);
        self.swap_value(key, &mut v);
        let mut bytes = match v {
            Value::Str(own) => own,
            _ => v.string_bytes(),
        };
        append_bytes(&mut bytes, data);
        let n: usize = bytes.len();
        let mut next = if plain {
            Value::Str(bytes)
        } else {
            Value::pick(bytes)
        };
        let ghost s2 = self@;
        self.swap_value(key, &mut next);
        proof {
            let s1 = super::seen(old(self)@, key@);
            assert(self@.slots =~= restrung(s1, key@, next_bytes(s1, key@, data@)).slots);
        }
        Ok(n)
    }

    /// Stores the text of a number in place of the string under a key, whose
    /// deadline stays, or under a new key without one.
    pub fn write_text(&mut self, key: &[u8], text: Vec<u8>) -> (r: Result<(), StoreError>)
        requires
            old(self).wf(),
        ensures
            match string_at(super::seen(old(self)@, key@), key@) {
                Err(e) => r == Err::<(), StoreError>(e) && final(self).became(
                    *old(self),
                    super::seen(old(self)@, key@),
                ),
                Ok(_) => r == Ok::<(), StoreError>(()) && final(self).became(
                    *old(self),
                    restrung(super::seen(old(self)@, key@), key@, text@),
                ) && final(self).held(key@) is Str,
            },
            final(self).kept_others(*old(self), key@),
            final(self).used_at(*old(self), key@),
    {
        if !self.live(key) {
            self.insert_entry(key, Value::Str(text), None);
            return Ok(());
        }
        let fits: bool = match self.value_ref(key) {
            Some(v) => v.is_string(),
            None => false,
        };
        if !fits {
            return Err(self.refusal(key, ColdKind::Str));
        }
        let mut v = Value::Str(text);
        self.swap_value(key, &mut v);
        Ok(())
    }

    /// Stores a string under a key, which then never expires, and gives the
    /// one that it held. Refused if it held something else.
    pub fn getset(&mut self, key: &[u8], val: Vec<u8>) -> (r: Result<Option<Vec<u8>>, StoreError>)
        requires
            old(self).wf(),
        ensures
            bytes_result(r) == string_at(super::seen(old(self)@, key@), key@),
            final(self).became(
                *old(self),
                if r is Ok {
                    super::put(
                        super::seen(old(self)@, key@),
                        key@,
                        crate::entry::Slot {
                            value: crate::value::Val::Str(val@),
                            expire: None,
                        },
                    )
                } else {
                    super::seen(old(self)@, key@)
                },
            ),
            r is Ok ==> crate::value::suits(val@, final(self).held(key@)),
            final(self).kept_others(*old(self), key@),
            r is Ok ==> final(self).stored_at(*old(self), key@, 1),
            r is Err ==> final(self).used_at(*old(self), key@),
    {
        match self.get(key) {
            Err(e) => Err(e),
            Ok(o) => {
                proof {
                    super::lemma_one_use(*old(self), key@);
                    super::lemma_one_use(*self, key@);
                    super::lemma_uses(self@, 0, old(self).use_clock(), 1, 1);
                }
                self.insert_entry(key, Value::pick(val), None);
                Ok(o)
            },
        }
    }

    /// Drops a key that holds a string and gives the string. Refused if it
    /// holds something else.
    pub fn getdel(&mut self, key: &[u8]) -> (r: Result<Option<Vec<u8>>, StoreError>)
        requires
            old(self).wf(),
        ensures
            bytes_result(r) == string_at(super::seen(old(self)@, key@), key@),
            final(self).became(
                *old(self),
                if r matches Ok(Some(_v)) {
                    super::dropped(super::seen(old(self)@, key@), key@)
                } else {
                    super::seen(old(self)@, key@)
                },
            ),
            final(self).kept_others(*old(self), key@),
            final(self).used_at(*old(self), key@),
    {
        match self.get(key) {
            Err(e) => Err(e),
            Ok(None) => Ok(None),
            Ok(Some(v)) => {
                self.remove_entry(key);
                Ok(Some(v))
            },
        }
    }
}

/// The string under a key with `data` behind it.
spec fn next_bytes(s: super::StoreModel, key: Seq<u8>, data: Seq<u8>) -> Seq<u8> {
    s.slots[key].value->Str_0 + data
}

/// What was stored is what is read, until its deadline comes.
pub proof fn lemma_set_get(
    s: super::StoreModel,
    key: Seq<u8>,
    value: Seq<u8>,
    ttl_ns: Option<u64>,
    t: u64,
)
    ensures
        ({
            let after = after_set(s, key, value, ttl_ns, false, false);
            let later = super::StoreModel { now: t, use_cached: false, ..after };
            if crate::entry::due(deadline_in(s, ttl_ns), t) {
                string_at(super::seen(later, key), key) == Ok::<Option<Seq<u8>>, StoreError>(None)
            } else {
                string_at(super::seen(later, key), key) == Ok::<Option<Seq<u8>>, StoreError>(
                    Some(value),
                )
            }
        }),
{
}

/// A store under one key leaves every other key as it is.
pub proof fn lemma_set_other(
    s: super::StoreModel,
    key: Seq<u8>,
    other: Seq<u8>,
    value: Seq<u8>,
    ttl_ns: Option<u64>,
    nx: bool,
    xx: bool,
)
    requires
        key != other,
    ensures
        after_set(s, key, value, ttl_ns, nx, xx).slots.dom().contains(other)
            == s.slots.dom().contains(other),
        s.slots.dom().contains(other) ==> after_set(
            s,
            key,
            value,
            ttl_ns,
            nx,
            xx,
        ).slots[other] == s.slots[other],
{
}

/// Two increments add up, and one takes back what the other did.
pub proof fn lemma_incr_twice(s: super::StoreModel, key: Seq<u8>, a: i64, b: i64)
    requires
        incr_result(s, key, a) is Ok,
        i64::MIN <= incr_result(s, key, a)->Ok_0 + b <= i64::MAX,
    ensures
        incr_result(
            restrung(s, key, crate::text::decimal(incr_result(s, key, a)->Ok_0 as int)),
            key,
            b,
        ) == Ok::<i64, StoreError>((incr_result(s, key, a)->Ok_0 + b) as i64),
{
    let n = incr_result(s, key, a)->Ok_0;
    crate::text::lemma_decimal_roundtrip(n);
}

} // verus!
