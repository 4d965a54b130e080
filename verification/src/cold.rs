//! Stubs for values that live outside memory, and what the stubs add up to.
use vstd::prelude::*;
use crate::bytes::heap_bytes;
use crate::entry::Slot;
use crate::value::{Val, Value, ENTRY_OVERHEAD};

verus! {

/// What a value outside memory is.
#[derive(Clone, Copy, Debug, PartialEq, Eq, Structural)]
pub enum ColdKind {
    /// A string.
    Str,
    /// A hash.
    Hash,
}

/// Where a record of the spill log stands.
#[derive(Clone, Copy, Debug, PartialEq, Eq, Structural)]
pub struct RecordRef {
    /// The file.
    pub file_id: u32,
    /// The place in the file.
    pub offset: u64,
    /// The bytes of the record.
    pub len: u32,
}

/// What holds a value that is not in memory.
#[derive(Clone, Copy, Debug, PartialEq, Eq, Structural)]
pub enum Backing {
    /// A record of the spill log.
    Log(RecordRef),
    /// A row segment, under the row's own key.
    Segment(u32),
}

/// The stub that stands in for a value outside memory, 24 bytes.
#[derive(Clone, Copy, Debug, PartialEq, Eq, Structural)]
pub struct ColdRef {
    /// Where the record stands; of a row of a segment only the file counts,
    /// which is the segment's number.
    pub rec: RecordRef,
    /// What the value cost in memory, as far as a weight can tell.
    pub weight: u32,
    /// What the value is.
    pub kind: ColdKind,
    /// Whether it was read since it left memory.
    pub touched: bool,
    /// Whether a row segment holds the value.
    pub segmented: bool,
}

impl ColdRef {
    /// What holds the value.
    pub open spec fn backing_spec(&self) -> Backing {
        if self.segmented {
            Backing::Segment(self.rec.file_id)
        } else {
            Backing::Log(self.rec)
        }
    }

    /// What holds the value.
    #[verifier::when_used_as_spec(backing_spec)]
    pub fn backing(&self) -> (r: Backing)
        ensures
            r == self.backing_spec(),
    {
        if self.segmented {
            Backing::Segment(self.rec.file_id)
        } else {
            Backing::Log(self.rec)
        }
    }

    /// A stub for a record of the spill log that was not read yet.
    pub fn log(rec: RecordRef, weight: u32, kind: ColdKind) -> (r: ColdRef)
        ensures
            r == log_stub(rec, weight, kind),
    {
        ColdRef { rec, weight, kind, touched: false, segmented: false }
    }

    /// A stub for a row of a segment.
    pub fn seg(seq: u32, weight: u32) -> (r: ColdRef)
        ensures
            r == seg_stub(seq, weight),
    {
        ColdRef {
            rec: RecordRef { file_id: seq, offset: 0, len: 0 },
            weight,
            kind: ColdKind::Hash,
            touched: false,
            segmented: true,
        }
    }

    /// Whether a row segment holds the value.
    pub fn is_seg(&self) -> (r: bool)
        ensures
            r == (self.backing() is Segment),
    {
        self.segmented
    }
}

/// A stub for a record of the spill log that was not read yet.
pub open spec fn log_stub(rec: RecordRef, weight: u32, kind: ColdKind) -> ColdRef {
    ColdRef { rec, weight, kind, touched: false, segmented: false }
}

/// A stub for a row of a segment.
pub open spec fn seg_stub(seq: u32, weight: u32) -> ColdRef {
    ColdRef {
        rec: RecordRef { file_id: seq, offset: 0, len: 0 },
        weight,
        kind: ColdKind::Hash,
        touched: false,
        segmented: true,
    }
}

/// The stub of a value whose record is in the spill log.
pub open spec fn logged(v: Val) -> Option<ColdRef> {
    match v {
        Val::Cold(c) => if c.backing() is Log {
            Some(c)
        } else {
            None
        },
        _ => None,
    }
}

/// The stub of a value whose record is in the spill log.
pub fn logged_stub(v: &Value) -> (r: Option<ColdRef>)
    ensures
        r == logged(v@),
{
    match v {
        Value::Cold(c) => if c.is_seg() {
            None
        } else {
            Some(*c)
        },
        _ => None,
    }
}

/// The stub that a value is, if it is out of memory.
pub fn stub_of(v: &Value) -> (r: Option<ColdRef>)
    ensures
        r == (match v {
            Value::Cold(c) => Some(*c),
            _ => None,
        }),
{
    match v {
        Value::Cold(c) => Some(*c),
        _ => None,
    }
}

/// The stub under a key whose record is in the spill log.
pub open spec fn logged_at(m: Map<Seq<u8>, Slot>, k: Seq<u8>) -> Option<ColdRef> {
    if m.dom().contains(k) {
        logged(m[k].value)
    } else {
        None
    }
}

/// One for each key whose record is in the spill log.
pub open spec fn cold_marks(m: Map<Seq<u8>, Slot>) -> Map<Seq<u8>, nat> {
    Map::new(
        |k: Seq<u8>| m.dom().contains(k),
        |k: Seq<u8>|
            if logged(m[k].value) is Some {
                1nat
            } else {
                0
            },
    )
}

/// What each value whose record is in the spill log cost in memory.
pub open spec fn cold_weights(m: Map<Seq<u8>, Slot>) -> Map<Seq<u8>, nat> {
    Map::new(
        |k: Seq<u8>| m.dom().contains(k),
        |k: Seq<u8>|
            match logged(m[k].value) {
                Some(c) => c.weight as nat,
                None => 0,
            },
    )
}

/// What each stub costs whose record is in the spill log: the flat rate of a
/// key and the key's heap bytes.
pub open spec fn stub_costs(m: Map<Seq<u8>, Slot>) -> Map<Seq<u8>, nat> {
    Map::new(
        |k: Seq<u8>| m.dom().contains(k),
        |k: Seq<u8>|
            if logged(m[k].value) is Some {
                ENTRY_OVERHEAD as nat + crate::bytes::heap_bytes_spec(k.len())
            } else {
                0
            },
    )
}

/// How many keys have their value in the spill log.
pub open spec fn cold_count(m: Map<Seq<u8>, Slot>) -> nat {
    crate::weigh::total(cold_marks(m))
}

/// What the values in the spill log cost in memory.
pub open spec fn cold_total(m: Map<Seq<u8>, Slot>) -> nat {
    crate::weigh::total(cold_weights(m))
}

/// What the stubs cost.
pub open spec fn stub_total(m: Map<Seq<u8>, Slot>) -> nat {
    crate::weigh::total(stub_costs(m))
}

/// A sum of machine words that stays exact in the model.
pub struct Tally {
    n: u64,
    wraps: Ghost<nat>,
}

impl View for Tally {
    type V = nat;

    /// The sum.
    closed spec fn view(&self) -> nat {
        (self.n + self.wraps@ * 0x1_0000_0000_0000_0000) as nat
    }
}

impl Tally {
    /// Zero.
    pub fn zero() -> (r: Tally)
        ensures
            r@ == 0,
    {
        Tally { n: 0, wraps: Ghost(0) }
    }

    /// The sum, as long as it fits in a `u64`.
    pub fn get(&self) -> (r: u64)
        ensures
            self@ <= u64::MAX ==> r == self@,
    {
        self.n
    }

    /// Puts `n` on the sum.
    pub fn more(&mut self, n: u64)
        ensures
            final(self)@ == old(self)@ + n,
    {
        if self.n > u64::MAX - n {
            self.wraps = Ghost(self.wraps@ + 1);
        }
        self.n = self.n.wrapping_add(n);
    }

    /// Takes `n` off the sum.
    pub fn less(&mut self, n: u64)
        requires
            old(self)@ >= n,
        ensures
            final(self)@ == old(self)@ - n,
    {
        if self.n < n {
            self.wraps = Ghost((self.wraps@ - 1) as nat);
        }
        self.n = self.n.wrapping_sub(n);
    }
}

/// What the stubs of a keyspace add up to.
pub struct ColdBook {
    keys: Tally,
    bytes: Tally,
    stubs: Tally,
}

impl ColdBook {
    /// Whether the sums are those of these keys.
    pub closed spec fn counts(&self, m: Map<Seq<u8>, Slot>) -> bool {
        &&& self.keys@ == cold_count(m)
        &&& self.bytes@ == cold_total(m)
        &&& self.stubs@ == stub_total(m)
    }

    /// The sums of no keys.
    pub fn empty() -> (r: ColdBook)
        ensures
            r.counts(Map::empty()),
    {
        let r = ColdBook { keys: Tally::zero(), bytes: Tally::zero(), stubs: Tally::zero() };
        proof {
            let m = Map::<Seq<u8>, Slot>::empty();
            assert(cold_marks(m) =~= Map::empty());
            assert(cold_weights(m) =~= Map::empty());
            assert(stub_costs(m) =~= Map::empty());
            crate::weigh::lemma_total_empty::<Seq<u8>>();
        }
        r
    }

    /// How many keys have their value in the spill log, exact as long as it
    /// fits in a `u64`.
    pub fn keys(&self, Ghost(m): Ghost<Map<Seq<u8>, Slot>>) -> (r: u64)
        requires
            self.counts(m),
        ensures
            cold_count(m) <= u64::MAX ==> r == cold_count(m),
    {
        self.keys.get()
    }

    /// What the values in the spill log cost in memory, exact as long as it
    /// fits in a `u64`.
    pub fn bytes(&self, Ghost(m): Ghost<Map<Seq<u8>, Slot>>) -> (r: u64)
        requires
            self.counts(m),
        ensures
            cold_total(m) <= u64::MAX ==> r == cold_total(m),
    {
        self.bytes.get()
    }

    /// What the stubs cost, exact as long as it fits in a `u64`.
    pub fn stubs(&self, Ghost(m): Ghost<Map<Seq<u8>, Slot>>) -> (r: u64)
        requires
            self.counts(m),
        ensures
            stub_total(m) <= u64::MAX ==> r == stub_total(m),
    {
        self.stubs.get()
    }

    /// Brings the sums up to date when what is under a key changes.
    pub fn turn(
        &mut self,
        key: &[u8],
        was: Option<ColdRef>,
        is: Option<ColdRef>,
        Ghost(m): Ghost<Map<Seq<u8>, Slot>>,
        Ghost(next): Ghost<Map<Seq<u8>, Slot>>,
    )
        requires
            old(self).counts(m),
            m.dom().finite(),
            next.dom().finite(),
            m.remove(key@) == next.remove(key@),
            was == logged_at(m, key@),
            is == logged_at(next, key@),
        ensures
            final(self).counts(next),
    {
        proof {
            lemma_apart(m, key@);
            lemma_apart(next, key@);
        }
        match was {
            Some(c) => {
                self.keys.less(1);
                self.bytes.less(c.weight as u64);
                self.stubs.less(ENTRY_OVERHEAD);
                self.stubs.less(heap_bytes(key.len()));
            },
            None => {},
        }
        match is {
            Some(c) => {
                self.keys.more(1);
                self.bytes.more(c.weight as u64);
                self.stubs.more(ENTRY_OVERHEAD);
                self.stubs.more(heap_bytes(key.len()));
            },
            None => {},
        }
    }
}

/// What one key adds to the sums.
pub proof fn lemma_apart(m: Map<Seq<u8>, Slot>, key: Seq<u8>)
    requires
        m.dom().finite(),
    ensures
        cold_count(m) == cold_count(m.remove(key)) + (if logged_at(m, key) is Some {
            1nat
        } else {
            0
        }),
        cold_total(m) == cold_total(m.remove(key)) + (match logged_at(m, key) {
            Some(c) => c.weight as nat,
            None => 0,
        }),
        stub_total(m) == stub_total(m.remove(key)) + (if logged_at(m, key) is Some {
            ENTRY_OVERHEAD as nat + crate::bytes::heap_bytes_spec(key.len())
        } else {
            0
        }),
{
    let r = m.remove(key);
    assert(cold_marks(m).dom() =~= m.dom());
    assert(cold_weights(m).dom() =~= m.dom());
    assert(stub_costs(m).dom() =~= m.dom());
    assert(cold_marks(r) =~= cold_marks(m).remove(key));
    assert(cold_weights(r) =~= cold_weights(m).remove(key));
    assert(stub_costs(r) =~= stub_costs(m).remove(key));
    if m.dom().contains(key) {
        crate::weigh::lemma_total_remove(cold_marks(m), key);
        crate::weigh::lemma_total_remove(cold_weights(m), key);
        crate::weigh::lemma_total_remove(stub_costs(m), key);
    } else {
        assert(r =~= m);
    }
}

} // verus!
