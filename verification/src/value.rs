//! Values: what a key holds, in the encodings that it may have.
use vstd::prelude::*;
use std::sync::Arc;
use crate::cold::{ColdKind, ColdRef};
use crate::bytes::{copy_bytes, heap_bytes};
use crate::list::{FlatList, SegList};
use crate::packed_row::PackedRow;
use crate::payload::Present;
use crate::shared::share;
use crate::small_hash::SmallHashData;
use crate::small_list::SmallListData;
use crate::small_set::SmallSetData;
use crate::small_zset::SmallZSetData;
use crate::sorted::ZSetData;
use crate::stream::StreamData;
use crate::table::{HashData, SegTable, SetData};
use crate::text::{format_i64, parse_canonical_i64};

verus! {

/// Length past which a string is kept behind a shared handle.
pub const BULK_THRESHOLD: usize = 64;

/// Bytes that a key costs besides its own heap bytes and its value's.
pub const ENTRY_OVERHEAD: u64 = 96;

/// What a key holds.
pub enum Value {
    /// A string.
    Str(Vec<u8>),
    /// A string that is the decimal text of a number.
    Int(i64),
    /// A long string that readers can share.
    ArcBulk(Arc<Vec<u8>>),
    /// A hash.
    Hash(Arc<HashData>),
    /// A big hash.
    SegHash(Arc<SegTable<Vec<u8>>>),
    /// A tiny hash.
    SmallHashInline(SmallHashData),
    /// A row of a declared table.
    PackedRow(PackedRow),
    /// A list.
    List(Arc<FlatList>),
    /// A big list.
    SegList(Arc<SegList>),
    /// A tiny list.
    SmallListInline(SmallListData),
    /// A set.
    FlatSet(Arc<SetData>),
    /// A big set.
    SegSet(Arc<SegTable<Present>>),
    /// A tiny set.
    SmallSetInline(SmallSetData),
    /// A sorted set.
    ZSet(Arc<ZSetData>),
    /// A tiny sorted set.
    SmallZSetInline(SmallZSetData),
    /// A stream.
    Stream(Arc<StreamData>),
    /// A stub for a value that is not in memory.
    Cold(ColdRef),
}

/// What a key holds, mathematically: the encoding does not matter.
pub enum Val {
    /// A string.
    Str(Seq<u8>),
    /// A hash: field to value.
    Hash(Map<Seq<u8>, Seq<u8>>),
    /// A list, front to back.
    List(Seq<Seq<u8>>),
    /// A set.
    Members(Set<Seq<u8>>),
    /// A sorted set: member to score.
    Sorted(Map<Seq<u8>, crate::score::Score>),
    /// A stream.
    Stream(crate::stream::StreamModel),
    /// A value that is not in memory.
    Cold(ColdRef),
}

/// The pairs of a declared row.
pub open spec fn row_pairs(r: PackedRow) -> Seq<(Seq<u8>, Seq<u8>)> {
    crate::packed_row::present_fields(r.col_names(), r@, r@.len())
}

/// Whether no two columns have the same name.
pub open spec fn names_distinct(names: Seq<Vec<u8>>) -> bool {
    forall|i: int, j: int|
        #![trigger names[i], names[j]]
        0 <= i < j < names.len() ==> names[i]@ != names[j]@
}

impl View for Value {
    type V = Val;

    open spec fn view(&self) -> Val {
        match self {
            Value::Str(v) => Val::Str(v@),
            Value::Int(n) => Val::Str(crate::text::decimal(*n as int)),
            Value::ArcBulk(a) => Val::Str(a@),
            Value::Hash(h) => Val::Hash(h@),
            Value::SegHash(h) => Val::Hash(h@),
            Value::SmallHashInline(h) => Val::Hash(crate::small_hash::pairs_map(h@)),
            Value::PackedRow(r) => Val::Hash(crate::small_hash::pairs_map(row_pairs(*r))),
            Value::List(l) => Val::List(l@),
            Value::SegList(l) => Val::List(l@),
            Value::SmallListInline(l) => Val::List(l@),
            Value::FlatSet(s) => Val::Members(s@.dom()),
            Value::SegSet(s) => Val::Members(s@.dom()),
            Value::SmallSetInline(s) => Val::Members(s@.to_set()),
            Value::ZSet(z) => Val::Sorted(z@),
            Value::SmallZSetInline(z) => Val::Sorted(crate::small_zset::members_map(z@)),
            Value::Stream(s) => Val::Stream(s@),
            Value::Cold(c) => Val::Cold(*c),
        }
    }
}

impl Value {
    /// Whether the value is a big collection that is cut in parts.
    pub open spec fn in_parts(&self) -> bool {
        self is SegList || self is SegSet || self is SegHash
    }

    /// The container is well-formed.
    pub open spec fn wf(&self) -> bool {
        match self {
            Value::Str(_v) => true,
            Value::Int(_n) => true,
            Value::ArcBulk(_a) => true,
            Value::Hash(h) => h.wf(),
            Value::SegHash(h) => h.wf(),
            Value::SmallHashInline(h) => h.wf(),
            Value::PackedRow(r) => r.wf() && names_distinct(r.col_names()),
            Value::List(l) => l.wf(),
            Value::SegList(l) => l.wf(),
            Value::SmallListInline(l) => l.wf(),
            Value::FlatSet(s) => s.wf(),
            Value::SegSet(s) => s.wf(),
            Value::SmallSetInline(s) => s.wf(),
            Value::ZSet(z) => z.wf(),
            Value::SmallZSetInline(z) => z.wf(),
            Value::Stream(s) => s.wf(),
            Value::Cold(_c) => true,
        }
    }

    /// The bytes that the value costs: those of the heap that it holds on
    /// to, with a flat rate for each slot of a container. A tiny hash costs
    /// the bytes that its pairs take.
    pub open spec fn cost(&self) -> nat {
        match self {
            Value::Str(v) => crate::bytes::heap_bytes_spec(v@.len()),
            Value::Int(_n) => 0,
            Value::ArcBulk(a) => a@.len(),
            Value::Hash(h) => crate::table::table_cost::<Vec<u8>>(h@),
            Value::SegHash(h) => crate::table::table_cost::<Vec<u8>>(h@),
            Value::SmallHashInline(h) => crate::small_hash::packed_size(h@),
            Value::PackedRow(r) => 2 + crate::packed_row::bitmap_len(r@.len()) + 2 * r@.len()
                + crate::packed_row::payload_len(r@)
                + crate::packed_row::PACKED_INNER_BYTES as nat,
            Value::List(l) => crate::list_data::items_weight(l@),
            Value::SegList(l) => crate::list_data::items_weight(l@),
            Value::SmallListInline(_l) => 0,
            Value::FlatSet(s) => crate::table::table_cost::<Present>(s@),
            Value::SegSet(s) => crate::table::table_cost::<Present>(s@),
            Value::SmallSetInline(_s) => 0,
            Value::ZSet(z) => crate::sorted::zset_cost(z@),
            Value::SmallZSetInline(_z) => 0,
            Value::Stream(s) => crate::stream::stream_cost(s@),
            Value::Cold(_c) => 0,
        }
    }

    /// The bytes that the value costs, at most `u64::MAX`.
    pub fn weight(&self) -> (r: u64)
        requires
            self.wf(),
        ensures
            r == crate::list_data::capped(self.cost()),
    {
        match self {
            Value::Str(v) => heap_bytes(v.len()),
            Value::Int(_n) => 0,
            Value::ArcBulk(a) => a.len() as u64,
            Value::Hash(h) => h.weight(),
            Value::SegHash(h) => h.weight(),
            Value::SmallHashInline(h) => h.packed_len() as u64,
            Value::PackedRow(r) => r.heap_bytes() as u64,
            Value::List(l) => l.weight(),
            Value::SegList(l) => l.weight(),
            Value::SmallListInline(_l) => 0,
            Value::FlatSet(s) => s.weight(),
            Value::SegSet(s) => s.weight(),
            Value::SmallSetInline(_s) => 0,
            Value::ZSet(z) => z.weight(),
            Value::SmallZSetInline(_z) => 0,
            Value::Stream(s) => s.weight(),
            Value::Cold(_c) => 0,
        }
    }

    /// The name of the value's type.
    pub fn kind_name(&self) -> (r: &'static str)
        ensures
            r@ == kind_name_spec(self@),
    {
        match self {
            Value::Str(_) | Value::Int(_) | Value::ArcBulk(_) => "string",
            Value::Hash(_) | Value::SegHash(_) | Value::SmallHashInline(_) | Value::PackedRow(
                _,
            ) => "hash",
            Value::List(_) | Value::SegList(_) | Value::SmallListInline(_) => "list",
            Value::FlatSet(_) | Value::SegSet(_) | Value::SmallSetInline(_) => "set",
            Value::ZSet(_) | Value::SmallZSetInline(_) => "zset",
            Value::Stream(_) => "stream",
            Value::Cold(c) => match c.kind {
                ColdKind::Str => "string",
                ColdKind::Hash => "hash",
            },
        }
    }

    /// Whether the value is a string.
    pub fn is_string(&self) -> (r: bool)
        ensures
            r == (self@ is Str),
    {
        match self {
            Value::Str(_) | Value::Int(_) | Value::ArcBulk(_) => true,
            _ => false,
        }
    }

    /// Whether the value is a hash.
    pub fn is_hash(&self) -> (r: bool)
        ensures
            r == (self@ is Hash),
    {
        match self {
            Value::Hash(_) | Value::SegHash(_) | Value::SmallHashInline(_) | Value::PackedRow(
                _,
            ) => true,
            _ => false,
        }
    }

    /// Whether the value is a list.
    pub fn is_list(&self) -> (r: bool)
        ensures
            r == (self@ is List),
    {
        match self {
            Value::List(_) | Value::SegList(_) | Value::SmallListInline(_) => true,
            _ => false,
        }
    }

    /// Whether the value is a set.
    pub fn is_set(&self) -> (r: bool)
        ensures
            r == (self@ is Members),
    {
        match self {
            Value::FlatSet(_) | Value::SegSet(_) | Value::SmallSetInline(_) => true,
            _ => false,
        }
    }

    /// Whether the value is a sorted set.
    pub fn is_zset(&self) -> (r: bool)
        ensures
            r == (self@ is Sorted),
    {
        match self {
            Value::ZSet(_) | Value::SmallZSetInline(_) => true,
            _ => false,
        }
    }

    /// The bytes of a string.
    pub fn string_bytes(&self) -> (r: Vec<u8>)
        requires
            self@ is Str,
        ensures
            r@ == self@->Str_0,
    {
        match self {
            Value::Str(v) => copy_bytes(v.as_slice()),
            Value::Int(n) => format_i64(*n),
            Value::ArcBulk(a) => copy_bytes(a.as_slice()),
            _ => Vec::new(),
        }
    }

    /// A string in the encoding that suits its bytes: a number if they are
    /// the text of one, else shared if they are many, else plain.
    pub fn pick(bytes: Vec<u8>) -> (r: Value)
        ensures
            r.wf(),
            r@ == Val::Str(bytes@),
            suits(bytes@, r),
    {
        match parse_canonical_i64(bytes.as_slice()) {
            Some(n) => Value::Int(n),
            None => if bytes.len() > BULK_THRESHOLD {
                Value::ArcBulk(Arc::new(bytes))
            } else {
                Value::Str(bytes)
            },
        }
    }

    /// A string kept as bytes, whatever they spell: plain if there are none,
    /// else shared.
    pub fn raw(bytes: Vec<u8>) -> (r: Value)
        ensures
            r.wf(),
            r@ == Val::Str(bytes@),
            bytes@.len() > 0 ==> r is ArcBulk,
    {
        if bytes.len() == 0 {
            Value::Str(bytes)
        } else {
            Value::ArcBulk(Arc::new(bytes))
        }
    }
}

/// Whether a string has the encoding that suits its bytes.
pub open spec fn suits(bytes: Seq<u8>, r: Value) -> bool {
    match crate::text::canonical_i64_spec(bytes) {
        Some(n) => r == Value::Int(n),
        None => if bytes.len() > BULK_THRESHOLD {
            r is ArcBulk
        } else {
            r is Str
        },
    }
}

/// The name of a value's type.
pub open spec fn kind_name_spec(v: Val) -> Seq<char> {
    match v {
        Val::Str(_s) => "string"@,
        Val::Hash(_m) => "hash"@,
        Val::List(_l) => "list"@,
        Val::Members(_s) => "set"@,
        Val::Sorted(_m) => "zset"@,
        Val::Stream(_s) => "stream"@,
        Val::Cold(c) => match c.kind {
            ColdKind::Str => "string"@,
            ColdKind::Hash => "hash"@,
        },
    }
}

/// Whether two values have the same encoding.
pub open spec fn same_form(a: Value, b: Value) -> bool {
    match a {
        Value::Str(_) => b is Str,
        Value::Int(_) => b is Int,
        Value::ArcBulk(_) => b is ArcBulk,
        Value::Hash(_) => b is Hash,
        Value::SegHash(_) => b is SegHash,
        Value::SmallHashInline(_) => b is SmallHashInline,
        Value::PackedRow(_) => b is PackedRow,
        Value::List(_) => b is List,
        Value::SegList(_) => b is SegList,
        Value::SmallListInline(_) => b is SmallListInline,
        Value::FlatSet(_) => b is FlatSet,
        Value::SegSet(_) => b is SegSet,
        Value::SmallSetInline(_) => b is SmallSetInline,
        Value::ZSet(_) => b is ZSet,
        Value::SmallZSetInline(_) => b is SmallZSetInline,
        Value::Stream(_) => b is Stream,
        Value::Cold(_) => b is Cold,
    }
}

impl Clone for Value {
    fn clone(&self) -> (r: Self)
        ensures
            r@ == self@,
            r.wf() == self.wf(),
            r.cost() == self.cost(),
            same_form(*self, r),
    {
        match self {
            Value::Str(v) => Value::Str(copy_bytes(v.as_slice())),
            Value::Int(n) => Value::Int(*n),
            Value::ArcBulk(a) => Value::ArcBulk(share(a)),
            Value::Hash(h) => Value::Hash(share(h)),
            Value::SegHash(h) => Value::SegHash(share(h)),
            Value::SmallHashInline(h) => Value::SmallHashInline(h.clone()),
            Value::PackedRow(r) => Value::PackedRow(r.clone()),
            Value::List(l) => Value::List(share(l)),
            Value::SegList(l) => Value::SegList(share(l)),
            Value::SmallListInline(l) => Value::SmallListInline(l.clone()),
            Value::FlatSet(s) => Value::FlatSet(share(s)),
            Value::SegSet(s) => Value::SegSet(share(s)),
            Value::SmallSetInline(s) => Value::SmallSetInline(s.clone()),
            Value::ZSet(z) => Value::ZSet(share(z)),
            Value::SmallZSetInline(z) => Value::SmallZSetInline(z.clone()),
            Value::Stream(s) => Value::Stream(share(s)),
            Value::Cold(c) => Value::Cold(*c),
        }
    }
}

} // verus!
