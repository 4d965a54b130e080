//! What values cost, and in which encodings strings are kept.
use vstd::prelude::*;
use crate::bytes::heap_bytes_spec;
use crate::list_data::items_weight;
use crate::payload::Present;
use crate::score::Score;
use crate::sorted::zset_cost;
use crate::store::Store;
use crate::stream::{entry_cost, stream_cost, StreamModel};
use crate::stream_id::StreamId;
use crate::table::table_cost;
use crate::value::{suits, Value};

verus! {

/// A string of up to 22 bytes costs nothing beside its slot; a longer one
/// costs all its bytes.
pub proof fn lemma_short_strings(n: nat)
    ensures
        n <= 22 <==> heap_bytes_spec(n) == 0,
        n > 22 ==> heap_bytes_spec(n) == n,
{
}

/// A string that is a number is kept as one; of the others, those of up to 64
/// bytes are kept in place and longer ones are shared.
pub proof fn lemma_string_forms(bytes: Seq<u8>, n: i64, r: Value)
    ensures
        suits(crate::text::decimal(n as int), r) <==> r == Value::Int(n),
        crate::text::canonical_i64_spec(bytes) is None && bytes.len() <= 64 ==> (suits(bytes, r)
            <==> r is Str),
        crate::text::canonical_i64_spec(bytes) is None && bytes.len() > 64 ==> (suits(bytes, r)
            <==> r is ArcBulk),
{
    super::numbers::lemma_canonical(crate::text::decimal(n as int), n);
}

/// A list costs 24 bytes for each element and the bytes of the element,
/// wherever it stands.
pub proof fn lemma_list_cost(a: Seq<Seq<u8>>, x: Seq<u8>, b: Seq<Seq<u8>>)
    ensures
        items_weight(a + seq![x] + b) == items_weight(a + b) + 24 + x.len(),
        items_weight(Seq::empty()) == 0,
{
    crate::list_data::lemma_items_weight_add(a + seq![x], b);
    crate::list_data::lemma_items_weight_add(a, seq![x]);
    crate::list_data::lemma_items_weight_add(a, b);
    crate::list_data::lemma_items_weight_one(x);
}

/// One more field costs a hash 48 bytes and the heap bytes of the field and
/// its value.
pub proof fn lemma_hash_cost(m: Map<Seq<u8>, Seq<u8>>, f: Seq<u8>, v: Seq<u8>)
    requires
        m.dom().finite(),
        !m.dom().contains(f),
    ensures
        table_cost::<Vec<u8>>(m.insert(f, v)) == table_cost::<Vec<u8>>(m) + 48 + heap_bytes_spec(
            f.len(),
        ) + heap_bytes_spec(v.len()),
        table_cost::<Vec<u8>>(Map::empty()) == 0,
{
    let c = crate::table::pair_costs::<Vec<u8>>(m);
    let d = crate::table::pair_costs::<Vec<u8>>(m.insert(f, v));
    assert(c.dom() =~= m.dom());
    let n = 48 + heap_bytes_spec(f.len()) + heap_bytes_spec(v.len());
    assert(d =~= c.insert(f, n));
    crate::weigh::lemma_total_insert(c, f, n);
    assert(crate::table::pair_costs::<Vec<u8>>(Map::empty()) =~= Map::empty());
    crate::weigh::lemma_total_empty::<Seq<u8>>();
}

/// One more member costs a set 24 bytes and the heap bytes of the member.
pub proof fn lemma_set_cost(m: Map<Seq<u8>, Seq<u8>>, k: Seq<u8>)
    requires
        m.dom().finite(),
        !m.dom().contains(k),
    ensures
        table_cost::<Present>(m.insert(k, Seq::empty())) == table_cost::<Present>(m) + 24
            + heap_bytes_spec(k.len()),
        table_cost::<Present>(Map::empty()) == 0,
{
    let c = crate::table::pair_costs::<Present>(m);
    let d = crate::table::pair_costs::<Present>(m.insert(k, Seq::empty()));
    assert(c.dom() =~= m.dom());
    let n = 24 + heap_bytes_spec(k.len());
    assert(d =~= c.insert(k, n));
    crate::weigh::lemma_total_insert(c, k, n);
    assert(crate::table::pair_costs::<Present>(Map::empty()) =~= Map::empty());
    crate::weigh::lemma_total_empty::<Seq<u8>>();
}

/// One more member costs a sorted set 64 bytes and the heap bytes of the
/// member, whatever its score.
pub proof fn lemma_sorted_cost(m: Map<Seq<u8>, Score>, k: Seq<u8>, s: Score)
    requires
        m.dom().finite(),
        !m.dom().contains(k),
    ensures
        zset_cost(m.insert(k, s)) == zset_cost(m) + 64 + heap_bytes_spec(k.len()),
        zset_cost(Map::empty()) == 0,
{
    let b = crate::sorted::score_bytes(m);
    let e = crate::sorted::score_bytes(m.insert(k, s));
    let c = crate::table::pair_costs::<Score>(b);
    let d = crate::table::pair_costs::<Score>(e);
    assert(c.dom() =~= m.dom());
    assert forall|x: Score| (#[trigger] crate::payload::Payload::model(&x)).len() == 8 by {
        crate::le::lemma_le_len(x.rank() as nat, 8);
    }
    let n = 64 + heap_bytes_spec(k.len());
    assert(crate::payload::Payload::model(&s).len() == 8);
    assert(e[k].len() == 8);
    assert(d =~= c.insert(k, n));
    crate::weigh::lemma_total_insert(c, k, n);
    assert(crate::table::pair_costs::<Score>(crate::sorted::score_bytes(Map::empty()))
        =~= Map::empty());
    crate::weigh::lemma_total_empty::<Seq<u8>>();
}

/// One more entry costs a stream 88 bytes, and 48 and the heap bytes for each
/// of its pairs.
pub proof fn lemma_stream_cost(
    s: StreamModel,
    id: StreamId,
    fs: Seq<(Seq<u8>, Seq<u8>)>,
    f: Seq<u8>,
    v: Seq<u8>,
)
    requires
        s.entries.dom().finite(),
        !s.entries.dom().contains(id),
    ensures
        stream_cost(crate::stream::appended(s, id, fs)) == stream_cost(s) + entry_cost(fs),
        entry_cost(Seq::empty()) == 88,
        entry_cost(fs.push((f, v))) == entry_cost(fs) + 48 + heap_bytes_spec(f.len())
            + heap_bytes_spec(v.len()),
{
    let c = crate::stream::entry_costs(s.entries);
    let d = crate::stream::entry_costs(s.entries.insert(id, fs));
    assert(c.dom() =~= s.entries.dom());
    assert(d =~= c.insert(id, entry_cost(fs)));
    crate::weigh::lemma_total_insert(c, id, entry_cost(fs));
    assert(fs.push((f, v)).drop_last() =~= fs);
}

/// A list that grows past 16384 elements is cut in parts.
pub proof fn lemma_cut_in_parts(before: Store, after: Store, key: Seq<u8>)
    requires
        crate::store::lists::push_form(before, after, key),
    ensures
        after.held(key).items().len() > 16384 ==> after.held(key) is SegList,
        !before@.slots.dom().contains(key) && after.held(key).items().len() <= 16384 ==> !(
        after.held(key) is SegList),
{
}

/// The same of what is loaded.
pub proof fn lemma_loaded_in_parts(from: Value, to: Value)
    requires
        crate::store::keyspace::load_form(from, to),
    ensures
        from is List ==> (to is SegList <==> from.items().len() > 16384),
        from is FlatSet ==> (to is SegSet <==> from.members().len() > 16384),
        from is Hash ==> (to is SegHash <==> from.fields().dom().len() > 16384),
{
}

} // verus!
