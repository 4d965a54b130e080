//! What the tables of a hash or a set bind their keys to.
use vstd::prelude::*;
use crate::byte_map::ByteMap;

verus! {

/// A value that a table can hold: it stands for a byte string, and a clone
/// of it stands for the same one.
pub trait Payload: Clone {
    /// The byte string that the value stands for.
    spec fn model(&self) -> Seq<u8>;

    /// The bytes that a binding costs besides the heap bytes of its key and
    /// value.
    spec fn slot_spec() -> nat;

    /// A clone stands for the same byte string.
    proof fn lemma_clone(a: &Self, b: &Self)
        requires
            cloned(*a, *b),
        ensures
            a.model() == b.model(),
    ;

    /// The bytes that a binding costs besides the heap bytes of its key and
    /// value.
    fn slot_bytes() -> (r: u64)
        ensures
            r == Self::slot_spec(),
    ;

    /// The heap bytes of the value.
    fn heap_bytes(&self) -> (r: u64)
        ensures
            r == crate::bytes::heap_bytes_spec(self.model().len()),
    ;
}

/// Bytes that a field of a hash costs besides its heap bytes.
pub const HASH_SLOT_BYTES: u64 = 48;

/// Bytes that a member of a set costs besides its heap bytes.
pub const SET_SLOT_BYTES: u64 = 24;

impl Payload for Vec<u8> {
    open spec fn model(&self) -> Seq<u8> {
        self@
    }

    open spec fn slot_spec() -> nat {
        HASH_SLOT_BYTES as nat
    }

    proof fn lemma_clone(a: &Self, b: &Self) {
        crate::bytes::lemma_cloned_bytes(*a, *b);
    }

    fn slot_bytes() -> (r: u64) {
        HASH_SLOT_BYTES
    }

    fn heap_bytes(&self) -> (r: u64) {
        crate::bytes::heap_bytes(self.len())
    }
}

/// What a set binds its members to: nothing but their presence.
#[derive(Clone, Copy, Debug, PartialEq, Eq, Structural)]
pub struct Present;

impl Payload for Present {
    open spec fn model(&self) -> Seq<u8> {
        Seq::empty()
    }

    open spec fn slot_spec() -> nat {
        SET_SLOT_BYTES as nat
    }

    proof fn lemma_clone(a: &Self, b: &Self) {
    }

    fn slot_bytes() -> (r: u64) {
        SET_SLOT_BYTES
    }

    fn heap_bytes(&self) -> (r: u64) {
        0
    }
}

/// The byte strings that the values of a map stand for.
pub open spec fn model_map<V: Payload>(m: Map<Seq<u8>, V>) -> Map<Seq<u8>, Seq<u8>> {
    Map::new(|k: Seq<u8>| m.dom().contains(k), |k: Seq<u8>| m[k].model())
}

/// Inserting into and removing from a table does the same to its model.
pub proof fn lemma_model_map<V: Payload>(m: Map<Seq<u8>, V>, k: Seq<u8>, v: V)
    ensures
        model_map(m.insert(k, v)) == model_map(m).insert(k, v.model()),
        model_map(m.remove(k)) == model_map(m).remove(k),
        model_map(m).dom() == m.dom(),
{
    assert(model_map(m.insert(k, v)) =~= model_map(m).insert(k, v.model()));
    assert(model_map(m.remove(k)) =~= model_map(m).remove(k));
    assert(model_map(m).dom() =~= m.dom());
}

/// A clone of a table has the same model.
pub proof fn lemma_cloned_table<V: Payload>(a: ByteMap<V>, b: ByteMap<V>)
    requires
        a.wf(),
        a == b || cloned(a, b),
    ensures
        b.wf(),
        model_map(a@) == model_map(b@),
{
    if a != b {
        assert forall|k: Seq<u8>| #[trigger] a@.dom().contains(k) implies a@[k].model()
            == b@[k].model() by {
            assert(cloned(a@[k], b@[k]));
            V::lemma_clone(&a@[k], &b@[k]);
        }
        assert(model_map(a@) =~= model_map(b@));
    }
}

} // verus!
