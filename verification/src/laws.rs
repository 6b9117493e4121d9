//! General properties of the container, stated over its abstract state and
//! proved once for all inputs.

use vstd::prelude::*;

use crate::varint::lemma_varint_dec_enc;
use crate::varint::lemma_varint_enc_len;
use crate::varint::varint_dec;
use crate::varint::varint_enc;

verus! {

/// The abstract state reached by pushing the elements of `vs`, in order,
/// at the back of a list in state `es`.
pub open spec fn after_push_back_all(es: Seq<Seq<u8>>, vs: Seq<Seq<u8>>) -> Seq<Seq<u8>>
    decreases vs.len(),
{
    if vs.len() == 0 {
        es
    } else {
        after_push_back_all(es.push(vs[0]), vs.drop_first())
    }
}

/// The abstract state reached by pushing the elements of `vs`, in order,
/// at the front of a list in state `es`.
pub open spec fn after_push_front_all(es: Seq<Seq<u8>>, vs: Seq<Seq<u8>>) -> Seq<Seq<u8>>
    decreases vs.len(),
{
    if vs.len() == 0 {
        es
    } else {
        after_push_front_all(es.insert(0, vs[0]), vs.drop_first())
    }
}

/// Pushing at the back appends: starting from `es`, pushing v1..vn in
/// order leaves `es` followed by v1..vn.
pub proof fn lemma_push_back_all(es: Seq<Seq<u8>>, vs: Seq<Seq<u8>>)
    ensures
        after_push_back_all(es, vs) == es + vs,
    decreases vs.len(),
{
    if vs.len() == 0 {
        assert(es + vs =~= es);
    } else {
        lemma_push_back_all(es.push(vs[0]), vs.drop_first());
        assert(es.push(vs[0]) + vs.drop_first() =~= es + vs);
    }
}

/// Pushed at the back of an empty list, v1..vn land in order: the list
/// then has n elements and element i - 1 is vi.
pub proof fn lemma_push_back_order(vs: Seq<Seq<u8>>)
    ensures
        after_push_back_all(Seq::empty(), vs) == vs,
        after_push_back_all(Seq::empty(), vs).len() == vs.len(),
        forall|i: int| 0 <= i < vs.len() ==> after_push_back_all(Seq::empty(), vs)[i] == vs[i],
{
    lemma_push_back_all(Seq::empty(), vs);
    assert(Seq::empty() + vs =~= vs);
}

/// Pushing at the front reverses: starting from `es`, pushing v1..vn in
/// order leaves vn..v1 followed by `es`.
pub proof fn lemma_push_front_all(es: Seq<Seq<u8>>, vs: Seq<Seq<u8>>)
    ensures
        after_push_front_all(es, vs) == vs.reverse() + es,
    decreases vs.len(),
{
    if vs.len() == 0 {
        assert(vs.reverse() + es =~= es);
    } else {
        let t = vs.drop_first();
        lemma_push_front_all(es.insert(0, vs[0]), t);
        assert(es.insert(0, vs[0]) =~= seq![vs[0]] + es);
        assert(vs.reverse() =~= t.reverse().push(vs[0]));
        assert(t.reverse() + (seq![vs[0]] + es) =~= vs.reverse() + es);
    }
}

/// Pushed at the front of an empty list, v1..vn land in reverse order: the
/// list then has n elements, element 0 is vn, and element n - 1 is v1.
pub proof fn lemma_push_front_order(vs: Seq<Seq<u8>>)
    ensures
        after_push_front_all(Seq::empty(), vs) == vs.reverse(),
        after_push_front_all(Seq::empty(), vs).len() == vs.len(),
        forall|i: int|
            0 <= i < vs.len() ==> after_push_front_all(Seq::empty(), vs)[i] == vs[vs.len() - 1
                - i],
{
    lemma_push_front_all(Seq::empty(), vs);
    assert(vs.reverse() + Seq::<Seq<u8>>::empty() =~= vs.reverse());
}

/// Varint round trip: decoding the encoding of any length yields the
/// length back and consumes exactly the encoding's bytes.
pub proof fn lemma_varint_round_trip(v: usize)
    ensures
        varint_dec(varint_enc(v as nat)) == Some((v, varint_enc(v as nat).len() as usize)),
{
    lemma_varint_enc_len(v as nat);
    lemma_varint_dec_enc(v, Seq::empty());
    assert(varint_enc(v as nat) + Seq::<u8>::empty() =~= varint_enc(v as nat));
}

/// A cleared list and a freshly constructed one share the abstract state,
/// the empty sequence, and every operation's contract depends on the
/// abstract state alone, so the two behave identically from then on; in
/// particular any first push lands the same element either way.
pub proof fn lemma_clear_like_new(cleared: Seq<Seq<u8>>, fresh: Seq<Seq<u8>>, v: Seq<u8>)
    requires
        cleared.len() == 0,
        fresh.len() == 0,
    ensures
        cleared == fresh,
        cleared.push(v) == fresh.push(v),
        cleared.insert(0, v) == fresh.insert(0, v),
{
    assert(cleared =~= fresh);
}

} // verus!
