//! The serialized form of a sequence of entries: each entry is a varint
//! length prefix followed by its payload bytes, and entries sit back to back
//! with no gaps.

use vstd::prelude::*;

use crate::varint::lemma_varint_dec_enc;
use crate::varint::lemma_varint_enc_len;
use crate::varint::varint_dec;
use crate::varint::varint_enc;
use crate::varint::varint_len;

verus! {

/// The serialized form of one entry: varint length prefix, then the payload.
pub open spec fn entry_enc(p: Seq<u8>) -> Seq<u8> {
    varint_enc(p.len()) + p
}

/// The serialized form of a sequence of entries, back to back.
pub open spec fn entries_enc(es: Seq<Seq<u8>>) -> Seq<u8>
    decreases es.len(),
{
    if es.len() == 0 {
        Seq::empty()
    } else {
        entry_enc(es[0]) + entries_enc(es.drop_first())
    }
}

/// Prepending one entry prepends its serialized form.
pub proof fn lemma_entries_enc_cons(p: Seq<u8>, es: Seq<Seq<u8>>)
    ensures
        entries_enc(seq![p] + es) == entry_enc(p) + entries_enc(es),
{
    assert((seq![p] + es).drop_first() =~= es);
    assert((seq![p] + es)[0] == p);
}

/// Serialization distributes over concatenation.
pub proof fn lemma_entries_enc_concat(a: Seq<Seq<u8>>, b: Seq<Seq<u8>>)
    ensures
        entries_enc(a + b) == entries_enc(a) + entries_enc(b),
    decreases a.len(),
{
    if a.len() == 0 {
        assert(a + b =~= b);
        assert(entries_enc(a) + entries_enc(b) =~= entries_enc(b));
    } else {
        lemma_entries_enc_concat(a.drop_first(), b);
        assert((a + b).drop_first() =~= a.drop_first() + b);
        assert((a + b)[0] == a[0]);
        assert(entry_enc(a[0]) + (entries_enc(a.drop_first()) + entries_enc(b)) =~= (entry_enc(
            a[0],
        ) + entries_enc(a.drop_first())) + entries_enc(b));
    }
}

/// Appending one entry appends its serialized form.
pub proof fn lemma_entries_enc_push(es: Seq<Seq<u8>>, p: Seq<u8>)
    ensures
        entries_enc(es.push(p)) == entries_enc(es) + entry_enc(p),
{
    assert(es.push(p) =~= es + seq![p]);
    lemma_entries_enc_concat(es, seq![p]);
    assert(seq![p].drop_first() =~= Seq::<Seq<u8>>::empty());
    assert(seq![p][0] == p);
    assert(entries_enc(Seq::<Seq<u8>>::empty()) == Seq::<u8>::empty());
    assert(entries_enc(seq![p]) == entry_enc(p) + Seq::<u8>::empty());
    assert(entry_enc(p) + Seq::<u8>::empty() =~= entry_enc(p));
}

/// Each entry contributes at least one byte beyond its payload, so the
/// serialized form is at least as long as the entry count, and no payload
/// outgrows the whole.
pub proof fn lemma_entries_enc_len(es: Seq<Seq<u8>>)
    ensures
        entries_enc(es).len() >= es.len(),
        es.len() > 0 ==> entries_enc(es).len() >= 1 + es[0].len(),
    decreases es.len(),
{
    if es.len() > 0 {
        lemma_entries_enc_len(es.drop_first());
        lemma_varint_enc_len(es[0].len());
    }
}

/// Decoding the serialized form of a non-empty entry sequence, whatever
/// follows it: the varint header yields the first payload's length, the
/// payload bytes follow the header, and the remaining entries' serialized
/// form follows the payload.
pub proof fn lemma_first_entry(es: Seq<Seq<u8>>, rest: Seq<u8>)
    requires
        es.len() > 0,
        es[0].len() <= usize::MAX,
    ensures
        ({
            let s = entries_enc(es) + rest;
            let hl = varint_len(es[0].len()) as int;
            let pl = es[0].len() as int;
            &&& varint_dec(s) == Some((es[0].len() as usize, varint_len(es[0].len()) as usize))
            &&& hl + pl <= s.len()
            &&& s.subrange(hl, hl + pl) == es[0]
            &&& s.skip(hl + pl) == entries_enc(es.drop_first()) + rest
        }),
{
    let s = entries_enc(es) + rest;
    let p = es[0];
    let hl = varint_len(p.len()) as int;
    let pl = p.len() as int;
    lemma_varint_enc_len(p.len());
    let tail_bytes = p + (entries_enc(es.drop_first()) + rest);
    assert(s =~= varint_enc(p.len()) + tail_bytes);
    lemma_varint_dec_enc(p.len() as usize, tail_bytes);
    assert((p.len() as usize) as nat == p.len());
    assert(s.subrange(hl, hl + pl) =~= p);
    assert(s.skip(hl + pl) =~= entries_enc(es.drop_first()) + rest);
}

/// Reading the first of the entries serialized in `d[pos, tail - 1)`:
/// decoding a varint at `pos` (in a slice reaching `tail`) yields the first
/// payload's length; the payload bytes follow the header; the remaining
/// entries' serialized form fills the rest of the region.
pub proof fn lemma_entry_at(d: Seq<u8>, pos: int, tail: int, es: Seq<Seq<u8>>)
    requires
        0 <= pos < tail <= d.len(),
        tail - 1 - pos <= usize::MAX,
        d.subrange(pos, tail - 1) == entries_enc(es),
        es.len() > 0,
    ensures
        ({
            let hl = varint_len(es[0].len()) as int;
            let pl = es[0].len() as int;
            &&& varint_dec(d.subrange(pos, tail)) == Some(
                (es[0].len() as usize, varint_len(es[0].len()) as usize),
            )
            &&& 1 <= hl
            &&& pos + hl + pl <= tail - 1
            &&& d.subrange(pos + hl, pos + hl + pl) == es[0]
            &&& d.subrange(pos, pos + hl + pl) == entry_enc(es[0])
            &&& d.subrange(pos + hl + pl, tail - 1) == entries_enc(es.drop_first())
        }),
{
    lemma_entries_enc_len(es);
    let l0 = es[0].len();
    lemma_varint_enc_len(l0);
    let hl = varint_len(l0) as int;
    let pl = l0 as int;
    let rest = d.subrange(tail - 1, tail);
    lemma_first_entry(es, rest);
    let s = entries_enc(es) + rest;
    assert(d.subrange(pos, tail) =~= s);
    assert(entries_enc(es) == entry_enc(es[0]) + entries_enc(es.drop_first()));
    assert(hl + pl + entries_enc(es.drop_first()).len() == tail - 1 - pos);
    assert(d.subrange(pos + hl, pos + hl + pl) =~= s.subrange(hl, hl + pl));
    assert(d.subrange(pos, pos + hl + pl) =~= entry_enc(es[0])) by {
        assert forall|t: int| 0 <= t < hl + pl implies d.subrange(pos, pos + hl + pl)[t]
            == entry_enc(es[0])[t] by {
            assert(d.subrange(pos, pos + hl + pl)[t] == d[pos + t]);
            assert(d.subrange(pos, tail - 1)[t] == d[pos + t]);
            assert(entries_enc(es)[t] == (entry_enc(es[0]) + entries_enc(es.drop_first()))[t]);
        }
    }
    assert(d.subrange(pos + hl + pl, tail - 1) =~= entries_enc(es.drop_first())) by {
        let w = entries_enc(es.drop_first());
        assert forall|t: int| 0 <= t < w.len() implies d.subrange(pos + hl + pl, tail - 1)[t]
            == w[t] by {
            assert(d.subrange(pos + hl + pl, tail - 1)[t] == d[pos + hl + pl + t]);
            assert(d.subrange(pos, tail - 1)[hl + pl + t] == d[pos + hl + pl + t]);
            assert(entries_enc(es)[hl + pl + t] == (entry_enc(es[0]) + w)[hl + pl + t]);
        }
    }
}

} // verus!
