//! Traversal over a list's payloads: forward, and backward by forward
//! scanning, since entries record no trailing size field.

use vstd::prelude::*;

use crate::entries::entries_enc;
use crate::entries::entry_enc;
use crate::entries::lemma_entries_enc_len;
use crate::entries::lemma_entries_enc_push;
use crate::entries::lemma_entry_at;
use crate::listpack::Listpack;

verus! {

/// An iterator over a list's payloads, borrowing the arena.
///
/// The byte region `[pos, end)` holds the serialized forms of exactly the
/// entries not yet yielded, which are the iterator's abstract state
/// `self@`; yielding from the front moves `pos`, yielding from the back
/// moves `end`.
pub struct ListpackIter<'a> {
    data: &'a [u8],
    pos: usize,
    end: usize,
    entries: Ghost<Seq<Seq<u8>>>,
}

impl<'a> View for ListpackIter<'a> {
    type V = Seq<Seq<u8>>;

    closed spec fn view(&self) -> Seq<Seq<u8>> {
        self.entries@
    }
}

impl<'a> ListpackIter<'a> {
    /// The iterator's invariant: the remaining region lies inside the
    /// borrowed bytes and holds exactly the remaining entries' serialized
    /// forms.
    pub closed spec fn wf(&self) -> bool {
        &&& self.pos <= self.end
        &&& self.end < self.data@.len()
        &&& self.data@.subrange(self.pos as int, self.end as int) == entries_enc(self.entries@)
    }

    /// An iterator over the entries serialized in `data[pos, end)`.
    pub(crate) fn make(data: &'a [u8], pos: usize, end: usize, entries: Ghost<Seq<Seq<u8>>>) -> (it:
        Self)
        requires
            pos <= end < data@.len(),
            data@.subrange(pos as int, end as int) == entries_enc(entries@),
        ensures
            it.wf(),
            it@ == entries@,
    {
        ListpackIter { data, pos, end, entries }
    }

    /// Returns the next payload from the front, or nothing once the
    /// traversal is done.
    pub fn next(&mut self) -> (r: Option<&'a [u8]>)
        requires
            old(self).wf(),
        ensures
            final(self).wf(),
            match r {
                Some(s) => old(self)@.len() > 0 && s@ == old(self)@[0] && final(self)@ == old(
                    self,
                )@.drop_first(),
                None => old(self)@.len() == 0 && final(self)@ == old(self)@,
            },
    {
        let ghost es = self.entries@;
        if self.pos >= self.end {
            proof {
                lemma_entries_enc_len(es);
            }
            return None;
        }
        let d = self.data;
        let dlen = d.len();
        proof {
            assert(self.end < dlen);
            if es.len() == 0 {
                assert(entries_enc(es).len() == 0);
            }
            lemma_entry_at(d@, self.pos as int, self.end + 1, es);
        }
        let slice = vstd::slice::slice_subrange(d, self.pos, self.end + 1);
        let (len, consumed) = Listpack::decode_varint(slice).unwrap();
        let start = self.pos + consumed;
        let s = vstd::slice::slice_subrange(d, start, start + len);
        self.pos = start + len;
        self.entries = Ghost(es.drop_first());
        Some(s)
    }

    /// Returns the next payload from the back, or nothing once the
    /// traversal is done. Entries record no trailing size field, so the
    /// last one is found by a forward scan over the remaining region.
    #[verifier::loop_isolation(false)]
    pub fn next_back(&mut self) -> (r: Option<&'a [u8]>)
        requires
            old(self).wf(),
        ensures
            final(self).wf(),
            match r {
                Some(s) => old(self)@.len() > 0 && s@ == old(self)@.last() && final(self)@ == old(
                    self,
                )@.drop_last(),
                None => old(self)@.len() == 0 && final(self)@ == old(self)@,
            },
    {
        let ghost es = self.entries@;
        if self.pos >= self.end {
            proof {
                lemma_entries_enc_len(es);
            }
            return None;
        }
        let d = self.data;
        let dlen = d.len();
        proof {
            assert(self.end < dlen);
            if es.len() == 0 {
                assert(entries_enc(es).len() == 0);
            }
            assert(es.skip(0) =~= es);
            assert(es.take(0) =~= Seq::<Seq<u8>>::empty());
            assert(d@.subrange(self.pos as int, self.pos as int) =~= Seq::<u8>::empty());
            lemma_entry_at(d@, self.pos as int, self.end + 1, es);
            lemma_entries_enc_push(Seq::<Seq<u8>>::empty(), es[0]);
            assert(Seq::<Seq<u8>>::empty().push(es[0]) =~= es.take(1));
            assert(entries_enc(Seq::<Seq<u8>>::empty()) + entry_enc(es[0]) =~= entry_enc(es[0]));
        }
        let slice0 = vstd::slice::slice_subrange(d, self.pos, self.end + 1);
        let first = Listpack::decode_varint(slice0).unwrap();
        let mut p = self.pos;
        let mut len = first.0;
        let mut consumed = first.1;
        let mut nxt = p + consumed + len;
        let ghost mut k: int = 0;
        while nxt < self.end
            invariant
                0 <= k < es.len(),
                self.pos <= p,
                p < self.end,
                nxt == p + consumed + len,
                nxt <= self.end,
                len == es[k].len(),
                d@.subrange(self.pos as int, p as int) == entries_enc(es.take(k)),
                d@.subrange(p as int, self.end as int) == entries_enc(es.skip(k)),
                d@.subrange(self.pos as int, nxt as int) == entries_enc(es.take(k + 1)),
                d@.subrange(nxt as int, self.end as int) == entries_enc(es.skip(k + 1)),
                d@.subrange(p + consumed, p + consumed + len) == es[k],
            decreases self.end - nxt,
        {
            proof {
                if es.skip(k + 1).len() == 0 {
                    assert(entries_enc(es.skip(k + 1)).len() == 0);
                }
                assert(k + 1 < es.len());
                lemma_entry_at(d@, nxt as int, self.end + 1, es.skip(k + 1));
            }
            p = nxt;
            proof {
                k = k + 1;
            }
            let slice = vstd::slice::slice_subrange(d, p, self.end + 1);
            let dec = Listpack::decode_varint(slice).unwrap();
            len = dec.0;
            consumed = dec.1;
            nxt = p + consumed + len;
            proof {
                assert(es.skip(k)[0] == es[k]);
                assert(es.skip(k).drop_first() =~= es.skip(k + 1));
                lemma_entries_enc_push(es.take(k), es[k]);
                assert(es.take(k).push(es[k]) =~= es.take(k + 1));
                assert(d@.subrange(self.pos as int, nxt as int) =~= d@.subrange(
                    self.pos as int,
                    p as int,
                ) + d@.subrange(p as int, nxt as int));
            }
        }
        proof {
            lemma_entries_enc_len(es.skip(k + 1));
            assert(entries_enc(es.skip(k + 1)).len() == 0);
            assert(es.skip(k + 1).len() == 0);
            assert(k == es.len() - 1);
            assert(es[k] == es.last());
            assert(es.take(k) =~= es.drop_last());
        }
        let start = p + consumed;
        let s = vstd::slice::slice_subrange(d, start, start + len);
        self.end = p;
        self.entries = Ghost(es.drop_last());
        Some(s)
    }
}

} // verus!
