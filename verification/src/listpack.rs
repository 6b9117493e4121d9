//! The container: one growable byte arena holding back-to-back serialized
//! entries between `head` and `tail`, with a terminator byte at `tail - 1`.

use vstd::prelude::*;

use crate::entries::entries_enc;
use crate::entries::lemma_entries_enc_concat;
use crate::entries::lemma_entries_enc_cons;
use crate::entries::lemma_entries_enc_len;
use crate::entries::lemma_entries_enc_push;
use crate::entries::lemma_entry_at;
use crate::intcode::encode_integer;
use crate::intcode::int_dec;
use crate::intcode::int_enc;
use crate::intcode::int_width;
use crate::intcode::lemma_le_bytes_len;
use crate::intcode::lemma_le_val_bound;
use crate::intcode::lemma_pow256_values;
use crate::intcode::read_le;
use crate::intcode::to_unsigned;
use crate::intcode::INT16_TAG;
use crate::intcode::INT24_TAG;
use crate::intcode::INT32_TAG;
use crate::intcode::INT64_TAG;
use crate::intcode::INT8_TAG;
use crate::iter::ListpackIter;
use crate::varint::lemma_varint_enc_len;
use crate::varint::lemma_varint_len_max;
use crate::varint::lemma_low_val_bound;
use crate::varint::lemma_low_val_snoc;
use crate::varint::lemma_pow128_pos;
use crate::varint::lemma_varint_dec_cont;
use crate::varint::lemma_varint_dec_low;
use crate::varint::lemma_varint_dec_unroll;
use crate::varint::low_val;
use crate::varint::pow128;
use crate::varint::varint_dec;
use crate::varint::varint_enc;

verus! {

/// Terminator byte marking the end of the live region.
pub(crate) const TERMINATOR: u8 = 0xFF;

/// A memory-efficient list of byte strings kept in one contiguous buffer.
///
/// The abstract state, `self@`, is the sequence of payloads, each a sequence
/// of bytes. The buffer holds their serialized forms back to back in
/// `[head, tail - 1)`, a terminator byte at `tail - 1`, and slack on both
/// sides for insertions at either end.
pub struct Listpack {
    data: Vec<u8>,
    head: usize,
    tail: usize,
    num_entries: usize,
    entries: Ghost<Seq<Seq<u8>>>,
}

impl View for Listpack {
    type V = Seq<Seq<u8>>;

    closed spec fn view(&self) -> Seq<Seq<u8>> {
        self.entries@
    }
}

impl Listpack {
    /// The internal invariant: the live region sits inside the arena, ends
    /// with the terminator byte, and holds exactly the serialized entries.
    pub closed spec fn wf(&self) -> bool {
        &&& self.head < self.tail
        &&& self.tail <= self.data@.len()
        &&& self.data@[self.tail - 1] == TERMINATOR
        &&& self.num_entries == self.entries@.len()
        &&& self.data@.subrange(self.head as int, self.tail - 1) == entries_enc(self.entries@)
    }

    /// Number of bytes in the live region, terminator included; insertions
    /// must keep it within a machine-imposed margin.
    pub closed spec fn live_bytes(&self) -> nat {
        (self.tail - self.head) as nat
    }

    /// Number of bytes the arena holds, slack included.
    pub closed spec fn capacity(&self) -> nat {
        self.data@.len()
    }

    /// Offset of the live region's first byte within the arena.
    pub closed spec fn head_pos(&self) -> nat {
        self.head as nat
    }

    /// Creates a new empty list with default initial capacity.
    ///
    /// The terminator is placed at the middle of the preallocated arena so
    /// both ends have room to grow.
    pub fn new() -> (r: Self)
        ensures
            r.wf(),
            r@ == Seq::<Seq<u8>>::empty(),
            r.live_bytes() == 1,
            r.capacity() == 1024,
            r.head_pos() == r.capacity() / 2,
    {
        let mut data = zeroed(1024);
        data[512] = TERMINATOR;
        let r = Listpack {
            data,
            head: 512,
            tail: 513,
            num_entries: 0,
            entries: Ghost(Seq::empty()),
        };
        proof {
            assert(r.data@.subrange(512, 512) =~= Seq::<u8>::empty());
        }
        r
    }

    /// Returns the number of entries in the list.
    pub fn len(&self) -> (n: usize)
        requires
            self.wf(),
        ensures
            n == self@.len(),
    {
        self.num_entries
    }

    /// Returns `true` if the list contains no entries.
    pub fn is_empty(&self) -> (b: bool)
        requires
            self.wf(),
        ensures
            b == (self@.len() == 0),
    {
        self.num_entries == 0
    }

    /// Clears all entries, resetting the live region to the arena's center.
    pub fn clear(&mut self)
        requires
            old(self).wf(),
        ensures
            final(self).wf(),
            final(self)@ == Seq::<Seq<u8>>::empty(),
            final(self).live_bytes() == 1,
            final(self).capacity() == old(self).capacity(),
            final(self).head_pos() == final(self).capacity() / 2,
    {
        let cap = self.data.len();
        let h = cap / 2;
        self.head = h;
        self.tail = h + 1;
        self.data[h] = TERMINATOR;
        self.num_entries = 0;
        self.entries = Ghost(Seq::empty());
        proof {
            assert(self.data@.subrange(self.head as int, self.tail - 1) =~= Seq::<u8>::empty());
        }
    }

    /// Ensures at least `extra` bytes of slack before `head` and more than
    /// `extra` bytes after `tail`. Where either side falls short, it
    /// reallocates: the new arena holds at least twice the live region plus
    /// the requested bytes, scaled further by a growth factor of three (two
    /// once the list exceeds a thousand entries), and the live region is
    /// copied to its exact center for symmetric slack.
    #[verifier::loop_isolation(false)]
    fn grow_and_center(&mut self, extra: usize)
        requires
            old(self).wf(),
            old(self).live_bytes() + extra <= usize::MAX / 4,
        ensures
            final(self).wf(),
            final(self)@ == old(self)@,
            final(self).head >= extra,
            final(self).data@.len() - final(self).tail > extra,
            final(self).live_bytes() == old(self).live_bytes(),
            (final(self).data@ == old(self).data@ && final(self).head == old(self).head
                && final(self).tail == old(self).tail) || ({
                let factor: int = if old(self)@.len() > 1000 {
                    2
                } else {
                    3
                };
                &&& final(self).data@.len() >= factor * old(self).live_bytes()
                &&& final(self).data@.len() >= 2 * (old(self).live_bytes() + extra + 1)
                &&& final(self).head == (final(self).data@.len() - old(self).live_bytes()) / 2
            }),
    {
        let used = self.tail - self.head;
        let need = used + extra + 1;
        if self.head >= extra && self.data.len() - self.tail > extra {
            return;
        }
        let growth_factor: usize = if self.num_entries > 1000 {
            2
        } else {
            3
        };
        proof {
            vstd::arithmetic::div_mod::lemma_fundamental_div_mod(usize::MAX as int, 4);
        }
        let a = used * growth_factor;
        let b = need * 2;
        let new_cap = if a > b {
            a
        } else {
            b
        };
        let mut new_data = zeroed(new_cap);
        let new_head = (new_cap - used) / 2;
        proof {
            vstd::arithmetic::div_mod::lemma_fundamental_div_mod((new_cap - used) as int, 2);
        }
        let ghost h0 = self.head as int;
        let ghost d0 = self.data@;
        let mut j: usize = 0;
        while j < used
            invariant
                self.wf(),
                self.head == h0,
                self.data@ == d0,
                used == self.tail - self.head,
                j <= used,
                new_head + used < new_cap,
                new_data@.len() == new_cap,
                forall|k: int|
                    #![trigger new_data@[k]]
                    new_head <= k < new_head + j ==> new_data@[k] == d0[h0 + (k - new_head)],
            decreases used - j,
        {
            let b2 = self.data[self.head + j];
            new_data[new_head + j] = b2;
            j += 1;
        }
        self.head = new_head;
        self.tail = new_head + used;
        self.data = new_data;
        proof {
            assert(self.data@.subrange(self.head as int, self.tail - 1) =~= d0.subrange(
                h0,
                h0 + used - 1,
            ));
            assert(self.data@[self.tail - 1] == d0[h0 + used - 1]);
        }
    }

    /// Inserts `value` at the front of the list. Always succeeds, and says
    /// so; the arena grows as needed.
    #[verifier::loop_isolation(false)]
    pub fn push_front(&mut self, value: &[u8]) -> (r: bool)
        requires
            old(self).wf(),
            old(self).live_bytes() + value@.len() + 10 <= usize::MAX / 4,
        ensures
            final(self).wf(),
            final(self)@ == old(self)@.insert(0, value@),
            final(self).live_bytes() <= old(self).live_bytes() + value@.len() + 10,
            r == true,
    {
        let len_bytes = Self::encode_varint(value.len());
        proof {
            lemma_varint_enc_len(value@.len());
            lemma_varint_len_max(value@.len());
        }
        let extra = len_bytes.len() + value.len();
        self.grow_and_center(extra);
        let dlen = self.data.len();
        let h = self.head - extra;
        let hl = len_bytes.len();
        let ghost d0 = self.data@;
        let ghost t0 = self.tail as int;
        let ghost n0 = self.num_entries as int;
        let ghost e0 = self.entries@;
        let ghost oldhead = self.head as int;
        let mut j: usize = 0;
        while j < hl
            invariant
                self.tail == t0,
                self.head == oldhead,
                self.num_entries == n0,
                self.entries@ == e0,
                self.data@.len() == dlen,
                d0.len() == dlen,
                hl == len_bytes@.len(),
                j <= hl,
                h + hl + value@.len() == oldhead,
                oldhead < t0 <= dlen,
                0 <= h,
                forall|k: int| 0 <= k < j ==> self.data@[h + k] == len_bytes@[k],
                forall|k: int| 0 <= k < d0.len() && !(h <= k < h + j) ==> self.data@[k] == d0[k],
            decreases hl - j,
        {
            let b2 = len_bytes[j];
            self.data[h + j] = b2;
            j += 1;
        }
        let vstart = h + hl;
        let ghost d1 = self.data@;
        let mut k: usize = 0;
        while k < value.len()
            invariant
                self.tail == t0,
                self.head == oldhead,
                self.num_entries == n0,
                self.entries@ == e0,
                self.data@.len() == dlen,
                d1.len() == dlen,
                k <= value@.len(),
                vstart == h + hl,
                vstart + value@.len() == oldhead,
                oldhead < t0 <= dlen,
                0 <= h,
                forall|t: int| 0 <= t < k ==> self.data@[vstart + t] == value@[t],
                forall|t: int|
                    0 <= t < d1.len() && !(vstart <= t < vstart + k) ==> self.data@[t] == d1[t],
            decreases value@.len() - k,
        {
            let b2 = value[k];
            self.data[vstart + k] = b2;
            k += 1;
        }
        self.head = h;
        proof {
            lemma_entries_enc_len(e0);
            assert(entries_enc(e0).len() == t0 - 1 - oldhead);
            assert(self.num_entries < dlen);
        }
        self.num_entries = self.num_entries + 1;
        self.entries = Ghost(self.entries@.insert(0, value@));
        proof {
            lemma_entries_enc_cons(value@, e0);
            assert(e0.insert(0, value@) =~= seq![value@] + e0);
            assert(self.data@.subrange(h as int, t0 - 1) =~= (varint_enc(value@.len()) + value@)
                + entries_enc(e0));
        }
        true
    }

    /// Inserts `value` at the back of the list. Always succeeds, and says
    /// so; the arena grows as needed.
    #[verifier::loop_isolation(false)]
    pub fn push_back(&mut self, value: &[u8]) -> (r: bool)
        requires
            old(self).wf(),
            old(self).live_bytes() + value@.len() + 10 <= usize::MAX / 4,
        ensures
            final(self).wf(),
            final(self)@ == old(self)@.push(value@),
            final(self).live_bytes() <= old(self).live_bytes() + value@.len() + 10,
            r == true,
    {
        let len_bytes = Self::encode_varint(value.len());
        proof {
            lemma_varint_enc_len(value@.len());
            lemma_varint_len_max(value@.len());
        }
        let extra = len_bytes.len() + value.len();
        self.grow_and_center(extra);
        let dlen = self.data.len();
        let term_pos = self.tail - 1;
        let hl = len_bytes.len();
        let ghost d0 = self.data@;
        let ghost h0 = self.head as int;
        let ghost t0 = self.tail as int;
        let ghost n0 = self.num_entries as int;
        let ghost e0 = self.entries@;
        let mut j: usize = 0;
        while j < hl
            invariant
                self.tail == t0,
                self.head == h0,
                self.num_entries == n0,
                self.entries@ == e0,
                self.data@.len() == dlen,
                d0.len() == dlen,
                hl == len_bytes@.len(),
                j <= hl,
                term_pos == t0 - 1,
                0 <= h0 < t0,
                term_pos + hl + value@.len() + 1 <= dlen,
                forall|k: int| 0 <= k < j ==> self.data@[term_pos + k] == len_bytes@[k],
                forall|k: int|
                    0 <= k < d0.len() && !(term_pos <= k < term_pos + j) ==> self.data@[k] == d0[k],
            decreases hl - j,
        {
            let b2 = len_bytes[j];
            self.data[term_pos + j] = b2;
            j += 1;
        }
        let vstart = term_pos + hl;
        let ghost d1 = self.data@;
        let mut k: usize = 0;
        while k < value.len()
            invariant
                self.tail == t0,
                self.head == h0,
                self.num_entries == n0,
                self.entries@ == e0,
                self.data@.len() == dlen,
                d1.len() == dlen,
                k <= value@.len(),
                vstart == term_pos + hl,
                term_pos == t0 - 1,
                0 <= h0 < t0,
                vstart + value@.len() + 1 <= dlen,
                forall|t: int| 0 <= t < k ==> self.data@[vstart + t] == value@[t],
                forall|t: int|
                    0 <= t < d1.len() && !(vstart <= t < vstart + k) ==> self.data@[t] == d1[t],
            decreases value@.len() - k,
        {
            let b2 = value[k];
            self.data[vstart + k] = b2;
            k += 1;
        }
        let new_term = vstart + value.len();
        self.data[new_term] = TERMINATOR;
        self.tail = new_term + 1;
        proof {
            lemma_entries_enc_len(e0);
            assert(entries_enc(e0).len() == t0 - 1 - h0);
            assert(self.num_entries < dlen);
        }
        self.num_entries = self.num_entries + 1;
        self.entries = Ghost(self.entries@.push(value@));
        proof {
            lemma_entries_enc_push(e0, value@);
            assert(self.data@.subrange(h0, new_term as int) =~= entries_enc(e0) + (varint_enc(
                value@.len(),
            ) + value@));
        }
        true
    }

    /// Retrieves the element at zero-based `index`: a borrowed payload
    /// slice when `index` is within bounds, nothing otherwise.
    #[verifier::loop_isolation(false)]
    pub fn get(&self, index: usize) -> (r: Option<&[u8]>)
        requires
            self.wf(),
        ensures
            match r {
                Some(s) => index < self@.len() && s@ == self@[index as int],
                None => index >= self@.len(),
            },
    {
        if index >= self.num_entries {
            return None;
        }
        let dlen = self.data.len();
        let mut pos = self.head;
        let mut curr: usize = 0;
        proof {
            assert(self.entries@.skip(0) =~= self.entries@);
            assert(self.entries@.take(0) =~= Seq::<Seq<u8>>::empty());
            assert(self.data@.subrange(self.head as int, self.head as int) =~= Seq::<u8>::empty());
        }
        while curr < index
            invariant
                curr <= index,
                self.head <= pos < self.tail,
                self.tail <= dlen,
                self.data@.subrange(self.head as int, pos as int) == entries_enc(
                    self.entries@.take(curr as int),
                ),
                self.data@.subrange(pos as int, self.tail - 1) == entries_enc(
                    self.entries@.skip(curr as int),
                ),
            decreases index - curr,
        {
            let ghost rem = self.entries@.skip(curr as int);
            proof {
                assert(rem.len() > 0);
                lemma_entry_at(self.data@, pos as int, self.tail as int, rem);
            }
            let slice = vstd::slice::slice_subrange(self.data.as_slice(), pos, self.tail);
            let (len, consumed) = Self::decode_varint(slice).unwrap();
            proof {
                assert(rem.drop_first() =~= self.entries@.skip(curr + 1));
                lemma_entries_enc_push(self.entries@.take(curr as int), rem[0]);
                assert(self.entries@.take(curr as int).push(rem[0]) =~= self.entries@.take(
                    curr + 1,
                ));
                assert(self.data@.subrange(self.head as int, pos + consumed + len)
                    =~= self.data@.subrange(self.head as int, pos as int) + self.data@.subrange(
                    pos as int,
                    pos + consumed + len,
                ));
                lemma_entries_enc_len(rem.drop_first());
            }
            pos = pos + consumed + len;
            curr = curr + 1;
        }
        let ghost rem = self.entries@.skip(index as int);
        proof {
            assert(rem.len() > 0);
            lemma_entry_at(self.data@, pos as int, self.tail as int, rem);
            assert(rem[0] == self.entries@[index as int]);
        }
        let slice = vstd::slice::slice_subrange(self.data.as_slice(), pos, self.tail);
        let (len, consumed) = Self::decode_varint(slice).unwrap();
        let start = pos + consumed;
        Some(vstd::slice::slice_subrange(self.data.as_slice(), start, start + len))
    }

    /// Returns the first element, or nothing if the list is empty.
    #[must_use]
    pub fn front(&self) -> (r: Option<&[u8]>)
        requires
            self.wf(),
        ensures
            match r {
                Some(s) => self@.len() > 0 && s@ == self@[0],
                None => self@.len() == 0,
            },
    {
        self.get(0)
    }

    /// Returns the last element, or nothing if the list is empty.
    #[must_use]
    pub fn back(&self) -> (r: Option<&[u8]>)
        requires
            self.wf(),
        ensures
            match r {
                Some(s) => self@.len() > 0 && s@ == self@[self@.len() - 1],
                None => self@.len() == 0,
            },
    {
        if self.num_entries == 0 {
            None
        } else {
            self.get(self.num_entries - 1)
        }
    }

    /// Pushes `value` at the back, encoded with the narrowest of the five
    /// integer widths: one tag byte, then the value in that many
    /// little-endian bytes.
    pub fn push_integer(&mut self, value: i64) -> (r: bool)
        requires
            old(self).wf(),
            old(self).live_bytes() + 19 <= usize::MAX / 4,
        ensures
            final(self).wf(),
            final(self)@ == old(self)@.push(int_enc(value)),
            final(self).live_bytes() <= old(self).live_bytes() + 19,
            r == true,
    {
        let encoded = encode_integer(value);
        proof {
            lemma_le_bytes_len(
                to_unsigned(value as int, int_width(value)),
                int_width(value),
            );
        }
        self.push_back(encoded.as_slice())
    }

    /// Decodes an integer entry from its payload bytes: a tag byte naming
    /// the width, then that many little-endian bytes, sign-extended from
    /// the width's top bit. Empty, short, or unknown-tagged payloads yield
    /// nothing.
    pub fn decode_integer(&self, data: &[u8]) -> (r: Option<i64>)
        ensures
            r == int_dec(data@),
    {
        if data.len() == 0 {
            return None;
        }
        proof {
            lemma_pow256_values();
        }
        let tag = data[0];
        let width: usize = if tag == INT8_TAG {
            1
        } else if tag == INT16_TAG {
            2
        } else if tag == INT24_TAG {
            3
        } else if tag == INT32_TAG {
            4
        } else if tag == INT64_TAG {
            8
        } else {
            return None;
        };
        if data.len() < 1 + width {
            return None;
        }
        let u = read_le(data, 1, width);
        proof {
            lemma_le_val_bound(data@.subrange(1, 1 + width as int));
        }
        let v: i64 = if width == 1 {
            if u >= 128 {
                (u as i64) - 256
            } else {
                u as i64
            }
        } else if width == 2 {
            if u >= 32768 {
                (u as i64) - 65536
            } else {
                u as i64
            }
        } else if width == 3 {
            if u >= 8388608 {
                (u as i64) - 16777216
            } else {
                u as i64
            }
        } else if width == 4 {
            if u >= 2147483648 {
                (u as i64) - 4294967296
            } else {
                u as i64
            }
        } else {
            if u >= 9223372036854775808 {
                (((u as i128) - 0x10000000000000000i128) as i64)
            } else {
                u as i64
            }
        };
        Some(v)
    }

    /// Removes and returns the first element as an owned vector, or nothing
    /// if the list is empty.
    pub fn pop_front(&mut self) -> (r: Option<Vec<u8>>)
        requires
            old(self).wf(),
        ensures
            final(self).wf(),
            final(self).live_bytes() <= old(self).live_bytes(),
            match r {
                Some(v) => old(self)@.len() > 0 && v@ == old(self)@[0] && final(self)@ == old(
                    self,
                )@.drop_first(),
                None => old(self)@.len() == 0 && final(self)@ == old(self)@,
            },
    {
        if self.num_entries == 0 {
            return None;
        }
        let dlen = self.data.len();
        proof {
            assert(self.tail <= dlen);
            lemma_entry_at(self.data@, self.head as int, self.tail as int, self.entries@);
        }
        let slice = vstd::slice::slice_subrange(self.data.as_slice(), self.head, self.tail);
        let (len, consumed) = Self::decode_varint(slice).unwrap();
        let start = self.head + consumed;
        let payload = vstd::slice::slice_to_vec(
            vstd::slice::slice_subrange(self.data.as_slice(), start, start + len),
        );
        self.head = start + len;
        self.num_entries = self.num_entries - 1;
        self.entries = Ghost(self.entries@.drop_first());
        Some(payload)
    }

    /// Removes and returns the last element as an owned vector, or nothing
    /// if the list is empty. Entries record no trailing size field, so
    /// locating the last entry takes a full forward scan from the head.
    #[verifier::loop_isolation(false)]
    pub fn pop_back(&mut self) -> (r: Option<Vec<u8>>)
        requires
            old(self).wf(),
        ensures
            final(self).wf(),
            final(self).live_bytes() <= old(self).live_bytes(),
            match r {
                Some(v) => old(self)@.len() > 0 && v@ == old(self)@.last() && final(self)@ == old(
                    self,
                )@.drop_last(),
                None => old(self)@.len() == 0 && final(self)@ == old(self)@,
            },
    {
        if self.num_entries == 0 {
            return None;
        }
        let dlen = self.data.len();
        let ghost e0 = self.entries@;
        let last = self.num_entries - 1;
        let mut pos = self.head;
        let mut curr: usize = 0;
        proof {
            assert(e0.skip(0) =~= e0);
            assert(e0.take(0) =~= Seq::<Seq<u8>>::empty());
            assert(self.data@.subrange(self.head as int, self.head as int) =~= Seq::<u8>::empty());
        }
        while curr < last
            invariant
                curr <= last,
                self.head <= pos < self.tail,
                self.tail <= dlen,
                self.data@.subrange(self.head as int, pos as int) == entries_enc(
                    e0.take(curr as int),
                ),
                self.data@.subrange(pos as int, self.tail - 1) == entries_enc(
                    e0.skip(curr as int),
                ),
            decreases last - curr,
        {
            let ghost rem = e0.skip(curr as int);
            proof {
                assert(rem.len() > 0);
                lemma_entry_at(self.data@, pos as int, self.tail as int, rem);
            }
            let slice = vstd::slice::slice_subrange(self.data.as_slice(), pos, self.tail);
            let (len, consumed) = Self::decode_varint(slice).unwrap();
            proof {
                assert(rem.drop_first() =~= e0.skip(curr + 1));
                lemma_entries_enc_push(e0.take(curr as int), rem[0]);
                assert(e0.take(curr as int).push(rem[0]) =~= e0.take(curr + 1));
                assert(self.data@.subrange(self.head as int, pos + consumed + len)
                    =~= self.data@.subrange(self.head as int, pos as int) + self.data@.subrange(
                    pos as int,
                    pos + consumed + len,
                ));
                lemma_entries_enc_len(rem.drop_first());
            }
            pos = pos + consumed + len;
            curr = curr + 1;
        }
        let ghost rem = e0.skip(last as int);
        proof {
            assert(rem.len() > 0);
            lemma_entry_at(self.data@, pos as int, self.tail as int, rem);
            assert(rem[0] == e0[last as int]);
        }
        let slice = vstd::slice::slice_subrange(self.data.as_slice(), pos, self.tail);
        let (len, consumed) = Self::decode_varint(slice).unwrap();
        let start = pos + consumed;
        let payload = vstd::slice::slice_to_vec(
            vstd::slice::slice_subrange(self.data.as_slice(), start, start + len),
        );
        let ghost d1 = self.data@;
        self.data[pos] = TERMINATOR;
        self.tail = pos + 1;
        self.num_entries = last;
        self.entries = Ghost(e0.drop_last());
        proof {
            assert(e0.drop_last() =~= e0.take(last as int));
            assert(self.data@.subrange(self.head as int, pos as int) =~= d1.subrange(
                self.head as int,
                pos as int,
            ));
        }
        Some(payload)
    }

    /// Returns an iterator over the payloads, front to back and, through
    /// `next_back`, back to front.
    pub fn iter(&self) -> (it: ListpackIter<'_>)
        requires
            self.wf(),
        ensures
            it.wf(),
            it@ == self@,
    {
        ListpackIter::make(self.data.as_slice(), self.head, self.tail - 1, Ghost(self.entries@))
    }

    /// Removes the element at zero-based `index`, shifting everything after
    /// it toward the front. Reports whether anything was removed, which is
    /// the case exactly when `index` was within bounds.
    #[verifier::loop_isolation(false)]
    #[verifier::rlimit(50)]
    pub fn remove(&mut self, index: usize) -> (r: bool)
        requires
            old(self).wf(),
        ensures
            final(self).wf(),
            final(self).live_bytes() <= old(self).live_bytes(),
            r == (index < old(self)@.len()),
            index < old(self)@.len() ==> {
                &&& final(self)@ == old(self)@.remove(index as int)
                &&& final(self)@.len() == old(self)@.len() - 1
                &&& forall|j: int| 0 <= j < index ==> final(self)@[j] == old(self)@[j]
                &&& forall|j: int|
                    index <= j < final(self)@.len() ==> final(self)@[j] == old(self)@[j + 1]
            },
            index >= old(self)@.len() ==> final(self)@ == old(self)@,
    {
        if index >= self.num_entries {
            return false;
        }
        let dlen = self.data.len();
        let ghost e0 = self.entries@;
        let mut pos = self.head;
        let mut curr: usize = 0;
        proof {
            assert(e0.skip(0) =~= e0);
            assert(e0.take(0) =~= Seq::<Seq<u8>>::empty());
            assert(self.data@.subrange(self.head as int, self.head as int) =~= Seq::<u8>::empty());
        }
        while curr < index
            invariant
                curr <= index,
                self.head <= pos < self.tail,
                self.data@.subrange(self.head as int, pos as int) == entries_enc(
                    e0.take(curr as int),
                ),
                self.data@.subrange(pos as int, self.tail - 1) == entries_enc(
                    e0.skip(curr as int),
                ),
            decreases index - curr,
        {
            let ghost rem = e0.skip(curr as int);
            proof {
                assert(rem.len() > 0);
                lemma_entry_at(self.data@, pos as int, self.tail as int, rem);
            }
            let slice = vstd::slice::slice_subrange(self.data.as_slice(), pos, self.tail);
            let (len, consumed) = Self::decode_varint(slice).unwrap();
            proof {
                assert(rem.drop_first() =~= e0.skip(curr + 1));
                lemma_entries_enc_push(e0.take(curr as int), rem[0]);
                assert(e0.take(curr as int).push(rem[0]) =~= e0.take(curr + 1));
                assert(self.data@.subrange(self.head as int, pos + consumed + len)
                    =~= self.data@.subrange(self.head as int, pos as int) + self.data@.subrange(
                    pos as int,
                    pos + consumed + len,
                ));
                lemma_entries_enc_len(rem.drop_first());
            }
            pos = pos + consumed + len;
            curr = curr + 1;
        }
        let ghost rem = e0.skip(index as int);
        proof {
            assert(rem.len() > 0);
            lemma_entry_at(self.data@, pos as int, self.tail as int, rem);
        }
        let slice = vstd::slice::slice_subrange(self.data.as_slice(), pos, self.tail);
        let (len, consumed) = Self::decode_varint(slice).unwrap();
        let start = pos;
        let end = pos + consumed + len;
        let count = self.tail - end;
        let ghost d0 = self.data@;
        let ghost h0 = self.head as int;
        let ghost t0 = self.tail as int;
        let ghost n0 = self.num_entries as int;
        let mut j: usize = 0;
        while j < count
            invariant
                self.head == h0,
                self.tail == t0,
                self.num_entries == n0,
                self.entries@ == e0,
                self.data@.len() == dlen,
                j <= count,
                end + count == t0,
                h0 <= start < end <= t0 <= dlen,
                forall|k: int|
                    #![trigger self.data@[k]]
                    start <= k < start + j ==> self.data@[k] == d0[k + (end - start)],
                forall|k: int|
                    0 <= k < dlen && !(start <= k < start + j) ==> self.data@[k] == d0[k],
            decreases count - j,
        {
            let b2 = self.data[end + j];
            self.data[start + j] = b2;
            j += 1;
        }
        self.tail = self.tail - (end - start);
        self.data[self.tail - 1] = TERMINATOR;
        self.num_entries = self.num_entries - 1;
        self.entries = Ghost(e0.remove(index as int));
        proof {
            e0.remove_ensures(index as int);
            assert(e0.remove(index as int) =~= e0.take(index as int) + e0.skip(index + 1));
            lemma_entries_enc_concat(e0.take(index as int), e0.skip(index + 1));
            assert(rem.drop_first() =~= e0.skip(index + 1));
            let w = entries_enc(e0.take(index as int)) + entries_enc(e0.skip(index + 1));
            assert(self.data@.subrange(h0, self.tail - 1) =~= w) by {
                assert forall|t: int| 0 <= t < (self.tail - 1) - h0 implies self.data@.subrange(
                    h0,
                    self.tail - 1,
                )[t] == w[t] by {
                    if t < start - h0 {
                        assert(self.data@[h0 + t] == d0[h0 + t]);
                        assert(d0.subrange(h0, start as int)[t] == d0[h0 + t]);
                    } else {
                        assert(self.data@[h0 + t] == d0[h0 + t + (end - start)]);
                        assert(d0.subrange(end as int, t0 - 1)[t - (start - h0)] == d0[h0 + t + (
                        end - start)]);
                    }
                }
            }
        }
        true
    }

    /// Encodes a length as a varint: low seven bits per byte, least
    /// significant group first, continuation flag on every byte but the
    /// last.
    pub fn encode_varint(value: usize) -> (r: Vec<u8>)
        ensures
            r@ == varint_enc(value as nat),
    {
        let mut buf: Vec<u8> = Vec::new();
        let mut v = value;
        while v >= 128
            invariant
                buf@ + varint_enc(v as nat) == varint_enc(value as nat),
            decreases v,
        {
            let ghost pre = buf@;
            let ghost v0 = v as nat;
            let byte = (v % 128) as u8;
            buf.push(byte + 128);
            v = v / 128;
            proof {
                assert(varint_enc(v0) == seq![(128 + v0 % 128) as u8] + varint_enc(v0 / 128));
                assert(buf@ + varint_enc(v as nat) =~= pre + varint_enc(v0));
            }
        }
        let ghost pre = buf@;
        buf.push(v as u8);
        proof {
            assert(varint_enc(v as nat) == seq![v as u8]);
            assert(buf@ =~= pre + varint_enc(v as nat));
        }
        buf
    }

    /// Decodes a varint from the front of `data`, returning the value and
    /// the number of bytes consumed; returns nothing when the input ends
    /// before a byte with a clear continuation bit, when more than ten bytes
    /// would be needed, or when the value would not fit in a `usize`.
    pub fn decode_varint(data: &[u8]) -> (r: Option<(usize, usize)>)
        ensures
            r == varint_dec(data@),
    {
        let n = data.len();
        let mut result: usize = 0;
        let mut mult: usize = 1;
        let mut big = false;
        let mut i: usize = 0;
        while i < n
            invariant
                n == data@.len(),
                i <= n,
                i <= 9,
                forall|j: int| 0 <= j < i ==> data@[j] >= 128,
                result == low_val(data@.take(i as int)),
                result < pow128(i as nat),
                big <==> pow128(i as nat) > usize::MAX,
                !big ==> mult == pow128(i as nat),
            decreases n - i,
        {
            let byte = data[i];
            let low = (byte % 128) as usize;
            proof {
                lemma_varint_dec_unroll(data@, i as int);
                lemma_varint_dec_low(data@.skip(i as int));
                assert(data@.skip(i as int)[0] == data@[i as int]);
                assert(data@.skip(i as int).len() > 0);
            }
            if big {
                if low > 0 {
                    proof {
                        if let Some(r2) = varint_dec(data@.skip(i as int)) {
                            assert(pow128(i as nat) * r2.0 >= pow128(i as nat))
                                by (nonlinear_arith)
                                requires
                                    r2.0 >= 1,
                                    pow128(i as nat) >= 0,
                            {
                            }
                        }
                    }
                    return None;
                }
            } else {
                if low > (usize::MAX - result) / mult {
                    proof {
                        let x = (usize::MAX - result) as int;
                        let m = mult as int;
                        let l = low as int;
                        vstd::arithmetic::div_mod::lemma_fundamental_div_mod(x, m);
                        vstd::arithmetic::div_mod::lemma_mod_division_less_than_divisor(x, m);
                        assert(l * m > x) by (nonlinear_arith)
                            requires
                                m > 0,
                                l > x / m,
                                x >= 0,
                                x == m * (x / m) + x % m,
                                x % m < m,
                        {
                        }
                        if let Some(r2) = varint_dec(data@.skip(i as int)) {
                            assert(m * r2.0 >= m * l) by (nonlinear_arith)
                                requires
                                    r2.0 >= l,
                                    m >= 0,
                            {
                            }
                        }
                    }
                    return None;
                }
                proof {
                    let x = (usize::MAX - result) as int;
                    let m = mult as int;
                    let l = low as int;
                    vstd::arithmetic::div_mod::lemma_fundamental_div_mod(x, m);
                    vstd::arithmetic::div_mod::lemma_mod_division_less_than_divisor(x, m);
                    assert(l * m <= x) by (nonlinear_arith)
                        requires
                            m > 0,
                            l >= 0,
                            l <= x / m,
                            x >= 0,
                            x == m * (x / m) + x % m,
                            x % m >= 0,
                    {
                    }
                    lemma_low_val_snoc(data@, i as int);
                }
                result = result + low * mult;
            }
            if byte < 128 {
                proof {
                    assert(varint_dec(data@.skip(i as int)) == Some((byte as usize, 1usize)));
                    assert(byte % 128 == byte);
                    assert(low == byte as usize);
                    if big {
                        assert(low == 0);
                        assert(pow128(i as nat) * (byte as usize) == 0) by (nonlinear_arith)
                            requires
                                byte as usize == 0,
                        {
                        }
                        assert(result == low_val(data@.take(i as int)));
                    } else {
                        assert(mult == pow128(i as nat));
                        assert(pow128(i as nat) * (byte as usize) == low * mult)
                            by (nonlinear_arith)
                            requires
                                mult == pow128(i as nat),
                                low == byte as usize,
                        {
                        }
                    }
                    assert(low_val(data@.take(i as int)) + pow128(i as nat) * (byte as usize)
                        == result);
                }
                return Some((result, i + 1));
            }
            if i == 9 {
                proof {
                    lemma_varint_dec_cont(data@.skip(i as int));
                }
                return None;
            }
            proof {
                lemma_low_val_snoc(data@, i as int);
                lemma_pow128_pos(i as nat);
                assert(low == data@[i as int] % 128);
                assert(pow128((i + 1) as nat) == 128 * pow128(i as nat));
                if big {
                    assert(low == 0);
                    assert(pow128(i as nat) * (data@[i as int] % 128) == 0) by (nonlinear_arith)
                        requires
                            data@[i as int] % 128 == 0,
                    {
                    }
                } else {
                    assert(pow128(i as nat) * (data@[i as int] % 128) == low * mult)
                        by (nonlinear_arith)
                        requires
                            mult == pow128(i as nat),
                            low == data@[i as int] % 128,
                    {
                    }
                }
                assert(result == low_val(data@.take(i + 1)));
            }
            if !big {
                if mult > usize::MAX / 128 {
                    proof {
                        vstd::arithmetic::div_mod::lemma_fundamental_div_mod(
                            usize::MAX as int,
                            128,
                        );
                        assert(128 * mult > usize::MAX);
                    }
                    big = true;
                } else {
                    proof {
                        assert(128 * mult <= 128 * (usize::MAX / 128));
                        vstd::arithmetic::div_mod::lemma_fundamental_div_mod(
                            usize::MAX as int,
                            128,
                        );
                        assert(128 * (usize::MAX / 128) <= usize::MAX);
                    }
                    mult = mult * 128;
                }
            }
            i = i + 1;
            proof {
                lemma_low_val_bound(data@.take(i as int));
                assert(data@.take(i as int).len() == i as int);
            }
        }
        proof {
            assert(data@.skip(n as int) =~= Seq::<u8>::empty());
            lemma_varint_dec_unroll(data@, n as int);
        }
        None
    }
}

impl Default for Listpack {
    /// A freshly constructed empty list.
    fn default() -> (r: Self)
        ensures
            r.wf(),
            r@ == Seq::<Seq<u8>>::empty(),
    {
        Self::new()
    }
}

/// A vector of `n` zero bytes.
fn zeroed(n: usize) -> (v: Vec<u8>)
    ensures
        v@.len() == n,
        forall|i: int| 0 <= i < n ==> v@[i] == 0u8,
{
    let mut v: Vec<u8> = Vec::new();
    while v.len() < n
        invariant
            v@.len() <= n,
            forall|i: int| 0 <= i < v@.len() ==> v@[i] == 0u8,
        decreases n - v@.len(),
    {
        v.push(0);
    }
    v
}

} // verus!
