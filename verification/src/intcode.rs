//! The tagged integer convention layered on top of string entries: one tag
//! byte selecting a payload width of 1, 2, 3, 4 or 8 bytes, then the value
//! in that many little-endian bytes, two's complement.

use vstd::prelude::*;

verus! {

/// Tag byte for an 8-bit integer payload.
pub const INT8_TAG: u8 = 0x01;

/// Tag byte for a 16-bit integer payload.
pub const INT16_TAG: u8 = 0x02;

/// Tag byte for a 24-bit integer payload.
pub const INT24_TAG: u8 = 0x03;

/// Tag byte for a 32-bit integer payload.
pub const INT32_TAG: u8 = 0x04;

/// Tag byte for a 64-bit integer payload.
pub const INT64_TAG: u8 = 0x05;

/// 256 raised to the `n`-th power.
pub open spec fn pow256(n: nat) -> nat
    decreases n,
{
    if n == 0 {
        1
    } else {
        256 * pow256((n - 1) as nat)
    }
}

/// The `n`-byte little-endian form of `u`.
pub open spec fn le_bytes(u: nat, n: nat) -> Seq<u8>
    decreases n,
{
    if n == 0 {
        Seq::empty()
    } else {
        seq![(u % 256) as u8] + le_bytes(u / 256, (n - 1) as nat)
    }
}

/// The value carried by a little-endian byte sequence.
pub open spec fn le_val(s: Seq<u8>) -> nat
    decreases s.len(),
{
    if s.len() == 0 {
        0
    } else {
        (s[0] + 256 * le_val(s.drop_first())) as nat
    }
}

/// The number of payload bytes used for `v`: the narrowest of the five
/// widths whose signed range holds it.
pub open spec fn int_width(v: i64) -> nat {
    if -128 <= v <= 127 {
        1
    } else if -32768 <= v <= 32767 {
        2
    } else if -8388608 <= v <= 8388607 {
        3
    } else if -2147483648 <= v <= 2147483647 {
        4
    } else {
        8
    }
}

/// The tag byte naming a payload width.
pub open spec fn width_tag(n: nat) -> u8 {
    if n == 1 {
        INT8_TAG
    } else if n == 2 {
        INT16_TAG
    } else if n == 3 {
        INT24_TAG
    } else if n == 4 {
        INT32_TAG
    } else {
        INT64_TAG
    }
}

/// The payload width selected by a tag byte; zero for an unknown tag.
pub open spec fn tag_width(tag: u8) -> nat {
    if tag == INT8_TAG {
        1
    } else if tag == INT16_TAG {
        2
    } else if tag == INT24_TAG {
        3
    } else if tag == INT32_TAG {
        4
    } else if tag == INT64_TAG {
        8
    } else {
        0
    }
}

/// The unsigned, two's-complement carrier of `v` in `n` bytes.
pub open spec fn to_unsigned(v: int, n: nat) -> nat {
    if v >= 0 {
        v as nat
    } else {
        (v + pow256(n)) as nat
    }
}

/// The signed reading of an `n`-byte unsigned value: values with the top
/// bit set are negative.
pub open spec fn from_unsigned(u: nat, n: nat) -> int {
    if 2 * u < pow256(n) {
        u as int
    } else {
        u - pow256(n)
    }
}

/// The tagged encoding of `v`: one tag byte selecting the narrowest width
/// that holds `v`, then the value in that many little-endian bytes.
pub open spec fn int_enc(v: i64) -> Seq<u8> {
    seq![width_tag(int_width(v))] + le_bytes(to_unsigned(v as int, int_width(v)), int_width(v))
}

/// What decoding a tagged integer from `data` yields: nothing when `data`
/// is empty, starts with an unknown tag, or is shorter than the tag's
/// width requires; otherwise the signed reading of the payload bytes.
pub open spec fn int_dec(data: Seq<u8>) -> Option<i64> {
    if data.len() == 0 {
        None
    } else {
        let n = tag_width(data[0]);
        if n == 0 {
            None
        } else if data.len() < 1 + n {
            None
        } else {
            Some(from_unsigned(le_val(data.subrange(1, 1 + n as int)), n) as i64)
        }
    }
}

/// The `pow256` values for the payload widths in use.
pub proof fn lemma_pow256_values()
    ensures
        pow256(1) == 0x100,
        pow256(2) == 0x10000,
        pow256(3) == 0x1000000,
        pow256(4) == 0x100000000,
        pow256(7) == 0x100000000000000,
        pow256(8) == 0x10000000000000000,
{
    reveal_with_fuel(pow256, 9);
}

/// Powers of 256 are positive.
pub proof fn lemma_pow256_pos(n: nat)
    ensures
        pow256(n) >= 1,
    decreases n,
{
    if n > 0 {
        lemma_pow256_pos((n - 1) as nat);
    }
}

/// `pow256` is monotone.
pub proof fn lemma_pow256_mono(a: nat, b: nat)
    requires
        a <= b,
    ensures
        pow256(a) <= pow256(b),
    decreases b,
{
    if a < b {
        lemma_pow256_mono(a, (b - 1) as nat);
        lemma_pow256_pos((b - 1) as nat);
    }
}

/// The little-endian form has exactly `n` bytes.
pub proof fn lemma_le_bytes_len(u: nat, n: nat)
    ensures
        le_bytes(u, n).len() == n,
    decreases n,
{
    if n > 0 {
        lemma_le_bytes_len(u / 256, (n - 1) as nat);
    }
}

/// The value of a little-endian byte sequence is below `pow256` of its
/// length.
pub proof fn lemma_le_val_bound(s: Seq<u8>)
    ensures
        le_val(s) < pow256(s.len()),
    decreases s.len(),
{
    if s.len() > 0 {
        lemma_le_val_bound(s.drop_first());
    }
}

/// Reading back the little-endian form of a value below `pow256(n)` yields
/// the value.
pub proof fn lemma_le_val_le_bytes(u: nat, n: nat)
    requires
        u < pow256(n),
    ensures
        le_val(le_bytes(u, n)) == u,
    decreases n,
{
    if n > 0 {
        assert(u / 256 < pow256((n - 1) as nat)) by (nonlinear_arith)
            requires
                u < 256 * pow256((n - 1) as nat),
        {
        }
        lemma_le_val_le_bytes(u / 256, (n - 1) as nat);
        let s = le_bytes(u, n);
        assert(s.drop_first() =~= le_bytes(u / 256, (n - 1) as nat));
        assert(u % 256 + 256 * (u / 256) == u) by (nonlinear_arith);
    }
}

/// Round trip: decoding the tagged encoding of any 64-bit signed value
/// yields the value back.
pub proof fn lemma_int_round_trip(v: i64)
    ensures
        int_dec(int_enc(v)) == Some(v),
{
    lemma_pow256_values();
    let w = int_width(v);
    let u = to_unsigned(v as int, w);
    lemma_le_bytes_len(u, w);
    let enc = int_enc(v);
    assert(enc[0] == width_tag(w));
    assert(tag_width(width_tag(w)) == w);
    assert(enc.subrange(1, 1 + w as int) =~= le_bytes(u, w));
    lemma_le_val_le_bytes(u, w);
    assert(from_unsigned(u, w) == v as int);
}

/// Appends the `n`-byte little-endian form of `u` to `buf`.
#[verifier::loop_isolation(false)]
fn push_le_bytes(buf: &mut Vec<u8>, u: u64, n: usize)
    requires
        n <= 8,
    ensures
        final(buf)@ == old(buf)@ + le_bytes(u as nat, n as nat),
{
    let mut x = u;
    let mut i: usize = 0;
    while i < n
        invariant
            i <= n,
            buf@ + le_bytes(x as nat, (n - i) as nat) == old(buf)@ + le_bytes(u as nat, n as nat),
        decreases n - i,
    {
        let ghost pre = buf@;
        let ghost x0 = x as nat;
        buf.push((x % 256) as u8);
        x = x / 256;
        i = i + 1;
        proof {
            assert(le_bytes(x0, (n - i + 1) as nat) == seq![(x0 % 256) as u8] + le_bytes(
                x0 / 256,
                (n - i) as nat,
            ));
            assert(buf@ + le_bytes(x as nat, (n - i) as nat) =~= pre + le_bytes(
                x0,
                (n - i + 1) as nat,
            ));
        }
    }
    proof {
        assert(le_bytes(x as nat, 0) == Seq::<u8>::empty());
        assert(buf@ + le_bytes(x as nat, 0) =~= buf@);
    }
}

/// Encodes `value` with the narrowest of the five widths, tag byte first.
pub(crate) fn encode_integer(value: i64) -> (r: Vec<u8>)
    ensures
        r@ == int_enc(value),
{
    proof {
        lemma_pow256_values();
    }
    let mut buf: Vec<u8> = Vec::new();
    if -128 <= value && value <= 127 {
        buf.push(INT8_TAG);
        let u: u64 = if value >= 0 {
            value as u64
        } else {
            (value + 256) as u64
        };
        push_le_bytes(&mut buf, u, 1);
    } else if -32768 <= value && value <= 32767 {
        buf.push(INT16_TAG);
        let u: u64 = if value >= 0 {
            value as u64
        } else {
            (value + 65536) as u64
        };
        push_le_bytes(&mut buf, u, 2);
    } else if -8388608 <= value && value <= 8388607 {
        buf.push(INT24_TAG);
        let u: u64 = if value >= 0 {
            value as u64
        } else {
            (value + 16777216) as u64
        };
        push_le_bytes(&mut buf, u, 3);
    } else if -2147483648 <= value && value <= 2147483647 {
        buf.push(INT32_TAG);
        let u: u64 = if value >= 0 {
            value as u64
        } else {
            (value + 4294967296) as u64
        };
        push_le_bytes(&mut buf, u, 4);
    } else {
        buf.push(INT64_TAG);
        let u: u64 = if value >= 0 {
            value as u64
        } else {
            (((value as i128) + 0x10000000000000000i128) as u64)
        };
        push_le_bytes(&mut buf, u, 8);
    }
    proof {
        assert(buf@ =~= int_enc(value));
    }
    buf
}

/// Reads the `n` little-endian bytes of `data` starting at `off`.
#[verifier::loop_isolation(false)]
pub(crate) fn read_le(data: &[u8], off: usize, n: usize) -> (u: u64)
    requires
        n <= 8,
        off + n <= data@.len(),
    ensures
        u == le_val(data@.subrange(off as int, off + n)),
{
    let dlen = data.len();
    let mut u: u64 = 0;
    let mut i: usize = n;
    proof {
        assert(data@.subrange(off + n, off + n) =~= Seq::<u8>::empty());
    }
    while i > 0
        invariant
            i <= n,
            u == le_val(data@.subrange(off + i, off + n)),
            u < pow256((n - i) as nat),
        decreases i,
    {
        proof {
            lemma_pow256_values();
            lemma_pow256_mono((n - i) as nat, 7);
        }
        i = i - 1;
        let b = data[off + i];
        u = u * 256 + (b as u64);
        proof {
            let s = data@.subrange(off + i, off + n);
            assert(s.drop_first() =~= data@.subrange(off + i + 1, off + n));
            assert(s[0] == data@[off + i]);
        }
    }
    u
}

} // verus!
