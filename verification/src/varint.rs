//! Variable-length encoding of unsigned integers: 7 value bits per byte,
//! little-endian, with the high bit of every byte but the last set as a
//! continuation flag.

use vstd::prelude::*;

verus! {

/// Number of bytes in the varint encoding of `v`.
pub open spec fn varint_len(v: nat) -> nat
    decreases v,
{
    if v < 128 {
        1
    } else {
        1 + varint_len(v / 128)
    }
}

/// The varint encoding of `v`: the minimal-length byte sequence, one 7-bit
/// group per byte, least significant group first.
pub open spec fn varint_enc(v: nat) -> Seq<u8>
    decreases v,
{
    if v < 128 {
        seq![v as u8]
    } else {
        seq![(128 + v % 128) as u8] + varint_enc(v / 128)
    }
}

/// What decoding a varint from the front of `data` yields: the value and the
/// number of bytes consumed, or nothing if the input ends before a byte with
/// a clear continuation bit, if more than ten bytes would be needed, or if
/// the value would not fit in a `usize`.
pub open spec fn varint_dec(data: Seq<u8>) -> Option<(usize, usize)>
    decreases data.len(),
{
    if data.len() == 0 {
        None
    } else if data[0] < 128 {
        Some((data[0] as usize, 1usize))
    } else {
        match varint_dec(data.drop_first()) {
            Some((v, c)) => {
                if c + 1 <= 10 && (data[0] - 128) + 128 * v <= usize::MAX {
                    Some((((data[0] - 128) + 128 * v) as usize, (c + 1) as usize))
                } else {
                    None
                }
            },
            None => None,
        }
    }
}

/// 128 raised to the `n`-th power.
pub open spec fn pow128(n: nat) -> nat
    decreases n,
{
    if n == 0 {
        1
    } else {
        128 * pow128((n - 1) as nat)
    }
}

/// The value carried by the low 7 bits of each byte of `s`, least
/// significant group first, ignoring continuation flags.
pub open spec fn low_val(s: Seq<u8>) -> nat
    decreases s.len(),
{
    if s.len() == 0 {
        0
    } else {
        ((s[0] % 128) + 128 * low_val(s.drop_first())) as nat
    }
}

/// The encoding has exactly `varint_len(v)` bytes.
pub proof fn lemma_varint_enc_len(v: nat)
    ensures
        varint_enc(v).len() == varint_len(v),
    decreases v,
{
    if v >= 128 {
        lemma_varint_enc_len(v / 128);
    }
}

/// A value below `pow128(k)` encodes in at most `k` bytes.
pub proof fn lemma_varint_len_le(v: nat, k: nat)
    requires
        1 <= k,
        v < pow128(k),
    ensures
        varint_len(v) <= k,
    decreases v,
{
    if v >= 128 {
        assert(pow128(k) == 128 * pow128((k - 1) as nat));
        assert(v / 128 < pow128((k - 1) as nat)) by (nonlinear_arith)
            requires
                v < 128 * pow128((k - 1) as nat),
        {
        }
        assert(k >= 2) by {
            if k == 1 {
                assert(pow128(1nat) == 128);
            }
        }
        lemma_varint_len_le(v / 128, (k - 1) as nat);
    }
}

/// A value that fits a `usize` encodes in at most ten bytes.
pub proof fn lemma_varint_len_max(v: nat)
    requires
        v <= usize::MAX,
    ensures
        varint_len(v) <= 10,
{
    assert(pow128(10nat) == 0x400000000000000000) by {
        reveal_with_fuel(pow128, 11);
    }
    lemma_varint_len_le(v, 10);
}

/// Decoding a byte sequence that starts with the encoding of `v` yields `v`
/// and consumes exactly the encoding, whatever follows it.
pub proof fn lemma_varint_dec_enc(v: usize, rest: Seq<u8>)
    ensures
        varint_dec(varint_enc(v as nat) + rest) == Some((v, varint_len(v as nat) as usize)),
    decreases v,
{
    let enc = varint_enc(v as nat);
    let s = enc + rest;
    lemma_varint_enc_len(v as nat);
    lemma_varint_len_max(v as nat);
    if v < 128 {
        assert(s[0] == v as u8);
    } else {
        let tail: usize = v / 128;
        lemma_varint_dec_enc(tail, rest);
        assert(s.drop_first() =~= varint_enc(tail as nat) + rest);
        assert(s[0] == (128 + v % 128) as u8);
        assert(varint_dec(s.drop_first()) == Some((tail, varint_len(tail as nat) as usize)));
        assert(varint_len(v as nat) == 1 + varint_len(tail as nat));
        assert((s[0] - 128) + 128 * tail == v) by {
            assert(s[0] - 128 == v % 128);
            assert(v % 128 + 128 * (v / 128) == v) by (nonlinear_arith);
        }
    }
}

/// A successful decode consumes between one and ten bytes.
pub proof fn lemma_varint_dec_budget(data: Seq<u8>)
    ensures
        varint_dec(data) matches Some(r) ==> 1 <= r.1 <= 10,
{
}

/// Powers of 128 are positive.
pub proof fn lemma_pow128_pos(n: nat)
    ensures
        pow128(n) >= 1,
    decreases n,
{
    if n > 0 {
        lemma_pow128_pos((n - 1) as nat);
    }
}

/// A decode that starts on a continuation byte consumes at least two bytes.
pub proof fn lemma_varint_dec_cont(data: Seq<u8>)
    ensures
        data.len() > 0 && data[0] >= 128 ==> (varint_dec(data) matches Some(r) ==> r.1 >= 2),
{
    if data.len() > 0 && data[0] >= 128 {
        lemma_varint_dec_budget(data.drop_first());
    }
}

/// A decoded value is at least the first byte's 7-bit group.
pub proof fn lemma_varint_dec_low(data: Seq<u8>)
    ensures
        varint_dec(data) matches Some(r) ==> r.0 >= data[0] % 128,
{
}

/// The low-bit value of a sequence is below `pow128` of its length.
pub proof fn lemma_low_val_bound(s: Seq<u8>)
    ensures
        low_val(s) < pow128(s.len()),
    decreases s.len(),
{
    if s.len() > 0 {
        lemma_low_val_bound(s.drop_first());
    }
}

/// Extending a prefix by one byte adds that byte's 7-bit group, scaled by
/// the weight of its position.
pub proof fn lemma_low_val_snoc(s: Seq<u8>, i: int)
    requires
        0 <= i < s.len(),
    ensures
        low_val(s.take(i + 1)) == low_val(s.take(i)) + pow128(i as nat) * (s[i] % 128),
    decreases i,
{
    if i == 0 {
        assert(s.take(1).drop_first() =~= Seq::<u8>::empty());
        assert(s.take(1)[0] == s[0]);
        assert(s.take(0) =~= Seq::<u8>::empty());
        assert(low_val(Seq::<u8>::empty()) == 0);
        assert(pow128(0) == 1);
        assert(low_val(s.take(1)) == (s[0] % 128) + 128 * low_val(s.take(1).drop_first()));
    } else {
        let t = s.drop_first();
        lemma_low_val_snoc(t, i - 1);
        assert(s.take(i + 1).drop_first() =~= t.take(i));
        assert(s.take(i).drop_first() =~= t.take(i - 1));
        assert(s.take(i + 1)[0] == s[0]);
        assert(s.take(i)[0] == s[0]);
        assert(t[i - 1] == s[i]);
        let a = low_val(t.take(i - 1));
        let p = pow128((i - 1) as nat);
        let m = s[i] % 128;
        assert(low_val(s.take(i + 1)) == (s[0] % 128) + 128 * low_val(t.take(i)));
        assert(low_val(t.take(i)) == a + p * m);
        assert(low_val(s.take(i)) == (s[0] % 128) + 128 * a);
        assert(128 * (a + p * m) == 128 * a + 128 * (p * m)) by (nonlinear_arith);
        assert(128 * (p * m) == (128 * p) * m) by (nonlinear_arith);
        assert(pow128(i as nat) == 128 * p);
    }
}

/// Decoding after `i` leading continuation bytes: the result of the whole
/// follows from the result after those bytes, provided the total stays
/// within the ten-byte budget and the `usize` range.
pub proof fn lemma_varint_dec_unroll(s: Seq<u8>, i: int)
    requires
        0 <= i <= s.len(),
        forall|j: int| 0 <= j < i ==> s[j] >= 128,
    ensures
        ({
            match varint_dec(s.skip(i)) {
                Some(r) => varint_dec(s) == (if i + r.1 <= 10 && low_val(s.take(i)) + pow128(
                    i as nat,
                ) * r.0 <= usize::MAX {
                    Some(
                        (
                            (low_val(s.take(i)) + pow128(i as nat) * r.0) as usize,
                            (i + r.1) as usize,
                        ),
                    )
                } else {
                    None
                }),
                None => varint_dec(s) is None,
            }
        }),
    decreases i,
{
    if i == 0 {
        assert(s.skip(0) =~= s);
        assert(s.take(0) =~= Seq::<u8>::empty());
        lemma_varint_dec_budget(s);
        match varint_dec(s) {
            Some(r) => {
                assert(low_val(s.take(0)) + pow128(0) * r.0 == r.0);
            },
            None => {
            },
        }
    } else {
        let t = s.drop_first();
        assert(forall|j: int| 0 <= j < i - 1 ==> t[j] >= 128);
        lemma_varint_dec_unroll(t, i - 1);
        assert(t.skip(i - 1) =~= s.skip(i));
        assert(s.take(i).drop_first() =~= t.take(i - 1));
        assert(s.take(i)[0] == s[0]);
        let lo = low_val(s.take(i));
        let lt = low_val(t.take(i - 1));
        assert(lo == (s[0] % 128) + 128 * lt);
        assert(s[0] % 128 == s[0] - 128);
        assert(pow128(i as nat) == 128 * pow128((i - 1) as nat));
        match varint_dec(s.skip(i)) {
            Some(r) => {
                let (v, c) = r;
                assert(pow128(i as nat) * v == 128 * (pow128((i - 1) as nat) * v))
                    by (nonlinear_arith)
                    requires
                        pow128(i as nat) == 128 * pow128((i - 1) as nat),
                {
                }
                if i - 1 + c <= 10 && lt + pow128((i - 1) as nat) * v <= usize::MAX {
                    let v1 = (lt + pow128((i - 1) as nat) * v) as usize;
                    assert(varint_dec(t) == Some((v1, (i - 1 + c) as usize)));
                    assert((s[0] - 128) + 128 * v1 == lo + pow128(i as nat) * v);
                } else {
                    assert(varint_dec(t) is None);
                    if lt + pow128((i - 1) as nat) * v > usize::MAX {
                        assert(lo + pow128(i as nat) * v > usize::MAX);
                    }
                }
            },
            None => {
                assert(varint_dec(t) is None);
            },
        }
    }
}

} // verus!
