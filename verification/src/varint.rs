//! The variable-length unsigned integer convention that makes the byte
//! stream self-describing: each byte carries seven payload bits, the high
//! bit of a byte says whether more bytes follow, and the least significant
//! group comes first. Decoding rejects unterminated input, input using more
//! than ten bytes, and input whose accumulated value exceeds `u64::MAX`.

use vstd::arithmetic::div_mod::lemma_fundamental_div_mod;
use vstd::prelude::*;

use crate::error::Error;

verus! {

/// The encoding of `n`: the next seven low-order bits of `n` per byte,
/// least significant group first; the high bit of a byte is set exactly
/// when more bytes follow. Minimal: no superfluous trailing zero groups.
pub open spec fn varint_encoding(n: nat) -> Seq<u8>
    decreases n,
{
    if n < 128 {
        seq![n as u8]
    } else {
        seq![(128 + n % 128) as u8] + varint_encoding(n / 128)
    }
}

/// `128^k`, the weight of the `k`-th encoded byte's payload group.
pub open spec fn pow128(k: nat) -> nat
    decreases k,
{
    if k == 0 {
        1
    } else {
        128 * pow128((k - 1) as nat)
    }
}

/// What decoding yields once the bytes of `s` before position `i` have
/// accumulated the value `acc`, the next payload group weighing `scale`.
/// Yields the decoded value and the position one past its last byte, or
/// `None` when the input ends before a terminating byte, an eleventh byte
/// would be needed, or the accumulated value would not fit in 64 bits.
pub open spec fn varint_decode_at(s: Seq<u8>, i: int, acc: nat, scale: nat) -> Option<(u64, int)>
    decreases s.len() - i,
{
    if i < 0 || i >= s.len() {
        None
    } else {
        let b = s[i] as nat;
        let low = b % 128;
        if b < 128 {
            if acc + low * scale <= u64::MAX {
                Some((((acc + low * scale) as u64, i + 1)))
            } else {
                None
            }
        } else if scale >= 0x8000_0000_0000_0000 {
            None
        } else {
            varint_decode_at(s, i + 1, acc + low * scale, scale * 128)
        }
    }
}

/// What decoding the front of `s` yields: the decoded value and the number
/// of bytes it used, or `None` on truncated, overlong or overflowing input.
pub open spec fn varint_decode(s: Seq<u8>) -> Option<(u64, int)> {
    varint_decode_at(s, 0, 0, 1)
}

/// The payload value carried by bytes `i .. k` of `s`: seven bits per byte,
/// least significant group first, ignoring the continuation flags.
pub open spec fn varint_payload(s: Seq<u8>, i: int, k: int) -> nat
    decreases k - i,
{
    if i < 0 || i >= k || k > s.len() {
        0
    } else {
        (s[i] as nat) % 128 + 128 * varint_payload(s, i + 1, k)
    }
}

proof fn lemma_pow128_pos(k: nat)
    ensures
        pow128(k) >= 1,
    decreases k,
{
    if k > 0 {
        lemma_pow128_pos((k - 1) as nat);
    }
}

proof fn lemma_pow128_values()
    ensures
        pow128(1) == 128,
        pow128(8) == 0x100_0000_0000_0000,
        pow128(9) == 0x8000_0000_0000_0000,
        pow128(10) == 0x40_0000_0000_0000_0000,
{
    assert(pow128(0) == 1);
    assert(pow128(1) == 128);
    assert(pow128(2) == 0x4000);
    assert(pow128(3) == 0x20_0000);
    assert(pow128(4) == 0x1000_0000);
    assert(pow128(5) == 0x8_0000_0000);
    assert(pow128(6) == 0x400_0000_0000);
    assert(pow128(7) == 0x2_0000_0000_0000);
    assert(pow128(8) == 0x100_0000_0000_0000);
    assert(pow128(9) == 0x8000_0000_0000_0000);
    assert(pow128(10) == 0x40_0000_0000_0000_0000);
}

/// The encoding is as short as the magnitude of `n` allows: it stays within
/// `k` bytes whenever `n` fits in `k` payload groups.
pub proof fn lemma_varint_encoding_len_upper(n: nat, k: nat)
    requires
        1 <= k,
        n < pow128(k),
    ensures
        varint_encoding(n).len() <= k,
    decreases k,
{
    if n >= 128 {
        assert(pow128(k) == 128 * pow128((k - 1) as nat));
        if k == 1 {
            assert(pow128(0) == 1);
            assert(false);
        }
        lemma_fundamental_div_mod(n as int, 128);
        assert(n / 128 < pow128((k - 1) as nat));
        lemma_varint_encoding_len_upper(n / 128, (k - 1) as nat);
    }
}

/// The encoding cannot be shortened: it takes more than `k` bytes whenever
/// `n` does not fit in `k` payload groups.
pub proof fn lemma_varint_encoding_len_lower(n: nat, k: nat)
    requires
        pow128(k) <= n,
    ensures
        varint_encoding(n).len() >= k + 1,
    decreases k,
{
    if k > 0 {
        assert(pow128(k) == 128 * pow128((k - 1) as nat));
        lemma_pow128_pos((k - 1) as nat);
        lemma_fundamental_div_mod(n as int, 128);
        assert(n / 128 >= pow128((k - 1) as nat));
        lemma_varint_encoding_len_lower(n / 128, (k - 1) as nat);
    }
}

/// A 64-bit value encodes to at least one and at most ten bytes.
pub proof fn lemma_varint_encoding_len_le_10(n: u64)
    ensures
        1 <= varint_encoding(n as nat).len() <= 10,
{
    lemma_pow128_values();
    lemma_varint_encoding_len_upper(n as nat, 10);
}

proof fn lemma_pow128_mono(j: nat, k: nat)
    requires
        j <= k,
    ensures
        pow128(j) <= pow128(k),
    decreases k,
{
    if j < k {
        lemma_pow128_mono(j, (k - 1) as nat);
        lemma_pow128_pos((k - 1) as nat);
    }
}

proof fn lemma_decode_at_encoding(n: u64, s: Seq<u8>, i: int, acc: nat, scale: nat, k: nat)
    requires
        0 <= i,
        i + varint_encoding(n as nat).len() <= s.len(),
        forall|j: int|
            0 <= j < varint_encoding(n as nat).len() ==> s[i + j] == varint_encoding(n as nat)[j],
        scale == pow128(k),
        k + varint_encoding(n as nat).len() <= 10,
        acc + (n as nat) * scale <= u64::MAX,
    ensures
        varint_decode_at(s, i, acc, scale) == Some(
            (((acc + (n as nat) * scale) as u64, i + varint_encoding(n as nat).len())),
        ),
    decreases n,
{
    let e = varint_encoding(n as nat);
    assert(s[i + 0] == e[0]);
    if n < 128 {
        assert(s[i] == n as u8);
    } else {
        let q = (n as nat) / 128;
        let r = (n as nat) % 128;
        assert(s[i] == (128 + r) as u8);
        assert((s[i] as nat) % 128 == r);
        let e2 = varint_encoding(q);
        assert(e == seq![(128 + r) as u8] + e2);
        assert(e2.len() == e.len() - 1);
        lemma_pow128_values();
        lemma_pow128_mono(k, 8);
        lemma_pow128_pos(k);
        assert(scale < 0x8000_0000_0000_0000);
        lemma_fundamental_div_mod(n as int, 128);
        assert(acc + r * scale + q * (scale * 128) == acc + (n as nat) * scale)
            by (nonlinear_arith)
            requires
                n as nat == 128 * q + r,
        ;
        assert(scale * 128 == pow128((k + 1) as nat));
        assert(forall|j: int| 0 <= j < e2.len() ==> s[i + 1 + j] == e2[j]) by {
            assert(forall|j: int| 0 <= j < e2.len() ==> e[j + 1] == e2[j]);
        }
        assert(q * (scale * 128) <= acc + (n as nat) * scale) by (nonlinear_arith)
            requires
                n as nat == 128 * q + r,
                r < 128,
                scale >= 1,
        ;
        lemma_decode_at_encoding((q as u64), s, i + 1, acc + r * scale, scale * 128, k + 1);
    }
}

/// Law: decoding an encoded value, whatever bytes follow it, yields that
/// value back and consumes exactly the bytes of its encoding.
pub proof fn lemma_varint_round_trip(n: u64, rest: Seq<u8>)
    ensures
        varint_decode(varint_encoding(n as nat) + rest) == Some(
            (n, varint_encoding(n as nat).len() as int),
        ),
{
    let e = varint_encoding(n as nat);
    let s = e + rest;
    lemma_varint_encoding_len_le_10(n);
    assert(forall|j: int| 0 <= j < e.len() ==> s[0 + j] == e[j]);
    assert(pow128(0) == 1);
    assert((n as nat) * 1 == n as nat);
    lemma_decode_at_encoding(n, s, 0, 0, 1, 0);
}

proof fn lemma_decode_at_all_continuation(s: Seq<u8>, i: int, acc: nat, scale: nat)
    requires
        forall|j: int| i <= j < s.len() ==> s[j] >= 128,
    ensures
        varint_decode_at(s, i, acc, scale) is None,
    decreases s.len() - i,
{
    if 0 <= i < s.len() && scale < 0x8000_0000_0000_0000 {
        lemma_decode_at_all_continuation(
            s,
            i + 1,
            acc + ((s[i] as nat) % 128) * scale,
            scale * 128,
        );
    }
}

proof fn lemma_encoding_prefix_continuation(n: nat)
    ensures
        forall|j: int| 0 <= j < varint_encoding(n).len() - 1 ==> varint_encoding(n)[j] >= 128,
    decreases n,
{
    if n >= 128 {
        lemma_encoding_prefix_continuation(n / 128);
        let e = varint_encoding(n);
        let e2 = varint_encoding(n / 128);
        assert forall|j: int| 0 <= j < e.len() - 1 implies e[j] >= 128 by {
            if j >= 1 {
                assert(e[j] == e2[j - 1]);
            }
        }
    }
}

/// Law: a strict prefix of an encoding is rejected; no truncation of a
/// variable-length integer decodes successfully.
pub proof fn lemma_varint_truncation(n: u64, j: int)
    requires
        0 <= j < varint_encoding(n as nat).len(),
    ensures
        varint_decode(varint_encoding(n as nat).take(j)) is None,
{
    let e = varint_encoding(n as nat);
    let t = e.take(j);
    lemma_encoding_prefix_continuation(n as nat);
    assert(forall|idx: int| 0 <= idx < t.len() ==> t[idx] >= 128);
    lemma_decode_at_all_continuation(t, 0, 0, 1);
}

proof fn lemma_decode_at_budget(s: Seq<u8>, i: int, acc: nat, scale: nat, r: nat)
    requires
        scale * pow128(r) >= 0x8000_0000_0000_0000,
        forall|j: int| i <= j <= i + r && j < s.len() ==> s[j] >= 128,
    ensures
        varint_decode_at(s, i, acc, scale) is None,
    decreases r,
{
    if 0 <= i < s.len() && scale < 0x8000_0000_0000_0000 {
        assert(pow128(0) == 1);
        if r == 0 {
            assert(scale * 1 == scale);
            assert(false);
        }
        assert(pow128(r) == 128 * pow128((r - 1) as nat));
        assert((scale * 128) * pow128((r - 1) as nat) == scale * pow128(r)) by (nonlinear_arith)
            requires
                pow128(r) == 128 * pow128((r - 1) as nat),
        ;
        lemma_decode_at_budget(
            s,
            i + 1,
            acc + ((s[i] as nat) % 128) * scale,
            scale * 128,
            (r - 1) as nat,
        );
    }
}

/// Law: input whose first ten bytes all carry the continuation flag — an
/// encoding needing more than ten bytes — is rejected.
pub proof fn lemma_varint_overlong_rejected(s: Seq<u8>)
    requires
        s.len() >= 10,
        forall|j: int| 0 <= j < 10 ==> s[j] >= 128,
    ensures
        varint_decode(s) is None,
{
    lemma_pow128_values();
    assert(1 * pow128(9) == pow128(9));
    lemma_decode_at_budget(s, 0, 0, 1, 9);
}

proof fn lemma_decode_at_overflow(s: Seq<u8>, i: int, acc: nat, scale: nat, k: int)
    requires
        0 <= i < k <= s.len(),
        forall|j: int| i <= j < k - 1 ==> s[j] >= 128,
        s[k - 1] < 128,
        scale >= 1,
        acc + scale * varint_payload(s, i, k) > u64::MAX,
    ensures
        varint_decode_at(s, i, acc, scale) is None,
    decreases k - i,
{
    let b = s[i] as nat;
    let low = b % 128;
    if i == k - 1 {
        assert(varint_payload(s, i + 1, k) == 0);
        assert(varint_payload(s, i, k) == low);
        assert(acc + low * scale == acc + scale * varint_payload(s, i, k)) by (nonlinear_arith)
            requires
                varint_payload(s, i, k) == low,
        ;
    } else {
        assert(s[i] >= 128);
        if scale < 0x8000_0000_0000_0000 {
            let p2 = varint_payload(s, i + 1, k);
            assert(varint_payload(s, i, k) == low + 128 * p2);
            assert(acc + low * scale + (scale * 128) * p2 == acc + scale * varint_payload(s, i, k))
                by (nonlinear_arith)
                requires
                    varint_payload(s, i, k) == low + 128 * p2,
            ;
            assert(scale * 128 >= 1);
            lemma_decode_at_overflow(s, i + 1, acc + low * scale, scale * 128, k);
        }
    }
}

/// Law: input whose accumulated payload value exceeds `u64::MAX` — however
/// its terminating byte falls — is rejected.
pub proof fn lemma_varint_overflow_rejected(s: Seq<u8>, k: int)
    requires
        0 < k <= s.len(),
        forall|j: int| 0 <= j < k - 1 ==> s[j] >= 128,
        s[k - 1] < 128,
        varint_payload(s, 0, k) > u64::MAX,
    ensures
        varint_decode(s) is None,
{
    assert(1 * varint_payload(s, 0, k) == varint_payload(s, 0, k));
    lemma_decode_at_overflow(s, 0, 0, 1, k);
}

proof fn lemma_decode_at_bounds(s: Seq<u8>, i: int, acc: nat, scale: nat)
    requires
        0 <= i,
    ensures
        varint_decode_at(s, i, acc, scale) matches Some(p) ==> i < p.1 <= s.len(),
    decreases s.len() - i,
{
    if 0 <= i < s.len() && s[i] >= 128 && scale < 0x8000_0000_0000_0000 {
        lemma_decode_at_bounds(s, i + 1, acc + ((s[i] as nat) % 128) * scale, scale * 128);
    }
}

/// A successful decoding uses at least one byte and never reads past the end.
pub proof fn lemma_varint_decode_bounds(s: Seq<u8>)
    ensures
        varint_decode(s) matches Some(p) ==> 0 < p.1 <= s.len(),
{
    lemma_decode_at_bounds(s, 0, 0, 1);
}

proof fn lemma_decode_at_payload(s: Seq<u8>, i: int, acc: nat, scale: nat)
    requires
        0 <= i,
    ensures
        varint_decode_at(s, i, acc, scale) matches Some(p) ==> p.0 == acc + scale
            * varint_payload(s, i, p.1),
    decreases s.len() - i,
{
    if 0 <= i < s.len() {
        let b = s[i] as nat;
        let low = b % 128;
        if b < 128 {
            if acc + low * scale <= u64::MAX {
                assert(varint_payload(s, i + 1, i + 1) == 0);
                assert(acc + low * scale == acc + scale * varint_payload(s, i, i + 1))
                    by (nonlinear_arith)
                    requires
                        varint_payload(s, i, i + 1) == low + 128 * varint_payload(s, i + 1, i + 1),
                        varint_payload(s, i + 1, i + 1) == 0,
                ;
            }
        } else if scale < 0x8000_0000_0000_0000 {
            lemma_decode_at_payload(s, i + 1, acc + low * scale, scale * 128);
            lemma_decode_at_bounds(s, i + 1, acc + low * scale, scale * 128);
            match varint_decode_at(s, i + 1, acc + low * scale, scale * 128) {
                Some((v, k)) => {
                    assert(varint_payload(s, i, k) == low + 128 * varint_payload(s, i + 1, k));
                    assert(acc + low * scale + (scale * 128) * varint_payload(s, i + 1, k) == acc
                        + scale * varint_payload(s, i, k)) by (nonlinear_arith)
                        requires
                            varint_payload(s, i, k) == low + 128 * varint_payload(s, i + 1, k),
                    ;
                },
                None => {},
            }
        }
    }
}

/// Law: a successful decoding returns exactly the payload value of the
/// bytes it consumed.
pub proof fn lemma_varint_decode_payload(s: Seq<u8>)
    ensures
        varint_decode(s) matches Some(p) ==> p.0 == varint_payload(s, 0, p.1),
{
    lemma_decode_at_payload(s, 0, 0, 1);
    match varint_decode(s) {
        Some((v, k)) => {
            assert(1 * varint_payload(s, 0, k) == varint_payload(s, 0, k));
        },
        None => {},
    }
}

proof fn lemma_payload_bound(s: Seq<u8>, i: int, k: int)
    requires
        0 <= i <= k,
    ensures
        varint_payload(s, i, k) < pow128((k - i) as nat),
    decreases k - i,
{
    if i < k && k <= s.len() {
        lemma_payload_bound(s, i + 1, k);
        assert(pow128((k - i) as nat) == 128 * pow128((k - i - 1) as nat));
    } else {
        lemma_pow128_pos((k - i) as nat);
    }
}

/// Law: the encoding is minimal against every decoding — no byte sequence
/// that decodes to `n` uses fewer bytes than the encoding of `n`.
pub proof fn lemma_varint_encoding_shortest(s: Seq<u8>, n: u64, k: int)
    requires
        varint_decode(s) == Some((n, k)),
    ensures
        varint_encoding(n as nat).len() <= k,
{
    lemma_varint_decode_bounds(s);
    lemma_varint_decode_payload(s);
    lemma_payload_bound(s, 0, k);
    lemma_varint_encoding_len_upper(n as nat, k as nat);
}

/// Appends the encoding of `n` to `out` and says how many bytes that took.
pub(crate) fn push_varint(out: &mut Vec<u8>, n: u64) -> (c: usize)
    ensures
        final(out)@ == old(out)@ + varint_encoding(n as nat),
        c == varint_encoding(n as nat).len(),
{
    proof {
        lemma_varint_encoding_len_le_10(n);
    }
    let mut m: u64 = n;
    let mut c: usize = 0;
    loop
        invariant
            old(out)@ + varint_encoding(n as nat) == out@ + varint_encoding(m as nat),
            c + varint_encoding(m as nat).len() == varint_encoding(n as nat).len(),
            varint_encoding(n as nat).len() <= 10,
        decreases m,
    {
        if m < 128 {
            out.push(m as u8);
            proof {
                assert(varint_encoding(m as nat) =~= seq![m as u8]);
                assert(out@ =~= old(out)@ + varint_encoding(n as nat));
            }
            return c + 1;
        } else {
            let b: u8 = (m % 128 + 128) as u8;
            out.push(b);
            proof {
                assert(varint_encoding(m as nat) == seq![b] + varint_encoding((m / 128) as nat));
                assert(old(out)@ + varint_encoding(n as nat) =~= out@ + varint_encoding(
                    (m / 128) as nat,
                ));
            }
            m = m / 128;
            c = c + 1;
        }
    }
}

/// Decodes the variable-length integer at the front of `data`, telling the
/// value and how many bytes it used; `data` itself is left untouched.
pub(crate) fn take_varint(data: &[u8]) -> (r: Result<(u64, usize), Error>)
    ensures
        match r {
            Ok(p) => varint_decode(data@) == Some((p.0, p.1 as int)) && 0 < p.1 <= data@.len(),
            Err(e) => varint_decode(data@) is None && e is InvalidSize,
        },
{
    proof {
        lemma_pow128_values();
    }
    let mut i: usize = 0;
    let mut acc: u64 = 0;
    let mut scale: u64 = 1;
    loop
        invariant
            i <= 9,
            i <= data@.len(),
            scale as nat == pow128(i as nat),
            (acc as nat) < (scale as nat),
            varint_decode_at(data@, i as int, acc as nat, scale as nat) == varint_decode(data@),
            pow128(8) == 0x100_0000_0000_0000,
            pow128(9) == 0x8000_0000_0000_0000,
        decreases data@.len() - i,
    {
        if i >= data.len() {
            return Err(
                Error::InvalidSize("unterminated variable-length integer".to_owned()),
            );
        }
        let b: u8 = *vstd::slice::slice_index_get(data, i);
        let low: u64 = (b % 128) as u64;
        proof {
            if i < 9 {
                lemma_pow128_mono(i as nat, 8);
            }
            assert((low as nat) * (scale as nat) <= 127 * (scale as nat)) by (nonlinear_arith)
                requires
                    low <= 127,
            ;
        }
        if b < 128 {
            if i == 9 && b >= 2 {
                proof {
                    assert((low as nat) * (scale as nat) >= 2 * 0x8000_0000_0000_0000)
                        by (nonlinear_arith)
                        requires
                            low >= 2,
                            scale == 0x8000_0000_0000_0000,
                    ;
                }
                return Err(
                    Error::InvalidSize(
                        "variable-length integer overflows 64 bits".to_owned(),
                    ),
                );
            }
            proof {
                if i == 9 {
                    assert((low as nat) * (scale as nat) <= 0x8000_0000_0000_0000)
                        by (nonlinear_arith)
                        requires
                            low <= 1,
                            scale == 0x8000_0000_0000_0000,
                    ;
                }
            }
            let v: u64 = acc + low * scale;
            return Ok((v, i + 1));
        } else if i == 9 {
            return Err(
                Error::InvalidSize("variable-length integer uses more than ten bytes".to_owned()),
            );
        } else {
            acc = acc + low * scale;
            scale = scale * 128;
            i = i + 1;
        }
    }
}

} // verus!
