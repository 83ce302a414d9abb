//! The canonical scriptnum codec: Bitcoin Script's little-endian,
//! sign-magnitude, variable-length byte encoding for integers.
//!
//! The magnitude is laid out least-significant byte first; the sign travels
//! in the most significant bit of the final byte; zero encodes as the empty
//! byte string. Decoding enforces a size cap and, on demand, minimality:
//! only the shortest encoding of a value is accepted.

use vstd::prelude::*;

use crate::ExecError;

verus! {

/// 256 raised to the power `k`: the place value of byte `k` in a
/// little-endian byte string.
pub open spec fn pow256(k: nat) -> nat
    decreases k,
{
    if k == 0 {
        1
    } else {
        256 * pow256((k - 1) as nat)
    }
}

/// The minimal little-endian byte string of magnitude `m`: empty for zero,
/// least-significant byte first, most significant byte nonzero.
pub open spec fn mag_bytes(m: nat) -> Seq<u8>
    decreases m,
{
    if m == 0 {
        Seq::empty()
    } else {
        seq![(m % 256) as u8] + mag_bytes(m / 256)
    }
}

/// The unsigned value of a little-endian byte string.
pub open spec fn le_val(b: Seq<u8>) -> nat
    decreases b.len(),
{
    if b.len() == 0 {
        0
    } else {
        (b[0] as nat) + 256 * le_val(b.drop_first())
    }
}

/// The canonical scriptnum encoding of `n`: the magnitude in little-endian
/// order, the sign carried in the most significant bit of the final byte —
/// as an extra byte when the magnitude already uses that bit — and zero as
/// the empty byte string.
pub open spec fn scriptnum_enc(n: int) -> Seq<u8> {
    if n == 0 {
        Seq::empty()
    } else {
        let m: nat = if n < 0 { (-n) as nat } else { n as nat };
        let b = mag_bytes(m);
        if b.last() >= 0x80 {
            b.push(if n < 0 { 0x80u8 } else { 0x00u8 })
        } else if n < 0 {
            b.update(b.len() - 1, (b.last() + 0x80) as u8)
        } else {
            b
        }
    }
}

/// The signed value a scriptnum byte string denotes: the little-endian
/// magnitude with the most significant bit of the final byte read as the
/// sign.
pub open spec fn scriptnum_dec(b: Seq<u8>) -> int {
    if b.len() == 0 {
        0
    } else {
        let m = le_val(b.update(b.len() - 1, (b.last() % 0x80) as u8)) as int;
        if b.last() >= 0x80 {
            -m
        } else {
            m
        }
    }
}

/// Whether `b` is the shortest scriptnum encoding of its value: the final
/// byte must carry more than the sign bit, unless dropping it would change
/// the sign read from the byte before it.
pub open spec fn is_minimal_scriptnum(b: Seq<u8>) -> bool {
    b.len() == 0 || !(b.last() % 0x80 == 0 && (b.len() == 1 || b[b.len() - 2] < 0x80))
}

/// The outcome of decoding `b` as a scriptnum of at most `max_size` bytes:
/// the empty string decodes to zero, longer-than-cap inputs overflow, and a
/// non-minimal encoding is rejected when minimality is required.
pub open spec fn scriptnum_read(b: Seq<u8>, max_size: nat, require_minimal: bool) -> Result<
    int,
    ExecError,
> {
    if b.len() == 0 {
        Result::Ok(0)
    } else if b.len() > max_size {
        Result::Err(ExecError::ScriptIntNumericOverflow)
    } else if require_minimal && !is_minimal_scriptnum(b) {
        Result::Err(ExecError::MinimalData)
    } else {
        Result::Ok(scriptnum_dec(b))
    }
}

/// The concrete place values of the first nine byte positions.
proof fn lemma_pow256_values()
    ensures
        pow256(0) == 1,
        pow256(1) == 0x100,
        pow256(2) == 0x10000,
        pow256(3) == 0x1000000,
        pow256(4) == 0x100000000,
        pow256(5) == 0x10000000000,
        pow256(6) == 0x1000000000000,
        pow256(7) == 0x100000000000000,
        pow256(8) == 0x10000000000000000,
{
    assert(pow256(1) == 256 * pow256(0));
    assert(pow256(2) == 256 * pow256(1));
    assert(pow256(3) == 256 * pow256(2));
    assert(pow256(4) == 256 * pow256(3));
    assert(pow256(5) == 256 * pow256(4));
    assert(pow256(6) == 256 * pow256(5));
    assert(pow256(7) == 256 * pow256(6));
    assert(pow256(8) == 256 * pow256(7));
}

/// `pow256` grows with its argument.
proof fn lemma_pow256_mono(a: nat, b: nat)
    requires
        a <= b,
    ensures
        pow256(a) <= pow256(b),
    decreases b,
{
    if a < b && b > 0 {
        lemma_pow256_mono(a, (b - 1) as nat);
        assert(pow256((b - 1) as nat) <= 256 * pow256((b - 1) as nat));
    }
}

/// Appending a byte to a little-endian string adds that byte at its place
/// value.
proof fn lemma_le_val_snoc(s: Seq<u8>, x: u8)
    ensures
        le_val(s.push(x)) == le_val(s) + (x as nat) * pow256(s.len()),
    decreases s.len(),
{
    if s.len() == 0 {
        reveal_with_fuel(le_val, 2);
        assert(s.push(x).drop_first() =~= Seq::<u8>::empty());
        assert(pow256(0) == 1);
        assert(le_val(s.push(x)) == x as nat);
    } else {
        let k = (s.len() - 1) as nat;
        assert(s.push(x).drop_first() =~= s.drop_first().push(x));
        lemma_le_val_snoc(s.drop_first(), x);
        assert(256 * ((x as nat) * pow256(k)) == (x as nat) * (256 * pow256(k)))
            by (nonlinear_arith);
        assert(pow256(s.len()) == 256 * pow256(k));
    }
}

/// A little-endian string of `k` bytes stays below `pow256(k)`.
proof fn lemma_le_val_bound(s: Seq<u8>)
    ensures
        le_val(s) < pow256(s.len()),
    decreases s.len(),
{
    if s.len() == 0 {
    } else {
        let k = (s.len() - 1) as nat;
        lemma_le_val_bound(s.drop_first());
        assert(pow256(s.len()) == 256 * pow256(k));
        assert(le_val(s.drop_first()) <= pow256(k) - 1);
        assert(256 * le_val(s.drop_first()) <= 256 * (pow256(k) - 1)) by (nonlinear_arith)
            requires
                le_val(s.drop_first()) <= pow256(k) - 1,
        ;
    }
}

/// `mag_bytes` denotes the magnitude it was built from.
proof fn lemma_mag_bytes_val(m: nat)
    ensures
        le_val(mag_bytes(m)) == m,
    decreases m,
{
    if m > 0 {
        lemma_mag_bytes_val(m / 256);
        let s = seq![(m % 256) as u8] + mag_bytes(m / 256);
        assert(s.drop_first() =~= mag_bytes(m / 256));
        assert(s[0] == (m % 256) as u8);
    }
}

/// The most significant byte of a nonzero magnitude is nonzero.
proof fn lemma_mag_bytes_last(m: nat)
    requires
        m > 0,
    ensures
        mag_bytes(m).len() >= 1,
        mag_bytes(m).last() >= 1,
    decreases m,
{
    if m < 256 {
        assert(mag_bytes(m / 256) =~= Seq::<u8>::empty());
        assert(mag_bytes(m).last() == (m % 256) as u8);
    } else {
        lemma_mag_bytes_last(m / 256);
        let s = seq![(m % 256) as u8] + mag_bytes(m / 256);
        assert(s.last() == mag_bytes(m / 256).last());
    }
}

/// A magnitude below `pow256(k)` needs at most `k` bytes.
proof fn lemma_mag_bytes_len(m: nat, k: nat)
    requires
        m < pow256(k),
    ensures
        mag_bytes(m).len() <= k,
    decreases m,
{
    if m > 0 {
        assert(k >= 1) by {
            if k == 0 {
                assert(pow256(0) == 1);
            }
        }
        assert(pow256(k) == 256 * pow256((k - 1) as nat));
        assert(m / 256 < pow256((k - 1) as nat)) by (nonlinear_arith)
            requires
                m < 256 * pow256((k - 1) as nat),
        ;
        lemma_mag_bytes_len(m / 256, (k - 1) as nat);
    }
}

/// A little-endian string is at least its final byte at its place value.
proof fn lemma_le_val_last_lower(s: Seq<u8>)
    requires
        s.len() >= 1,
    ensures
        le_val(s) >= (s.last() as nat) * pow256((s.len() - 1) as nat),
    decreases s.len(),
{
    if s.len() == 1 {
        reveal_with_fuel(le_val, 2);
        assert(s.drop_first() =~= Seq::<u8>::empty());
        assert(pow256(0) == 1);
        assert(le_val(s) == s[0] as nat);
        assert(s.last() == s[0]);
        assert((s.last() as nat) * pow256(0) == s.last() as nat) by (nonlinear_arith)
            requires
                pow256(0) == 1,
        ;
    } else {
        lemma_le_val_last_lower(s.drop_first());
        let k = (s.len() - 2) as nat;
        assert(s.drop_first().last() == s.last());
        assert(256 * ((s.last() as nat) * pow256(k)) == (s.last() as nat) * (256 * pow256(k)))
            by (nonlinear_arith);
        assert(256 * le_val(s.drop_first()) >= 256 * ((s.last() as nat) * pow256(k)))
            by (nonlinear_arith)
            requires
                le_val(s.drop_first()) >= (s.last() as nat) * pow256(k),
        ;
        assert(pow256((s.len() - 1) as nat) == 256 * pow256(k));
    }
}

/// The canonical encoding decodes back to the value it was built from, and
/// it is always the shortest encoding of that value.
pub proof fn lemma_scriptnum_roundtrip(n: int)
    ensures
        scriptnum_dec(scriptnum_enc(n)) == n,
        is_minimal_scriptnum(scriptnum_enc(n)),
{
    if n != 0 {
        let m: nat = if n < 0 {
            (-n) as nat
        } else {
            n as nat
        };
        let b = mag_bytes(m);
        lemma_mag_bytes_val(m);
        lemma_mag_bytes_last(m);
        if b.last() >= 0x80 {
            let sign: u8 = if n < 0 {
                0x80
            } else {
                0x00
            };
            let e = b.push(sign);
            assert(e.last() == sign);
            assert(e[e.len() - 2] == b.last());
            let cleared = e.update(e.len() - 1, (e.last() % 0x80) as u8);
            assert(cleared =~= b.push(0u8));
            lemma_le_val_snoc(b, 0u8);
        } else if n < 0 {
            let e = b.update(b.len() - 1, (b.last() + 0x80) as u8);
            assert(e.last() == (b.last() + 0x80) as u8);
            let cleared = e.update(e.len() - 1, (e.last() % 0x80) as u8);
            assert(cleared =~= b);
            if e.len() >= 2 {
                assert(e[e.len() - 2] == b[b.len() - 2]);
            }
        } else {
            let cleared = b.update(b.len() - 1, (b.last() % 0x80) as u8);
            assert(cleared =~= b);
        }
    }
}

/// A value inside the 32-bit signed window encodes to at most 4 bytes.
pub proof fn lemma_scriptnum_enc_len(n: int)
    requires
        -0x7fffffff <= n <= 0x7fffffff,
    ensures
        scriptnum_enc(n).len() <= 4,
{
    if n != 0 {
        let m: nat = if n < 0 {
            (-n) as nat
        } else {
            n as nat
        };
        lemma_pow256_values();
        lemma_mag_bytes_len(m, 4);
        let b = mag_bytes(m);
        lemma_mag_bytes_val(m);
        lemma_mag_bytes_last(m);
        if b.last() >= 0x80 && b.len() == 4 {
            lemma_le_val_last_lower(b);
            assert((b.last() as nat) * pow256(3) >= 0x80 * pow256(3)) by (nonlinear_arith)
                requires
                    b.last() >= 0x80,
                    pow256(3) >= 0,
            ;
            assert(false);
        }
    }
}

/// Reading back the canonical encoding of a value inside the 32-bit signed
/// window succeeds, with or without the minimality requirement, and yields
/// that value.
pub proof fn lemma_scriptnum_read_enc(n: int, require_minimal: bool)
    requires
        -0x7fffffff <= n <= 0x7fffffff,
    ensures
        scriptnum_read(scriptnum_enc(n), 4, require_minimal) == Result::<int, ExecError>::Ok(n),
{
    lemma_scriptnum_roundtrip(n);
    lemma_scriptnum_enc_len(n);
}

/// Decodes a scriptnum byte string of at most `max_size` bytes into a
/// signed integer: the empty string is zero, a string over the cap
/// overflows, and a non-minimal encoding is rejected when
/// `require_minimal` is set.
pub fn read_scriptint(v: &[u8], max_size: usize, require_minimal: bool) -> (r: Result<
    i64,
    ExecError,
>)
    requires
        max_size <= 8,
    ensures
        ({
            let s = scriptnum_read(v@, max_size as nat, require_minimal);
            match r {
                Ok(n) => s == Result::<int, ExecError>::Ok(n as int),
                Err(e) => s == Result::<int, ExecError>::Err(e),
            }
        }),
{
    let len = v.len();
    if len == 0 {
        return Ok(0);
    }
    if len > max_size {
        return Err(ExecError::ScriptIntNumericOverflow);
    }
    let last = v[len - 1];
    if require_minimal && last % 0x80 == 0 && (len == 1 || v[len - 2] < 0x80) {
        return Err(ExecError::MinimalData);
    }
    let ghost cleared = v@.update(len - 1, (last % 0x80) as u8);
    proof {
        lemma_pow256_values();
    }
    let mut mag: u64 = 0;
    let mut mult: u64 = 1;
    let mut i: usize = 0;
    while i < len - 1
        invariant
            1 <= len <= 8,
            len == v@.len(),
            0 <= i <= len - 1,
            cleared == v@.update(len - 1, (v@[len - 1] % 0x80) as u8),
            mult == pow256(i as nat),
            mag == le_val(cleared.take(i as int)),
            pow256(7) == 0x100000000000000,
        decreases len - 1 - i,
    {
        proof {
            lemma_pow256_values();
            lemma_pow256_mono(i as nat, 6);
            lemma_le_val_bound(cleared.take(i as int));
            assert(cleared.take(i + 1) =~= cleared.take(i as int).push(cleared[i as int]));
            lemma_le_val_snoc(cleared.take(i as int), cleared[i as int]);
            assert((cleared[i as int] as nat) * pow256(i as nat) <= 255 * pow256(i as nat))
                by (nonlinear_arith)
                requires
                    cleared[i as int] <= 255,
            ;
            assert(cleared[i as int] == v@[i as int]);
        }
        mag = mag + (v[i] as u64) * mult;
        mult = mult * 256;
        i = i + 1;
    }
    proof {
        lemma_pow256_values();
        lemma_pow256_mono((len - 1) as nat, 7);
        lemma_le_val_bound(cleared.take(len - 1));
        assert(cleared.take(len as int) =~= cleared.take(len - 1).push(cleared[len - 1]));
        lemma_le_val_snoc(cleared.take(len - 1), cleared[len - 1]);
        assert((cleared[len - 1] as nat) * pow256((len - 1) as nat) <= 127 * pow256(
            (len - 1) as nat,
        )) by (nonlinear_arith)
            requires
                cleared[len - 1] <= 127,
        ;
        assert(cleared.take(len as int) =~= cleared);
    }
    let mag = mag + ((last % 0x80) as u64) * mult;
    if last >= 0x80 {
        Ok(-(mag as i64))
    } else {
        Ok(mag as i64)
    }
}

/// Relies on `bitcoin::script::write_scriptint`: it writes the canonical
/// scriptnum encoding of `n` — the magnitude little-endian, the sign in the
/// most significant bit of the final byte, zero as no bytes — and returns
/// the byte count. `i64::MIN` is excluded: its nine-byte encoding does not
/// fit the eight-byte buffer the function writes into.
#[verifier::external_body]
pub(crate) fn scriptint_vec(n: i64) -> (r: Vec<u8>)
    requires
        n != i64::MIN,
    ensures
        r@ == scriptnum_enc(n as int),
{
    let mut buf = [0u8; 8];
    let len = bitcoin::script::write_scriptint(&mut buf, n);
    buf[..len].to_vec()
}

} // verus!
