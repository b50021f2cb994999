//! Resolver: applies a signature's configured arithmetic rule to a raw match
//! address to produce the final usable address.
//!
//! All address arithmetic is performed modulo the target's pointer width, as
//! the target's own processor would perform it; the width is a parameter,
//! never hard-coded.

use vstd::arithmetic::div_mod::{
    lemma_fundamental_div_mod_converse_mod, lemma_mod_mod, lemma_small_mod,
};
use vstd::prelude::*;

use crate::types::{Bitness, ScanError};

verus! {

/// How to turn a raw match address into the final value.
#[derive(Clone, Copy, PartialEq, Eq, Structural, Debug)]
pub enum ResolutionRule {
    /// The match address itself.
    AsIs,
    /// The match address plus a constant.
    AddConstant(u64),
    /// Read a pointer-width value at `match + n`.
    DerefPointerAt(u64),
    /// Read a signed 4-byte displacement at `match + n` and add it to
    /// `match + instr_len`, emulating an instruction-relative operand;
    /// the fields are `(n, instr_len)`.
    RelativeDisplacement(u64, u64),
}

/// 256 to the `n`th: the number of values `n` bytes can hold.
pub open spec fn pow256(n: nat) -> int
    decreases n,
{
    if n == 0 {
        1
    } else {
        256 * pow256((n - 1) as nat)
    }
}

/// The modulus of the target's address arithmetic: 2^32 or 2^64.
pub open spec fn width_modulus(bit: Bitness) -> int {
    pow256(bit.spec_ptr_bytes() as nat)
}

/// Value of a little-endian byte sequence.
pub open spec fn le_value(bytes: Seq<u8>) -> int
    decreases bytes.len(),
{
    if bytes.len() == 0 {
        0
    } else {
        bytes[0] + 256 * le_value(bytes.skip(1))
    }
}

/// Little-endian encoding of `v` into `len` bytes (low byte first).
pub open spec fn le_bytes(v: int, len: nat) -> Seq<u8>
    decreases len,
{
    if len == 0 {
        Seq::empty()
    } else {
        seq![(v % 256) as u8] + le_bytes(v / 256, (len - 1) as nat)
    }
}

/// A 4-byte value reinterpreted as a signed 32-bit displacement.
pub open spec fn as_signed32(v: int) -> int {
    if v < 0x8000_0000 {
        v
    } else {
        v - 0x1_0000_0000
    }
}

/// The window `[addr, addr + len)` lies inside the captured buffer that
/// starts at `base`.
pub open spec fn spec_read_ok(buf: Seq<u8>, base: int, addr: int, len: int) -> bool {
    base <= addr && addr + len <= base + buf.len()
}

/// The bytes of that window.
pub open spec fn spec_window(buf: Seq<u8>, base: int, addr: int, len: int) -> Seq<u8> {
    buf.subrange(addr - base, addr - base + len)
}

/// What `resolve` returns: the exact value of each rule's formula, or
/// `ReadFailed` exactly when a rule that reads falls outside the buffer.
pub open spec fn spec_resolve(
    rule: ResolutionRule,
    bit: Bitness,
    m: u64,
    buf: Seq<u8>,
    base: u64,
) -> Result<u64, ScanError> {
    let w = width_modulus(bit);
    let pb = bit.spec_ptr_bytes() as int;
    match rule {
        ResolutionRule::AsIs => Ok(((m as int) % w) as u64),
        ResolutionRule::AddConstant(n) => Ok((((m + n) as int % w)) as u64),
        ResolutionRule::DerefPointerAt(n) => {
            if spec_read_ok(buf, base as int, m + n, pb) {
                Ok(le_value(spec_window(buf, base as int, m + n, pb)) as u64)
            } else {
                Err(ScanError::ReadFailed)
            }
        },
        ResolutionRule::RelativeDisplacement(n, l) => {
            if spec_read_ok(buf, base as int, m + n, 4) {
                let d = as_signed32(le_value(spec_window(buf, base as int, m + n, 4)));
                Ok(((m + l + d) % w) as u64)
            } else {
                Err(ScanError::ReadFailed)
            }
        },
    }
}

pub proof fn lemma_pow256_values()
    ensures
        pow256(4) == 0x1_0000_0000,
        pow256(8) == 0x1_0000_0000_0000_0000,
{
    assert(pow256(0) == 1);
    assert(pow256(1) == 256);
    assert(pow256(2) == 0x1_0000);
    assert(pow256(3) == 0x100_0000);
    assert(pow256(4) == 0x1_0000_0000);
    assert(pow256(5) == 0x100_0000_0000);
    assert(pow256(6) == 0x1_0000_0000_0000);
    assert(pow256(7) == 0x100_0000_0000_0000);
    assert(pow256(8) == 0x1_0000_0000_0000_0000);
}

/// A little-endian value of `n` bytes is in `[0, 256^n)`.
pub proof fn lemma_le_value_bound(bytes: Seq<u8>)
    ensures
        0 <= le_value(bytes) < pow256(bytes.len()),
    decreases bytes.len(),
{
    if bytes.len() > 0 {
        lemma_le_value_bound(bytes.skip(1));
    }
}

/// Decoding inverts encoding: the little-endian value of `le_bytes(v, len)`
/// is `v` again, for any `v` the bytes can hold.
pub proof fn lemma_le_round_trip(v: int, len: nat)
    requires
        0 <= v < pow256(len),
    ensures
        le_value(le_bytes(v, len)) == v,
    decreases len,
{
    if len > 0 {
        assert(v / 256 < pow256((len - 1) as nat)) by {
            assert(v < 256 * pow256((len - 1) as nat));
            assert(v / 256 < pow256((len - 1) as nat)) by (nonlinear_arith)
                requires
                    0 <= v,
                    v < 256 * pow256((len - 1) as nat),
            ;
        }
        assert(0 <= v / 256);
        lemma_le_round_trip(v / 256, (len - 1) as nat);
        assert(le_bytes(v, len).skip(1) =~= le_bytes(v / 256, (len - 1) as nat));
        assert(le_value(le_bytes(v, len)) == (v % 256) + 256 * (v / 256));
        assert((v % 256) + 256 * (v / 256) == v) by {
            vstd::arithmetic::div_mod::lemma_fundamental_div_mod(v, 256);
        }
    }
}

/// Reduce `x` (a u64 value) to the target's pointer width.
fn mask_width(bit: Bitness, x: u64) -> (r: u64)
    ensures
        r == (x as int) % width_modulus(bit),
{
    proof {
        lemma_pow256_values();
    }
    match bit {
        Bitness::X86 => {
            let r = x % 0x1_0000_0000u64;
            r
        },
        Bitness::X64 => {
            proof {
                lemma_small_mod(x as nat, 0x1_0000_0000_0000_0000);
            }
            x
        },
    }
}

/// Start index in `buf` of the window `[m + n, m + n + len)`, or `None` if
/// that window is not inside the captured region.
fn window_start(buf: &[u8], base: u64, m: u64, n: u64, len: u64) -> (r: Option<usize>)
    requires
        base + buf@.len() <= u64::MAX + 1,
        0 < len,
    ensures
        match r {
            Some(idx) => {
                &&& spec_read_ok(buf@, base as int, m + n, len as int)
                &&& idx == m + n - base
                &&& idx + len <= buf@.len()
            },
            None => !spec_read_ok(buf@, base as int, m + n, len as int),
        },
{
    let blen = buf.len();
    match m.checked_add(n) {
        None => None,
        Some(a) => {
            if a < base {
                None
            } else {
                let off = a - base;
                if off >= blen as u64 || len > blen as u64 - off {
                    None
                } else {
                    Some(off as usize)
                }
            }
        },
    }
}

/// Little-endian read of `len` bytes starting at `idx`.
pub fn read_le(buf: &[u8], idx: usize, len: usize) -> (v: u64)
    requires
        idx + len <= buf@.len(),
        len <= 8,
    ensures
        v == le_value(buf@.subrange(idx as int, idx + len)),
        0 <= v < pow256(len as nat),
{
    proof {
        lemma_pow256_values();
    }
    let blen = buf.len();
    let mut v: u64 = 0;
    let mut k: usize = 0;
    while k < len
        invariant
            0 <= k <= len,
            len <= 8,
            blen == buf@.len(),
            idx + len <= blen,
            v == le_value(buf@.subrange(idx + len - k, idx + len)),
            0 <= v < pow256(k as nat),
            pow256(8) == 0x1_0000_0000_0000_0000,
        decreases len - k,
    {
        proof {
            lemma_pow256_mono(k as nat, 7);
        }
        let b = buf[idx + len - 1 - k];
        let ghost prev = v;
        v = v * 256 + (b as u64);
        k = k + 1;
        proof {
            let s = buf@.subrange(idx + len - k, idx + len);
            assert(s.skip(1) =~= buf@.subrange(idx + len - (k - 1), idx + len));
            assert(s[0] == b);
            assert(le_value(s) == b + 256 * prev);
            assert(v == b + 256 * prev) by {
                assert(prev * 256 == 256 * prev);
            }
        }
    }
    proof {
        assert(buf@.subrange(idx + len - len, idx + len) =~= buf@.subrange(
            idx as int,
            idx + len,
        ));
    }
    v
}

/// Monotonicity of `pow256`.
pub proof fn lemma_pow256_mono(a: nat, b: nat)
    requires
        a <= b,
    ensures
        pow256(a) <= pow256(b),
    decreases b,
{
    if a < b {
        lemma_pow256_mono(a, (b - 1) as nat);
        assert(pow256((b - 1) as nat) >= 1) by {
            lemma_pow256_pos((b - 1) as nat);
        }
    }
}

pub proof fn lemma_pow256_pos(n: nat)
    ensures
        pow256(n) >= 1,
    decreases n,
{
    if n > 0 {
        lemma_pow256_pos((n - 1) as nat);
    }
}

/// Addition modulo 2^64.
fn add_wrap(x: u64, y: u64) -> (r: u64)
    ensures
        r == (x + y) % pow256(8),
{
    proof {
        lemma_pow256_values();
    }
    let r = x.wrapping_add(y);
    proof {
        if x + y > u64::MAX {
            lemma_fundamental_div_mod_converse_mod(
                (x + y) as int,
                pow256(8),
                1,
                x + y - pow256(8),
            );
        } else {
            lemma_small_mod((x + y) as nat, pow256(8) as nat);
        }
    }
    r
}

/// Apply a resolution rule to the raw match address `m`.
///
/// `buf` is the captured module image, `base` its load address; reads
/// demanded by a rule are served from it. Returns `ReadFailed` exactly when
/// such a read falls outside the captured bytes.
pub fn resolve(rule: ResolutionRule, bit: Bitness, m: u64, buf: &[u8], base: u64) -> (r: Result<
    u64,
    ScanError,
>)
    requires
        base + buf@.len() <= u64::MAX + 1,
    ensures
        r == spec_resolve(rule, bit, m, buf@, base),
{
    proof {
        lemma_pow256_values();
    }
    match rule {
        ResolutionRule::AsIs => Ok(mask_width(bit, m)),
        ResolutionRule::AddConstant(n) => {
            let s = add_wrap(m, n);
            proof {
                lemma_wrap_then_mask(bit, (m + n) as int);
            }
            Ok(mask_width(bit, s))
        },
        ResolutionRule::DerefPointerAt(n) => {
            let pb = bit.ptr_bytes();
            match window_start(buf, base, m, n, pb) {
                None => Err(ScanError::ReadFailed),
                Some(idx) => {
                    let v = read_le(buf, idx, pb as usize);
                    Ok(v)
                },
            }
        },
        ResolutionRule::RelativeDisplacement(n, l) => {
            match window_start(buf, base, m, n, 4) {
                None => Err(ScanError::ReadFailed),
                Some(idx) => {
                    let raw = read_le(buf, idx, 4);
                    // reinterpret as a signed displacement, then wrap at the
                    // target's width
                    let d64: u64 = if raw < 0x8000_0000 {
                        raw
                    } else {
                        // sign extension to 64 bits
                        raw + 0xFFFF_FFFF_0000_0000u64
                    };
                    let ghost dv = as_signed32(
                        le_value(spec_window(buf@, base as int, m + n, 4)),
                    );
                    proof {
                        lemma_le_value_bound(spec_window(buf@, base as int, m + n, 4));
                        assert(raw == le_value(spec_window(buf@, base as int, m + n, 4)));
                        assert(d64 as int % pow256(8) == dv % pow256(8)) by {
                            if dv < 0 {
                                assert(d64 == dv + pow256(8));
                                lemma_fundamental_div_mod_converse_mod(
                                    dv,
                                    pow256(8),
                                    -1,
                                    dv + pow256(8),
                                );
                                lemma_small_mod(d64 as nat, pow256(8) as nat);
                            } else {
                                lemma_small_mod(d64 as nat, pow256(8) as nat);
                                lemma_small_mod(dv as nat, pow256(8) as nat);
                            }
                        }
                    }
                    let s1 = add_wrap(m, l);
                    let s = add_wrap(s1, d64);
                    proof {
                        lemma_wrap_add3(bit, m, l, d64, dv);
                    }
                    Ok(mask_width(bit, s))
                },
            }
        },
    }
}

/// Wrapping at 64 bits and then reducing to the width is reducing to the
/// width.
proof fn lemma_wrap_then_mask(bit: Bitness, x: int)
    requires
        x >= 0,
    ensures
        (x % pow256(8)) % width_modulus(bit) == x % width_modulus(bit),
{
    lemma_pow256_values();
    match bit {
        Bitness::X86 => {
            assert(pow256(8) == pow256(4) * pow256(4));
            lemma_mod_mod(x, pow256(4), pow256(4));
        },
        Bitness::X64 => {
            vstd::arithmetic::div_mod::lemma_mod_bound(x, pow256(8));
            lemma_small_mod((x % pow256(8)) as nat, pow256(8) as nat);
        },
    }
}

/// The chained wrapping additions compute `(m + l + d) mod width`.
proof fn lemma_wrap_add3(bit: Bitness, m: u64, l: u64, d64: u64, dv: int)
    requires
        d64 as int % pow256(8) == dv % pow256(8),
        -0x8000_0000 <= dv < 0x8000_0000,
    ensures
        (((m + l) % pow256(8) + d64) % pow256(8)) % width_modulus(bit) == (m + l + dv)
            % width_modulus(bit),
{
    lemma_pow256_values();
    let w64 = pow256(8);
    let s1 = (m + l) % w64;
    // (s1 + d64) % w64 == (m + l + dv) % w64
    assert((s1 + d64) % w64 == (m + l + dv) % w64) by {
        vstd::arithmetic::div_mod::lemma_add_mod_noop(m + l, d64 as int, w64);
        vstd::arithmetic::div_mod::lemma_add_mod_noop(m + l, dv, w64);
    }
    lemma_wrap_then_mask_signed(bit, m + l + dv);
}

/// Like `lemma_wrap_then_mask`, for possibly negative `x`.
proof fn lemma_wrap_then_mask_signed(bit: Bitness, x: int)
    ensures
        (x % pow256(8)) % width_modulus(bit) == x % width_modulus(bit),
{
    lemma_pow256_values();
    match bit {
        Bitness::X86 => {
            assert(pow256(8) == pow256(4) * pow256(4));
            lemma_mod_mod(x, pow256(4), pow256(4));
        },
        Bitness::X64 => {
            vstd::arithmetic::div_mod::lemma_mod_bound(x, pow256(8));
            lemma_small_mod((x % pow256(8)) as nat, pow256(8) as nat);
        },
    }
}

/// Round trip for pointer dereference: embedding a known pointer-width value
/// little-endian at `match + n` and applying `DerefPointerAt(n)` returns
/// exactly that value.
pub proof fn lemma_deref_round_trip(bit: Bitness, m: u64, n: u64, buf: Seq<u8>, base: u64, v: u64)
    requires
        spec_read_ok(buf, base as int, m + n, bit.spec_ptr_bytes() as int),
        spec_window(buf, base as int, m + n, bit.spec_ptr_bytes() as int) == le_bytes(
            v as int,
            bit.spec_ptr_bytes() as nat,
        ),
        v < width_modulus(bit),
    ensures
        spec_resolve(ResolutionRule::DerefPointerAt(n), bit, m, buf, base) == Ok::<
            u64,
            ScanError,
        >(v),
{
    lemma_le_round_trip(v as int, bit.spec_ptr_bytes() as nat);
}

/// Round trip for relative displacement: embedding a signed 4-byte
/// displacement `d` little-endian at `match + n` yields `match + instr_len
/// + d`, wrapped at the target's width.
pub proof fn lemma_relative_round_trip(
    bit: Bitness,
    m: u64,
    n: u64,
    l: u64,
    buf: Seq<u8>,
    base: u64,
    d: i32,
)
    requires
        spec_read_ok(buf, base as int, m + n, 4),
        spec_window(buf, base as int, m + n, 4) == le_bytes((d as int) % pow256(4), 4),
    ensures
        spec_resolve(ResolutionRule::RelativeDisplacement(n, l), bit, m, buf, base) == Ok::<
            u64,
            ScanError,
        >(((m + l + d) % width_modulus(bit)) as u64),
{
    lemma_pow256_values();
    let enc = (d as int) % pow256(4);
    assert(0 <= enc < pow256(4)) by {
        vstd::arithmetic::div_mod::lemma_mod_bound(d as int, pow256(4));
    }
    lemma_le_round_trip(enc, 4);
    assert(as_signed32(enc) == d as int) by {
        if d < 0 {
            lemma_fundamental_div_mod_converse_mod(d as int, pow256(4), -1, d + pow256(4));
        } else {
            lemma_small_mod(d as nat, pow256(4) as nat);
        }
    }
}

} // verus!
