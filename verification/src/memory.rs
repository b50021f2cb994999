//! A point-in-time snapshot of the readable parts of the target process's
//! address space: a list of captured regions, each a base address and its
//! bytes.
//!
//! Remote addresses are opaque numbers, never native references; every
//! access goes through an explicit read that can fail. A read walks the
//! regions in order and serves each byte from the first region that holds
//! its address, so reads are deterministic whatever the regions are.

use vstd::prelude::*;

use crate::types::ScanError;

verus! {

/// One captured region of target memory.
pub struct Region {
    pub base: u64,
    pub bytes: Vec<u8>,
}

impl View for Region {
    type V = (u64, Seq<u8>);

    open spec fn view(&self) -> (u64, Seq<u8>) {
        (self.base, self.bytes@)
    }
}

/// A snapshot of target memory.
pub struct Memory {
    pub regions: Vec<Region>,
}

impl View for Memory {
    type V = Seq<(u64, Seq<u8>)>;

    open spec fn view(&self) -> Seq<(u64, Seq<u8>)> {
        self.regions@.map_values(|r: Region| r@)
    }
}

/// The byte the snapshot holds at `a`, served by the first region that
/// contains `a`, starting the search at region `i`.
pub open spec fn byte_at_from(m: Seq<(u64, Seq<u8>)>, i: int, a: u64) -> Option<u8>
    decreases m.len() - i,
{
    if i < 0 || i >= m.len() {
        None
    } else if m[i].0 <= a && a - m[i].0 < m[i].1.len() {
        Some(m[i].1[a - m[i].0])
    } else {
        byte_at_from(m, i + 1, a)
    }
}

/// The byte the snapshot holds at `a`, if any.
pub open spec fn byte_at(m: Seq<(u64, Seq<u8>)>, a: u64) -> Option<u8> {
    byte_at_from(m, 0, a)
}

/// Every address of `[a, a + len)` exists and is readable.
pub open spec fn readable(m: Seq<(u64, Seq<u8>)>, a: int, len: int) -> bool {
    forall|k: int|
        0 <= k < len ==> a + k <= u64::MAX && (#[trigger] byte_at(m, (a + k) as u64)) is Some
}

/// The bytes of `[a, a + len)` (meaningful when `readable`).
pub open spec fn bytes_at(m: Seq<(u64, Seq<u8>)>, a: int, len: int) -> Seq<u8> {
    Seq::new(
        len as nat,
        |k: int|
            match byte_at(m, (a + k) as u64) {
                Some(b) => b,
                None => 0,
            },
    )
}

impl Memory {
    /// An empty snapshot: nothing is readable.
    pub fn new() -> (r: Memory)
        ensures
            r@ == Seq::<(u64, Seq<u8>)>::empty(),
    {
        let r = Memory { regions: Vec::new() };
        proof {
            assert(r@ =~= Seq::<(u64, Seq<u8>)>::empty());
        }
        r
    }

    /// Append one captured region.
    pub fn add_region(&mut self, base: u64, bytes: Vec<u8>)
        ensures
            final(self)@ == old(self)@.push((base, bytes@)),
    {
        let ghost b = bytes@;
        self.regions.push(Region { base, bytes });
        proof {
            assert(final(self)@ =~= old(self)@.push((base, b)));
        }
    }

    /// Read one byte of the snapshot.
    pub fn read_byte(&self, a: u64) -> (r: Option<u8>)
        ensures
            r == byte_at(self@, a),
    {
        let n = self.regions.len();
        let mut i: usize = 0;
        while i < n
            invariant
                0 <= i <= n,
                n == self.regions@.len(),
                self@.len() == n,
                byte_at(self@, a) == byte_at_from(self@, i as int, a),
            decreases n - i,
        {
            let rb = &self.regions[i];
            proof {
                assert(self@[i as int] == self.regions@[i as int]@);
            }
            if rb.base <= a {
                let off = a - rb.base;
                if off < rb.bytes.len() as u64 {
                    return Some(rb.bytes[off as usize]);
                }
            }
            i = i + 1;
        }
        None
    }

    /// Read `len` bytes starting at `a`; `None` if any byte is missing.
    pub fn read_bytes(&self, a: u64, len: usize) -> (r: Option<Vec<u8>>)
        ensures
            match r {
                Some(v) => readable(self@, a as int, len as int) && v@ == bytes_at(
                    self@,
                    a as int,
                    len as int,
                ),
                None => !readable(self@, a as int, len as int),
            },
    {
        let mut out: Vec<u8> = Vec::new();
        let mut k: usize = 0;
        while k < len
            invariant
                0 <= k <= len,
                out@.len() == k,
                forall|t: int|
                    0 <= t < k ==> a + t <= u64::MAX && (#[trigger] byte_at(
                        self@,
                        (a + t) as u64,
                    )) == Some(out@[t]),
            decreases len - k,
        {
            match a.checked_add(k as u64) {
                None => {
                    proof {
                        assert(a + k > u64::MAX);
                        assert(!readable(self@, a as int, len as int));
                    }
                    return None;
                },
                Some(ak) => {
                    match self.read_byte(ak) {
                        None => {
                            proof {
                                assert(byte_at(self@, (a + k as int) as u64) is None);
                                assert(!readable(self@, a as int, len as int));
                            }
                            return None;
                        },
                        Some(b) => {
                            out.push(b);
                        },
                    }
                },
            }
            k = k + 1;
        }
        proof {
            assert(readable(self@, a as int, len as int));
            assert(out@ =~= bytes_at(self@, a as int, len as int));
        }
        Some(out)
    }
}

/// The string the snapshot holds at `a`: bytes up to (not including) the
/// first NUL, provided the NUL comes within `fuel` bytes. `ReadFailed` if a
/// byte is missing first, `CorruptStructure` if the cap runs out first.
pub open spec fn spec_cstr(m: Seq<(u64, Seq<u8>)>, a: int, fuel: nat) -> Result<Seq<u8>, ScanError>
    decreases fuel,
{
    if fuel == 0 {
        Err(ScanError::CorruptStructure)
    } else if a > u64::MAX || a < 0 {
        Err(ScanError::ReadFailed)
    } else {
        match byte_at(m, a as u64) {
            None => Err(ScanError::ReadFailed),
            Some(b) => {
                if b == 0 {
                    Ok(Seq::empty())
                } else {
                    match spec_cstr(m, a + 1, (fuel - 1) as nat) {
                        Ok(t) => Ok(seq![b] + t),
                        Err(e) => Err(e),
                    }
                }
            },
        }
    }
}

/// Reading a string is reading its first `k` bytes (all non-NUL) and then
/// the rest.
proof fn lemma_cstr_prefix(m: Seq<(u64, Seq<u8>)>, a: int, fuel: nat, pre: Seq<u8>, k: nat)
    requires
        0 <= a,
        k <= fuel,
        pre.len() == k,
        forall|t: int|
            0 <= t < k ==> a + t <= u64::MAX && (#[trigger] byte_at(m, (a + t) as u64)) == Some(
                pre[t],
            ) && pre[t] != 0,
    ensures
        spec_cstr(m, a, fuel) == (match spec_cstr(m, a + k, (fuel - k) as nat) {
            Ok(t) => Ok::<Seq<u8>, ScanError>(pre + t),
            Err(e) => Err::<Seq<u8>, ScanError>(e),
        }),
    decreases k,
{
    if k == 0 {
        if spec_cstr(m, a, fuel) is Ok {
            assert(pre + spec_cstr(m, a, fuel)->Ok_0 =~= spec_cstr(m, a, fuel)->Ok_0);
        }
    } else {
        assert(a + 0 <= u64::MAX && byte_at(m, (a + 0) as u64) == Some(pre[0]) && pre[0] != 0);
        assert(byte_at(m, a as u64) == Some(pre[0]));
        assert forall|t: int| 0 <= t < k - 1 implies (a + 1) + t <= u64::MAX && (#[trigger] byte_at(
            m,
            ((a + 1) + t) as u64,
        )) == Some(pre.skip(1)[t]) && pre.skip(1)[t] != 0 by {
            assert(a + (t + 1) <= u64::MAX && byte_at(m, (a + (t + 1)) as u64) == Some(
                pre[t + 1],
            ) && pre[t + 1] != 0);
            assert(((a + 1) + t) as u64 == (a + (t + 1)) as u64);
            assert(pre.skip(1)[t] == pre[t + 1]);
        }
        lemma_cstr_prefix(m, a + 1, (fuel - 1) as nat, pre.skip(1), (k - 1) as nat);
        let rest = spec_cstr(m, a + k, (fuel - k) as nat);
        if rest is Ok {
            assert(seq![pre[0]] + (pre.skip(1) + rest->Ok_0) =~= pre + rest->Ok_0);
        }
    }
}

/// Read a NUL-terminated string of at most `cap` bytes from the snapshot.
///
/// Fails with `CorruptStructure` when no terminator appears within `cap`
/// bytes — the defence against a corrupt or stale remote address — and with
/// `ReadFailed` when the snapshot does not hold a needed byte.
pub fn read_cstr(mem: &Memory, a: u64, cap: usize) -> (r: Result<Vec<u8>, ScanError>)
    ensures
        match r {
            Ok(v) => spec_cstr(mem@, a as int, cap as nat) == Ok::<Seq<u8>, ScanError>(v@),
            Err(e) => spec_cstr(mem@, a as int, cap as nat) == Err::<Seq<u8>, ScanError>(e),
        },
{
    let ghost mv = mem@;
    let mut out: Vec<u8> = Vec::new();
    let mut k: usize = 0;
    while k < cap
        invariant
            0 <= k <= cap,
            mv == mem@,
            out@.len() == k,
            forall|t: int|
                0 <= t < k ==> a + t <= u64::MAX && (#[trigger] byte_at(mv, (a + t) as u64)) == Some(
                    out@[t],
                ) && out@[t] != 0,
        decreases cap - k,
    {
        proof {
            lemma_cstr_prefix(mv, a as int, cap as nat, out@, k as nat);
        }
        match a.checked_add(k as u64) {
            None => {
                return Err(ScanError::ReadFailed);
            },
            Some(ak) => {
                match mem.read_byte(ak) {
                    None => {
                        return Err(ScanError::ReadFailed);
                    },
                    Some(b) => {
                        if b == 0 {
                            proof {
                                let tail = spec_cstr(mv, a + k, (cap - k) as nat);
                                assert(tail == Ok::<Seq<u8>, ScanError>(Seq::empty()));
                                assert(out@ + Seq::<u8>::empty() =~= out@);
                            }
                            return Ok(out);
                        }
                        out.push(b);
                    },
                }
            },
        }
        k = k + 1;
    }
    proof {
        lemma_cstr_prefix(mv, a as int, cap as nat, out@, k as nat);
    }
    Err(ScanError::CorruptStructure)
}

} // verus!
