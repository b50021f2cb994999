//! Batch resolution: the pure core of a whole run. An ordered list of
//! signature requests and one module image yield a name→address list; one
//! distinguished entry of that list (the traversal root) and an ordered
//! list of netvar requests yield a name→offset list.
//!
//! A failure — malformed pattern, pattern not found, unreadable address,
//! corrupt structure — is local to its request: the item is absent from the
//! output and never aborts the batch. The one exception: netvar resolution
//! as a whole is skipped when the root signature itself is missing, since
//! every table lookup depends on it.

use vstd::prelude::*;

use crate::memory::Memory;
use crate::pattern::{compile_pattern, matchers_of, tokens_of, valid_pattern_text};
use crate::resolver::{resolve, spec_resolve, ResolutionRule};
use crate::scanner::{find_match, first_match};
use crate::types::{Bitness, ScanError};
use crate::walker::{spec_build, spec_get_offset, TableV, WalkerIndex};

verus! {

/// One signature request: a name for the result, the textual pattern, and
/// the rule turning the raw match into the final address.
pub struct SignatureSpec {
    pub name: Vec<u8>,
    pub pattern: Vec<u8>,
    pub rule: ResolutionRule,
}

/// Spec-level signature request.
pub struct SigV {
    pub name: Seq<u8>,
    pub pattern: Seq<u8>,
    pub rule: ResolutionRule,
}

impl View for SignatureSpec {
    type V = SigV;

    open spec fn view(&self) -> SigV {
        SigV { name: self.name@, pattern: self.pattern@, rule: self.rule }
    }
}

/// One netvar request: a name for the result, the table to search, and the
/// dot-delimited property path.
pub struct NetvarRequest {
    pub name: Vec<u8>,
    pub table: Vec<u8>,
    pub prop: Vec<u8>,
}

/// Spec-level netvar request.
pub struct ReqV {
    pub name: Seq<u8>,
    pub table: Seq<u8>,
    pub prop: Seq<u8>,
}

impl View for NetvarRequest {
    type V = ReqV;

    open spec fn view(&self) -> ReqV {
        ReqV { name: self.name@, table: self.table@, prop: self.prop@ }
    }
}

pub open spec fn sigs_view(s: Seq<SignatureSpec>) -> Seq<SigV> {
    s.map_values(|x: SignatureSpec| x@)
}

pub open spec fn reqs_view(s: Seq<NetvarRequest>) -> Seq<ReqV> {
    s.map_values(|x: NetvarRequest| x@)
}

pub open spec fn pairs_view(s: Seq<(Vec<u8>, u64)>) -> Seq<(Seq<u8>, u64)> {
    s.map_values(|p: (Vec<u8>, u64)| (p.0@, p.1))
}

pub open spec fn offs_view(s: Seq<(Vec<u8>, u64)>) -> Seq<(Seq<u8>, int)> {
    s.map_values(|p: (Vec<u8>, u64)| (p.0@, p.1 as int))
}

/// What one signature request resolves to against one module image:
/// `ParseError` for malformed text, `NotFound` when the pattern does not
/// occur, else the resolver's outcome at the first match.
pub open spec fn spec_signature_outcome(sig: SigV, buf: Seq<u8>, base: u64, bit: Bitness) -> Result<
    u64,
    ScanError,
> {
    if !valid_pattern_text(sig.pattern) {
        Err(ScanError::ParseError)
    } else {
        match first_match(buf, matchers_of(tokens_of(sig.pattern))) {
            None => Err(ScanError::NotFound),
            Some(k) => spec_resolve(sig.rule, bit, (base + k) as u64, buf, base),
        }
    }
}

/// Compile one signature's pattern, scan the module image for its first
/// occurrence, and apply its resolution rule.
pub fn resolve_signature(sig: &SignatureSpec, buf: &[u8], base: u64, bit: Bitness) -> (r: Result<
    u64,
    ScanError,
>)
    requires
        base + buf@.len() <= u64::MAX + 1,
    ensures
        r == spec_signature_outcome(sig@, buf@, base, bit),
{
    let pat = match compile_pattern(sig.pattern.as_slice()) {
        Err(e) => {
            return Err(e);
        },
        Ok(p) => p,
    };
    let k = match find_match(&pat, buf) {
        None => {
            return Err(ScanError::NotFound);
        },
        Some(k) => k,
    };
    proof {
        assert(pat@.len() >= 1);
        assert(k + pat@.len() <= buf@.len());
    }
    let m = base + (k as u64);
    resolve(sig.rule, bit, m, buf, base)
}

/// The name→address pairs of the requests from `i` on that resolve.
pub open spec fn sig_results_from(
    sigs: Seq<SigV>,
    i: int,
    buf: Seq<u8>,
    base: u64,
    bit: Bitness,
) -> Seq<(Seq<u8>, u64)>
    decreases sigs.len() - i,
{
    if i < 0 || i >= sigs.len() {
        Seq::empty()
    } else {
        let rest = sig_results_from(sigs, i + 1, buf, base, bit);
        match spec_signature_outcome(sigs[i], buf, base, bit) {
            Ok(v) => seq![(sigs[i].name, v)] + rest,
            Err(_) => rest,
        }
    }
}

/// The whole signature batch: each request in order, failures absent.
pub open spec fn spec_scan_signatures(
    sigs: Seq<SigV>,
    buf: Seq<u8>,
    base: u64,
    bit: Bitness,
) -> Seq<(Seq<u8>, u64)> {
    sig_results_from(sigs, 0, buf, base, bit)
}

/// Copy a byte vector.
fn clone_bytes(v: &Vec<u8>) -> (r: Vec<u8>)
    ensures
        r@ == v@,
{
    let n = v.len();
    let mut out: Vec<u8> = Vec::new();
    let mut i: usize = 0;
    while i < n
        invariant
            0 <= i <= n,
            n == v@.len(),
            out@.len() == i,
            forall|t: int| 0 <= t < i ==> out@[t] == v@[t],
        decreases n - i,
    {
        let b = v[i];
        out.push(b);
        i = i + 1;
    }
    proof {
        assert(out@ =~= v@);
    }
    out
}

/// Scan the signatures against the module image and return the resolved
/// name→address list, in request order; a request that fails is simply
/// absent, and no request affects another.
pub fn scan_signatures(sigs: &Vec<SignatureSpec>, buf: &[u8], base: u64, bit: Bitness) -> (r: Vec<
    (Vec<u8>, u64),
>)
    requires
        base + buf@.len() <= u64::MAX + 1,
    ensures
        pairs_view(r@) == spec_scan_signatures(sigs_view(sigs@), buf@, base, bit),
{
    let n = sigs.len();
    let mut out: Vec<(Vec<u8>, u64)> = Vec::new();
    let mut i: usize = 0;
    proof {
        assert(pairs_view(out@) =~= Seq::<(Seq<u8>, u64)>::empty());
        assert(Seq::<(Seq<u8>, u64)>::empty() + spec_scan_signatures(
            sigs_view(sigs@),
            buf@,
            base,
            bit,
        ) =~= spec_scan_signatures(sigs_view(sigs@), buf@, base, bit));
    }
    while i < n
        invariant
            0 <= i <= n,
            n == sigs@.len(),
            base + buf@.len() <= u64::MAX + 1,
            spec_scan_signatures(sigs_view(sigs@), buf@, base, bit) == pairs_view(out@)
                + sig_results_from(sigs_view(sigs@), i as int, buf@, base, bit),
        decreases n - i,
    {
        let ghost before = pairs_view(out@);
        proof {
            assert(sigs_view(sigs@)[i as int] == sigs@[i as int]@);
        }
        match resolve_signature(&sigs[i], buf, base, bit) {
            Ok(v) => {
                let namec = clone_bytes(&sigs[i].name);
                out.push((namec, v));
                proof {
                    assert(pairs_view(out@) =~= before.push((sigs@[i as int]@.name, v)));
                    assert(before + (seq![(sigs_view(sigs@)[i as int].name, v)] + sig_results_from(
                        sigs_view(sigs@),
                        i + 1,
                        buf@,
                        base,
                        bit,
                    )) =~= pairs_view(out@) + sig_results_from(
                        sigs_view(sigs@),
                        i + 1,
                        buf@,
                        base,
                        bit,
                    ));
                }
            },
            Err(_) => {},
        }
        i = i + 1;
    }
    out
}

/// First value recorded under `key`, from index `i` on.
pub open spec fn assoc_from(ms: Seq<(Seq<u8>, u64)>, i: int, key: Seq<u8>) -> Option<u64>
    decreases ms.len() - i,
{
    if i < 0 || i >= ms.len() {
        None
    } else if ms[i].0 == key {
        Some(ms[i].1)
    } else {
        assoc_from(ms, i + 1, key)
    }
}

/// First value recorded under `key` in a result list.
pub open spec fn spec_assoc(ms: Seq<(Seq<u8>, u64)>, key: Seq<u8>) -> Option<u64> {
    assoc_from(ms, 0, key)
}

/// Look a name up in a result list (first match).
pub fn lookup_address(map: &Vec<(Vec<u8>, u64)>, name: &[u8]) -> (r: Option<u64>)
    ensures
        r == spec_assoc(pairs_view(map@), name@),
{
    let n = map.len();
    let mut i: usize = 0;
    while i < n
        invariant
            0 <= i <= n,
            n == map@.len(),
            spec_assoc(pairs_view(map@), name@) == assoc_from(pairs_view(map@), i as int, name@),
        decreases n - i,
    {
        proof {
            assert(pairs_view(map@)[i as int] == (map@[i as int].0@, map@[i as int].1));
        }
        if crate::walker::bytes_eq(map[i].0.as_slice(), name) {
            return Some(map[i].1);
        }
        i = i + 1;
    }
    None
}

/// The name→offset pairs of the requests from `i` on that resolve against
/// the index.
pub open spec fn netvar_results_from(reqs: Seq<ReqV>, i: int, ts: Seq<TableV>) -> Seq<
    (Seq<u8>, int),
>
    decreases reqs.len() - i,
{
    if i < 0 || i >= reqs.len() {
        Seq::empty()
    } else {
        let rest = netvar_results_from(reqs, i + 1, ts);
        match spec_get_offset(ts, reqs[i].table, reqs[i].prop) {
            Some(o) => seq![(reqs[i].name, o)] + rest,
            None => rest,
        }
    }
}

/// Resolve the netvar batch.
///
/// Skipped entirely (`None`) exactly when the distinguished root entry is
/// absent from the signature results, since every lookup depends on it.
/// Otherwise the index is built once from the snapshot and each request is
/// answered against it, in order, failures absent.
pub fn scan_netvars(
    sigs_map: &Vec<(Vec<u8>, u64)>,
    root_name: &[u8],
    reqs: &Vec<NetvarRequest>,
    mem: &Memory,
    bit: Bitness,
) -> (r: Option<Vec<(Vec<u8>, u64)>>)
    ensures
        match spec_assoc(pairs_view(sigs_map@), root_name@) {
            None => r is None,
            Some(root) => r is Some && offs_view(r->Some_0@) == netvar_results_from(
                reqs_view(reqs@),
                0,
                spec_build(mem@, root, bit),
            ),
        },
{
    let root = match lookup_address(sigs_map, root_name) {
        None => {
            return None;
        },
        Some(x) => x,
    };
    let index = WalkerIndex::build(mem, root, bit);
    let ghost ts = spec_build(mem@, root, bit);
    let n = reqs.len();
    let mut out: Vec<(Vec<u8>, u64)> = Vec::new();
    let mut i: usize = 0;
    proof {
        assert(offs_view(out@) =~= Seq::<(Seq<u8>, int)>::empty());
        assert(Seq::<(Seq<u8>, int)>::empty() + netvar_results_from(reqs_view(reqs@), 0, ts)
            =~= netvar_results_from(reqs_view(reqs@), 0, ts));
    }
    while i < n
        invariant
            0 <= i <= n,
            n == reqs@.len(),
            index@ == ts,
            netvar_results_from(reqs_view(reqs@), 0, ts) == offs_view(out@) + netvar_results_from(
                reqs_view(reqs@),
                i as int,
                ts,
            ),
        decreases n - i,
    {
        let ghost before = offs_view(out@);
        proof {
            assert(reqs_view(reqs@)[i as int] == reqs@[i as int]@);
        }
        match index.get_offset(reqs[i].table.as_slice(), reqs[i].prop.as_slice()) {
            Some(o) => {
                let namec = clone_bytes(&reqs[i].name);
                out.push((namec, o));
                proof {
                    assert(offs_view(out@) =~= before.push((reqs@[i as int]@.name, o as int)));
                    assert(before + (seq![(reqs_view(reqs@)[i as int].name, o as int)]
                        + netvar_results_from(reqs_view(reqs@), i + 1, ts)) =~= offs_view(out@)
                        + netvar_results_from(reqs_view(reqs@), i + 1, ts));
                }
            },
            None => {},
        }
        i = i + 1;
    }
    Some(out)
}

} // verus!
