//! Pattern compiler, scanner and resolver behaviour on concrete values.

use hazedumper::batch::{lookup_address, resolve_signature, scan_signatures, SignatureSpec};
use hazedumper::pattern::{compile_pattern, Matcher};
use hazedumper::resolver::{resolve, ResolutionRule};
use hazedumper::scanner::find_match;
use hazedumper::types::{Bitness, ScanError};

#[test]
fn compile_simple_pattern() {
    let p = compile_pattern(b"55 8B ?? 10").unwrap();
    assert_eq!(p.matchers.len(), 4);
    assert!(matches!(p.matchers[0], Matcher::Exact(0x55)));
    assert!(matches!(p.matchers[1], Matcher::Exact(0x8B)));
    assert!(matches!(p.matchers[2], Matcher::Wildcard));
    assert!(matches!(p.matchers[3], Matcher::Exact(0x10)));
}

#[test]
fn compile_accepts_both_wildcard_markers_and_cases() {
    let p = compile_pattern(b"a1 ? FF ??").unwrap();
    assert!(matches!(p.matchers[0], Matcher::Exact(0xA1)));
    assert!(matches!(p.matchers[1], Matcher::Wildcard));
    assert!(matches!(p.matchers[2], Matcher::Exact(0xFF)));
    assert!(matches!(p.matchers[3], Matcher::Wildcard));
}

#[test]
fn compile_rejects_bad_text() {
    assert_eq!(compile_pattern(b"").unwrap_err(), ScanError::ParseError);
    assert_eq!(compile_pattern(b"   ").unwrap_err(), ScanError::ParseError);
    assert_eq!(compile_pattern(b"?? ??").unwrap_err(), ScanError::ParseError);
    assert_eq!(compile_pattern(b"GG").unwrap_err(), ScanError::ParseError);
    assert_eq!(compile_pattern(b"5").unwrap_err(), ScanError::ParseError);
    assert_eq!(compile_pattern(b"555").unwrap_err(), ScanError::ParseError);
    assert_eq!(compile_pattern(b"55 8B ?!").unwrap_err(), ScanError::ParseError);
}

#[test]
fn first_match_wins() {
    let p = compile_pattern(b"AA ?? BB").unwrap();
    let buf = [0x00, 0xAA, 0x01, 0xBB, 0xAA, 0x02, 0xBB];
    // the pattern occurs at 1 and at 4; the scanner reports the first
    assert_eq!(find_match(&p, &buf), Some(1));
}

#[test]
fn no_match_is_none() {
    let p = compile_pattern(b"AA BB").unwrap();
    let buf = [0xAA, 0xCC, 0xBB, 0xAA];
    assert_eq!(find_match(&p, &buf), None);
    let short = [0xAA];
    assert_eq!(find_match(&p, &short), None);
}

#[test]
fn end_to_end_match_at_1() {
    let p = compile_pattern(b"55 8B ?? 10").unwrap();
    let buf = [0x90, 0x55, 0x8B, 0xFF, 0x10, 0x00];
    assert_eq!(find_match(&p, &buf), Some(1));
}

#[test]
fn wildcard_byte_mutation_keeps_result() {
    let p = compile_pattern(b"55 8B ?? 10").unwrap();
    let mut buf = vec![0x90, 0x55, 0x8B, 0xFF, 0x10, 0x00];
    let r0 = find_match(&p, &buf);
    assert_eq!(r0, Some(1));
    for b in 0..=255u8 {
        buf[3] = b; // aligned with the wildcard of the only match
        assert_eq!(find_match(&p, &buf), r0);
    }
}

#[test]
fn as_is_and_add_constant() {
    let buf = [0u8; 4];
    assert_eq!(resolve(ResolutionRule::AsIs, Bitness::X64, 0x1234, &buf, 0), Ok(0x1234));
    assert_eq!(
        resolve(ResolutionRule::AddConstant(0x10), Bitness::X64, 0x1234, &buf, 0),
        Ok(0x1244)
    );
    // 32-bit targets wrap at the pointer width
    assert_eq!(
        resolve(ResolutionRule::AddConstant(1), Bitness::X86, 0xFFFF_FFFF, &buf, 0),
        Ok(0)
    );
}

#[test]
fn deref_pointer_round_trip() {
    let base = 0x400000u64;
    let m = base + 8;
    let off = (m + 4 - base) as usize;

    let mut buf = vec![0u8; 32];
    buf[off..off + 4].copy_from_slice(&0xDEAD_BEEFu32.to_le_bytes());
    assert_eq!(
        resolve(ResolutionRule::DerefPointerAt(4), Bitness::X86, m, &buf, base),
        Ok(0xDEAD_BEEF)
    );

    let mut buf8 = vec![0u8; 32];
    buf8[off..off + 8].copy_from_slice(&0x0807_0605_0403_0201u64.to_le_bytes());
    assert_eq!(
        resolve(ResolutionRule::DerefPointerAt(4), Bitness::X64, m, &buf8, base),
        Ok(0x0807_0605_0403_0201)
    );
}

#[test]
fn relative_displacement_round_trip() {
    let base = 0x1000u64;
    let m = base + 0x10;
    let off = (m + 1 - base) as usize;
    let mut buf = vec![0u8; 0x40];

    let d: i32 = -5;
    buf[off..off + 4].copy_from_slice(&d.to_le_bytes());
    assert_eq!(
        resolve(ResolutionRule::RelativeDisplacement(1, 5), Bitness::X64, m, &buf, base),
        Ok(m + 5 - 5)
    );

    let d2: i32 = 0x100;
    buf[off..off + 4].copy_from_slice(&d2.to_le_bytes());
    assert_eq!(
        resolve(ResolutionRule::RelativeDisplacement(1, 5), Bitness::X64, m, &buf, base),
        Ok(m + 5 + 0x100)
    );
}

#[test]
fn deref_outside_buffer_is_read_failed() {
    let buf = [0u8; 8];
    assert_eq!(
        resolve(ResolutionRule::DerefPointerAt(100), Bitness::X86, 0x1000, &buf, 0x1000),
        Err(ScanError::ReadFailed)
    );
    assert_eq!(
        resolve(ResolutionRule::RelativeDisplacement(100, 5), Bitness::X64, 0x1000, &buf, 0x1000),
        Err(ScanError::ReadFailed)
    );
}

#[test]
fn resolve_signature_not_found() {
    let sig = SignatureSpec {
        name: b"x".to_vec(),
        pattern: b"AA BB".to_vec(),
        rule: ResolutionRule::AsIs,
    };
    let buf = [0x11, 0x22, 0x33];
    assert_eq!(resolve_signature(&sig, &buf, 0x1000, Bitness::X86), Err(ScanError::NotFound));
}

#[test]
fn resolve_signature_parse_error() {
    let sig = SignatureSpec {
        name: b"x".to_vec(),
        pattern: b"no hex here".to_vec(),
        rule: ResolutionRule::AsIs,
    };
    let buf = [0x11, 0x22, 0x33];
    assert_eq!(resolve_signature(&sig, &buf, 0x1000, Bitness::X86), Err(ScanError::ParseError));
}

#[test]
fn resolve_signature_with_deref_rule() {
    // "A1 <ptr>" : the pattern matches at the opcode, the rule reads the
    // 32-bit operand that follows it
    let base = 0x1000u64;
    let mut buf = vec![0x90u8, 0x90, 0xA1];
    buf.extend_from_slice(&0x00C0FFEEu32.to_le_bytes());
    buf.push(0xC3);
    let sig = SignatureSpec {
        name: b"localplayer".to_vec(),
        pattern: b"A1 ?? ?? ?? ??".to_vec(),
        rule: ResolutionRule::DerefPointerAt(1),
    };
    assert_eq!(resolve_signature(&sig, &buf, base, Bitness::X86), Ok(0x00C0FFEE));
}

#[test]
fn lookup_address_finds_first_entry() {
    let map = vec![
        (b"alpha".to_vec(), 0x10u64),
        (b"beta".to_vec(), 0x20u64),
        (b"alpha".to_vec(), 0x30u64),
    ];
    assert_eq!(lookup_address(&map, b"alpha"), Some(0x10));
    assert_eq!(lookup_address(&map, b"beta"), Some(0x20));
    assert_eq!(lookup_address(&map, b"gamma"), None);
}

#[test]
fn scan_signatures_partial_failure() {
    let sigs = vec![
        SignatureSpec {
            name: b"good".to_vec(),
            pattern: b"55 8B".to_vec(),
            rule: ResolutionRule::AsIs,
        },
        SignatureSpec {
            name: b"absent".to_vec(),
            pattern: b"FF FF FF".to_vec(),
            rule: ResolutionRule::AsIs,
        },
        SignatureSpec {
            name: b"malformed".to_vec(),
            pattern: b"zz".to_vec(),
            rule: ResolutionRule::AddConstant(2),
        },
    ];
    let buf = [0x90, 0x55, 0x8B, 0x00];
    let res = scan_signatures(&sigs, &buf, 0x4000, Bitness::X64);
    // failures are local: only the failing items are absent
    assert_eq!(res.len(), 1);
    assert_eq!(res[0].0, b"good".to_vec());
    assert_eq!(res[0].1, 0x4001);
}
