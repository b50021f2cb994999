//! Class/table walker: builds a snapshot index of the target's reflection
//! tables from one resolved root address, then answers named offset lookups,
//! including across nested tables.
//!
//! Remote layout, with `w` the target's pointer width in bytes:
//! - class node: name pointer at `+0`, table pointer at `+w`, next pointer
//!   at `+2w`; the nodes form a singly linked list ending at null;
//! - table: name pointer at `+0`, property-array pointer at `+w`, property
//!   count (4 bytes) at `+2w`;
//! - property: name pointer at `+0`, byte offset (4 bytes) at `+w`, child
//!   table pointer at `+w+4` (null for a leaf); entries are contiguous.
//!
//! Every traversal is bounded: name reads are capped, the class list keeps a
//! visited set, nested materialization and lookup have depth caps. A corrupt
//! or cyclic graph can therefore cost at most bounded work, never a hang;
//! the offending branch is abandoned and the rest of the index stands.

use vstd::prelude::*;

use crate::memory::{byte_at, bytes_at, read_cstr, readable, spec_cstr, Memory};
use crate::resolver::{le_value, lemma_pow256_values, lemma_pow256_mono, pow256, read_le};
use crate::types::Bitness;

verus! {

/// Longest name string read from the target before the structure is deemed
/// corrupt.
pub const NAME_CAP: usize = 64;

/// Most class-list nodes followed.
pub const MAX_CLASSES: usize = 4096;

/// Most properties materialized per table.
pub const MAX_PROPS: u32 = 4096;

/// Deepest nested-table materialization.
pub const MAX_TABLE_DEPTH: usize = 16;

/// Deepest nested-table traversal during one lookup.
pub const LOOKUP_DEPTH: usize = 16;

/// One property of a table, as the index holds it (spec level).
pub struct PropV {
    pub name: Seq<u8>,
    pub offset: u32,
    pub child: u64,
}

/// One table of the index (spec level). `addr` is the remote address the
/// table was read from.
pub struct TableV {
    pub addr: u64,
    pub name: Seq<u8>,
    pub props: Seq<PropV>,
}

/// One property of a table: its name, its byte offset within the owning
/// object, and the remote address of its child table (null for a leaf).
pub struct PropEntry {
    pub name: Vec<u8>,
    pub offset: u32,
    pub child: u64,
}

impl View for PropEntry {
    type V = PropV;

    open spec fn view(&self) -> PropV {
        PropV { name: self.name@, offset: self.offset, child: self.child }
    }
}

impl PropEntry {
    /// Whether this property nests a child table (a null child address
    /// marks a leaf).
    pub fn is_nested_table(&self) -> (r: bool)
        ensures
            r == (self.child != 0),
    {
        self.child != 0
    }
}

/// One materialized table.
pub struct TableEntry {
    pub addr: u64,
    pub name: Vec<u8>,
    pub props: Vec<PropEntry>,
}

impl View for TableEntry {
    type V = TableV;

    open spec fn view(&self) -> TableV {
        TableV {
            addr: self.addr,
            name: self.name@,
            props: self.props@.map_values(|p: PropEntry| p@),
        }
    }
}

pub open spec fn tv_seq(ts: Seq<TableEntry>) -> Seq<TableV> {
    ts.map_values(|t: TableEntry| t@)
}

/// The snapshot index: built exactly once, immutable afterwards; later
/// changes in the target's live memory are never observed.
pub struct WalkerIndex {
    pub bitness: Bitness,
    pub tables: Vec<TableEntry>,
}

impl View for WalkerIndex {
    type V = Seq<TableV>;

    open spec fn view(&self) -> Seq<TableV> {
        tv_seq(self.tables@)
    }
}

// ---------------------------------------------------------------------------
// reading single values out of the snapshot
// ---------------------------------------------------------------------------

/// The pointer-width value the snapshot holds at `a`, little-endian.
pub open spec fn ptr_at(m: Seq<(u64, Seq<u8>)>, a: int, bit: Bitness) -> Option<u64> {
    let pb = bit.spec_ptr_bytes() as int;
    if readable(m, a, pb) {
        Some(le_value(bytes_at(m, a, pb)) as u64)
    } else {
        None
    }
}

/// The 4-byte value the snapshot holds at `a`, little-endian.
pub open spec fn u32_at(m: Seq<(u64, Seq<u8>)>, a: int) -> Option<u32> {
    if readable(m, a, 4) {
        Some(le_value(bytes_at(m, a, 4)) as u32)
    } else {
        None
    }
}

/// An address beyond the 64-bit space holds nothing.
proof fn lemma_unreadable_beyond(m: Seq<(u64, Seq<u8>)>, a: int, len: int)
    requires
        a > u64::MAX,
        0 < len,
    ensures
        !readable(m, a, len),
{
    let probe = byte_at(m, (a + 0) as u64);
    assert(!(a + 0 <= u64::MAX));
}

/// Read a pointer-width value at `a`.
fn read_ptr(mem: &Memory, a: u64, bit: Bitness) -> (r: Option<u64>)
    ensures
        r == ptr_at(mem@, a as int, bit),
{
    let pb = bit.ptr_bytes();
    match mem.read_bytes(a, pb as usize) {
        None => None,
        Some(v) => {
            let val = read_le(v.as_slice(), 0, pb as usize);
            proof {
                assert(v@.subrange(0, pb as int) =~= bytes_at(mem@, a as int, pb as int));
                lemma_pow256_values();
                lemma_pow256_mono(pb as nat, 8);
            }
            Some(val)
        },
    }
}

/// Read a pointer-width value at `a + off`.
fn read_ptr_off(mem: &Memory, a: u64, off: u64, bit: Bitness) -> (r: Option<u64>)
    requires
        off <= 64,
    ensures
        r == ptr_at(mem@, a + off, bit),
{
    match a.checked_add(off) {
        None => {
            proof {
                lemma_unreadable_beyond(mem@, a + off, bit.spec_ptr_bytes() as int);
            }
            None
        },
        Some(fa) => read_ptr(mem, fa, bit),
    }
}

/// Read a 4-byte value at `a + off`.
fn read_u32_off(mem: &Memory, a: u64, off: u64) -> (r: Option<u32>)
    requires
        off <= 64,
    ensures
        r == u32_at(mem@, a + off),
{
    match a.checked_add(off) {
        None => {
            proof {
                lemma_unreadable_beyond(mem@, a + off, 4);
            }
            None
        },
        Some(fa) => {
            match mem.read_bytes(fa, 4) {
                None => None,
                Some(v) => {
                    let val = read_le(v.as_slice(), 0, 4);
                    proof {
                        assert(v@.subrange(0, 4) =~= bytes_at(mem@, fa as int, 4));
                        lemma_pow256_values();
                    }
                    Some(val as u32)
                },
            }
        },
    }
}

// ---------------------------------------------------------------------------
// reading remote structures
// ---------------------------------------------------------------------------

/// Distance between two consecutive property entries.
pub open spec fn prop_stride(bit: Bitness) -> int {
    2 * bit.spec_ptr_bytes() + 4
}

/// The property entry the snapshot holds at `a`, or `None` if any part of
/// it (name pointer, name string, offset, child pointer) cannot be read
/// sanely.
pub open spec fn spec_read_prop(m: Seq<(u64, Seq<u8>)>, a: int, bit: Bitness) -> Option<PropV> {
    let w = bit.spec_ptr_bytes() as int;
    match ptr_at(m, a, bit) {
        None => None,
        Some(name_ptr) => match spec_cstr(m, name_ptr as int, NAME_CAP as nat) {
            Err(_) => None,
            Ok(name) => match u32_at(m, a + w) {
                None => None,
                Some(off) => match ptr_at(m, a + w + 4, bit) {
                    None => None,
                    Some(child) => Some(PropV { name, offset: off, child }),
                },
            },
        },
    }
}

/// The first `count` properties of the array at `a`; a property that fails
/// to read abandons the rest of the array.
pub open spec fn spec_props(m: Seq<(u64, Seq<u8>)>, a: int, count: nat, bit: Bitness) -> Seq<PropV>
    decreases count,
{
    if count == 0 {
        Seq::empty()
    } else {
        match spec_read_prop(m, a, bit) {
            None => Seq::empty(),
            Some(p) => seq![p] + spec_props(m, a + prop_stride(bit), (count - 1) as nat, bit),
        }
    }
}

/// The table the snapshot holds at `a`: its name and its property array,
/// the count capped at `MAX_PROPS`.
pub open spec fn spec_read_table(m: Seq<(u64, Seq<u8>)>, a: int, bit: Bitness) -> Option<
    (Seq<u8>, Seq<PropV>),
> {
    let w = bit.spec_ptr_bytes() as int;
    match ptr_at(m, a, bit) {
        None => None,
        Some(name_ptr) => match spec_cstr(m, name_ptr as int, NAME_CAP as nat) {
            Err(_) => None,
            Ok(name) => match ptr_at(m, a + w, bit) {
                None => None,
                Some(props_ptr) => match u32_at(m, a + 2 * w) {
                    None => None,
                    Some(count) => {
                        let capped = if count > MAX_PROPS {
                            MAX_PROPS
                        } else {
                            count
                        };
                        Some((name, spec_props(m, props_ptr as int, capped as nat, bit)))
                    },
                },
            },
        },
    }
}

/// The class node at `a`: its table pointer and its next pointer. The name
/// is read for sanity only; a node whose name cannot be read is not
/// trusted.
pub open spec fn spec_read_class_node(m: Seq<(u64, Seq<u8>)>, a: int, bit: Bitness) -> Option<
    (u64, u64),
> {
    let w = bit.spec_ptr_bytes() as int;
    match ptr_at(m, a, bit) {
        None => None,
        Some(name_ptr) => match spec_cstr(m, name_ptr as int, NAME_CAP as nat) {
            Err(_) => None,
            Ok(_name) => match ptr_at(m, a + w, bit) {
                None => None,
                Some(tbl) => match ptr_at(m, a + 2 * w, bit) {
                    None => None,
                    Some(next) => Some((tbl, next)),
                },
            },
        },
    }
}

/// The index already holds a table read from address `a`.
pub open spec fn contains_addr(ts: Seq<TableV>, a: u64) -> bool {
    exists|i: int| 0 <= i < ts.len() && ts[i].addr == a
}

/// Materialize the table at `a` (unless null, already present, or out of
/// depth), then its children, appending to `ts`.
pub open spec fn spec_mat_table(
    m: Seq<(u64, Seq<u8>)>,
    a: u64,
    ts: Seq<TableV>,
    depth: nat,
    bit: Bitness,
) -> Seq<TableV>
    decreases depth, 0int,
{
    if a == 0 || depth == 0 || contains_addr(ts, a) {
        ts
    } else {
        match spec_read_table(m, a as int, bit) {
            None => ts,
            Some((name, props)) => spec_mat_children(
                m,
                props,
                0,
                ts.push(TableV { addr: a, name, props }),
                (depth - 1) as nat,
                bit,
            ),
        }
    }
}

/// Materialize the child tables of `props[i..]`.
pub open spec fn spec_mat_children(
    m: Seq<(u64, Seq<u8>)>,
    props: Seq<PropV>,
    i: int,
    ts: Seq<TableV>,
    depth: nat,
    bit: Bitness,
) -> Seq<TableV>
    decreases depth, props.len() - i + 1,
{
    if i < 0 || i >= props.len() {
        ts
    } else {
        let ts2 = if props[i].child != 0 {
            spec_mat_table(m, props[i].child, ts, depth, bit)
        } else {
            ts
        };
        spec_mat_children(m, props, i + 1, ts2, depth, bit)
    }
}

/// Walk the class list from `cur`, materializing each node's table. Stops
/// at null, at a node already visited (cycle guard), at a node that cannot
/// be read, or when the budget runs out.
pub open spec fn spec_walk(
    m: Seq<(u64, Seq<u8>)>,
    cur: u64,
    seen: Seq<u64>,
    ts: Seq<TableV>,
    budget: nat,
    bit: Bitness,
) -> Seq<TableV>
    decreases budget,
{
    if cur == 0 || budget == 0 || seen.contains(cur) {
        ts
    } else {
        match spec_read_class_node(m, cur as int, bit) {
            None => ts,
            Some((tbl, next)) => spec_walk(
                m,
                next,
                seen.push(cur),
                spec_mat_table(m, tbl, ts, MAX_TABLE_DEPTH as nat, bit),
                (budget - 1) as nat,
                bit,
            ),
        }
    }
}

/// The whole index built from the root address.
pub open spec fn spec_build(m: Seq<(u64, Seq<u8>)>, root: u64, bit: Bitness) -> Seq<TableV> {
    spec_walk(m, root, Seq::empty(), Seq::empty(), MAX_CLASSES as nat, bit)
}

// ---------------------------------------------------------------------------
// executable construction
// ---------------------------------------------------------------------------

/// Read one property entry.
fn read_prop_exec(mem: &Memory, a: u64, bit: Bitness) -> (r: Option<PropEntry>)
    ensures
        match r {
            Some(p) => spec_read_prop(mem@, a as int, bit) == Some(p@),
            None => spec_read_prop(mem@, a as int, bit) is None,
        },
{
    let w = bit.ptr_bytes();
    let name_ptr = match read_ptr(mem, a, bit) {
        None => {
            return None;
        },
        Some(x) => x,
    };
    let name = match read_cstr(mem, name_ptr, NAME_CAP) {
        Err(_) => {
            return None;
        },
        Ok(v) => v,
    };
    let off = match read_u32_off(mem, a, w) {
        None => {
            return None;
        },
        Some(x) => x,
    };
    let child = match read_ptr_off(mem, a, w + 4, bit) {
        None => {
            return None;
        },
        Some(x) => x,
    };
    Some(PropEntry { name, offset: off, child })
}

/// Map a property vector to its view.
pub open spec fn pv_seq(ps: Seq<PropEntry>) -> Seq<PropV> {
    ps.map_values(|p: PropEntry| p@)
}

/// Read one table: name, then its property array, capped and abandoning the
/// array at the first unreadable entry.
fn read_table_exec(mem: &Memory, a: u64, bit: Bitness) -> (r: Option<TableEntry>)
    ensures
        match r {
            Some(t) => spec_read_table(mem@, a as int, bit) == Some((t@.name, t@.props))
                && t.addr == a,
            None => spec_read_table(mem@, a as int, bit) is None,
        },
{
    let w = bit.ptr_bytes();
    let name_ptr = match read_ptr(mem, a, bit) {
        None => {
            return None;
        },
        Some(x) => x,
    };
    let name = match read_cstr(mem, name_ptr, NAME_CAP) {
        Err(_) => {
            return None;
        },
        Ok(v) => v,
    };
    let props_ptr = match read_ptr_off(mem, a, w, bit) {
        None => {
            return None;
        },
        Some(x) => x,
    };
    let count = match read_u32_off(mem, a, 2 * w) {
        None => {
            return None;
        },
        Some(x) => x,
    };
    let capped = if count > MAX_PROPS {
        MAX_PROPS
    } else {
        count
    };
    let stride = 2 * w + 4;
    let mut props: Vec<PropEntry> = Vec::new();
    let mut i: u32 = 0;
    let mut apos: u64 = props_ptr;
    let mut halted = false;
    while i < capped && !halted
        invariant
            0 <= i <= capped,
            stride == prop_stride(bit),
            1 <= stride <= 20,
            pv_seq(props@).len() == i,
            spec_props(mem@, props_ptr as int, capped as nat, bit) == (if halted {
                pv_seq(props@)
            } else {
                pv_seq(props@) + spec_props(mem@, apos as int, (capped - i) as nat, bit)
            }),
        decreases capped - i, (if halted { 0int } else { 1int }),
    {
        let ghost before = pv_seq(props@);
        match read_prop_exec(mem, apos, bit) {
            None => {
                proof {
                    assert(spec_props(mem@, apos as int, (capped - i) as nat, bit)
                        =~= Seq::<PropV>::empty());
                    assert(before + Seq::<PropV>::empty() =~= before);
                }
                halted = true;
            },
            Some(p) => {
                let ghost pv = p@;
                props.push(p);
                i = i + 1;
                proof {
                    assert(pv_seq(props@) =~= before.push(pv));
                    assert(spec_props(mem@, apos as int, (capped - i + 1) as nat, bit) == seq![pv]
                        + spec_props(mem@, apos + stride, (capped - i) as nat, bit));
                    assert(before + (seq![pv] + spec_props(
                        mem@,
                        apos + stride,
                        (capped - i) as nat,
                        bit,
                    )) =~= before.push(pv) + spec_props(
                        mem@,
                        apos + stride,
                        (capped - i) as nat,
                        bit,
                    ));
                }
                match apos.checked_add(stride) {
                    None => {
                        proof {
                            if i < capped {
                                lemma_unreadable_beyond(
                                    mem@,
                                    apos + stride,
                                    bit.spec_ptr_bytes() as int,
                                );
                                assert(spec_read_prop(mem@, apos + stride, bit) is None);
                                assert(spec_props(mem@, apos + stride, (capped - i) as nat, bit)
                                    =~= Seq::<PropV>::empty());
                            } else {
                                assert(spec_props(mem@, apos + stride, (capped - i) as nat, bit)
                                    =~= Seq::<PropV>::empty());
                            }
                            assert(before.push(pv) + Seq::<PropV>::empty() =~= before.push(pv));
                        }
                        halted = true;
                    },
                    Some(next) => {
                        apos = next;
                    },
                }
            },
        }
    }
    proof {
        if !halted {
            assert(spec_props(mem@, apos as int, (capped - i) as nat, bit)
                =~= Seq::<PropV>::empty());
            assert(pv_seq(props@) + Seq::<PropV>::empty() =~= pv_seq(props@));
        }
    }
    Some(TableEntry { addr: a, name, props })
}

/// Read one class node.
fn read_class_node_exec(mem: &Memory, a: u64, bit: Bitness) -> (r: Option<(u64, u64)>)
    ensures
        r == spec_read_class_node(mem@, a as int, bit),
{
    let w = bit.ptr_bytes();
    let name_ptr = match read_ptr(mem, a, bit) {
        None => {
            return None;
        },
        Some(x) => x,
    };
    match read_cstr(mem, name_ptr, NAME_CAP) {
        Err(_) => {
            return None;
        },
        Ok(_) => {},
    }
    let tbl = match read_ptr_off(mem, a, w, bit) {
        None => {
            return None;
        },
        Some(x) => x,
    };
    let next = match read_ptr_off(mem, a, 2 * w, bit) {
        None => {
            return None;
        },
        Some(x) => x,
    };
    Some((tbl, next))
}

/// Whether the index already holds a table read from `a`.
fn contains_addr_exec(tables: &Vec<TableEntry>, a: u64) -> (r: bool)
    ensures
        r == contains_addr(tv_seq(tables@), a),
{
    let n = tables.len();
    let mut i: usize = 0;
    while i < n
        invariant
            0 <= i <= n,
            n == tables@.len(),
            forall|j: int| 0 <= j < i ==> (#[trigger] tv_seq(tables@)[j]).addr != a,
        decreases n - i,
    {
        if tables[i].addr == a {
            proof {
                assert(tv_seq(tables@)[i as int].addr == a);
            }
            return true;
        }
        proof {
            assert(tv_seq(tables@)[i as int].addr != a);
        }
        i = i + 1;
    }
    false
}

/// Whether `v` holds `x`.
fn contains_u64(v: &Vec<u64>, x: u64) -> (r: bool)
    ensures
        r == v@.contains(x),
{
    let n = v.len();
    let mut i: usize = 0;
    while i < n
        invariant
            0 <= i <= n,
            n == v@.len(),
            forall|j: int| 0 <= j < i ==> v@[j] != x,
        decreases n - i,
    {
        if v[i] == x {
            return true;
        }
        i = i + 1;
    }
    proof {
        assert(forall|j: int| 0 <= j < v@.len() ==> v@[j] != x);
    }
    false
}

/// Materialize the table at `a` and, recursively, its children.
fn materialize_table(mem: &Memory, a: u64, tables: &mut Vec<TableEntry>, depth: usize, bit: Bitness)
    ensures
        tv_seq(final(tables)@) == spec_mat_table(mem@, a, tv_seq(old(tables)@), depth as nat, bit),
        old(tables)@.len() <= final(tables)@.len(),
        forall|j: int| 0 <= j < old(tables)@.len() ==> final(tables)@[j] == old(tables)@[j],
    decreases depth,
{
    if a == 0 || depth == 0 {
        return ;
    }
    if contains_addr_exec(tables, a) {
        return ;
    }
    let t = match read_table_exec(mem, a, bit) {
        None => {
            return ;
        },
        Some(t) => t,
    };
    let ghost t_v = t@;
    let ghost props_v = t@.props;
    let ghost orig = tables@;
    let plen = t.props.len();
    let idx = tables.len();
    let ghost pushed = tv_seq(tables@).push(t_v);
    tables.push(t);
    proof {
        assert(tv_seq(tables@) =~= pushed);
        assert(props_v.len() == plen);
    }
    let mut i: usize = 0;
    while i < plen
        invariant
            0 <= i <= plen,
            1 <= depth,
            props_v.len() == plen,
            idx < tables@.len(),
            orig.len() == idx,
            forall|j: int| 0 <= j < idx ==> tables@[j] == orig[j],
            tables@[idx as int]@ == t_v,
            t_v.props == props_v,
            spec_mat_children(mem@, props_v, 0, pushed, (depth - 1) as nat, bit)
                == spec_mat_children(
                mem@,
                props_v,
                i as int,
                tv_seq(tables@),
                (depth - 1) as nat,
                bit,
            ),
        decreases plen - i,
    {
        let c = tables[idx].props[i].child;
        proof {
            assert(tables@[idx as int]@.props[i as int] == props_v[i as int]);
            assert(c == props_v[i as int].child);
        }
        if c != 0 {
            materialize_table(mem, c, tables, depth - 1, bit);
        }
        i = i + 1;
    }
}

impl WalkerIndex {
    /// Build the snapshot index by walking the class list from
    /// `root` — an address resolved by a signature; the target is never
    /// executed, only read.
    ///
    /// The walk follows `next` until null, until a node repeats (cycle
    /// guard), until a node fails to read, or until the class budget runs
    /// out; each node's table and the tables nested under it are
    /// materialized once, bounded in depth.
    pub fn build(mem: &Memory, root: u64, bit: Bitness) -> (r: WalkerIndex)
        ensures
            r@ == spec_build(mem@, root, bit),
            r.bitness == bit,
    {
        let mut tables: Vec<TableEntry> = Vec::new();
        let mut seen: Vec<u64> = Vec::new();
        let mut cur = root;
        let mut budget: usize = MAX_CLASSES;
        proof {
            assert(tv_seq(tables@) =~= Seq::<TableV>::empty());
            assert(seen@ =~= Seq::<u64>::empty());
        }
        let mut go = cur != 0 && budget > 0 && !contains_u64(&seen, cur);
        while go
            invariant
                go == (cur != 0 && budget > 0 && !seen@.contains(cur)),
                spec_build(mem@, root, bit) == spec_walk(
                    mem@,
                    cur,
                    seen@,
                    tv_seq(tables@),
                    budget as nat,
                    bit,
                ),
            decreases budget,
        {
            match read_class_node_exec(mem, cur, bit) {
                None => {
                    cur = 0;
                },
                Some((tbl, next)) => {
                    seen.push(cur);
                    materialize_table(mem, tbl, &mut tables, MAX_TABLE_DEPTH, bit);
                    cur = next;
                },
            }
            budget = budget - 1;
            go = cur != 0 && budget > 0 && !contains_u64(&seen, cur);
        }
        WalkerIndex { bitness: bit, tables }
    }
}

// ---------------------------------------------------------------------------
// lookup
// ---------------------------------------------------------------------------

/// ASCII `.`, the path separator.
pub open spec fn spec_dot() -> u8 {
    0x2E
}

/// End of the path segment that starts at `i`: the first index `>= i`
/// holding a dot, or the end of the path.
pub open spec fn seg_end(s: Seq<u8>, i: int) -> int
    decreases s.len() - i,
{
    if i < 0 || i >= s.len() || s[i] == spec_dot() {
        i
    } else {
        seg_end(s, i + 1)
    }
}

pub proof fn lemma_seg_end_bounds(s: Seq<u8>, i: int)
    requires
        0 <= i <= s.len(),
    ensures
        i <= seg_end(s, i) <= s.len(),
    decreases s.len() - i,
{
    if i < s.len() && s[i] != spec_dot() {
        lemma_seg_end_bounds(s, i + 1);
    }
}

/// The dot-delimited segments of the path from position `i` on. A path
/// always has at least one segment; empty segments are kept (they simply
/// never name a property).
pub open spec fn segments_from(s: Seq<u8>, i: int) -> Seq<Seq<u8>>
    decreases s.len() - i,
        via segments_from_decreases
{
    if i < 0 || i > s.len() {
        Seq::empty()
    } else {
        let e = seg_end(s, i);
        if e >= s.len() {
            seq![s.subrange(i, s.len() as int)]
        } else {
            seq![s.subrange(i, e)] + segments_from(s, e + 1)
        }
    }
}

#[via_fn]
proof fn segments_from_decreases(s: Seq<u8>, i: int) {
    if 0 <= i <= s.len() {
        lemma_seg_end_bounds(s, i);
    }
}

/// First table with this name, from index `i` on.
pub open spec fn find_table_from(ts: Seq<TableV>, i: int, name: Seq<u8>) -> Option<int>
    decreases ts.len() - i,
{
    if i < 0 || i >= ts.len() {
        None
    } else if ts[i].name == name {
        Some(i)
    } else {
        find_table_from(ts, i + 1, name)
    }
}

/// First table with this name.
pub open spec fn find_by_name(ts: Seq<TableV>, name: Seq<u8>) -> Option<int> {
    find_table_from(ts, 0, name)
}

/// First table read from this address, from index `i` on.
pub open spec fn find_addr_from(ts: Seq<TableV>, i: int, a: u64) -> Option<int>
    decreases ts.len() - i,
{
    if i < 0 || i >= ts.len() {
        None
    } else if ts[i].addr == a {
        Some(i)
    } else {
        find_addr_from(ts, i + 1, a)
    }
}

/// First table read from this address.
pub open spec fn find_by_addr(ts: Seq<TableV>, a: u64) -> Option<int> {
    find_addr_from(ts, 0, a)
}

/// First property with this name, from index `i` on.
pub open spec fn find_prop_from(ps: Seq<PropV>, i: int, name: Seq<u8>) -> Option<int>
    decreases ps.len() - i,
{
    if i < 0 || i >= ps.len() {
        None
    } else if ps[i].name == name {
        Some(i)
    } else {
        find_prop_from(ps, i + 1, name)
    }
}

/// First property with this name.
pub open spec fn find_prop(ps: Seq<PropV>, name: Seq<u8>) -> Option<int> {
    find_prop_from(ps, 0, name)
}

/// Depth-first lookup of the remaining path segments `segs[si..]`, inside
/// table `ti`, with `acc` the sum of the offsets traversed so far.
///
/// A segment matching nothing, a leaf before the final segment, a nested
/// table at the final segment, an exhausted depth bound, or a child address
/// already on the current path all yield `None`. The accumulation is
/// strictly additive: the result is the sum of every traversed property's
/// own offset.
pub open spec fn lookup_rec(
    ts: Seq<TableV>,
    ti: int,
    segs: Seq<Seq<u8>>,
    si: int,
    visited: Seq<u64>,
    acc: int,
    depth: nat,
) -> Option<int>
    decreases segs.len() - si,
{
    if si < 0 || si >= segs.len() || ti < 0 || ti >= ts.len() {
        None
    } else {
        match find_prop(ts[ti].props, segs[si]) {
            None => None,
            Some(pi) => {
                let p = ts[ti].props[pi];
                if p.child == 0 {
                    if si == segs.len() - 1 {
                        Some(acc + p.offset)
                    } else {
                        None
                    }
                } else if si == segs.len() - 1 {
                    None
                } else if depth == 0 {
                    None
                } else if visited.contains(p.child) {
                    None
                } else {
                    match find_by_addr(ts, p.child) {
                        None => None,
                        Some(ti2) => lookup_rec(
                            ts,
                            ti2,
                            segs,
                            si + 1,
                            visited.push(p.child),
                            acc + p.offset,
                            (depth - 1) as nat,
                        ),
                    }
                }
            },
        }
    }
}

/// What a lookup returns: find the table by name, then walk the path.
pub open spec fn spec_get_offset(ts: Seq<TableV>, table: Seq<u8>, path: Seq<u8>) -> Option<int> {
    match find_by_name(ts, table) {
        None => None,
        Some(ti) => lookup_rec(
            ts,
            ti,
            segments_from(path, 0),
            0,
            seq![ts[ti].addr],
            0,
            LOOKUP_DEPTH as nat,
        ),
    }
}

/// Copy `src[start..end]` into a fresh vector.
fn copy_range(src: &[u8], start: usize, end: usize) -> (r: Vec<u8>)
    requires
        start <= end <= src@.len(),
    ensures
        r@ == src@.subrange(start as int, end as int),
{
    let mut out: Vec<u8> = Vec::new();
    let mut k = start;
    while k < end
        invariant
            start <= k <= end,
            end <= src@.len(),
            out@.len() == k - start,
            forall|t: int| 0 <= t < out@.len() ==> out@[t] == src@[start + t],
        decreases end - k,
    {
        let b = src[k];
        out.push(b);
        k = k + 1;
    }
    proof {
        assert(out@ =~= src@.subrange(start as int, end as int));
    }
    out
}

pub open spec fn segs_view(v: Seq<Vec<u8>>) -> Seq<Seq<u8>> {
    v.map_values(|x: Vec<u8>| x@)
}

/// Split a path on dots.
fn split_segments(path: &[u8]) -> (r: Vec<Vec<u8>>)
    ensures
        segs_view(r@) == segments_from(path@, 0),
{
    let n = path.len();
    let mut out: Vec<Vec<u8>> = Vec::new();
    let mut i: usize = 0;
    let mut fin = false;
    proof {
        assert(segs_view(out@) =~= Seq::<Seq<u8>>::empty());
        assert(Seq::<Seq<u8>>::empty() + segments_from(path@, 0) =~= segments_from(path@, 0));
    }
    while !fin
        invariant
            0 <= i <= n,
            n == path@.len(),
            !fin ==> segments_from(path@, 0) == segs_view(out@) + segments_from(path@, i as int),
            fin ==> segs_view(out@) == segments_from(path@, 0),
        decreases n - i, (if fin { 0int } else { 1int }),
    {
        let start = i;
        while i < n && path[i] != 0x2E
            invariant
                start <= i <= n,
                n == path@.len(),
                seg_end(path@, start as int) == seg_end(path@, i as int),
            decreases n - i,
        {
            i = i + 1;
        }
        proof {
            assert(seg_end(path@, i as int) == i as int);
        }
        let seg = copy_range(path, start, i);
        let ghost segv = seg@;
        let ghost before = segs_view(out@);
        out.push(seg);
        proof {
            assert(segs_view(out@) =~= before.push(segv));
        }
        if i < n {
            proof {
                assert(segments_from(path@, start as int) == seq![
                    path@.subrange(start as int, i as int),
                ] + segments_from(path@, i + 1));
                assert(before + (seq![segv] + segments_from(path@, i + 1)) =~= before.push(segv)
                    + segments_from(path@, i + 1));
            }
            i = i + 1;
        } else {
            proof {
                assert(segments_from(path@, start as int) == seq![
                    path@.subrange(start as int, n as int),
                ]);
                assert(before + seq![segv] =~= before.push(segv));
            }
            fin = true;
        }
    }
    out
}

/// Whether two byte strings are equal.
pub fn bytes_eq(a: &[u8], b: &[u8]) -> (r: bool)
    ensures
        r == (a@ == b@),
{
    let n = a.len();
    if n != b.len() {
        proof {
            assert(a@.len() != b@.len());
        }
        return false;
    }
    let mut i: usize = 0;
    while i < n
        invariant
            0 <= i <= n,
            n == a@.len(),
            n == b@.len(),
            forall|t: int| 0 <= t < i ==> a@[t] == b@[t],
        decreases n - i,
    {
        if a[i] != b[i] {
            return false;
        }
        i = i + 1;
    }
    proof {
        assert(a@ =~= b@);
    }
    true
}

/// Find a table by name (linear scan; first match).
fn find_table_exec(tables: &Vec<TableEntry>, name: &[u8]) -> (r: Option<usize>)
    ensures
        match r {
            Some(i) => i < tables@.len() && find_by_name(tv_seq(tables@), name@) == Some(i as int),
            None => find_by_name(tv_seq(tables@), name@) is None,
        },
{
    let n = tables.len();
    let mut i: usize = 0;
    while i < n
        invariant
            0 <= i <= n,
            n == tables@.len(),
            find_by_name(tv_seq(tables@), name@) == find_table_from(
                tv_seq(tables@),
                i as int,
                name@,
            ),
        decreases n - i,
    {
        proof {
            assert(tv_seq(tables@)[i as int] == tables@[i as int]@);
        }
        if bytes_eq(tables[i].name.as_slice(), name) {
            return Some(i);
        }
        i = i + 1;
    }
    None
}

/// Find a table by the address it was read from.
fn find_addr_exec(tables: &Vec<TableEntry>, a: u64) -> (r: Option<usize>)
    ensures
        match r {
            Some(i) => i < tables@.len() && find_by_addr(tv_seq(tables@), a) == Some(i as int),
            None => find_by_addr(tv_seq(tables@), a) is None,
        },
{
    let n = tables.len();
    let mut i: usize = 0;
    while i < n
        invariant
            0 <= i <= n,
            n == tables@.len(),
            find_by_addr(tv_seq(tables@), a) == find_addr_from(tv_seq(tables@), i as int, a),
        decreases n - i,
    {
        proof {
            assert(tv_seq(tables@)[i as int] == tables@[i as int]@);
        }
        if tables[i].addr == a {
            return Some(i);
        }
        i = i + 1;
    }
    None
}

/// Find a property by name (first match).
fn find_prop_exec(props: &Vec<PropEntry>, name: &[u8]) -> (r: Option<usize>)
    ensures
        match r {
            Some(i) => i < props@.len() && find_prop(pv_seq(props@), name@) == Some(i as int),
            None => find_prop(pv_seq(props@), name@) is None,
        },
{
    let n = props.len();
    let mut i: usize = 0;
    while i < n
        invariant
            0 <= i <= n,
            n == props@.len(),
            find_prop(pv_seq(props@), name@) == find_prop_from(pv_seq(props@), i as int, name@),
        decreases n - i,
    {
        proof {
            assert(pv_seq(props@)[i as int] == props@[i as int]@);
        }
        if bytes_eq(props[i].name.as_slice(), name) {
            return Some(i);
        }
        i = i + 1;
    }
    None
}

impl WalkerIndex {
    /// Look up the byte offset of `prop_path` (dot-delimited, one or more
    /// segments) inside the table named `table`.
    ///
    /// An absent table or property is `None`, not an error; so is a path
    /// that mismatches the table structure, exceeds the depth bound, or
    /// revisits a table address already on the current path. The result is
    /// a pure function of the built index and the arguments, so repeated
    /// lookups return identical results.
    pub fn get_offset(&self, table: &[u8], prop_path: &[u8]) -> (r: Option<u64>)
        ensures
            match r {
                Some(v) => spec_get_offset(self@, table@, prop_path@) == Some(v as int),
                None => spec_get_offset(self@, table@, prop_path@) is None,
            },
    {
        let ti0 = match find_table_exec(&self.tables, table) {
            None => {
                return None;
            },
            Some(t) => t,
        };
        let segs = split_segments(prop_path);
        let nsegs = segs.len();
        let mut visited: Vec<u64> = Vec::new();
        visited.push(self.tables[ti0].addr);
        proof {
            assert(tv_seq(self.tables@)[ti0 as int] == self.tables@[ti0 as int]@);
            assert(visited@ =~= seq![self@[ti0 as int].addr]);
        }
        let mut ti: usize = ti0;
        let mut si: usize = 0;
        let mut acc: u64 = 0;
        let mut depth: usize = LOOKUP_DEPTH;
        let ghost target = spec_get_offset(self@, table@, prop_path@);
        while si < nsegs
            invariant
                0 <= si <= nsegs,
                nsegs == segs@.len(),
                ti < self.tables@.len(),
                depth <= LOOKUP_DEPTH,
                acc <= (LOOKUP_DEPTH - depth) * 0xFFFF_FFFFu64,
                segs_view(segs@) == segments_from(prop_path@, 0),
                target == spec_get_offset(self@, table@, prop_path@),
                target == lookup_rec(
                    self@,
                    ti as int,
                    segs_view(segs@),
                    si as int,
                    visited@,
                    acc as int,
                    depth as nat,
                ),
            decreases nsegs - si,
        {
            let seg = &segs[si];
            proof {
                assert(segs_view(segs@)[si as int] == segs@[si as int]@);
                assert(tv_seq(self.tables@)[ti as int] == self.tables@[ti as int]@);
            }
            let pi = match find_prop_exec(&self.tables[ti].props, seg.as_slice()) {
                None => {
                    return None;
                },
                Some(p) => p,
            };
            let child = self.tables[ti].props[pi].child;
            let offset = self.tables[ti].props[pi].offset;
            proof {
                assert(self@[ti as int].props[pi as int] == self.tables@[ti as int].props@[
                    pi as int]@);
            }
            if child == 0 {
                if si == nsegs - 1 {
                    return Some(acc + offset as u64);
                } else {
                    return None;
                }
            } else if si == nsegs - 1 {
                return None;
            } else if depth == 0 {
                return None;
            } else if contains_u64(&visited, child) {
                return None;
            } else {
                match find_addr_exec(&self.tables, child) {
                    None => {
                        return None;
                    },
                    Some(t2) => {
                        visited.push(child);
                        acc = acc + offset as u64;
                        ti = t2;
                        si = si + 1;
                        depth = depth - 1;
                    },
                }
            }
        }
        None
    }
}

// ---------------------------------------------------------------------------
// laws
// ---------------------------------------------------------------------------

/// Lookups are deterministic: two results of the same `(table, path)`
/// lookup against one built index are identical, and one request cannot
/// affect another — the result is a function of the index and the
/// arguments alone.
pub proof fn lemma_lookup_deterministic(
    ts: Seq<TableV>,
    table: Seq<u8>,
    path: Seq<u8>,
    r1: Option<int>,
    r2: Option<int>,
)
    requires
        r1 == spec_get_offset(ts, table, path),
        r2 == spec_get_offset(ts, table, path),
    ensures
        r1 == r2,
{
}

/// A lookup for an unknown table returns `None`.
pub proof fn lemma_unknown_table_none(ts: Seq<TableV>, table: Seq<u8>, path: Seq<u8>)
    requires
        forall|i: int| 0 <= i < ts.len() ==> (#[trigger] ts[i]).name != table,
    ensures
        spec_get_offset(ts, table, path) is None,
{
    lemma_find_table_none(ts, 0, table);
}

proof fn lemma_find_table_none(ts: Seq<TableV>, i: int, table: Seq<u8>)
    requires
        forall|j: int| 0 <= j < ts.len() ==> (#[trigger] ts[j]).name != table,
        0 <= i,
    ensures
        find_table_from(ts, i, table) is None,
    decreases ts.len() - i,
{
    if i < ts.len() {
        lemma_find_table_none(ts, i + 1, table);
    }
}

/// A lookup whose first segment names no property of the table returns
/// `None`.
pub proof fn lemma_unknown_prop_none(ts: Seq<TableV>, ti: int, table: Seq<u8>, path: Seq<u8>)
    requires
        find_by_name(ts, table) == Some(ti),
        0 <= ti < ts.len(),
        forall|j: int|
            0 <= j < ts[ti].props.len() ==> (#[trigger] ts[ti].props[j]).name != segments_from(
                path,
                0,
            )[0],
    ensures
        spec_get_offset(ts, table, path) is None,
{
    lemma_find_prop_none(ts[ti].props, 0, segments_from(path, 0)[0]);
}

proof fn lemma_find_prop_none(ps: Seq<PropV>, i: int, name: Seq<u8>)
    requires
        forall|j: int| 0 <= j < ps.len() ==> (#[trigger] ps[j]).name != name,
        0 <= i,
    ensures
        find_prop_from(ps, i, name) is None,
    decreases ps.len() - i,
{
    if i < ps.len() {
        lemma_find_prop_none(ps, i + 1, name);
    }
}

/// A nested property that points back at the table the lookup started in
/// (a cycle) makes the lookup return `None` for that path rather than
/// hanging: the start table's address is on the path from the beginning.
pub proof fn lemma_cycle_none(ts: Seq<TableV>, ti: int, table: Seq<u8>, path: Seq<u8>, pi: int)
    requires
        find_by_name(ts, table) == Some(ti),
        0 <= ti < ts.len(),
        find_prop(ts[ti].props, segments_from(path, 0)[0]) == Some(pi),
        0 <= pi < ts[ti].props.len(),
        ts[ti].props[pi].child == ts[ti].addr,
        ts[ti].props[pi].child != 0,
        segments_from(path, 0).len() >= 2,
    ensures
        spec_get_offset(ts, table, path) is None,
{
    let segs = segments_from(path, 0);
    let visited: Seq<u64> = seq![ts[ti].addr];
    assert(visited[0] == ts[ti].props[pi].child);
    assert(visited.contains(ts[ti].props[pi].child));
}

/// For a synthetic nested chain A -> B -> C, where A's property `s1`
/// (offset `o_a`) nests table B, B's property `s2` (offset `o_b`) nests
/// table C, and C's property `s3` (offset `o_c`) is a leaf, the lookup of
/// the full path `s1.s2.s3` in A returns exactly `o_a + o_b + o_c`: the
/// accumulation is strictly additive.
pub proof fn lemma_nested_offsets_add(
    ta: TableV,
    tb: TableV,
    tc: TableV,
    s1: Seq<u8>,
    s2: Seq<u8>,
    s3: Seq<u8>,
    o_a: u32,
    o_b: u32,
    o_c: u32,
    path: Seq<u8>,
)
    requires
        ta.props == seq![PropV { name: s1, offset: o_a, child: tb.addr }],
        tb.props == seq![PropV { name: s2, offset: o_b, child: tc.addr }],
        tc.props == seq![PropV { name: s3, offset: o_c, child: 0u64 }],
        tb.addr != 0,
        tc.addr != 0,
        ta.addr != tb.addr,
        ta.addr != tc.addr,
        tb.addr != tc.addr,
        segments_from(path, 0) == seq![s1, s2, s3],
    ensures
        spec_get_offset(seq![ta, tb, tc], ta.name, path) == Some((o_a + o_b + o_c) as int),
{
    let ts = seq![ta, tb, tc];
    let segs = seq![s1, s2, s3];
    let d0 = LOOKUP_DEPTH as nat;
    let d1 = (d0 - 1) as nat;
    let d2 = (d1 - 1) as nat;
    let v1: Seq<u64> = seq![ta.addr];
    let v2 = v1.push(tb.addr);
    let v3 = v2.push(tc.addr);

    assert(find_by_name(ts, ta.name) == Some(0int));

    assert(find_prop(ta.props, s1) == Some(0int));
    assert(find_prop(tb.props, s2) == Some(0int));
    assert(find_prop(tc.props, s3) == Some(0int));

    assert(!v1.contains(tb.addr)) by {
        assert forall|j: int| 0 <= j < v1.len() implies v1[j] != tb.addr by {
            assert(v1[j] == ta.addr);
        }
    }
    assert(!v2.contains(tc.addr)) by {
        assert forall|j: int| 0 <= j < v2.len() implies v2[j] != tc.addr by {
            if j == 0 {
                assert(v2[j] == ta.addr);
            } else {
                assert(v2[j] == tb.addr);
            }
        }
    }

    assert(find_addr_from(ts, 1, tb.addr) == Some(1int));
    assert(find_by_addr(ts, tb.addr) == Some(1int));
    assert(find_addr_from(ts, 2, tc.addr) == Some(2int));
    assert(find_addr_from(ts, 1, tc.addr) == Some(2int));
    assert(find_by_addr(ts, tc.addr) == Some(2int));

    assert(lookup_rec(ts, 2, segs, 2, v3, o_a + o_b, d2) == Some((o_a + o_b + o_c) as int));
    assert(lookup_rec(ts, 1, segs, 1, v2, o_a as int, d1) == Some((o_a + o_b + o_c) as int));
    assert(lookup_rec(ts, 0, segs, 0, v1, 0, d0) == Some((o_a + o_b + o_c) as int));
    assert(ts[0].addr == ta.addr);
    assert(seq![ts[0].addr] =~= v1);
}

} // verus!

