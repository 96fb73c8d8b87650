//! The on-disk layout of the region, as specification functions over the
//! backing bytes.
//!
//! Atom 0 carries the region header; a free run's header occupies the first
//! bytes of the run's first atom. All multi-byte fields are little-endian.
//! The well-formedness predicates here say what a healthy region looks like:
//! a valid region header, and a free list that is an acyclic chain of
//! in-bounds, non-overlapping runs, each carrying the free magic.

use vstd::prelude::*;
use crate::codec::{le16_at, le32_at, le64_at};

verus! {

/// Base-2 logarithm of the atom size.
pub const ATOM_SHIFT: u32 = 12;

/// The allocation quantum in bytes (`1 << ATOM_SHIFT`).
pub const ATOM_SIZE: usize = 4096;

/// The reserved null atom index.
pub const ATOM_NULL: u32 = 0;

/// Default region size in atoms.
pub const DEFAULT_COUNT: u32 = 32;

/// Default region size in bytes.
pub const DEFAULT_SIZE: usize = 32 * 4096;

/// Maximum length of a secondary header name.
pub const HEADER_NAME_LEN: usize = 64;

/// Major version: differing majors are incompatible.
pub const VERS_MAJOR: u8 = 1;

/// Minor version: lesser minors are readable.
pub const VERS_MINOR: u8 = 0;

/// The region magic in the byte order this library writes.
pub const MAGIC_NUMBER: u16 = 0xBE1E;

/// The region magic as it reads when the bytes were written with the
/// opposite byte order.
pub const MAGIC_WRONG: u16 = 0x1EBE;

/// Sentinel carried by every free-run header.
pub const FREE_MAGIC: u32 = 0xCABB1E16;

// Byte offsets of the region-header fields inside atom 0.
pub const MAGIC_OFF: usize = 0;

pub const VMAJ_OFF: usize = 2;

pub const VMIN_OFF: usize = 3;

pub const SIZE_OFF: usize = 8;

pub const MAXSZ_OFF: usize = 16;

pub const NHDR_OFF: usize = 24;

pub const FREE_OFF: usize = 28;

/// Bytes occupied by the region header (the rest of atom 0 is reserved).
pub const INFO_SIZE: usize = 32;

// Byte offsets of the free-run header fields relative to the run's first
// atom.
pub const NODE_MAGIC_OFF: usize = 0;

pub const NODE_SIZE_OFF: usize = 4;

pub const NODE_NEXT_OFF: usize = 8;

/// Bytes occupied by a free-run header.
pub const NODE_HEADER_SIZE: usize = 12;

/// Bytes occupied by a secondary header's fixed part: its name, kind and
/// flag fields and its length field at `HDR_LEN_OFF`.
pub const HDR_FIXED_SIZE: usize = 72;

/// Offset of a secondary header's length field within the header.
pub const HDR_LEN_OFF: usize = 68;

/// Alignment kept between consecutive secondary headers.
pub const HDR_ALIGN: usize = 8;

/// Byte offset of the `i`-th secondary header: headers follow the region
/// header, each one's aligned length apart from the one before.
pub open spec fn hdr_off(m: Seq<u8>, i: int) -> int
    decreases i,
{
    if i <= 0 {
        INFO_SIZE as int
    } else {
        let p = hdr_off(m, i - 1);
        p + crate::rounding::round_up_spec(le32_at(m, p + HDR_LEN_OFF), HDR_ALIGN as int)
    }
}

/// The first `count` secondary headers all fit inside the reserved rest of
/// atom 0.
pub open spec fn hdrs_ok(m: Seq<u8>, count: int) -> bool {
    forall|i: int| 0 <= i < count ==> #[trigger] hdr_off(m, i) + HDR_FIXED_SIZE <= ATOM_SIZE
}

/// First byte of atom `a`.
pub open spec fn node_base(a: int) -> int {
    a * (ATOM_SIZE as int)
}

/// The atom that byte `i` belongs to.
pub open spec fn atom_of(i: int) -> int {
    i / (ATOM_SIZE as int)
}

/// A byte inside atom `a`'s span belongs to atom `a`.
pub proof fn lemma_atom_of_range(a: int, i: int)
    requires
        0 <= a,
        node_base(a) <= i < node_base(a) + ATOM_SIZE,
    ensures
        atom_of(i) == a,
{
    vstd::arithmetic::div_mod::lemma_fundamental_div_mod_converse(
        i,
        ATOM_SIZE as int,
        a,
        i - a * (ATOM_SIZE as int),
    );
}

pub open spec fn info_magic(m: Seq<u8>) -> int {
    le16_at(m, MAGIC_OFF as int)
}

pub open spec fn info_vmaj(m: Seq<u8>) -> int {
    m[VMAJ_OFF as int] as int
}

pub open spec fn info_vmin(m: Seq<u8>) -> int {
    m[VMIN_OFF as int] as int
}

pub open spec fn info_size(m: Seq<u8>) -> int {
    le64_at(m, SIZE_OFF as int)
}

pub open spec fn info_max(m: Seq<u8>) -> int {
    le64_at(m, MAXSZ_OFF as int)
}

pub open spec fn info_nhdr(m: Seq<u8>) -> int {
    le32_at(m, NHDR_OFF as int)
}

pub open spec fn info_free(m: Seq<u8>) -> int {
    le32_at(m, FREE_OFF as int)
}

/// Number of atoms the header says the region holds.
pub open spec fn n_atoms(m: Seq<u8>) -> int {
    info_size(m) / (ATOM_SIZE as int)
}

pub open spec fn node_magic(m: Seq<u8>, a: int) -> int {
    le32_at(m, node_base(a) + NODE_MAGIC_OFF)
}

pub open spec fn node_size(m: Seq<u8>, a: int) -> int {
    le32_at(m, node_base(a) + NODE_SIZE_OFF)
}

pub open spec fn node_next(m: Seq<u8>, a: int) -> int {
    le32_at(m, node_base(a) + NODE_NEXT_OFF)
}

/// The region header is one this library accepts: right magic, compatible
/// version, and a size field that is a whole number of atoms, lies within
/// the backing bytes, and keeps atom indices inside 32 bits.
pub open spec fn region_wf(m: Seq<u8>) -> bool {
    &&& ATOM_SIZE <= m.len()
    &&& info_magic(m) == MAGIC_NUMBER
    &&& info_vmaj(m) == VERS_MAJOR
    &&& info_vmin(m) <= VERS_MINOR
    &&& info_size(m) % (ATOM_SIZE as int) == 0
    &&& ATOM_SIZE <= info_size(m) <= m.len()
    &&& n_atoms(m) <= u32::MAX
    &&& info_max(m) == 0 || info_size(m) <= info_max(m)
}

/// The chain successor the node at position `i` of `order` must name:
/// the following node, or the null atom at the end of the list.
pub open spec fn chain_next(order: Seq<u32>, i: int) -> int {
    if i + 1 < order.len() {
        order[i + 1] as int
    } else {
        0
    }
}

/// The node at position `i` of `order` is healthy: in bounds, at least one
/// atom long, magic intact, and chained to its successor.
pub open spec fn node_ok(m: Seq<u8>, order: Seq<u32>, i: int) -> bool {
    let a = order[i] as int;
    &&& 1 <= a
    &&& 1 <= node_size(m, a)
    &&& a + node_size(m, a) <= n_atoms(m)
    &&& node_magic(m, a) == FREE_MAGIC
    &&& node_next(m, a) == chain_next(order, i)
}

/// No two runs of `order` share an atom.
pub open spec fn runs_disjoint(m: Seq<u8>, order: Seq<u32>) -> bool {
    forall|i: int, j: int|
        0 <= i < order.len() && 0 <= j < order.len() && i != j ==> (order[i] + node_size(
            m,
            order[i] as int,
        ) <= order[j] || order[j] + node_size(m, order[j] as int) <= order[i])
}

/// `order` names the free runs in list order: the root points at the first
/// run, every run is healthy and chained to the next, and no two runs
/// overlap.
pub open spec fn list_wf(m: Seq<u8>, order: Seq<u32>) -> bool {
    &&& info_free(m) == (if order.len() == 0 {
        0int
    } else {
        order[0] as int
    })
    &&& forall|i: int| 0 <= i < order.len() ==> #[trigger] node_ok(m, order, i)
    &&& runs_disjoint(m, order)
}

/// Atom `x` lies inside the run at position `i` of `order`.
pub open spec fn in_run(m: Seq<u8>, order: Seq<u32>, i: int, x: int) -> bool {
    0 <= i < order.len() && order[i] <= x < order[i] + node_size(m, order[i] as int)
}

/// Atom `x` lies inside some free run.
pub open spec fn covered(m: Seq<u8>, order: Seq<u32>, x: int) -> bool {
    exists|i: int| in_run(m, order, i, x)
}

/// The set of free atoms.
pub open spec fn free_set(m: Seq<u8>, order: Seq<u32>) -> Set<int> {
    Set::new(|x: int| covered(m, order, x))
}

/// Atom `x` lies inside one of the first `k` runs of `order`.
pub open spec fn covered_prefix(m: Seq<u8>, order: Seq<u32>, k: int, x: int) -> bool {
    exists|i: int| 0 <= i < k && in_run(m, order, i, x)
}

/// A byte image this library will reopen: an acceptable header and a
/// well-formed free list.
pub open spec fn image_valid(m: Seq<u8>) -> bool {
    &&& region_wf(m)
    &&& exists|order: Seq<u32>| list_wf(m, order)
}

/// The node at position `i` of a partially walked prefix `p` is healthy,
/// where the walk's cursor stands at `cur`: like `node_ok`, except that the
/// last node of the prefix is chained to the cursor rather than to the null
/// terminator.
pub open spec fn partial_node_ok(m: Seq<u8>, p: Seq<u32>, cur: int, i: int) -> bool {
    let a = p[i] as int;
    &&& 1 <= a
    &&& 1 <= node_size(m, a)
    &&& a + node_size(m, a) <= n_atoms(m)
    &&& node_magic(m, a) == FREE_MAGIC
    &&& node_next(m, a) == (if i + 1 < p.len() {
        p[i + 1] as int
    } else {
        cur
    })
}

/// `p` is the prefix of the free list walked so far, with the cursor at
/// `cur`: the root points at the first node (or at the cursor while nothing
/// is walked), and every walked node is healthy and chained onward.
pub open spec fn partial_chain(m: Seq<u8>, p: Seq<u32>, cur: int) -> bool {
    &&& info_free(m) == (if p.len() == 0 {
        cur
    } else {
        p[0] as int
    })
    &&& forall|i: int| 0 <= i < p.len() ==> #[trigger] partial_node_ok(m, p, cur, i)
}

/// A finished walk (cursor at the null terminator) is a well-formed list,
/// given that its runs do not overlap.
pub proof fn lemma_partial_chain_complete(m: Seq<u8>, p: Seq<u32>)
    requires
        partial_chain(m, p, 0),
        runs_disjoint(m, p),
    ensures
        list_wf(m, p),
{
    assert forall|i: int| 0 <= i < p.len() implies node_ok(m, p, i) by {
        assert(partial_node_ok(m, p, 0, i));
    }
}

proof fn lemma_partial_pointwise(m: Seq<u8>, p: Seq<u32>, cur: int, w: Seq<u32>, i: int)
    requires
        partial_chain(m, p, cur),
        list_wf(m, w),
        0 <= i < p.len(),
        i < w.len(),
    ensures
        p[i] == w[i],
    decreases i,
{
    if i == 0 {
        assert(node_ok(m, w, 0));
        assert(partial_node_ok(m, p, cur, 0));
    } else {
        lemma_partial_pointwise(m, p, cur, w, i - 1);
        assert(node_ok(m, w, i - 1));
        assert(partial_node_ok(m, p, cur, i - 1));
    }
}

/// A partial walk is forced: it agrees pointwise with any well-formed order
/// `w` over the same bytes, and the cursor is either the terminator at the
/// very end of `w` or the next node `w` names.
pub proof fn lemma_partial_prefix(m: Seq<u8>, p: Seq<u32>, cur: int, w: Seq<u32>)
    requires
        partial_chain(m, p, cur),
        list_wf(m, w),
    ensures
        p.len() <= w.len(),
        forall|i: int| 0 <= i < p.len() ==> p[i] == w[i],
        cur == 0 ==> p.len() == w.len(),
        cur != 0 ==> p.len() < w.len() && w[p.len() as int] == cur,
{
    assert(p.len() <= w.len()) by {
        if p.len() > w.len() {
            if w.len() == 0 {
                assert(partial_node_ok(m, p, cur, 0));
            } else {
                let i = w.len() - 1;
                lemma_partial_pointwise(m, p, cur, w, i);
                assert(node_ok(m, w, i));
                assert(partial_node_ok(m, p, cur, i));
                assert(partial_node_ok(m, p, cur, i + 1));
            }
        }
    }
    assert forall|i: int| 0 <= i < p.len() implies p[i] == w[i] by {
        lemma_partial_pointwise(m, p, cur, w, i);
    }
    if p.len() == w.len() {
        if p.len() == 0 {
            assert(info_free(m) == cur);
        } else {
            let i = p.len() - 1;
            assert(node_ok(m, w, i));
            assert(partial_node_ok(m, p, cur, i));
        }
        assert(cur == 0);
    } else {
        if p.len() == 0 {
            assert(node_ok(m, w, 0));
            assert(info_free(m) == w[0]);
        } else {
            let i = p.len() - 1;
            assert(node_ok(m, w, i));
            assert(partial_node_ok(m, p, cur, i));
        }
        assert(w[p.len() as int] == cur);
        assert(node_ok(m, w, p.len() as int));
    }
}

/// When some well-formed order exists for these bytes, a partial walk's
/// cursor necessarily stands on a healthy node whose run is disjoint from
/// everything walked so far. This is what lets the walk reject bytes only
/// when no well-formed order exists at all.
pub proof fn lemma_valid_cursor_node(m: Seq<u8>, p: Seq<u32>, cur: int)
    requires
        partial_chain(m, p, cur),
        cur != 0,
        exists|w: Seq<u32>| list_wf(m, w),
    ensures
        1 <= cur < n_atoms(m),
        1 <= node_size(m, cur),
        cur + node_size(m, cur) <= n_atoms(m),
        node_magic(m, cur) == FREE_MAGIC,
        forall|x: int| cur <= x < cur + node_size(m, cur) ==> !covered(m, p, x),
{
    let w = choose|w: Seq<u32>| list_wf(m, w);
    lemma_partial_prefix(m, p, cur, w);
    let k = p.len() as int;
    assert(node_ok(m, w, k));
    assert forall|x: int| cur <= x < cur + node_size(m, cur) implies !covered(m, p, x) by {
        if covered(m, p, x) {
            let i = choose|i: int| in_run(m, p, i, x);
            assert(p[i] == w[i]);
            assert(in_run(m, w, i, x));
            assert(runs_disjoint(m, w));
            assert(w[i] + node_size(m, w[i] as int) <= w[k] || w[k] + node_size(m, w[k] as int)
                <= w[i]);
        }
    }
}

/// Walking one more node: pushing the cursor's node onto the walked prefix
/// keeps every walk invariant, and extends the walked coverage by exactly
/// that node's run.
pub proof fn lemma_extend_walk(m: Seq<u8>, p: Seq<u32>, cur: u32, nxt: int)
    requires
        partial_chain(m, p, cur as int),
        runs_disjoint(m, p),
        p.no_duplicates(),
        cur != 0,
        1 <= cur,
        (cur as int) < n_atoms(m),
        1 <= node_size(m, cur as int),
        cur + node_size(m, cur as int) <= n_atoms(m),
        node_magic(m, cur as int) == FREE_MAGIC,
        node_next(m, cur as int) == nxt,
        forall|x: int| cur <= x < cur + node_size(m, cur as int) ==> !covered(m, p, x),
        n_atoms(m) <= u32::MAX,
    ensures
        partial_chain(m, p.push(cur), nxt),
        runs_disjoint(m, p.push(cur)),
        p.push(cur).no_duplicates(),
        p.push(cur).len() <= n_atoms(m) - 1,
        forall|x: int|
            covered(m, p.push(cur), x) <==> covered(m, p, x) || (cur <= x < cur + node_size(
                m,
                cur as int,
            )),
{
    let p2 = p.push(cur);
    let k = p.len() as int;
    let s = node_size(m, cur as int);
    assert forall|i: int| 0 <= i < p2.len() implies #[trigger] partial_node_ok(m, p2, nxt, i) by {
        if i < k {
            assert(partial_node_ok(m, p, cur as int, i));
            assert(p2[i] == p[i]);
            if i + 1 < k {
                assert(p2[i + 1] == p[i + 1]);
            } else {
                assert(p2[i + 1] == cur);
            }
        } else {
            assert(p2[i] == cur);
        }
    }
    assert(p2.no_duplicates()) by {
        assert forall|i: int, j: int|
            0 <= i < p2.len() && 0 <= j < p2.len() && i != j implies p2[i] != p2[j] by {
            if i < k && j < k {
                assert(p[i] != p[j]);
            } else {
                let o = if i < k {
                    i
                } else {
                    j
                };
                if o < k {
                    assert(partial_node_ok(m, p, cur as int, o));
                    if p[o] == cur {
                        assert(in_run(m, p, o, cur as int));
                        assert(covered(m, p, cur as int));
                    }
                }
            }
        }
    }
    assert(runs_disjoint(m, p2)) by {
        assert forall|i: int, j: int|
            0 <= i < p2.len() && 0 <= j < p2.len() && i != j implies (p2[i] + node_size(
            m,
            p2[i] as int,
        ) <= p2[j] || p2[j] + node_size(m, p2[j] as int) <= p2[i]) by {
            if i < k && j < k {
                assert(p2[i] == p[i] && p2[j] == p[j]);
            } else {
                let o = if i < k {
                    i
                } else {
                    j
                };
                if o < k {
                    let a = p[o] as int;
                    let sa = node_size(m, a);
                    assert(partial_node_ok(m, p, cur as int, o));
                    if !(a + sa <= cur as int || cur as int + s <= a) {
                        let x = if a >= cur as int {
                            a
                        } else {
                            cur as int
                        };
                        assert(in_run(m, p, o, x));
                        assert(covered(m, p, x));
                    }
                }
            }
        }
    }
    assert(p2.len() <= n_atoms(m) - 1) by {
        assert forall|i: int| 0 <= i < p2.len() implies 1 <= #[trigger] p2[i] < n_atoms(m) by {
            if i < k {
                assert(partial_node_ok(m, p, cur as int, i));
                assert(p2[i] == p[i]);
            } else {
                assert(p2[i] == cur);
            }
        }
        lemma_distinct_starts_bound(p2, n_atoms(m));
    }
    assert forall|x: int|
        covered(m, p2, x) <==> covered(m, p, x) || (cur <= x < cur as int + s) by {
        if covered(m, p2, x) {
            let i = choose|i: int| in_run(m, p2, i, x);
            if i < k {
                assert(p2[i] == p[i]);
                assert(in_run(m, p, i, x));
            } else {
                assert(p2[i] == cur);
            }
        }
        if covered(m, p, x) {
            let i = choose|i: int| in_run(m, p, i, x);
            assert(p2[i] == p[i]);
            assert(in_run(m, p2, i, x));
        }
        if cur <= x < cur as int + s {
            assert(p2[k] == cur);
            assert(in_run(m, p2, k, x));
        }
    }
}

/// The free-run header of atom `a` reads the same out of both byte images.
pub open spec fn node_same(m1: Seq<u8>, m2: Seq<u8>, a: int) -> bool {
    &&& node_magic(m2, a) == node_magic(m1, a)
    &&& node_size(m2, a) == node_size(m1, a)
    &&& node_next(m2, a) == node_next(m1, a)
}

/// A write confined to `[lo, hi)` leaves the free-run header of any atom
/// whose header bytes lie outside that window unchanged.
pub proof fn lemma_node_frame(m1: Seq<u8>, m2: Seq<u8>, lo: int, hi: int, a: int)
    requires
        m1.len() == m2.len(),
        forall|i: int| 0 <= i < m1.len() && !(lo <= i < hi) ==> m2[i] == m1[i],
        0 <= lo <= hi,
        0 <= a,
        node_base(a) + NODE_HEADER_SIZE <= m1.len(),
        hi <= node_base(a) || node_base(a) + NODE_HEADER_SIZE <= lo,
    ensures
        node_same(m1, m2, a),
{
    crate::codec::lemma_le32_same(m1, m2, node_base(a) + NODE_MAGIC_OFF);
    crate::codec::lemma_le32_same(m1, m2, node_base(a) + NODE_SIZE_OFF);
    crate::codec::lemma_le32_same(m1, m2, node_base(a) + NODE_NEXT_OFF);
}

/// A write confined to `[lo, hi)` leaves every region-header field whose
/// bytes lie outside that window unchanged.
pub proof fn lemma_header_frame(m1: Seq<u8>, m2: Seq<u8>, lo: int, hi: int)
    requires
        m1.len() == m2.len(),
        ATOM_SIZE <= m1.len(),
        forall|i: int| 0 <= i < m1.len() && !(lo <= i < hi) ==> m2[i] == m1[i],
        0 <= lo <= hi,
    ensures
        hi <= MAGIC_OFF || MAGIC_OFF + 2 <= lo ==> info_magic(m2) == info_magic(m1),
        hi <= VMAJ_OFF || VMAJ_OFF + 1 <= lo ==> info_vmaj(m2) == info_vmaj(m1),
        hi <= VMIN_OFF || VMIN_OFF + 1 <= lo ==> info_vmin(m2) == info_vmin(m1),
        hi <= SIZE_OFF || SIZE_OFF + 8 <= lo ==> info_size(m2) == info_size(m1) && n_atoms(m2)
            == n_atoms(m1),
        hi <= MAXSZ_OFF || MAXSZ_OFF + 8 <= lo ==> info_max(m2) == info_max(m1),
        hi <= NHDR_OFF || NHDR_OFF + 4 <= lo ==> info_nhdr(m2) == info_nhdr(m1),
        hi <= FREE_OFF || FREE_OFF + 4 <= lo ==> info_free(m2) == info_free(m1),
{
    if hi <= MAGIC_OFF || MAGIC_OFF + 2 <= lo {
        crate::codec::lemma_le16_same(m1, m2, MAGIC_OFF as int);
    }
    if hi <= SIZE_OFF || SIZE_OFF + 8 <= lo {
        crate::codec::lemma_le64_same(m1, m2, SIZE_OFF as int);
    }
    if hi <= MAXSZ_OFF || MAXSZ_OFF + 8 <= lo {
        crate::codec::lemma_le64_same(m1, m2, MAXSZ_OFF as int);
    }
    if hi <= NHDR_OFF || NHDR_OFF + 4 <= lo {
        crate::codec::lemma_le32_same(m1, m2, NHDR_OFF as int);
    }
    if hi <= FREE_OFF || FREE_OFF + 4 <= lo {
        crate::codec::lemma_le32_same(m1, m2, FREE_OFF as int);
    }
}

/// Unlinking the run at position `k`: after the one link that pointed at it
/// is rewritten to its successor, the remaining runs form a well-formed
/// list, and the freed coverage is exactly the old coverage less that run.
#[verifier::rlimit(100)]
pub proof fn lemma_unlink(m1: Seq<u8>, m2: Seq<u8>, order: Seq<u32>, k: int)
    requires
        list_wf(m1, order),
        0 <= k < order.len(),
        info_size(m2) == info_size(m1),
        (k == 0 ==> info_free(m2) == chain_next(order, 0)),
        (k > 0 ==> info_free(m2) == info_free(m1)),
        (k > 0 ==> {
            &&& node_magic(m2, order[k - 1] as int) == node_magic(m1, order[k - 1] as int)
            &&& node_size(m2, order[k - 1] as int) == node_size(m1, order[k - 1] as int)
            &&& node_next(m2, order[k - 1] as int) == chain_next(order, k)
        }),
        forall|i: int|
            0 <= i < order.len() && i != k && i != k - 1 ==> #[trigger] node_same(
                m1,
                m2,
                order[i] as int,
            ),
    ensures
        list_wf(m2, order.remove(k)),
        forall|x: int|
            covered(m2, order.remove(k), x) <==> (covered(m1, order, x) && !in_run(m1, order, k, x)),
{
    let r = order.remove(k);
    let len = order.len() as int;
    assert forall|j: int| 0 <= j < r.len() implies #[trigger] node_ok(m2, r, j) by {
        let oj = if j < k {
            j
        } else {
            j + 1
        };
        assert(node_ok(m1, order, oj));
        assert(r[j] == order[oj]);
        if oj != k - 1 {
            assert(node_same(m1, m2, order[oj] as int));
        }
        if j + 1 < r.len() {
            let oj2 = if j + 1 < k {
                j + 1
            } else {
                j + 2
            };
            assert(r[j + 1] == order[oj2]);
            if oj == k - 1 {
                assert(node_next(m2, r[j] as int) == chain_next(order, k));
            } else {
                assert(node_ok(m1, order, oj));
            }
        } else {
            if oj == k - 1 {
                assert(node_next(m2, r[j] as int) == chain_next(order, k));
            }
        }
    }
    assert(runs_disjoint(m2, r)) by {
        assert forall|i: int, j: int|
            0 <= i < r.len() && 0 <= j < r.len() && i != j implies (r[i] + node_size(
            m2,
            r[i] as int,
        ) <= r[j] || r[j] + node_size(m2, r[j] as int) <= r[i]) by {
            let oi = if i < k {
                i
            } else {
                i + 1
            };
            let oj = if j < k {
                j
            } else {
                j + 1
            };
            assert(r[i] == order[oi] && r[j] == order[oj]);
            assert(node_size(m2, r[i] as int) == node_size(m1, order[oi] as int)) by {
                if oi != k - 1 {
                    assert(node_same(m1, m2, order[oi] as int));
                }
            }
            assert(node_size(m2, r[j] as int) == node_size(m1, order[oj] as int)) by {
                if oj != k - 1 {
                    assert(node_same(m1, m2, order[oj] as int));
                }
            }
        }
    }
    assert(info_free(m2) == (if r.len() == 0 {
        0int
    } else {
        r[0] as int
    })) by {
        if k == 0 {
            if len > 1 {
                assert(r[0] == order[1]);
            }
        } else {
            assert(r[0] == order[0]);
        }
    }
    assert forall|x: int|
        covered(m2, r, x) <==> (covered(m1, order, x) && !in_run(m1, order, k, x)) by {
        if covered(m2, r, x) {
            let j = choose|j: int| in_run(m2, r, j, x);
            let oj = if j < k {
                j
            } else {
                j + 1
            };
            assert(r[j] == order[oj]);
            assert(node_size(m2, r[j] as int) == node_size(m1, order[oj] as int)) by {
                if oj != k - 1 {
                    assert(node_same(m1, m2, order[oj] as int));
                }
            }
            assert(in_run(m1, order, oj, x));
            assert(!in_run(m1, order, k, x)) by {
                assert(runs_disjoint(m1, order));
                assert(order[oj] + node_size(m1, order[oj] as int) <= order[k] || order[k]
                    + node_size(m1, order[k] as int) <= order[oj]);
            }
        }
        if covered(m1, order, x) && !in_run(m1, order, k, x) {
            let oj = choose|oj: int| in_run(m1, order, oj, x);
            assert(oj != k);
            let j = if oj < k {
                oj
            } else {
                oj - 1
            };
            assert(r[j] == order[oj]);
            assert(node_size(m2, r[j] as int) == node_size(m1, order[oj] as int)) by {
                if oj != k - 1 {
                    assert(node_same(m1, m2, order[oj] as int));
                }
            }
            assert(in_run(m2, r, j, x));
        }
    }
}

/// Shrinking the run at position `k` by `delta` atoms (a split that hands
/// out the run's top): the list stays well formed and the coverage loses
/// exactly the handed-out top slice.
pub proof fn lemma_shrink(m1: Seq<u8>, m2: Seq<u8>, order: Seq<u32>, k: int, delta: int)
    requires
        list_wf(m1, order),
        0 <= k < order.len(),
        info_size(m2) == info_size(m1),
        info_free(m2) == info_free(m1),
        1 <= delta < node_size(m1, order[k] as int),
        node_magic(m2, order[k] as int) == node_magic(m1, order[k] as int),
        node_size(m2, order[k] as int) == node_size(m1, order[k] as int) - delta,
        node_next(m2, order[k] as int) == node_next(m1, order[k] as int),
        forall|i: int|
            0 <= i < order.len() && i != k ==> #[trigger] node_same(m1, m2, order[i] as int),
    ensures
        list_wf(m2, order),
        forall|x: int|
            covered(m2, order, x) <==> (covered(m1, order, x) && !(order[k] + node_size(
                m1,
                order[k] as int,
            ) - delta <= x < order[k] + node_size(m1, order[k] as int))),
{
    let a = order[k] as int;
    let s1 = node_size(m1, a);
    let s2 = s1 - delta;
    assert forall|j: int| 0 <= j < order.len() implies #[trigger] node_ok(m2, order, j) by {
        assert(node_ok(m1, order, j));
        if j != k {
            assert(node_same(m1, m2, order[j] as int));
        }
    }
    assert(runs_disjoint(m2, order)) by {
        assert forall|i: int, j: int|
            0 <= i < order.len() && 0 <= j < order.len() && i != j implies (order[i] + node_size(
            m2,
            order[i] as int,
        ) <= order[j] || order[j] + node_size(m2, order[j] as int) <= order[i]) by {
            if i != k {
                assert(node_same(m1, m2, order[i] as int));
            }
            if j != k {
                assert(node_same(m1, m2, order[j] as int));
            }
        }
    }
    assert forall|x: int|
        covered(m2, order, x) <==> (covered(m1, order, x) && !(a + s2 <= x < a + s1)) by {
        if covered(m2, order, x) {
            let j = choose|j: int| in_run(m2, order, j, x);
            if j != k {
                assert(node_same(m1, m2, order[j] as int));
                assert(in_run(m1, order, j, x));
                if a + s2 <= x < a + s1 {
                    assert(runs_disjoint(m1, order));
                    assert(order[j] + node_size(m1, order[j] as int) <= a || a + s1 <= order[j]);
                }
            } else {
                assert(in_run(m1, order, k, x));
            }
        }
        if covered(m1, order, x) && !(a + s2 <= x < a + s1) {
            let j = choose|j: int| in_run(m1, order, j, x);
            if j != k {
                assert(node_same(m1, m2, order[j] as int));
                assert(in_run(m2, order, j, x));
            } else {
                assert(in_run(m2, order, k, x));
            }
        }
    }
}

/// Inserting a fresh run `a` at position `k` of the list (the link that
/// pointed at position `k` now points at `a`, whose header chains onward):
/// the list stays well formed and the coverage gains exactly the new run.
pub proof fn lemma_insert(m1: Seq<u8>, m2: Seq<u8>, order: Seq<u32>, k: int, a: u32)
    requires
        list_wf(m1, order),
        0 <= k <= order.len(),
        info_size(m2) == info_size(m1),
        (k == 0 ==> info_free(m2) == a as int),
        (k > 0 ==> info_free(m2) == info_free(m1)),
        (k > 0 ==> {
            &&& node_magic(m2, order[k - 1] as int) == node_magic(m1, order[k - 1] as int)
            &&& node_size(m2, order[k - 1] as int) == node_size(m1, order[k - 1] as int)
            &&& node_next(m2, order[k - 1] as int) == a as int
        }),
        forall|i: int|
            0 <= i < order.len() && i != k - 1 ==> #[trigger] node_same(m1, m2, order[i] as int),
        1 <= a,
        node_magic(m2, a as int) == FREE_MAGIC,
        1 <= node_size(m2, a as int),
        a + node_size(m2, a as int) <= n_atoms(m1),
        node_next(m2, a as int) == (if k < order.len() {
            order[k] as int
        } else {
            0
        }),
        forall|x: int| a <= x < a + node_size(m2, a as int) ==> !covered(m1, order, x),
    ensures
        list_wf(m2, order.insert(k, a)),
        forall|x: int|
            covered(m2, order.insert(k, a), x) <==> (covered(m1, order, x) || (a <= x < a
                + node_size(m2, a as int))),
{
    let r = order.insert(k, a);
    let len = order.len() as int;
    let s = node_size(m2, a as int);
    assert(r.len() == len + 1);
    assert forall|j: int| 0 <= j < r.len() implies #[trigger] node_ok(m2, r, j) by {
        if j == k {
            assert(r[j] == a);
            if k < len {
                assert(r[j + 1] == order[k]);
            }
        } else {
            let oj = if j < k {
                j
            } else {
                j - 1
            };
            assert(r[j] == order[oj]);
            assert(node_ok(m1, order, oj));
            if oj != k - 1 {
                assert(node_same(m1, m2, order[oj] as int));
            }
            if j + 1 < r.len() {
                if j + 1 == k {
                    assert(r[j + 1] == a);
                    assert(oj == k - 1);
                } else {
                    let oj2 = if j + 1 < k {
                        j + 1
                    } else {
                        j
                    };
                    assert(r[j + 1] == order[oj2]);
                    assert(oj2 == oj + 1);
                }
            }
        }
    }
    assert(runs_disjoint(m2, r)) by {
        assert forall|i: int, j: int|
            0 <= i < r.len() && 0 <= j < r.len() && i != j implies (r[i] + node_size(
            m2,
            r[i] as int,
        ) <= r[j] || r[j] + node_size(m2, r[j] as int) <= r[i]) by {
            if i != k && j != k {
                let oi = if i < k {
                    i
                } else {
                    i - 1
                };
                let oj = if j < k {
                    j
                } else {
                    j - 1
                };
                assert(r[i] == order[oi] && r[j] == order[oj]);
                assert(node_size(m2, r[i] as int) == node_size(m1, order[oi] as int)) by {
                    if oi != k - 1 {
                        assert(node_same(m1, m2, order[oi] as int));
                    }
                }
                assert(node_size(m2, r[j] as int) == node_size(m1, order[oj] as int)) by {
                    if oj != k - 1 {
                        assert(node_same(m1, m2, order[oj] as int));
                    }
                }
                assert(oi != oj);
                assert(runs_disjoint(m1, order));
            } else {
                let o = if i == k {
                    j
                } else {
                    i
                };
                let oo = if o < k {
                    o
                } else {
                    o - 1
                };
                assert(r[o] == order[oo]);
                let b = order[oo] as int;
                assert(node_size(m2, r[o] as int) == node_size(m1, b)) by {
                    if oo != k - 1 {
                        assert(node_same(m1, m2, order[oo] as int));
                    }
                }
                let sb = node_size(m1, b);
                assert(node_ok(m1, order, oo));
                if !(b + sb <= a as int || a as int + s <= b) {
                    let x = if b >= a as int {
                        b
                    } else {
                        a as int
                    };
                    assert(in_run(m1, order, oo, x));
                    assert(covered(m1, order, x));
                }
            }
        }
    }
    assert(info_free(m2) == (if r.len() == 0 {
        0int
    } else {
        r[0] as int
    })) by {
        if k == 0 {
            assert(r[0] == a);
        } else {
            assert(r[0] == order[0]);
        }
    }
    assert forall|x: int|
        covered(m2, r, x) <==> (covered(m1, order, x) || (a <= x < a + s)) by {
        if covered(m2, r, x) {
            let j = choose|j: int| in_run(m2, r, j, x);
            if j != k {
                let oj = if j < k {
                    j
                } else {
                    j - 1
                };
                assert(r[j] == order[oj]);
                assert(node_size(m2, r[j] as int) == node_size(m1, order[oj] as int)) by {
                    if oj != k - 1 {
                        assert(node_same(m1, m2, order[oj] as int));
                    }
                }
                assert(in_run(m1, order, oj, x));
            }
        }
        if covered(m1, order, x) {
            let oj = choose|oj: int| in_run(m1, order, oj, x);
            let j = if oj < k {
                oj
            } else {
                oj + 1
            };
            assert(r[j] == order[oj]);
            assert(node_size(m2, r[j] as int) == node_size(m1, order[oj] as int)) by {
                if oj != k - 1 {
                    assert(node_same(m1, m2, order[oj] as int));
                }
            }
            assert(in_run(m2, r, j, x));
        }
        if a <= x < a + s {
            assert(r[k] == a);
            assert(in_run(m2, r, k, x));
        }
    }
}

/// A change that reads back the same free-run header at every listed node
/// and the same free root leaves the list well formed, with the same
/// coverage.
pub proof fn lemma_list_frame(m1: Seq<u8>, m2: Seq<u8>, order: Seq<u32>)
    requires
        list_wf(m1, order),
        info_free(m2) == info_free(m1),
        n_atoms(m2) >= n_atoms(m1),
        forall|i: int| 0 <= i < order.len() ==> #[trigger] node_same(m1, m2, order[i] as int),
    ensures
        list_wf(m2, order),
        forall|x: int| #[trigger] covered(m2, order, x) <==> covered(m1, order, x),
{
    assert forall|i: int| 0 <= i < order.len() implies #[trigger] node_ok(m2, order, i) by {
        assert(node_ok(m1, order, i));
        assert(node_same(m1, m2, order[i] as int));
    }
    assert(runs_disjoint(m2, order)) by {
        assert forall|i: int, j: int|
            0 <= i < order.len() && 0 <= j < order.len() && i != j implies (order[i] + node_size(
            m2,
            order[i] as int,
        ) <= order[j] || order[j] + node_size(m2, order[j] as int) <= order[i]) by {
            assert(node_same(m1, m2, order[i] as int));
            assert(node_same(m1, m2, order[j] as int));
        }
    }
    assert forall|x: int| #[trigger] covered(m2, order, x) <==> covered(m1, order, x) by {
        if covered(m2, order, x) {
            let i = choose|i: int| in_run(m2, order, i, x);
            assert(node_same(m1, m2, order[i] as int));
            assert(in_run(m1, order, i, x));
        }
        if covered(m1, order, x) {
            let i = choose|i: int| in_run(m1, order, i, x);
            assert(node_same(m1, m2, order[i] as int));
            assert(in_run(m2, order, i, x));
        }
    }
}

/// Every covered atom lies strictly inside the region, past the header
/// atom.
pub proof fn lemma_covered_in_range(m: Seq<u8>, order: Seq<u32>)
    requires
        forall|i: int| 0 <= i < order.len() ==> #[trigger] node_ok(m, order, i),
    ensures
        forall|x: int| #[trigger] covered(m, order, x) ==> 1 <= x < n_atoms(m),
{
    assert forall|x: int| #[trigger] covered(m, order, x) implies 1 <= x < n_atoms(m) by {
        let i = choose|i: int| in_run(m, order, i, x);
        assert(node_ok(m, order, i));
    }
}

/// Pigeonhole for run starts: distinct atom indices drawn from `[1, n)` are
/// at most `n - 1` many.
pub proof fn lemma_distinct_starts_bound(s: Seq<u32>, n: int)
    requires
        1 <= n,
        s.no_duplicates(),
        forall|i: int| 0 <= i < s.len() ==> 1 <= #[trigger] s[i] < n,
    ensures
        s.len() <= n - 1,
{
    let t = s.map_values(|x: u32| x as int);
    assert(t.no_duplicates()) by {
        assert forall|i: int, j: int|
            0 <= i < t.len() && 0 <= j < t.len() && i != j implies t[i] != t[j] by {
            assert(s[i] != s[j]);
        }
    }
    t.unique_seq_to_set();
    assert(t.to_set().subset_of(vstd::set_lib::set_int_range(1, n))) by {
        assert forall|x: int| t.to_set().contains(x) implies 1 <= x < n by {
            let i = choose|i: int| 0 <= i < t.len() && t[i] == x;
            assert(1 <= s[i] < n);
        }
    }
    vstd::set_lib::lemma_int_range(1, n);
    vstd::set_lib::lemma_len_subset(t.to_set(), vstd::set_lib::set_int_range(1, n));
}

/// The free list determines its own order: any two orders that satisfy
/// `list_wf` against the same bytes are the same sequence. The walk from the
/// root is deterministic, so a region's bytes pin down its free runs.
pub proof fn lemma_list_wf_unique(m: Seq<u8>, w1: Seq<u32>, w2: Seq<u32>)
    requires
        list_wf(m, w1),
        list_wf(m, w2),
    ensures
        w1 == w2,
    decreases w1.len(),
{
    let l1 = w1.len() as int;
    let l2 = w2.len() as int;
    if l1 <= l2 {
        lemma_prefix_determined(m, w1, w2);
        assert(l1 == l2) by {
            if l1 < l2 {
                if l1 == 0 {
                    assert(node_ok(m, w2, 0));
                } else {
                    assert(node_ok(m, w1, l1 - 1));
                    assert(node_ok(m, w2, l1 - 1));
                    assert(node_ok(m, w2, l1));
                    assert(w1[l1 - 1] == w2[l1 - 1]) by {
                        lemma_chain_pointwise(m, w1, w2, l1 - 1);
                    }
                }
            }
        }
        assert(w1 =~= w2) by {
            assert forall|i: int| 0 <= i < l1 implies w1[i] == w2[i] by {
                lemma_chain_pointwise(m, w1, w2, i);
            }
        }
    } else {
        lemma_list_wf_unique(m, w2, w1);
    }
}

/// Positions below the shorter length agree between any two well-formed
/// orders over the same bytes.
proof fn lemma_prefix_determined(m: Seq<u8>, w1: Seq<u32>, w2: Seq<u32>)
    requires
        list_wf(m, w1),
        list_wf(m, w2),
        w1.len() <= w2.len(),
    ensures
        forall|i: int| 0 <= i < w1.len() ==> w1[i] == w2[i],
{
    assert forall|i: int| 0 <= i < w1.len() implies w1[i] == w2[i] by {
        lemma_chain_pointwise(m, w1, w2, i);
    }
}

proof fn lemma_chain_pointwise(m: Seq<u8>, w1: Seq<u32>, w2: Seq<u32>, i: int)
    requires
        list_wf(m, w1),
        list_wf(m, w2),
        0 <= i < w1.len(),
        i < w2.len(),
    ensures
        w1[i] == w2[i],
    decreases i,
{
    if i == 0 {
        assert(node_ok(m, w1, 0));
        assert(node_ok(m, w2, 0));
    } else {
        lemma_chain_pointwise(m, w1, w2, i - 1);
        assert(node_ok(m, w1, i - 1));
        assert(node_ok(m, w2, i - 1));
    }
}

} // verus!
