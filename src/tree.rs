//! The token-stream walker: the structure block read as tagged records, from which
//! node boundaries, properties, children and paths are recovered on demand.

use vstd::prelude::*;
use crate::parsing::{be_u32_at, read_be_u32};
use crate::text::utf8_str;
use vstd::string::StringSliceAdditionalSpecFns;
use vstd::utf8::valid_utf8;

verus! {

/// Tag of a record that opens a node.
pub const FDT_BEGIN_NODE: u32 = 1;
/// Tag of a record that closes a node.
pub const FDT_END_NODE: u32 = 2;
/// Tag of a property record.
pub const FDT_PROP: u32 = 3;
/// Tag of a record that carries nothing.
pub const FDT_NOP: u32 = 4;
/// Tag that ends the structure block.
pub const FDT_END: u32 = 9;

/// `n` rounded up to a multiple of four.
pub open spec fn align4(n: int) -> int {
    (n + 3) / 4 * 4
}

/// The first index at or after `i` that holds a zero byte.
pub open spec fn nul_from(s: Seq<u8>, i: int) -> Option<int>
    decreases s.len() - i,
{
    if i < 0 || i >= s.len() {
        None
    } else if s[i] == 0 {
        Some(i)
    } else {
        nul_from(s, i + 1)
    }
}

/// The first index at or after `i` that holds byte `b`, or the length when none does.
pub open spec fn idx_of(s: Seq<u8>, b: u8, i: int) -> int
    decreases s.len() - i,
{
    if i < 0 || i >= s.len() {
        s.len() as int
    } else if s[i] == b {
        i
    } else {
        idx_of(s, b, i + 1)
    }
}

/// The zero-terminated string that starts at `off`.
pub open spec fn cstr_at(s: Seq<u8>, off: int) -> Option<Seq<u8>> {
    match nul_from(s, off) {
        Some(j) => Some(s.subrange(off, j)),
        None => None,
    }
}

/// The position just after the name (and its padding) of the node record at `p`.
pub open spec fn name_end(st: Seq<u8>, p: int) -> Option<int> {
    match nul_from(st, p + 4) {
        Some(j) => if align4(j + 1) <= st.len() {
            Some(align4(j + 1))
        } else {
            None
        },
        None => None,
    }
}

/// The full name (unit address included) of the node record at `p`.
pub open spec fn node_name(st: Seq<u8>, p: int) -> Seq<u8> {
    match nul_from(st, p + 4) {
        Some(j) => st.subrange(p + 4, j),
        None => Seq::empty(),
    }
}

/// The length of the value of the property record at `p`.
pub open spec fn prop_len(st: Seq<u8>, p: int) -> int {
    be_u32_at(st, p + 4)
}

/// The value bytes of the property record at `p`.
pub open spec fn prop_value(st: Seq<u8>, p: int) -> Seq<u8> {
    st.subrange(p + 12, p + 12 + prop_len(st, p))
}

/// The name, read from the string table, of the property record at `p`.
pub open spec fn prop_name(st: Seq<u8>, strs: Seq<u8>, p: int) -> Option<Seq<u8>> {
    cstr_at(strs, be_u32_at(st, p + 8))
}

/// The position just after the property record at `p`, value and padding included.
pub open spec fn prop_end(st: Seq<u8>, p: int) -> Option<int> {
    if 0 <= p && p + 12 <= st.len() && align4(p + 12 + prop_len(st, p)) <= st.len() {
        Some(align4(p + 12 + prop_len(st, p)))
    } else {
        None
    }
}

/// The position just after the record that closes the node whose contents are being
/// read at `p`, `depth` nodes deep.
pub open spec fn close_of(st: Seq<u8>, p: int, depth: nat) -> Option<int>
    decreases st.len() - p,
{
    if !(0 <= p && p + 4 <= st.len()) {
        None
    } else {
        let t = be_u32_at(st, p);
        if t == FDT_BEGIN_NODE {
            match name_end(st, p) {
                Some(q) => if p < q <= st.len() {
                    close_of(st, q, depth + 1)
                } else {
                    None
                },
                None => None,
            }
        } else if t == FDT_END_NODE {
            if depth <= 1 {
                Some(p + 4)
            } else {
                close_of(st, p + 4, (depth - 1) as nat)
            }
        } else if t == FDT_PROP {
            match prop_end(st, p) {
                Some(q) => if p < q <= st.len() {
                    close_of(st, q, depth)
                } else {
                    None
                },
                None => None,
            }
        } else if t == FDT_NOP {
            close_of(st, p + 4, depth)
        } else {
            None
        }
    }
}

/// The position of the first property record named `name` among the properties that
/// open a node's contents at `q`.
pub open spec fn find_prop(st: Seq<u8>, strs: Seq<u8>, q: int, name: Seq<u8>) -> Option<int>
    decreases st.len() - q,
{
    if !(0 <= q && q + 4 <= st.len()) {
        None
    } else {
        let t = be_u32_at(st, q);
        if t == FDT_NOP {
            find_prop(st, strs, q + 4, name)
        } else if t == FDT_PROP {
            match prop_end(st, q) {
                Some(e) => if q < e <= st.len() {
                    if prop_name(st, strs, q) == Some(name) {
                        Some(q)
                    } else {
                        find_prop(st, strs, e, name)
                    }
                } else {
                    None
                },
                None => None,
            }
        } else {
            None
        }
    }
}

/// The name without its `@unit-address` suffix.
pub open spec fn base_name(name: Seq<u8>) -> Seq<u8> {
    name.subrange(0, idx_of(name, 64u8, 0))
}

/// A path segment with a unit address matches the full name exactly; one without
/// matches the name with its unit address left out.
pub open spec fn seg_matches(name: Seq<u8>, seg: Seq<u8>) -> bool {
    if idx_of(seg, 64u8, 0) < seg.len() {
        name == seg
    } else {
        base_name(name) == seg
    }
}

/// The position of the first child, among those of a node whose contents are read at
/// `q`, that the path segment `seg` matches.
pub open spec fn find_child(st: Seq<u8>, q: int, seg: Seq<u8>) -> Option<int>
    decreases st.len() - q,
{
    if !(0 <= q && q + 4 <= st.len()) {
        None
    } else {
        let t = be_u32_at(st, q);
        if t == FDT_NOP {
            find_child(st, q + 4, seg)
        } else if t == FDT_PROP {
            match prop_end(st, q) {
                Some(e) => if q < e <= st.len() {
                    find_child(st, e, seg)
                } else {
                    None
                },
                None => None,
            }
        } else if t == FDT_BEGIN_NODE {
            match name_end(st, q) {
                Some(a) => if q < a <= st.len() {
                    if seg_matches(node_name(st, q), seg) {
                        Some(q)
                    } else {
                        match close_of(st, a, 1) {
                            Some(e) => if q < e <= st.len() {
                                find_child(st, e, seg)
                            } else {
                                None
                            },
                            None => None,
                        }
                    }
                } else {
                    None
                },
                None => None,
            }
        } else {
            None
        }
    }
}

/// What `find_prop` finds is a whole property record with the name that was asked for.
pub proof fn lemma_find_prop(st: Seq<u8>, strs: Seq<u8>, q: int, name: Seq<u8>)
    ensures
        find_prop(st, strs, q, name) matches Some(p) ==> prop_name(st, strs, p) == Some(name)
            && prop_end(st, p) is Some && 0 <= p && p + 12 + prop_len(st, p) <= st.len(),
    decreases st.len() - q,
{
    if 0 <= q && q + 4 <= st.len() {
        let t = be_u32_at(st, q);
        if t == FDT_NOP {
            lemma_find_prop(st, strs, q + 4, name);
        } else if t == FDT_PROP {
            match prop_end(st, q) {
                Some(e) => if q < e <= st.len() {
                    lemma_find_prop(st, strs, e, name);
                },
                None => {},
            }
        }
    }
}

/// Where the walk from `p` stops with a result, that result is the position just
/// after an END_NODE record, past `p` and within the block.
pub proof fn lemma_close_after_end(st: Seq<u8>, p: int, depth: nat)
    ensures
        close_of(st, p, depth) matches Some(e) ==> p < e <= st.len() && e >= 4 && be_u32_at(st, e - 4)
            == FDT_END_NODE as int,
    decreases st.len() - p,
{
    if 0 <= p && p + 4 <= st.len() {
        let t = be_u32_at(st, p);
        if t == FDT_BEGIN_NODE {
            match name_end(st, p) {
                Some(q) => if p < q <= st.len() {
                    lemma_close_after_end(st, q, depth + 1);
                },
                None => {},
            }
        } else if t == FDT_END_NODE {
            if depth > 1 {
                lemma_close_after_end(st, p + 4, (depth - 1) as nat);
            }
        } else if t == FDT_PROP {
            match prop_end(st, p) {
                Some(q) => if p < q <= st.len() {
                    lemma_close_after_end(st, q, depth);
                },
                None => {},
            }
        } else if t == FDT_NOP {
            lemma_close_after_end(st, p + 4, depth);
        }
    }
}

/// The child that a path segment finds is one whose name the segment matches: by its
/// full name when the segment has a unit address, by its name without unit address
/// otherwise.
pub proof fn lemma_found_child_matches(st: Seq<u8>, q: int, seg: Seq<u8>)
    ensures
        find_child(st, q, seg) matches Some(c) ==> be_u32_at(st, c) == FDT_BEGIN_NODE as int && (if idx_of(
            seg,
            64u8,
            0,
        ) < seg.len() {
            node_name(st, c) == seg
        } else {
            base_name(node_name(st, c)) == seg
        }),
    decreases st.len() - q,
{
    if 0 <= q && q + 4 <= st.len() {
        let t = be_u32_at(st, q);
        if t == FDT_NOP {
            lemma_found_child_matches(st, q + 4, seg);
        } else if t == FDT_PROP {
            match prop_end(st, q) {
                Some(e) => if q < e <= st.len() {
                    lemma_found_child_matches(st, e, seg);
                },
                None => {},
            }
        } else if t == FDT_BEGIN_NODE {
            match name_end(st, q) {
                Some(a) => if q < a <= st.len() && !seg_matches(node_name(st, q), seg) {
                    match close_of(st, a, 1) {
                        Some(e) => if q < e <= st.len() {
                            lemma_found_child_matches(st, e, seg);
                        },
                        None => {},
                    }
                },
                None => {},
            }
        }
    }
}

/// Whether no node passed on the way down `path` (from index `i`, starting at the node at
/// `p`) states `#address-cells` or `#size-cells`.
pub open spec fn no_cells_on_path(st: Seq<u8>, strs: Seq<u8>, p: int, path: Seq<u8>, i: int) -> bool
    decreases path.len() - i,
{
    if i < 0 || i >= path.len() {
        true
    } else if path[i] == 47u8 {
        no_cells_on_path(st, strs, p, path, i + 1)
    } else {
        let k = idx_of(path, 47u8, i);
        match name_end(st, p) {
            Some(a) => {
                &&& own_cell(st, strs, a, "#address-cells".spec_bytes()) is None
                &&& own_cell(st, strs, a, "#size-cells".spec_bytes()) is None
                &&& match find_child(st, a, path.subrange(i, k)) {
                    Some(c) => if i < k <= path.len() {
                        no_cells_on_path(st, strs, c, path, k)
                    } else {
                        true
                    },
                    None => true,
                }
            },
            None => true,
        }
    }
}

/// A node reached by a path on which no ancestor states `#address-cells` or
/// `#size-cells` has two address cells and one size cell in force.
pub proof fn lemma_default_cells_on_path(st: Seq<u8>, strs: Seq<u8>, p: int, path: Seq<u8>, i: int)
    requires
        no_cells_on_path(st, strs, p, path, i),
    ensures
        lookup(st, strs, p, default_cells(), path, i) matches Some(x) ==> x.1 == default_cells(),
    decreases path.len() - i,
{
    if 0 <= i < path.len() {
        if path[i] == 47u8 {
            lemma_default_cells_on_path(st, strs, p, path, i + 1);
        } else {
            let k = idx_of(path, 47u8, i);
            match name_end(st, p) {
                Some(a) => match find_child(st, a, path.subrange(i, k)) {
                    Some(c) => if i < k <= path.len() {
                        assert(child_cells(st, strs, a, default_cells()) == default_cells());
                        lemma_default_cells_on_path(st, strs, c, path, k);
                    },
                    None => {},
                },
                None => {},
            }
        }
    }
}

/// The full scan lists nodes at strictly increasing positions from `p` on: each node at
/// most once, in document order.
pub proof fn lemma_scan_in_order(st: Seq<u8>, strs: Seq<u8>, p: int, stack: Seq<CellSizes>)
    ensures
        forall|i: int| 0 <= i < scan_all(st, strs, p, stack).len() ==> p <= #[trigger] scan_all(st, strs, p, stack)[i].0,
        forall|i: int, j: int|
            0 <= i < j < scan_all(st, strs, p, stack).len() ==> #[trigger] scan_all(st, strs, p, stack)[i].0
                < #[trigger] scan_all(st, strs, p, stack)[j].0,
    decreases st.len() - p,
{
    let all = scan_all(st, strs, p, stack);
    if 0 <= p && p + 4 <= st.len() {
        let t = be_u32_at(st, p);
        if t == FDT_BEGIN_NODE {
            match name_end(st, p) {
                Some(a) => if p < a <= st.len() && valid_utf8(node_name(st, p)) {
                    let inh = if stack.len() == 0 {
                        default_cells()
                    } else {
                        stack.last()
                    };
                    let ns = stack.push(child_cells(st, strs, a, inh));
                    let rest = scan_all(st, strs, a, ns);
                    lemma_scan_in_order(st, strs, a, ns);
                    assert(all == seq![(p, inh)] + rest);
                    assert forall|i: int| 0 <= i < all.len() implies p <= #[trigger] all[i].0 by {
                        if i > 0 {
                            assert(all[i] == rest[i - 1]);
                        }
                    }
                    assert forall|i: int, j: int| 0 <= i < j < all.len() implies #[trigger] all[i].0 < #[trigger] all[j].0 by {
                        assert(all[j] == rest[j - 1]);
                        if i > 0 {
                            assert(all[i] == rest[i - 1]);
                        }
                    }
                },
                None => {},
            }
        } else if t == FDT_END_NODE {
            if stack.len() > 1 {
                lemma_scan_in_order(st, strs, p + 4, stack.drop_last());
                assert(all == scan_all(st, strs, p + 4, stack.drop_last()));
            }
        } else if t == FDT_PROP {
            match prop_end(st, p) {
                Some(e) => if p < e <= st.len() {
                    lemma_scan_in_order(st, strs, e, stack);
                    assert(all == scan_all(st, strs, e, stack));
                },
                None => {},
            }
        } else if t == FDT_NOP {
            lemma_scan_in_order(st, strs, p + 4, stack);
            assert(all == scan_all(st, strs, p + 4, stack));
        }
    }
}

/// Whether every node record met by reading the block record after record from `p`
/// (up to the end record or the first record that cannot be decoded) has a UTF-8 name.
pub open spec fn names_valid_from(st: Seq<u8>, p: int) -> bool
    decreases st.len() - p,
{
    if !(0 <= p && p + 4 <= st.len()) {
        true
    } else {
        let t = be_u32_at(st, p);
        if t == FDT_BEGIN_NODE {
            match name_end(st, p) {
                Some(a) => if p < a <= st.len() {
                    valid_utf8(node_name(st, p)) && names_valid_from(st, a)
                } else {
                    true
                },
                None => true,
            }
        } else if t == FDT_END_NODE || t == FDT_NOP {
            names_valid_from(st, p + 4)
        } else if t == FDT_PROP {
            match prop_end(st, p) {
                Some(e) => if p < e <= st.len() {
                    names_valid_from(st, e)
                } else {
                    true
                },
                None => true,
            }
        } else {
            true
        }
    }
}

/// The first position at or after `p` that does not hold a NOP record.
pub open spec fn skip_nop(st: Seq<u8>, p: int) -> int
    decreases st.len() - p,
{
    if 0 <= p && p + 4 <= st.len() && be_u32_at(st, p) == FDT_NOP as int {
        skip_nop(st, p + 4)
    } else {
        p
    }
}

/// The position of the root's record: the first record that is not a NOP.
pub open spec fn root_pos(st: Seq<u8>) -> int {
    skip_nop(st, 0)
}

/// Skips the NOP records at `p`.
pub fn skip_nops(st: &[u8], p: usize) -> (r: usize)
    ensures
        r as int == skip_nop(st@, p as int),
{
    let mut q = p;
    loop
        invariant
            skip_nop(st@, q as int) == skip_nop(st@, p as int),
        decreases st@.len() - q,
    {
        match tag_at(st, q) {
            Some(t) => {
                if t != FDT_NOP {
                    return q;
                }
                q = q + 4;
            },
            None => return q,
        }
    }
}

/// NOP records before `p`'s first other record change neither the scan nor the names
/// met on the way.
pub proof fn lemma_skip_nop(st: Seq<u8>, strs: Seq<u8>, p: int)
    ensures
        scan_all(st, strs, p, Seq::empty()) == scan_all(st, strs, skip_nop(st, p), Seq::empty()),
        names_valid_from(st, p) ==> names_valid_from(st, skip_nop(st, p)),
        p >= 0 ==> skip_nop(st, p) >= p,
        p % 4 == 0 ==> skip_nop(st, p) % 4 == 0,
    decreases st.len() - p,
{
    if 0 <= p && p + 4 <= st.len() && be_u32_at(st, p) == FDT_NOP as int {
        lemma_skip_nop(st, strs, p + 4);
    }
}

/// The cell sizes the scan assigns to a node opened on top of `stack`.
pub open spec fn top_cells(stack: Seq<CellSizes>) -> CellSizes {
    if stack.len() == 0 {
        default_cells()
    } else {
        stack.last()
    }
}

/// Scanning a node's contents `u.len()` levels deep, on top of at least one open node,
/// lists what lies up to the record that closes them and then goes on as a scan from
/// just after that record.
pub proof fn lemma_scan_splice(
    st: Seq<u8>,
    strs: Seq<u8>,
    q: int,
    t: Seq<CellSizes>,
    u: Seq<CellSizes>,
    e: int,
) -> (x: Seq<(int, CellSizes)>)
    requires
        names_valid_from(st, q),
        t.len() >= 1,
        u.len() >= 1,
        close_of(st, q, u.len()) == Some(e),
    ensures
        scan_all(st, strs, q, t + u) == x + scan_all(st, strs, e, t),
        names_valid_from(st, e),
    decreases st.len() - q,
{
    let tag = be_u32_at(st, q);
    if tag == FDT_BEGIN_NODE {
        let a = name_end(st, q).unwrap();
        let inh = (t + u).last();
        let cc = child_cells(st, strs, a, inh);
        assert((t + u).push(cc) =~= t + u.push(cc));
        let x1 = lemma_scan_splice(st, strs, a, t, u.push(cc), e);
        assert(seq![(q, inh)] + (x1 + scan_all(st, strs, e, t)) =~= (seq![(q, inh)] + x1) + scan_all(st, strs, e, t));
        seq![(q, inh)] + x1
    } else if tag == FDT_END_NODE {
        if u.len() <= 1 {
            assert((t + u).drop_last() =~= t);
            assert(Seq::<(int, CellSizes)>::empty() + scan_all(st, strs, e, t) =~= scan_all(st, strs, e, t));
            Seq::empty()
        } else {
            assert((t + u).drop_last() =~= t + u.drop_last());
            lemma_scan_splice(st, strs, q + 4, t, u.drop_last(), e)
        }
    } else if tag == FDT_PROP {
        let n = prop_end(st, q).unwrap();
        lemma_scan_splice(st, strs, n, t, u, e)
    } else {
        lemma_scan_splice(st, strs, q + 4, t, u, e)
    }
}

/// The child that a segment finds is reached by the scan of its parent's contents: that
/// scan lists what comes before it, then goes on as a scan from the child itself.
pub proof fn lemma_scan_reaches_child(
    st: Seq<u8>,
    strs: Seq<u8>,
    q: int,
    stack: Seq<CellSizes>,
    seg: Seq<u8>,
    c: int,
) -> (x: Seq<(int, CellSizes)>)
    requires
        names_valid_from(st, q),
        stack.len() >= 1,
        find_child(st, q, seg) == Some(c),
    ensures
        scan_all(st, strs, q, stack) == x + scan_all(st, strs, c, stack),
        names_valid_from(st, c),
    decreases st.len() - q,
{
    let tag = be_u32_at(st, q);
    if tag == FDT_NOP {
        lemma_scan_reaches_child(st, strs, q + 4, stack, seg, c)
    } else if tag == FDT_PROP {
        let n = prop_end(st, q).unwrap();
        lemma_scan_reaches_child(st, strs, n, stack, seg, c)
    } else {
        let a = name_end(st, q).unwrap();
        if seg_matches(node_name(st, q), seg) {
            assert(Seq::<(int, CellSizes)>::empty() + scan_all(st, strs, q, stack) =~= scan_all(st, strs, q, stack));
            Seq::empty()
        } else {
            let e = close_of(st, a, 1).unwrap();
            let inh = stack.last();
            let cc = child_cells(st, strs, a, inh);
            assert(stack + seq![cc] =~= stack.push(cc));
            let x1 = lemma_scan_splice(st, strs, a, stack, seq![cc], e);
            let x2 = lemma_scan_reaches_child(st, strs, e, stack, seg, c);
            assert(seq![(q, inh)] + (x1 + (x2 + scan_all(st, strs, c, stack))) =~= (seq![(q, inh)] + x1 + x2)
                + scan_all(st, strs, c, stack));
            seq![(q, inh)] + x1 + x2
        }
    }
}

/// Following a path from a node that the scan reaches, with the cell sizes the scan
/// gives it, ends at a node that the scan reaches too, with the cell sizes it gives it.
#[verifier::rlimit(40)]
pub proof fn lemma_scan_follows_path(
    st: Seq<u8>,
    strs: Seq<u8>,
    p: int,
    stack: Seq<CellSizes>,
    path: Seq<u8>,
    i: int,
) -> (r: (Seq<(int, CellSizes)>, Seq<CellSizes>))
    requires
        names_valid_from(st, p),
        0 <= p && p + 4 <= st.len(),
        be_u32_at(st, p) == FDT_BEGIN_NODE as int,
        lookup(st, strs, p, top_cells(stack), path, i) is Some,
    ensures
        scan_all(st, strs, p, stack) == r.0 + scan_all(st, strs, lookup(st, strs, p, top_cells(stack), path, i).unwrap().0, r.1),
        top_cells(r.1) == lookup(st, strs, p, top_cells(stack), path, i).unwrap().1,
    decreases path.len() - i,
{
    if i < 0 || i >= path.len() {
        assert(Seq::<(int, CellSizes)>::empty() + scan_all(st, strs, p, stack) =~= scan_all(st, strs, p, stack));
        (Seq::empty(), stack)
    } else if path[i] == 47u8 {
        lemma_scan_follows_path(st, strs, p, stack, path, i + 1)
    } else {
        let k = idx_of(path, 47u8, i);
        let a = name_end(st, p).unwrap();
        let c = find_child(st, a, path.subrange(i, k)).unwrap();
        let inh = top_cells(stack);
        let cc = child_cells(st, strs, a, inh);
        let ns = stack.push(cc);
        lemma_nul_from(st, p + 4);
        assert(p < a <= st.len());
        assert(valid_utf8(node_name(st, p)));
        assert(scan_all(st, strs, p, stack) == seq![(p, inh)] + scan_all(st, strs, a, ns));
        assert(lookup(st, strs, p, inh, path, i) == lookup(st, strs, c, cc, path, k));
        lemma_found_child_matches(st, a, path.subrange(i, k));
        lemma_find_child_bounds(st, a, path.subrange(i, k));
        let x1 = lemma_scan_reaches_child(st, strs, a, ns, path.subrange(i, k), c);
        assert(top_cells(ns) == cc);
        let r2 = lemma_scan_follows_path(st, strs, c, ns, path, k);
        let tail = scan_all(st, strs, lookup(st, strs, p, inh, path, i).unwrap().0, r2.1);
        assert(seq![(p, inh)] + (x1 + (r2.0 + tail)) =~= (seq![(p, inh)] + x1 + r2.0) + tail);
        (seq![(p, inh)] + x1 + r2.0, r2.1)
    }
}

/// What `find_child` finds is a node record within the block.
pub proof fn lemma_find_child_bounds(st: Seq<u8>, q: int, seg: Seq<u8>)
    ensures
        find_child(st, q, seg) matches Some(c) ==> 0 <= c && c + 4 <= st.len(),
    decreases st.len() - q,
{
    if 0 <= q && q + 4 <= st.len() {
        let t = be_u32_at(st, q);
        if t == FDT_NOP {
            lemma_find_child_bounds(st, q + 4, seg);
        } else if t == FDT_PROP {
            match prop_end(st, q) {
                Some(e) => if q < e <= st.len() {
                    lemma_find_child_bounds(st, e, seg);
                },
                None => {},
            }
        } else if t == FDT_BEGIN_NODE {
            match name_end(st, q) {
                Some(a) => if q < a <= st.len() && !seg_matches(node_name(st, q), seg) {
                    match close_of(st, a, 1) {
                        Some(e) => if q < e <= st.len() {
                            lemma_find_child_bounds(st, e, seg);
                        },
                        None => {},
                    }
                },
                None => {},
            }
        }
    }
}

/// Reads the tag at `p`, if four bytes remain there.
pub fn tag_at(st: &[u8], p: usize) -> (r: Option<u32>)
    ensures
        p + 4 <= st@.len() ==> r == Some(be_u32_at(st@, p as int) as u32),
        p + 4 > st@.len() ==> r is None,
        st@.len() <= usize::MAX,
{
    proof {
        assert(st.len() == st@.len());
    }
    if st.len() < 4 || p > st.len() - 4 {
        None
    } else {
        Some(read_be_u32(st, p))
    }
}

/// The index of the first zero byte at or after `i`.
pub fn nul_index(s: &[u8], i: usize) -> (r: Option<usize>)
    ensures
        r matches Some(j) ==> nul_from(s@, i as int) == Some(j as int) && i <= j < s@.len()
            && s@[j as int] == 0,
        r is None ==> nul_from(s@, i as int) is None,
{
    let mut j = i;
    while j < s.len()
        invariant
            i <= j,
            nul_from(s@, j as int) == nul_from(s@, i as int),
        decreases s@.len() - j,
    {
        if s[j] == 0 {
            return Some(j);
        }
        j = j + 1;
    }
    None
}

/// The index of the first byte `b` at or after `i`, or the length.
pub fn index_of(s: &[u8], b: u8, i: usize) -> (r: usize)
    ensures
        r as int == idx_of(s@, b, i as int),
        r <= s@.len(),
        i <= s@.len() ==> i <= r,
{
    let mut j = i;
    while j < s.len()
        invariant
            i <= j,
            idx_of(s@, b, j as int) == idx_of(s@, b, i as int),
        decreases s@.len() - j,
    {
        if s[j] == b {
            return j;
        }
        j = j + 1;
    }
    s.len()
}

/// Whether two byte strings are equal.
pub fn bytes_eq(a: &[u8], b: &[u8]) -> (r: bool)
    ensures
        r == (a@ == b@),
{
    if a.len() != b.len() {
        return false;
    }
    let mut i: usize = 0;
    while i < a.len()
        invariant
            a@.len() == b@.len(),
            i <= a@.len(),
            forall|k: int| 0 <= k < i ==> a@[k] == b@[k],
        decreases a@.len() - i,
    {
        if a[i] != b[i] {
            return false;
        }
        i = i + 1;
    }
    assert(a@ =~= b@);
    true
}

/// `k` rounded up to a multiple of four, when that is at most `limit`.
fn align_within(k: usize, limit: usize) -> (r: Option<usize>)
    ensures
        align4(k as int) <= limit ==> r == Some(align4(k as int) as usize),
        align4(k as int) > limit ==> r is None,
{
    let m = k % 4;
    if m == 0 {
        if k <= limit {
            Some(k)
        } else {
            None
        }
    } else if k - m > limit || limit - (k - m) < 4 {
        None
    } else {
        Some(k - m + 4)
    }
}

/// The position just after the name of the node record at `p`.
pub fn name_end_at(st: &[u8], p: usize) -> (r: Option<usize>)
    ensures
        r matches Some(q) ==> name_end(st@, p as int) == Some(q as int),
        r is None ==> name_end(st@, p as int) is None,
{
    if st.len() < 4 || p > st.len() - 4 {
        return None;
    }
    match nul_index(st, p + 4) {
        Some(j) => align_within(j + 1, st.len()),
        None => None,
    }
}

/// The position just after the property record at `p`.
pub fn prop_end_at(st: &[u8], p: usize) -> (r: Option<usize>)
    ensures
        r matches Some(q) ==> prop_end(st@, p as int) == Some(q as int),
        r is None ==> prop_end(st@, p as int) is None,
{
    if st.len() < 12 || p > st.len() - 12 {
        return None;
    }
    let n = read_be_u32(st, p + 4) as usize;
    if n > st.len() - (p + 12) {
        return None;
    }
    align_within(p + 12 + n, st.len())
}


/// What `nul_from` finds is a zero byte, and every byte before it is not.
pub proof fn lemma_nul_from(s: Seq<u8>, i: int)
    ensures
        nul_from(s, i) matches Some(j) ==> i <= j < s.len() && s[j] == 0 && forall|k: int|
            i <= k < j ==> s[k] != 0,
    decreases s.len() - i,
{
    if 0 <= i < s.len() && s[i] != 0 {
        lemma_nul_from(s, i + 1);
    }
}

/// Whether the zero-terminated string at `off` is exactly `name`.
pub fn cstr_eq(s: &[u8], off: usize, name: &[u8]) -> (r: bool)
    ensures
        r == (cstr_at(s@, off as int) == Some(name@)),
{
    proof {
        lemma_nul_from(s@, off as int);
    }
    if off > s.len() {
        return false;
    }
    let mut i: usize = 0;
    loop
        invariant
            off <= s@.len(),
            i <= name@.len(),
            off + i <= s@.len(),
            forall|k: int| 0 <= k < i ==> #[trigger] s@[off + k] != 0,
            forall|k: int| 0 <= k < i ==> s@[off + k] == #[trigger] name@[k],
            nul_from(s@, off as int) == nul_from(s@, off + i),
        decreases name@.len() - i,
    {
        if i == s.len() - off {
            return false;
        }
        if s[off + i] == 0 {
            proof {
                if i == name@.len() {
                    assert(s@.subrange(off as int, off + i) =~= name@);
                }
            }
            return i == name.len();
        }
        if i == name.len() {
            proof {
                lemma_nul_from(s@, off + i + 1);
                match nul_from(s@, off as int) {
                    Some(j) => assert(s@.subrange(off as int, j).len() > name@.len()),
                    None => {},
                }
            }
            return false;
        }
        if s[off + i] != name[i] {
            proof {
                lemma_nul_from(s@, off + i + 1);
                match nul_from(s@, off as int) {
                    Some(j) => assert(s@.subrange(off as int, j)[i as int] != name@[i as int]),
                    None => {},
                }
            }
            return false;
        }
        i = i + 1;
    }
}

/// Finds the record that closes a node whose contents start at `q`, skipping nested
/// nodes whole, and returns the position just after it.
pub fn skip_node(st: &[u8], q: usize) -> (r: Option<usize>)
    ensures
        r matches Some(e) ==> close_of(st@, q as int, 1) == Some(e as int),
        r is None ==> close_of(st@, q as int, 1) is None,
{
    let mut pos = q;
    let mut depth: usize = 1;
    loop
        invariant
            1 <= depth <= pos + 1,
            close_of(st@, pos as int, depth as nat) == close_of(st@, q as int, 1),
        decreases st@.len() - pos,
    {
        let t = match tag_at(st, pos) {
            Some(t) => t,
            None => return None,
        };
        if t == FDT_BEGIN_NODE {
            match name_end_at(st, pos) {
                Some(a) => {
                    if !(pos < a && a <= st.len()) {
                        return None;
                    }
                    proof {
                        lemma_nul_from(st@, pos + 4);
                    }
                    depth = depth + 1;
                    pos = a;
                },
                None => return None,
            }
        } else if t == FDT_END_NODE {
            if depth <= 1 {
                return Some(pos + 4);
            }
            depth = depth - 1;
            pos = pos + 4;
        } else if t == FDT_PROP {
            match prop_end_at(st, pos) {
                Some(e) => {
                    if !(pos < e && e <= st.len()) {
                        return None;
                    }
                    pos = e;
                },
                None => return None,
            }
        } else if t == FDT_NOP {
            pos = pos + 4;
        } else {
            return None;
        }
    }
}

/// Finds, among the properties that open a node's contents at `q`, the record of the
/// first one named `name`.
pub fn find_prop_at(st: &[u8], strs: &[u8], q: usize, name: &[u8]) -> (r: Option<usize>)
    ensures
        r matches Some(p) ==> find_prop(st@, strs@, q as int, name@) == Some(p as int) && p + 12
            + prop_len(st@, p as int) <= st@.len(),
        r is None ==> find_prop(st@, strs@, q as int, name@) is None,
{
    let mut pos = q;
    loop
        invariant
            find_prop(st@, strs@, pos as int, name@) == find_prop(st@, strs@, q as int, name@),
        decreases st@.len() - pos,
    {
        let t = match tag_at(st, pos) {
            Some(t) => t,
            None => return None,
        };
        if t == FDT_NOP {
            pos = pos + 4;
        } else if t == FDT_PROP {
            match prop_end_at(st, pos) {
                Some(e) => {
                    if !(pos < e && e <= st.len()) {
                        return None;
                    }
                    let off = read_be_u32(st, pos + 8) as usize;
                    if cstr_eq(strs, off, name) {
                        return Some(pos);
                    }
                    pos = e;
                },
                None => return None,
            }
        } else {
            return None;
        }
    }
}


/// The number of 32-bit cells that make up an address and a size.
#[derive(Clone, Copy, Debug, PartialEq, Eq, Structural)]
pub struct CellSizes {
    /// Cells in one address.
    pub address_cells: usize,
    /// Cells in one size.
    pub size_cells: usize,
}

/// Two address cells and one size cell: what holds where no node says otherwise.
pub open spec fn default_cells() -> CellSizes {
    CellSizes { address_cells: 2, size_cells: 1 }
}

/// The 32-bit value of the property `name` among those that open a node's contents at
/// `q`, when it is there and holds at least four bytes.
pub open spec fn own_cell(st: Seq<u8>, strs: Seq<u8>, q: int, name: Seq<u8>) -> Option<int> {
    match find_prop(st, strs, q, name) {
        Some(p) => if prop_len(st, p) >= 4 {
            Some(be_u32_at(st, p + 12))
        } else {
            None
        },
        None => None,
    }
}

/// The cell sizes in force for the children of a node whose contents start at `q`, when
/// `inh` is in force for the node itself: each count the node states, else the inherited one.
pub open spec fn child_cells(st: Seq<u8>, strs: Seq<u8>, q: int, inh: CellSizes) -> CellSizes {
    CellSizes {
        address_cells: match own_cell(st, strs, q, "#address-cells".spec_bytes()) {
            Some(v) => v as usize,
            None => inh.address_cells,
        },
        size_cells: match own_cell(st, strs, q, "#size-cells".spec_bytes()) {
            Some(v) => v as usize,
            None => inh.size_cells,
        },
    }
}

/// The node reached from the node at `p`, in force `inh`, by the path segments of
/// `path` from index `i` on, with the cell sizes in force for it. Runs of `/` separate
/// segments.
pub open spec fn lookup(
    st: Seq<u8>,
    strs: Seq<u8>,
    p: int,
    inh: CellSizes,
    path: Seq<u8>,
    i: int,
) -> Option<(int, CellSizes)>
    decreases path.len() - i,
{
    if i < 0 || i >= path.len() {
        Some((p, inh))
    } else if path[i] == 47u8 {
        lookup(st, strs, p, inh, path, i + 1)
    } else {
        let k = idx_of(path, 47u8, i);
        match name_end(st, p) {
            Some(a) => match find_child(st, a, path.subrange(i, k)) {
                Some(c) => if i < k <= path.len() {
                    lookup(st, strs, c, child_cells(st, strs, a, inh), path, k)
                } else {
                    None
                },
                None => None,
            },
            None => None,
        }
    }
}

/// Every node met by a linear scan from `p`, in document order, each with the cell
/// sizes in force for it; `stack` holds, for each node still open, the cell sizes in
/// force for its children. The scan stops at the end of the outermost open node, and
/// at the first record it cannot decode.
pub open spec fn scan_all(st: Seq<u8>, strs: Seq<u8>, p: int, stack: Seq<CellSizes>) -> Seq<(int, CellSizes)>
    decreases st.len() - p,
{
    if !(0 <= p && p + 4 <= st.len()) {
        Seq::empty()
    } else {
        let t = be_u32_at(st, p);
        if t == FDT_BEGIN_NODE {
            match name_end(st, p) {
                Some(a) => if p < a <= st.len() && valid_utf8(node_name(st, p)) {
                    let inh = if stack.len() == 0 {
                        default_cells()
                    } else {
                        stack.last()
                    };
                    seq![(p, inh)] + scan_all(st, strs, a, stack.push(child_cells(st, strs, a, inh)))
                } else {
                    Seq::empty()
                },
                None => Seq::empty(),
            }
        } else if t == FDT_END_NODE {
            if stack.len() <= 1 {
                Seq::empty()
            } else {
                scan_all(st, strs, p + 4, stack.drop_last())
            }
        } else if t == FDT_PROP {
            match prop_end(st, p) {
                Some(e) => if p < e <= st.len() {
                    scan_all(st, strs, e, stack)
                } else {
                    Seq::empty()
                },
                None => Seq::empty(),
            }
        } else if t == FDT_NOP {
            scan_all(st, strs, p + 4, stack)
        } else {
            Seq::empty()
        }
    }
}

/// The 32-bit value of the property `name` that opens a node's contents at `q`.
pub fn own_cell_at(st: &[u8], strs: &[u8], q: usize, name: &[u8]) -> (r: Option<u32>)
    ensures
        r matches Some(v) ==> own_cell(st@, strs@, q as int, name@) == Some(v as int),
        r is None ==> own_cell(st@, strs@, q as int, name@) is None,
{
    proof {
        assert(st.len() == st@.len());
    }
    match find_prop_at(st, strs, q, name) {
        Some(p) => {
            if read_be_u32(st, p + 4) >= 4 {
                Some(read_be_u32(st, p + 12))
            } else {
                None
            }
        },
        None => None,
    }
}

/// The cell sizes in force for the children of a node whose contents start at `q`.
pub fn child_cells_at(st: &[u8], strs: &[u8], q: usize, inh: CellSizes) -> (r: CellSizes)
    ensures
        r == child_cells(st@, strs@, q as int, inh),
{
    let a = match own_cell_at(st, strs, q, "#address-cells".as_bytes()) {
        Some(v) => v as usize,
        None => inh.address_cells,
    };
    let s = match own_cell_at(st, strs, q, "#size-cells".as_bytes()) {
        Some(v) => v as usize,
        None => inh.size_cells,
    };
    CellSizes { address_cells: a, size_cells: s }
}

/// Whether the path segment `seg` names a node called `name`.
pub fn seg_match(name: &[u8], seg: &[u8]) -> (r: bool)
    ensures
        r == seg_matches(name@, seg@),
{
    if index_of(seg, 64u8, 0) < seg.len() {
        bytes_eq(name, seg)
    } else {
        let b = index_of(name, 64u8, 0);
        bytes_eq(&name[0..b], seg)
    }
}

/// Finds the first child, of a node whose contents start at `q`, that `seg` matches.
pub fn find_child_at(st: &[u8], q: usize, seg: &[u8]) -> (r: Option<usize>)
    ensures
        r matches Some(c) ==> find_child(st@, q as int, seg@) == Some(c as int),
        r is None ==> find_child(st@, q as int, seg@) is None,
{
    let mut pos = q;
    loop
        invariant
            find_child(st@, pos as int, seg@) == find_child(st@, q as int, seg@),
        decreases st@.len() - pos,
    {
        let t = match tag_at(st, pos) {
            Some(t) => t,
            None => return None,
        };
        if t == FDT_NOP {
            pos = pos + 4;
        } else if t == FDT_PROP {
            match prop_end_at(st, pos) {
                Some(e) => {
                    if !(pos < e && e <= st.len()) {
                        return None;
                    }
                    pos = e;
                },
                None => return None,
            }
        } else if t == FDT_BEGIN_NODE {
            let a = match name_end_at(st, pos) {
                Some(a) => a,
                None => return None,
            };
            if !(pos < a && a <= st.len()) {
                return None;
            }
            let j = match nul_index(st, pos + 4) {
                Some(j) => j,
                None => return None,
            };
            if seg_match(&st[pos + 4..j], seg) {
                return Some(pos);
            }
            match skip_node(st, a) {
                Some(e) => {
                    if !(pos < e && e <= st.len()) {
                        return None;
                    }
                    pos = e;
                },
                None => return None,
            }
        } else {
            return None;
        }
    }
}

/// Follows `path` down from the node at `p`, in force `inh`.
pub fn lookup_at(st: &[u8], strs: &[u8], p: usize, inh: CellSizes, path: &[u8]) -> (r: Option<(usize, CellSizes)>)
    ensures
        r matches Some(x) ==> lookup(st@, strs@, p as int, inh, path@, 0) == Some((x.0 as int, x.1)),
        r is None ==> lookup(st@, strs@, p as int, inh, path@, 0) is None,
{
    let mut i: usize = 0;
    let mut cur = p;
    let mut cells = inh;
    while i < path.len()
        invariant
            i <= path@.len(),
            lookup(st@, strs@, cur as int, cells, path@, i as int) == lookup(st@, strs@, p as int, inh, path@, 0),
        decreases path@.len() - i,
    {
        if path[i] == 47u8 {
            i = i + 1;
        } else {
            let k = index_of(path, 47u8, i);
            let a = match name_end_at(st, cur) {
                Some(a) => a,
                None => return None,
            };
            let c = match find_child_at(st, a, &path[i..k]) {
                Some(c) => c,
                None => return None,
            };
            if !(i < k && k <= path.len()) {
                return None;
            }
            cells = child_cells_at(st, strs, a, cells);
            cur = c;
            i = k;
        }
    }
    Some((cur, cells))
}


/// The view of a scanned node as positions and cell sizes.
pub open spec fn scanned(v: Seq<(usize, CellSizes)>) -> Seq<(int, CellSizes)> {
    v.map_values(|x: (usize, CellSizes)| (x.0 as int, x.1))
}

/// Scans the structure block from its start and lists every node in document order,
/// each with the cell sizes in force for it.
pub fn scan_nodes(st: &[u8], strs: &[u8]) -> (r: Vec<(usize, CellSizes)>)
    ensures
        scanned(r@) == scan_all(st@, strs@, 0, Seq::empty()),
{
    let mut out: Vec<(usize, CellSizes)> = Vec::new();
    let mut stack: Vec<CellSizes> = Vec::new();
    let mut pos: usize = 0;
    proof {
        assert(scanned(out@) =~= Seq::empty());
        assert(scanned(out@) + scan_all(st@, strs@, 0, stack@) =~= scan_all(st@, strs@, 0, Seq::empty()));
    }
    loop
        invariant
            scanned(out@) + scan_all(st@, strs@, pos as int, stack@) == scan_all(
                st@,
                strs@,
                0,
                Seq::empty(),
            ),
        decreases st@.len() - pos,
    {
        let ghost before = scanned(out@);
        let t = match tag_at(st, pos) {
            Some(t) => t,
            None => {
                assert(before =~= before + Seq::<(int, CellSizes)>::empty());
                return out;
            },
        };
        if t == FDT_BEGIN_NODE {
            let a = match name_end_at(st, pos) {
                Some(a) => a,
                None => {
                    assert(before =~= before + Seq::<(int, CellSizes)>::empty());
                    return out;
                },
            };
            let j = match nul_index(st, pos + 4) {
                Some(j) => j,
                None => {
                    assert(before =~= before + Seq::<(int, CellSizes)>::empty());
                    return out;
                },
            };
            if !(pos < a && a <= st.len()) || utf8_str(&st[pos + 4..j]).is_none() {
                assert(before =~= before + Seq::<(int, CellSizes)>::empty());
                return out;
            }
            let inh = if stack.len() == 0 {
                CellSizes { address_cells: 2, size_cells: 1 }
            } else {
                stack[stack.len() - 1]
            };
            let ghost old_stack = stack@;
            out.push((pos, inh));
            stack.push(child_cells_at(st, strs, a, inh));
            proof {
                assert(scanned(out@) =~= before + seq![(pos as int, inh)]);
                assert(stack@ == old_stack.push(child_cells(st@, strs@, a as int, inh)));
            }
            pos = a;
        } else if t == FDT_END_NODE {
            if stack.len() <= 1 {
                assert(before =~= before + Seq::<(int, CellSizes)>::empty());
                return out;
            }
            let ghost old_stack = stack@;
            stack.pop();
            proof {
                assert(stack@ =~= old_stack.drop_last());
            }
            pos = pos + 4;
        } else if t == FDT_PROP {
            match prop_end_at(st, pos) {
                Some(e) => {
                    if !(pos < e && e <= st.len()) {
                        assert(before =~= before + Seq::<(int, CellSizes)>::empty());
                        return out;
                    }
                    pos = e;
                },
                None => {
                    assert(before =~= before + Seq::<(int, CellSizes)>::empty());
                    return out;
                },
            }
        } else if t == FDT_NOP {
            pos = pos + 4;
        } else {
            assert(before =~= before + Seq::<(int, CellSizes)>::empty());
            return out;
        }
    }
}

} // verus!
