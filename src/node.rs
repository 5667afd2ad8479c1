//! Nodes and properties: views into the structure block, recomputed on demand.

use vstd::prelude::*;
use vstd::string::StringSliceAdditionalSpecFns;
use vstd::utf8::{valid_utf8, encode_utf8_valid_utf8};
use crate::parsing::{be_u32_at, be_u64_at, read_be_u32, read_be_u64, FdtData};
use crate::tree::{
    lemma_find_prop, bytes_eq, child_cells, child_cells_at, close_of, default_cells, find_prop, find_prop_at,
    name_end, name_end_at, node_name, nul_index, prop_end, prop_end_at, prop_name, prop_value,
    scan_all, skip_node, tag_at, CellSizes, FDT_BEGIN_NODE, FDT_END_NODE, FDT_NOP, FDT_PROP,
};
use crate::text::{trim_nul, trimmed_str, utf8_str, trim_end_nul};
use crate::fdt::LinuxFdt;
use crate::standard_nodes::{Compatible, RegIter, widths_ok};

verus! {

/// Whether a node record that can be decoded, with a UTF-8 name, starts at `p`.
pub open spec fn node_ok(st: Seq<u8>, p: int) -> bool {
    &&& 0 <= p && p + 4 <= st.len()
    &&& be_u32_at(st, p) == FDT_BEGIN_NODE
    &&& name_end(st, p) matches Some(a) && p < a <= st.len()
    &&& valid_utf8(node_name(st, p))
}

/// The property record `name` of the node whose record starts at `p`.
pub open spec fn node_prop(st: Seq<u8>, strs: Seq<u8>, p: int, name: Seq<u8>) -> Option<int> {
    match name_end(st, p) {
        Some(a) => find_prop(st, strs, a, name),
        None => None,
    }
}

/// The value of the property `name` of the node whose record starts at `p`.
pub open spec fn node_value(st: Seq<u8>, strs: Seq<u8>, p: int, name: Seq<u8>) -> Option<Seq<u8>> {
    match node_prop(st, strs, p, name) {
        Some(q) => Some(prop_value(st, q)),
        None => None,
    }
}

/// Whether the node at `p` is in use: it has no `status` property, or one that reads
/// `okay` or `ok` once trailing zero bytes are removed. Any other status, text or not,
/// marks it unused.
pub open spec fn pos_available(st: Seq<u8>, strs: Seq<u8>, p: int) -> bool {
    match node_value(st, strs, p, "status".spec_bytes()) {
        None => true,
        Some(v) => {
            let t = trim_nul(v);
            t == "okay".spec_bytes() || t == "ok".spec_bytes()
        },
    }
}

/// Filtering the first `i + 1` items keeps what filtering the first `i` kept, and item
/// `i` when it passes.
pub proof fn lemma_filter_step<A>(s: Seq<A>, i: int, pred: spec_fn(A) -> bool)
    requires
        0 <= i < s.len(),
    ensures
        s.take(i + 1).filter(pred) == if pred(s[i]) {
            s.take(i).filter(pred).push(s[i])
        } else {
            s.take(i).filter(pred)
        },
{
    assert(s.take(i + 1).drop_last() =~= s.take(i));
    reveal_with_fuel(Seq::filter, 1);
}

/// Every node that the linear scan lists can be decoded.
pub proof fn lemma_scanned_nodes_ok(st: Seq<u8>, strs: Seq<u8>, p: int, stack: Seq<CellSizes>, i: int)
    requires
        0 <= i < scan_all(st, strs, p, stack).len(),
    ensures
        node_ok(st, scan_all(st, strs, p, stack)[i].0),
    decreases st.len() - p,
{
    if 0 <= p && p + 4 <= st.len() {
        let t = be_u32_at(st, p);
        if t == FDT_BEGIN_NODE {
            match name_end(st, p) {
                Some(a) => if p < a <= st.len() && valid_utf8(node_name(st, p)) {
                    let inh = if stack.len() == 0 {
                        default_cells()
                    } else {
                        stack.last()
                    };
                    if i > 0 {
                        lemma_scanned_nodes_ok(st, strs, a, stack.push(child_cells(st, strs, a, inh)), i - 1);
                    }
                },
                None => {},
            }
        } else if t == FDT_END_NODE {
            if stack.len() > 1 {
                lemma_scanned_nodes_ok(st, strs, p + 4, stack.drop_last(), i);
            }
        } else if t == FDT_PROP {
            match prop_end(st, p) {
                Some(e) => if p < e <= st.len() {
                    lemma_scanned_nodes_ok(st, strs, e, stack, i);
                },
                None => {},
            }
        } else if t == FDT_NOP {
            lemma_scanned_nodes_ok(st, strs, p + 4, stack, i);
        }
    }
}

/// The leading property records of a node's contents at `q`, up to the first one whose
/// name cannot be read as UTF-8 from the string table.
pub open spec fn prop_list(st: Seq<u8>, strs: Seq<u8>, q: int) -> Seq<int>
    decreases st.len() - q,
{
    if !(0 <= q && q + 4 <= st.len()) {
        Seq::empty()
    } else {
        let t = be_u32_at(st, q);
        if t == FDT_NOP {
            prop_list(st, strs, q + 4)
        } else if t == FDT_PROP {
            match prop_end(st, q) {
                Some(e) => if q < e <= st.len() {
                    match prop_name(st, strs, q) {
                        Some(n) => if valid_utf8(n) {
                            seq![q] + prop_list(st, strs, e)
                        } else {
                            Seq::empty()
                        },
                        None => Seq::empty(),
                    }
                } else {
                    Seq::empty()
                },
                None => Seq::empty(),
            }
        } else {
            Seq::empty()
        }
    }
}

/// The direct children of a node whose contents start at `q`, in document order, up to
/// the first one that cannot be decoded or skipped.
pub open spec fn child_list(st: Seq<u8>, q: int) -> Seq<int>
    decreases st.len() - q,
{
    if !(0 <= q && q + 4 <= st.len()) {
        Seq::empty()
    } else {
        let t = be_u32_at(st, q);
        if t == FDT_NOP {
            child_list(st, q + 4)
        } else if t == FDT_PROP {
            match prop_end(st, q) {
                Some(e) => if q < e <= st.len() {
                    child_list(st, e)
                } else {
                    Seq::empty()
                },
                None => Seq::empty(),
            }
        } else if t == FDT_BEGIN_NODE && node_ok(st, q) {
            match name_end(st, q) {
                Some(a) => match close_of(st, a, 1) {
                    Some(e) => if q < e <= st.len() {
                        seq![q] + child_list(st, e)
                    } else {
                        Seq::empty()
                    },
                    None => Seq::empty(),
                },
                None => Seq::empty(),
            }
        } else {
            Seq::empty()
        }
    }
}

/// A property: its name and its raw value.
#[derive(Debug, Clone, Copy)]
pub struct NodeProperty<'a> {
    /// The property's name.
    pub name: &'a str,
    /// The property's value, undecoded.
    pub value: &'a [u8],
}

impl<'a> NodeProperty<'a> {
    /// The value as an integer, when it is four or eight bytes long.
    pub fn as_usize(&self) -> (r: Option<usize>)
        ensures
            self.value@.len() == 4 ==> r == Some(be_u32_at(self.value@, 0) as usize),
            self.value@.len() == 8 ==> r == Some(be_u64_at(self.value@, 0) as usize),
            self.value@.len() != 4 && self.value@.len() != 8 ==> r is None,
    {
        if self.value.len() == 4 {
            Some(read_be_u32(self.value, 0) as usize)
        } else if self.value.len() == 8 {
            Some(read_be_u64(self.value, 0) as usize)
        } else {
            None
        }
    }

    /// The value as text, trailing zero bytes removed.
    pub fn as_str(&self) -> (r: Option<&'a str>)
        ensures
            r is Some <==> valid_utf8(trim_nul(self.value@)),
            r matches Some(t) ==> t.spec_bytes() == trim_nul(self.value@),
    {
        trimmed_str(self.value)
    }

    /// The value read as (address, size) pairs with the given cell sizes; `None` when a
    /// width is neither one nor two cells.
    pub fn as_reg(&self, sizes: CellSizes) -> (r: Option<RegIter<'a>>)
        ensures
            r is Some <==> widths_ok(sizes),
            r matches Some(it) ==> it.rest() == self.value@ && it.cells() == sizes && it.wf(),
    {
        if (sizes.address_cells == 1 || sizes.address_cells == 2) && (sizes.size_cells == 1
            || sizes.size_cells == 2) {
            Some(RegIter::new(FdtData::new(self.value), sizes))
        } else {
            None
        }
    }
}

/// A node: the position of its record in the structure block of the blob it belongs to.
#[derive(Clone, Copy)]
pub struct FdtNode<'a> {
    /// The node's full name, unit address included.
    pub name: &'a str,
    pub(crate) fdt: LinuxFdt<'a>,
    pub(crate) pos: usize,
    pub(crate) body: usize,
    pub(crate) inh: CellSizes,
}

impl<'a> FdtNode<'a> {
    /// The blob the node belongs to.
    pub open(crate) spec fn blob(&self) -> LinuxFdt<'a> {
        self.fdt
    }

    /// The position of the node's record in the structure block.
    pub open(crate) spec fn position(&self) -> int {
        self.pos as int
    }

    /// The position at which the node's contents start.
    pub open(crate) spec fn contents(&self) -> int {
        self.body as int
    }

    /// The cell sizes in force for the node.
    pub open(crate) spec fn in_force(&self) -> CellSizes {
        self.inh
    }

    /// The node's record can be decoded, its contents start at `body`, and `name` holds
    /// its name.
    pub open(crate) spec fn wf(&self) -> bool {
        &&& node_ok(self.fdt.st(), self.pos as int)
        &&& name_end(self.fdt.st(), self.pos as int) == Some(self.body as int)
        &&& self.name.spec_bytes() == node_name(self.fdt.st(), self.pos as int)
    }

    /// The node whose record starts at `pos`, with `inh` in force for it.
    pub(crate) fn at(fdt: LinuxFdt<'a>, pos: usize, inh: CellSizes) -> (r: Option<Self>)
        ensures
            r is Some <==> node_ok(fdt.st(), pos as int),
            r matches Some(n) ==> n.wf() && n.blob() == fdt && n.position() == pos && n.in_force() == inh,
    {
        let st = fdt.structs;
        match tag_at(st, pos) {
            Some(t) => if t != FDT_BEGIN_NODE {
                return None;
            },
            None => return None,
        }
        let body = match name_end_at(st, pos) {
            Some(b) => b,
            None => return None,
        };
        if !(pos < body && body <= st.len()) {
            return None;
        }
        let j = match nul_index(st, pos + 4) {
            Some(j) => j,
            None => return None,
        };
        match utf8_str(&st[pos + 4..j]) {
            Some(name) => Some(FdtNode { name, fdt, pos, body, inh }),
            None => None,
        }
    }

    /// The record of the property `name` among the node's properties.
    pub open(crate) spec fn prop_at(&self, name: Seq<u8>) -> Option<int> {
        node_prop(self.fdt.st(), self.fdt.strs(), self.pos as int, name)
    }

    /// The value of the property `name`.
    pub open(crate) spec fn value_of(&self, name: Seq<u8>) -> Option<Seq<u8>> {
        node_value(self.fdt.st(), self.fdt.strs(), self.pos as int, name)
    }

    /// Whether the node has a property `name` whose value is `v`.
    pub open(crate) spec fn has_value(&self, name: Seq<u8>, v: Seq<u8>) -> bool {
        self.value_of(name) == Some(v)
    }

    /// The first property called `name`.
    pub fn property(&self, name: &str) -> (r: Option<NodeProperty<'a>>)
        requires
            self.wf(),
        ensures
            r is Some <==> self.prop_at(name.spec_bytes()) is Some,
            r matches Some(p) ==> self.has_value(name.spec_bytes(), p.value@) && p.name.spec_bytes()
                == name.spec_bytes(),
    {
        let st = self.fdt.structs;
        let strs = self.fdt.strings;
        let key = name.as_bytes();
        proof {
            assert(st.len() == st@.len());
        }
        match find_prop_at(st, strs, self.body, key) {
            Some(p) => {
                proof {
                    lemma_find_prop(st@, strs@, self.body as int, key@);
                    crate::tree::lemma_nul_from(strs@, be_u32_at(st@, p + 8));
                }
                let n = read_be_u32(st, p + 4) as usize;
                let value = &st[p + 12..p + 12 + n];
                let off = read_be_u32(st, p + 8) as usize;
                let j = match nul_index(strs, off) {
                    Some(j) => j,
                    None => return None,
                };
                proof {
                    encode_utf8_valid_utf8(name@);
                    assert(strs@.subrange(off as int, j as int) == key@);
                }
                match utf8_str(&strs[off..j]) {
                    Some(pname) => Some(NodeProperty { name: pname, value }),
                    None => None,
                }
            },
            None => None,
        }
    }

    /// The property records that open the node's contents.
    pub open(crate) spec fn props(&self) -> Seq<int> {
        prop_list(self.fdt.st(), self.fdt.strs(), self.body as int)
    }

    /// The node's properties, in the order in which they are stored.
    pub fn properties(&self) -> (r: Vec<NodeProperty<'a>>)
        requires
            self.wf(),
        ensures
            r@.len() == self.props().len(),
            forall|i: int|
                0 <= i < r@.len() ==> r@[i].value@ == prop_value(self.blob().st(), #[trigger] self.props()[i])
                    && prop_name(self.blob().st(), self.blob().strs(), self.props()[i]) == Some(
                    r@[i].name.spec_bytes(),
                ),
    {
        let st = self.fdt.structs;
        let strs = self.fdt.strings;
        let ghost all = self.props();
        let mut out: Vec<NodeProperty<'a>> = Vec::new();
        let mut pos = self.body;
        let ghost done: Seq<int> = Seq::empty();
        loop
            invariant
                all == prop_list(st@, strs@, self.body as int),
                st@ == self.fdt.st(),
                strs@ == self.fdt.strs(),
                all == done + prop_list(st@, strs@, pos as int),
                out@.len() == done.len(),
                forall|i: int|
                    0 <= i < out@.len() ==> out@[i].value@ == prop_value(st@, #[trigger] done[i])
                        && prop_name(st@, strs@, done[i]) == Some(out@[i].name.spec_bytes()),
            decreases st@.len() - pos,
        {
            let t = match tag_at(st, pos) {
                Some(t) => t,
                None => {
                    assert(all =~= done);
                    return out;
                },
            };
            if t == FDT_NOP {
                pos = pos + 4;
            } else if t == FDT_PROP {
                let e = match prop_end_at(st, pos) {
                    Some(e) => e,
                    None => {
                        assert(all =~= done);
                        return out;
                    },
                };
                if !(pos < e && e <= st.len()) {
                    assert(all =~= done);
                    return out;
                }
                let off = read_be_u32(st, pos + 8) as usize;
                let j = match nul_index(strs, off) {
                    Some(j) => j,
                    None => {
                        assert(all =~= done);
                        return out;
                    },
                };
                let pname = match utf8_str(&strs[off..j]) {
                    Some(s) => s,
                    None => {
                        assert(all =~= done);
                        return out;
                    },
                };
                let n = read_be_u32(st, pos + 4) as usize;
                let value = &st[pos + 12..pos + 12 + n];
                out.push(NodeProperty { name: pname, value });
                proof {
                    done = done.push(pos as int);
                    assert(all =~= done + prop_list(st@, strs@, e as int));
                }
                pos = e;
            } else {
                assert(all =~= done);
                return out;
            }
        }
    }

    /// The node's direct children.
    pub open(crate) spec fn kids(&self) -> Seq<int> {
        child_list(self.fdt.st(), self.body as int)
    }

    /// The cell sizes in force for the node's children.
    pub open(crate) spec fn kid_cells(&self) -> CellSizes {
        child_cells(self.fdt.st(), self.fdt.strs(), self.body as int, self.inh)
    }

    /// The node's direct children, in the order in which they are stored.
    #[verifier::rlimit(40)]
    pub fn children(&self) -> (r: Vec<FdtNode<'a>>)
        requires
            self.wf(),
        ensures
            r@.len() == self.kids().len(),
            forall|i: int|
                0 <= i < r@.len() ==> (#[trigger] r@[i]).wf() && r@[i].blob() == self.blob()
                    && r@[i].in_force() == self.kid_cells(),
            forall|i: int| 0 <= i < r@.len() ==> (#[trigger] r@[i]).position() == self.kids()[i],
    {
        let st = self.fdt.structs;
        let cells = child_cells_at(st, self.fdt.strings, self.body, self.inh);
        let ghost all = self.kids();
        let mut out: Vec<FdtNode<'a>> = Vec::new();
        let mut pos = self.body;
        let ghost done: Seq<int> = Seq::empty();
        loop
            invariant
                all == child_list(st@, self.body as int),
                st@ == self.fdt.st(),
                cells == self.kid_cells(),
                all == done + child_list(st@, pos as int),
                out@.len() == done.len(),
                forall|i: int|
                    0 <= i < out@.len() ==> (#[trigger] out@[i]).wf() && out@[i].fdt == self.fdt
                        && out@[i].inh == cells,
                forall|i: int| 0 <= i < out@.len() ==> (#[trigger] out@[i]).pos == done[i],
            decreases st@.len() - pos,
        {
            let t = match tag_at(st, pos) {
                Some(t) => t,
                None => {
                    assert(all =~= done);
                    return out;
                },
            };
            if t == FDT_NOP {
                pos = pos + 4;
            } else if t == FDT_PROP {
                match prop_end_at(st, pos) {
                    Some(e) => {
                        if !(pos < e && e <= st.len()) {
                            assert(all =~= done);
                            return out;
                        }
                        pos = e;
                    },
                    None => {
                        assert(all =~= done);
                        return out;
                    },
                }
            } else if t == FDT_BEGIN_NODE {
                let n = match FdtNode::at(self.fdt, pos, cells) {
                    Some(n) => n,
                    None => {
                        assert(all =~= done);
                        return out;
                    },
                };
                let e = match skip_node(st, n.body) {
                    Some(e) => e,
                    None => {
                        assert(all =~= done);
                        return out;
                    },
                };
                if !(pos < e && e <= st.len()) {
                    assert(all =~= done);
                    return out;
                }
                out.push(n);
                proof {
                    done = done.push(pos as int);
                    assert(all =~= done + child_list(st@, e as int));
                }
                pos = e;
            } else {
                assert(all =~= done);
                return out;
            }
        }
    }

    /// The cell sizes that the node states for its children, two and one where it states none.
    pub open(crate) spec fn cell_sizes_spec(&self) -> CellSizes {
        child_cells(self.fdt.st(), self.fdt.strs(), self.body as int, default_cells())
    }

    /// The cell sizes that the node states for its children, two and one where it states none.
    pub fn cell_sizes(&self) -> (r: CellSizes)
        ensures
            r == self.cell_sizes_spec(),
    {
        child_cells_at(self.fdt.structs, self.fdt.strings, self.body, CellSizes { address_cells: 2, size_cells: 1 })
    }

    /// The cell sizes in force for this node: for each count, the value that the nearest
    /// ancestor states, else two address cells and one size cell.
    pub fn parent_cell_sizes(&self) -> (r: CellSizes)
        ensures
            r == self.in_force(),
    {
        self.inh
    }

    /// Whether the node is in use: it has no `status` property, or one that reads `okay`
    /// or `ok` (trailing zero bytes aside).
    pub open(crate) spec fn available(&self) -> bool {
        pos_available(self.fdt.st(), self.fdt.strs(), self.pos as int)
    }

    /// Whether the node is in use (see `available`).
    pub fn is_available(&self) -> (r: bool)
        requires
            self.wf(),
        ensures
            r == self.available(),
    {
        match self.property("status") {
            None => true,
            Some(p) => {
                let t = trim_end_nul(p.value);
                bytes_eq(t, "okay".as_bytes()) || bytes_eq(t, "ok".as_bytes())
            },
        }
    }

    /// The `reg` property read with the cell sizes in force for this node.
    pub fn reg(&self) -> (r: Option<RegIter<'a>>)
        requires
            self.wf(),
        ensures
            r is Some <==> self.prop_at("reg".spec_bytes()) is Some && widths_ok(self.in_force()),
            r matches Some(it) ==> self.has_value("reg".spec_bytes(), it.rest()) && it.cells() == self.in_force() && it.wf(),
    {
        match self.property("reg") {
            Some(p) => p.as_reg(self.inh),
            None => None,
        }
    }

    /// The `compatible` property.
    pub fn compatible(&self) -> (r: Option<Compatible<'a>>)
        requires
            self.wf(),
        ensures
            r is Some <==> self.prop_at("compatible".spec_bytes()) is Some,
            r matches Some(c) ==> self.has_value("compatible".spec_bytes(), c.bytes()),
    {
        match self.property("compatible") {
            Some(p) => Some(Compatible { data: p.value }),
            None => None,
        }
    }
}

} // verus!
