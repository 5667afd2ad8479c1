//! The `/reserved-memory` node and its children: regions set aside at fixed places, and
//! regions to be allocated at boot.

use vstd::prelude::*;
use vstd::string::StringSliceAdditionalSpecFns;
use crate::node::{lemma_filter_step, node_prop, node_value, pos_available, FdtNode};
use crate::standard_nodes::{widths_ok, RegIter};
use crate::tree::{child_cells, cstr_at, default_cells, name_end, CellSizes};
use crate::parsing::{be_u32_at, be_u64_at};
use vstd::utf8::valid_utf8;

verus! {

/// Whether the node at `p`, in force `inh`, states `#address-cells`, `#size-cells` and
/// `ranges`, and states the cell counts that are in force for it.
pub open spec fn root_ok(st: Seq<u8>, strs: Seq<u8>, p: int, inh: CellSizes) -> bool {
    &&& node_prop(st, strs, p, "#address-cells".spec_bytes()) is Some
    &&& node_prop(st, strs, p, "#size-cells".spec_bytes()) is Some
    &&& node_prop(st, strs, p, "ranges".spec_bytes()) is Some
    &&& name_end(st, p) matches Some(a) && child_cells(st, strs, a, default_cells()) == inh
}

/// The value of a `size` or `alignment` property: four or eight bytes, big-endian.
pub open spec fn usize_value(v: Seq<u8>) -> Option<usize> {
    if v.len() == 4 {
        Some(be_u32_at(v, 0) as usize)
    } else if v.len() == 8 {
        Some(be_u64_at(v, 0) as usize)
    } else {
        None
    }
}

/// A child of `/reserved-memory` in use with a `reg` property that can be read.
#[derive(Clone, Copy)]
pub struct ValidReservedMemoryNode<'a> {
    /// The node.
    pub node: FdtNode<'a>,
    /// The regions of its `reg` property.
    pub regs: RegIter<'a>,
}

impl<'a> ValidReservedMemoryNode<'a> {
    /// The node is decodable and `regs` reads its `reg` property.
    pub open(crate) spec fn wf(&self) -> bool {
        &&& self.node.wf()
        &&& self.node.value_of("reg".spec_bytes()) == Some(self.regs.rest())
        &&& self.regs.cells() == self.node.in_force()
        &&& self.regs.wf()
    }

    /// The regions that the `reg` property lists.
    pub fn regions(&self) -> (r: RegIter<'a>)
        requires
            self.wf(),
        ensures
            self.node.value_of("reg".spec_bytes()) == Some(r.rest()),
            r.cells() == self.node.in_force(),
            r.wf(),
    {
        self.regs
    }

    /// Whether the node has the `no-map` property.
    pub fn nomap(&self) -> (r: bool)
        requires
            self.wf(),
        ensures
            r == self.node.value_of("no-map".spec_bytes()) is Some,
    {
        self.node.property("no-map").is_some()
    }
}

/// A child of `/reserved-memory` in use without a `reg` property but with a `size`: a
/// region to be allocated at boot.
#[derive(Clone, Copy)]
pub struct DynamicReservedMemoryNode<'a> {
    /// The node.
    pub node: FdtNode<'a>,
    /// The value of its `size` property.
    pub size: usize,
}

impl<'a> DynamicReservedMemoryNode<'a> {
    /// The node is decodable and `size` holds its `size` property.
    pub open(crate) spec fn wf(&self) -> bool {
        &&& self.node.wf()
        &&& self.node.value_of("size".spec_bytes()) matches Some(v) && usize_value(v) == Some(self.size)
    }

    /// The size of the region to allocate.
    pub fn size(&self) -> (r: usize)
        requires
            self.wf(),
        ensures
            self.node.value_of("size".spec_bytes()) matches Some(v) && usize_value(v) == Some(r),
    {
        self.size
    }

    /// The `alignment` property; zero when it is missing or is not four or eight bytes long.
    pub fn alignment(&self) -> (r: usize)
        requires
            self.wf(),
        ensures
            r == match self.node.value_of("alignment".spec_bytes()) {
                Some(v) => match usize_value(v) {
                    Some(a) => a,
                    None => 0,
                },
                None => 0,
            },
    {
        match self.node.property("alignment") {
            Some(p) => match p.as_usize() {
                Some(a) => a,
                None => 0,
            },
            None => 0,
        }
    }

    /// Whether the node has the `no-map` property.
    pub fn nomap(&self) -> (r: bool)
        requires
            self.wf(),
        ensures
            r == self.node.value_of("no-map".spec_bytes()) is Some,
    {
        self.node.property("no-map").is_some()
    }

    /// `alloc-ranges`: the regions the allocation may come from, read with the cell sizes
    /// in force for the node.
    pub fn alloc_ranges(&self) -> (r: Option<RegIter<'a>>)
        requires
            self.wf(),
        ensures
            r is Some <==> self.node.value_of("alloc-ranges".spec_bytes()) is Some && widths_ok(
                self.node.in_force(),
            ),
            r matches Some(it) ==> self.node.value_of("alloc-ranges".spec_bytes()) == Some(it.rest())
                && it.cells() == self.node.in_force() && it.wf(),
    {
        match self.node.property("alloc-ranges") {
            Some(p) => p.as_reg(self.node.parent_cell_sizes()),
            None => None,
        }
    }

    /// Whether the node has the `reusable` property.
    pub fn reusable(&self) -> (r: bool)
        requires
            self.wf(),
        ensures
            r == self.node.value_of("reusable".spec_bytes()) is Some,
    {
        self.node.property("reusable").is_some()
    }

    /// Whether the first `compatible` string is `shared-dma-pool`.
    pub fn shared_dma_pool(&self) -> (r: bool)
        requires
            self.wf(),
        ensures
            r == (self.node.value_of("compatible".spec_bytes()) matches Some(v) && cstr_at(v, 0) matches Some(s)
                && valid_utf8(s) && s == "shared-dma-pool".spec_bytes()),
    {
        match self.node.compatible() {
            Some(c) => match c.first() {
                Some(f) => crate::tree::bytes_eq(f.as_bytes(), "shared-dma-pool".as_bytes()),
                None => false,
            },
            None => false,
        }
    }
}

/// The `/reserved-memory` node.
#[derive(Clone, Copy)]
pub struct ReservedMemory<'a> {
    /// The node.
    pub node: FdtNode<'a>,
}

impl<'a> ReservedMemory<'a> {
    /// The node is a decodable node.
    pub open(crate) spec fn wf(&self) -> bool {
        self.node.wf()
    }

    /// Whether the child at `c` is in use and has a `reg` property that can be read.
    pub open(crate) spec fn valid_child(&self, c: int) -> bool {
        &&& pos_available(self.node.blob().st(), self.node.blob().strs(), c)
        &&& node_prop(self.node.blob().st(), self.node.blob().strs(), c, "reg".spec_bytes()) is Some
        &&& widths_ok(self.node.kid_cells())
    }

    /// Whether the child at `c` is in use, has a `size` of four or eight bytes, and no
    /// `reg` property that can be read.
    pub open(crate) spec fn dynamic_child(&self, c: int) -> bool {
        &&& pos_available(self.node.blob().st(), self.node.blob().strs(), c)
        &&& node_value(self.node.blob().st(), self.node.blob().strs(), c, "size".spec_bytes()) matches Some(v)
            && usize_value(v) is Some
        &&& !(node_prop(self.node.blob().st(), self.node.blob().strs(), c, "reg".spec_bytes()) is Some
            && widths_ok(self.node.kid_cells()))
    }

    /// Checks that the node states both cell counts and `ranges`, and states the cell
    /// counts in force for it.
    pub(crate) fn check_root(&self) -> (r: Result<(), ()>)
        requires
            self.wf(),
        ensures
            r is Ok <==> root_ok(self.node.blob().st(), self.node.blob().strs(), self.node.position(), self.node.in_force()),
    {
        if self.node.property("#address-cells").is_none() {
            return Err(());
        }
        if self.node.property("#size-cells").is_none() {
            return Err(());
        }
        if self.node.property("ranges").is_none() {
            return Err(());
        }
        if self.node.cell_sizes() != self.node.parent_cell_sizes() {
            return Err(());
        }
        Ok(())
    }

    /// The children in use with a `reg` property that can be read, in stored order.
    pub fn valid_reserved_nodes(&self) -> (r: Vec<ValidReservedMemoryNode<'a>>)
        requires
            self.wf(),
        ensures
            r@.map_values(|v: ValidReservedMemoryNode<'a>| v.node.position()) == self.node.kids().filter(
                |c: int| self.valid_child(c),
            ),
            forall|i: int|
                0 <= i < r@.len() ==> (#[trigger] r@[i]).wf() && r@[i].node.blob() == self.node.blob()
                    && r@[i].node.in_force() == self.node.kid_cells(),
    {
        let kids = self.node.children();
        let ghost ks = self.node.kids();
        let ghost pred = |c: int| self.valid_child(c);
        let mut out: Vec<ValidReservedMemoryNode<'a>> = Vec::new();
        let mut i: usize = 0;
        while i < kids.len()
            invariant
                i <= kids@.len(),
                kids@.len() == ks.len(),
                ks == self.node.kids(),
                pred == (|c: int| self.valid_child(c)),
                forall|k: int|
                    0 <= k < kids@.len() ==> (#[trigger] kids@[k]).wf() && kids@[k].blob() == self.node.blob()
                        && kids@[k].in_force() == self.node.kid_cells(),
                forall|k: int| 0 <= k < kids@.len() ==> (#[trigger] kids@[k]).position() == ks[k],
                out@.map_values(|v: ValidReservedMemoryNode<'a>| v.node.position()) == ks.take(i as int).filter(pred),
                forall|k: int|
                    0 <= k < out@.len() ==> (#[trigger] out@[k]).wf() && out@[k].node.blob() == self.node.blob()
                        && out@[k].node.in_force() == self.node.kid_cells(),
            decreases kids@.len() - i,
        {
            let n = kids[i];
            let ghost before = out@;
            let mut keep = false;
            proof {
                assert(n.position() == ks[i as int]);

            }
            if n.is_available() {
                match n.reg() {
                    Some(regs) => {
                        out.push(ValidReservedMemoryNode { node: n, regs });
                        keep = true;
                    },
                    None => {},
                }
            }
            proof {
                lemma_filter_step(ks, i as int, pred);
                assert(pred(ks[i as int]) == keep);
                if keep {
                    assert(out@.map_values(|v: ValidReservedMemoryNode<'a>| v.node.position()) =~= before.map_values(
                        |v: ValidReservedMemoryNode<'a>| v.node.position(),
                    ).push(ks[i as int]));
                } else {
                    assert(out@ == before);
                }
            }
            i = i + 1;
        }
        proof {
            assert(ks.take(kids@.len() as int) =~= ks);
        }
        out
    }

    /// The children in use that give a `size` instead of a `reg`, in stored order.
    pub fn dynamic_nodes(&self) -> (r: Vec<DynamicReservedMemoryNode<'a>>)
        requires
            self.wf(),
        ensures
            r@.map_values(|v: DynamicReservedMemoryNode<'a>| v.node.position()) == self.node.kids().filter(
                |c: int| self.dynamic_child(c),
            ),
            forall|i: int|
                0 <= i < r@.len() ==> (#[trigger] r@[i]).wf() && r@[i].node.blob() == self.node.blob()
                    && r@[i].node.in_force() == self.node.kid_cells(),
    {
        let kids = self.node.children();
        let ghost ks = self.node.kids();
        let ghost pred = |c: int| self.dynamic_child(c);
        let mut out: Vec<DynamicReservedMemoryNode<'a>> = Vec::new();
        let mut i: usize = 0;
        while i < kids.len()
            invariant
                i <= kids@.len(),
                kids@.len() == ks.len(),
                ks == self.node.kids(),
                pred == (|c: int| self.dynamic_child(c)),
                forall|k: int|
                    0 <= k < kids@.len() ==> (#[trigger] kids@[k]).wf() && kids@[k].blob() == self.node.blob()
                        && kids@[k].in_force() == self.node.kid_cells(),
                forall|k: int| 0 <= k < kids@.len() ==> (#[trigger] kids@[k]).position() == ks[k],
                out@.map_values(|v: DynamicReservedMemoryNode<'a>| v.node.position()) == ks.take(i as int).filter(pred),
                forall|k: int|
                    0 <= k < out@.len() ==> (#[trigger] out@[k]).wf() && out@[k].node.blob() == self.node.blob()
                        && out@[k].node.in_force() == self.node.kid_cells(),
            decreases kids@.len() - i,
        {
            let n = kids[i];
            let ghost before = out@;
            let mut keep = false;
            if n.is_available() && n.reg().is_none() {
                match n.property("size") {
                    Some(p) => match p.as_usize() {
                        Some(size) => {
                            out.push(DynamicReservedMemoryNode { node: n, size });
                            keep = true;
                        },
                        None => {},
                    },
                    None => {},
                }
            }
            proof {
                lemma_filter_step(ks, i as int, pred);
                assert(pred(ks[i as int]) == keep);
                if keep {
                    assert(out@.map_values(|v: DynamicReservedMemoryNode<'a>| v.node.position()) =~= before.map_values(
                        |v: DynamicReservedMemoryNode<'a>| v.node.position(),
                    ).push(ks[i as int]));
                } else {
                    assert(out@ == before);
                }
            }
            i = i + 1;
        }
        proof {
            assert(ks.take(kids@.len() as int) =~= ks);
        }
        out
    }
}

} // verus!
