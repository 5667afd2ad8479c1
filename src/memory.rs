//! Memory nodes: nodes whose `device_type` is `memory`.

use vstd::prelude::*;
use vstd::string::StringSliceAdditionalSpecFns;
use crate::node::FdtNode;
use crate::parsing::{be_u32_at, be_u64_at, read_be_u32, read_be_u64};
use crate::standard_nodes::{widths_ok, RegIter};

verus! {

/// A memory node.
#[derive(Clone, Copy)]
pub struct Memory<'a> {
    /// The node.
    pub node: FdtNode<'a>,
}

/// The area that the `initial_mapped_area` property describes.
#[derive(Debug, Clone, Copy, PartialEq, Eq, Structural)]
pub struct MappedArea {
    /// Effective address of the mapped area.
    pub effective_address: usize,
    /// Physical address of the mapped area.
    pub physical_address: usize,
    /// Size of the mapped area.
    pub size: usize,
}

impl<'a> Memory<'a> {
    /// The node is a decodable node.
    pub open(crate) spec fn wf(&self) -> bool {
        self.node.wf()
    }

    /// The node's regions: `linux,usable-memory` where the node has it, else `reg`, read
    /// with the cell sizes in force for the node.
    pub fn regions(&self) -> (r: Option<RegIter<'a>>)
        requires
            self.wf(),
        ensures
            r is Some <==> (self.node.value_of("linux,usable-memory".spec_bytes()) is Some
                || self.node.value_of("reg".spec_bytes()) is Some) && widths_ok(self.node.in_force()),
            r matches Some(it) ==> it.cells() == self.node.in_force() && it.wf() && Some(it.rest()) == (
            match self.node.value_of("linux,usable-memory".spec_bytes()) {
                Some(v) => Some(v),
                None => self.node.value_of("reg".spec_bytes()),
            }),
    {
        match self.node.property("linux,usable-memory") {
            Some(p) => p.as_reg(self.node.parent_cell_sizes()),
            None => self.node.reg(),
        }
    }

    /// The `initial_mapped_area` property: two 64-bit addresses and a 32-bit size; `None`
    /// when it is missing or shorter than twenty bytes.
    pub fn initial_mapped_area(&self) -> (r: Option<MappedArea>)
        requires
            self.wf(),
        ensures
            r is Some <==> (self.node.value_of("initial_mapped_area".spec_bytes()) matches Some(v) && v.len()
                >= 20),
            r matches Some(m) ==> (self.node.value_of("initial_mapped_area".spec_bytes()) matches Some(v)
                && m.effective_address == be_u64_at(v, 0) as usize && m.physical_address == be_u64_at(v, 8) as usize
                && m.size == be_u32_at(v, 16) as usize),
    {
        match self.node.property("initial_mapped_area") {
            Some(p) => {
                if p.value.len() < 20 {
                    return None;
                }
                let effective_address = read_be_u64(p.value, 0) as usize;
                let physical_address = read_be_u64(p.value, 8) as usize;
                let size = read_be_u32(p.value, 16) as usize;
                Some(MappedArea { effective_address, physical_address, size })
            },
            None => None,
        }
    }
}

} // verus!
