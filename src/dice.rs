//! Nodes that describe regions of memory by their `reg` property alone.

use vstd::prelude::*;
use vstd::string::StringSliceAdditionalSpecFns;
use crate::node::FdtNode;
use crate::standard_nodes::{widths_ok, RegIter};

verus! {

/// A node whose regions its `reg` property lists.
#[derive(Clone, Copy)]
pub struct Dice<'a> {
    /// The node.
    pub node: FdtNode<'a>,
}

impl<'a> Dice<'a> {
    /// The node is a decodable node.
    pub open(crate) spec fn wf(&self) -> bool {
        self.node.wf()
    }

    /// The `reg` property, read with the cell sizes in force for this node.
    pub fn regions(&self) -> (r: Option<RegIter<'a>>)
        requires
            self.wf(),
        ensures
            r is Some <==> self.node.value_of("reg".spec_bytes()) is Some && widths_ok(self.node.in_force()),
            r matches Some(it) ==> self.node.value_of("reg".spec_bytes()) == Some(it.rest()) && it.cells()
                == self.node.in_force() && it.wf(),
    {
        self.node.reg()
    }
}

} // verus!
