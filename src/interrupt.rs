//! Interrupt controller nodes.

use vstd::prelude::*;
use vstd::string::StringSliceAdditionalSpecFns;
use vstd::utf8::valid_utf8;
use crate::node::FdtNode;
use crate::tree::cstr_at;

verus! {

/// A node with the `interrupt-controller` property.
#[derive(Clone, Copy)]
pub struct InterruptController<'a> {
    /// The node.
    pub node: FdtNode<'a>,
}

impl<'a> InterruptController<'a> {
    /// The node is a decodable node.
    pub open(crate) spec fn wf(&self) -> bool {
        self.node.wf()
    }

    /// The first string of the `compatible` property.
    pub fn compatible(&self) -> (r: Option<&'a str>)
        requires
            self.wf(),
        ensures
            r is Some <==> (self.node.value_of("compatible".spec_bytes()) matches Some(v) && cstr_at(v, 0) matches Some(s)
                && valid_utf8(s)),
            r matches Some(t) ==> (self.node.value_of("compatible".spec_bytes()) matches Some(v) && cstr_at(v, 0)
                == Some(t.spec_bytes())),
    {
        match self.node.compatible() {
            Some(comp) => comp.first(),
            None => None,
        }
    }
}

} // verus!
