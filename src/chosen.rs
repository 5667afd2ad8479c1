//! The `/chosen` node: boot arguments and the console.

use vstd::prelude::*;
use vstd::string::StringSliceAdditionalSpecFns;
use vstd::utf8::valid_utf8;
use crate::node::FdtNode;
use crate::standard_nodes::{widths_ok, RegIter};
use crate::text::utf8_str;
use crate::tree::{idx_of, index_of};

verus! {

/// The console that `stdout-path` names, and the options written after its `:`.
#[derive(Clone, Copy)]
pub struct Stdout<'a> {
    /// The console's node.
    pub node: FdtNode<'a>,
    /// What follows the first `:`, when something does.
    pub options: Option<&'a str>,
}

/// The `/chosen` node.
#[derive(Clone, Copy)]
pub struct Chosen<'a> {
    /// The node.
    pub node: FdtNode<'a>,
}

/// A text property without its last byte (its terminating zero).
pub open spec fn without_last(v: Seq<u8>) -> Seq<u8> {
    v.subrange(0, v.len() - 1)
}

/// The part of `s` before its first `:` (all of it when there is none).
pub open spec fn before_colon(s: Seq<u8>) -> Seq<u8> {
    s.subrange(0, idx_of(s, 58u8, 0))
}

/// The part of `s` after its first `:` (nothing when there is none).
pub open spec fn after_colon(s: Seq<u8>) -> Seq<u8> {
    if idx_of(s, 58u8, 0) < s.len() {
        s.subrange(idx_of(s, 58u8, 0) + 1, s.len() as int)
    } else {
        Seq::empty()
    }
}

impl<'a> Chosen<'a> {
    /// The node is a decodable node.
    pub open(crate) spec fn wf(&self) -> bool {
        self.node.wf()
    }

    /// The value of `stdout-path`, else of `linux,stdout-path`.
    pub open(crate) spec fn stdout_value(&self) -> Option<Seq<u8>> {
        match self.node.value_of("stdout-path".spec_bytes()) {
            Some(v) => Some(v),
            None => self.node.value_of("linux,stdout-path".spec_bytes()),
        }
    }

    /// The kernel command line: `bootargs` without its terminating byte.
    pub fn bootargs(&self) -> (r: Option<&'a str>)
        requires
            self.wf(),
        ensures
            r is Some <==> (self.node.value_of("bootargs".spec_bytes()) matches Some(v) && v.len() > 0
                && valid_utf8(without_last(v))),
            r matches Some(t) ==> (self.node.value_of("bootargs".spec_bytes()) matches Some(v)
                && t.spec_bytes() == without_last(v)),
    {
        match self.node.property("bootargs") {
            Some(p) => {
                if p.value.len() == 0 {
                    return None;
                }
                utf8_str(&p.value[0..p.value.len() - 1])
            },
            None => None,
        }
    }

    /// The console: the node that the path before the first `:` of `stdout-path` (else
    /// `linux,stdout-path`) leads to, found as `find_node` finds it, and the options after
    /// the `:`.
    pub fn stdout(&self) -> (r: Option<Stdout<'a>>)
        requires
            self.wf(),
        ensures
            r is Some <==> (self.stdout_value() matches Some(v) && v.len() > 0 && valid_utf8(
                before_colon(without_last(v)),
            ) && valid_utf8(after_colon(without_last(v))) && self.node.blob().locate(
                before_colon(without_last(v)),
            ) is Some),
            r matches Some(s) ==> (self.stdout_value() matches Some(v) && self.node.blob().locate(
                before_colon(without_last(v)),
            ) == Some((s.node.position(), s.node.in_force())) && s.node.wf() && (s.options is None
                <==> after_colon(without_last(v)).len() == 0) && (s.options matches Some(o)
                ==> o.spec_bytes() == after_colon(without_last(v)))),
    {
        let p = match self.node.property("stdout-path") {
            Some(p) => p,
            None => match self.node.property("linux,stdout-path") {
                Some(p) => p,
                None => return None,
            },
        };
        if p.value.len() == 0 {
            return None;
        }
        let text = &p.value[0..p.value.len() - 1];
        let k = index_of(text, 58u8, 0);
        let name = match utf8_str(&text[0..k]) {
            Some(n) => n,
            None => return None,
        };
        let opts_bytes: &'a [u8] = if k < text.len() {
            &text[k + 1..text.len()]
        } else {
            &text[0..0]
        };
        proof {
            assert(opts_bytes@ =~= after_colon(text@));
        }
        let opts = match utf8_str(opts_bytes) {
            Some(o) => o,
            None => return None,
        };
        let node = match self.node.fdt.find_node(name) {
            Some(n) => n,
            None => return None,
        };
        if opts_bytes.len() == 0 {
            Some(Stdout { node, options: None })
        } else {
            Some(Stdout { node, options: Some(opts) })
        }
    }

    /// `linux,usable-memory-range`, read with the cell sizes in force for this node.
    pub fn usable_mem_region(&self) -> (r: Option<RegIter<'a>>)
        requires
            self.wf(),
        ensures
            r is Some <==> self.node.value_of("linux,usable-memory-range".spec_bytes()) is Some
                && widths_ok(self.node.in_force()),
            r matches Some(it) ==> self.node.value_of("linux,usable-memory-range".spec_bytes()) == Some(
                it.rest(),
            ) && it.cells() == self.node.in_force() && it.wf(),
    {
        match self.node.property("linux,usable-memory-range") {
            Some(p) => p.as_reg(self.node.parent_cell_sizes()),
            None => None,
        }
    }
}

} // verus!
