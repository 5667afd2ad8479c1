//! Register lists, `compatible` lists, and the root, alias and CPU nodes.

use vstd::prelude::*;
use vstd::string::StringSliceAdditionalSpecFns;
use vstd::utf8::valid_utf8;
use crate::parsing::{be_u32_at, be_u64_at, read_be_u32, read_be_u64, FdtData};
use crate::tree::{cstr_at, nul_from, nul_index, lemma_nul_from, prop_name, prop_value, CellSizes};
use crate::text::{trim_nul, utf8_str};
use crate::fdt::LinuxFdt;
use crate::node::{FdtNode, NodeProperty};

verus! {

/// A range of memory: where it starts and how long it is.
#[derive(Debug, Clone, Copy, PartialEq, Eq, Structural)]
pub struct MemoryRegion {
    /// The first address of the region.
    pub starting_address: u64,
    /// The length of the region in bytes.
    pub size: u64,
}

/// Whether an address and a size are each one or two cells wide.
pub open spec fn widths_ok(cs: CellSizes) -> bool {
    (cs.address_cells == 1 || cs.address_cells == 2) && (cs.size_cells == 1 || cs.size_cells == 2)
}

/// The length in bytes of one (address, size) record.
pub open spec fn rec_len(cs: CellSizes) -> int {
    4 * (cs.address_cells + cs.size_cells)
}

/// The value of a one- or two-cell number stored at `i`.
pub open spec fn cell_val(b: Seq<u8>, i: int, w: usize) -> int {
    if w == 1 {
        be_u32_at(b, i)
    } else {
        be_u64_at(b, i)
    }
}

/// The (address, size) pairs that `b` holds under the cell sizes `cs`, in order; bytes
/// too few for a whole record are ignored, and widths other than one or two cells give none.
pub open spec fn reg_pairs(b: Seq<u8>, cs: CellSizes) -> Seq<(int, int)>
    decreases b.len(),
{
    if widths_ok(cs) && b.len() >= rec_len(cs) {
        seq![(cell_val(b, 0, cs.address_cells), cell_val(b, 4 * cs.address_cells, cs.size_cells))]
            + reg_pairs(b.subrange(rec_len(cs), b.len() as int), cs)
    } else {
        Seq::empty()
    }
}

/// A register list holds one pair for each whole record: its byte length divided by
/// four times the cells in one address and one size.
pub proof fn lemma_reg_count(b: Seq<u8>, cs: CellSizes)
    requires
        widths_ok(cs),
    ensures
        reg_pairs(b, cs).len() == b.len() as int / rec_len(cs),
    decreases b.len(),
{
    let r = rec_len(cs);
    let n = b.len() as int;
    if n >= r {
        lemma_reg_count(b.subrange(r, n), cs);
        assert((n - r) / r == n / r - 1) by (nonlinear_arith)
            requires
                n >= r,
                r > 0,
        ;
    } else {
        assert(n / r == 0) by (nonlinear_arith)
            requires
                0 <= n < r,
        ;
    }
}

/// The pairs of a register list, decoded one at a time.
#[derive(Debug, Clone, Copy)]
pub struct RegIter<'a> {
    pub(crate) stream: FdtData<'a>,
    pub(crate) sizes: CellSizes,
}

impl<'a> RegIter<'a> {
    /// The cell sizes the list is read with.
    pub open(crate) spec fn cells(&self) -> CellSizes {
        self.sizes
    }

    /// The cursor is within its bytes.
    pub open(crate) spec fn wf(&self) -> bool {
        self.stream.wf()
    }

    /// The bytes not decoded yet.
    pub open(crate) spec fn rest(&self) -> Seq<u8> {
        self.stream.rest()
    }

    /// The pairs not decoded yet.
    pub open(crate) spec fn pairs(&self) -> Seq<(int, int)> {
        reg_pairs(self.stream.rest(), self.sizes)
    }

    /// A list that reads the cursor's remaining bytes with the cell sizes `sizes`.
    pub fn new(stream: FdtData<'a>, sizes: CellSizes) -> (r: Self)
        requires
            stream.wf(),
        ensures
            r.wf(),
            r.rest() == stream.rest(),
            r.cells() == sizes,
    {
        RegIter { stream, sizes }
    }

    /// Decodes the next pair; `None` once no whole record is left.
    pub fn next(&mut self) -> (r: Option<MemoryRegion>)
        requires
            old(self).wf(),
        ensures
            final(self).wf(),
            final(self).cells() == old(self).cells(),
            r is None ==> old(self).pairs() == Seq::<(int, int)>::empty(),
            r matches Some(m) ==> old(self).pairs() == seq![(m.starting_address as int, m.size as int)]
                + final(self).pairs() && final(self).rest() == old(self).rest().subrange(
                rec_len(old(self).cells()),
                old(self).rest().len() as int,
            ),
    {
        let ac = self.sizes.address_cells;
        let sc = self.sizes.size_cells;
        if !((ac == 1 || ac == 2) && (sc == 1 || sc == 2)) {
            return None;
        }
        if self.stream.remaining().len() < 4 * (ac + sc) {
            return None;
        }
        let ghost b = self.stream.rest();
        let base: u64 = if ac == 1 {
            self.stream.u32().unwrap() as u64
        } else {
            self.stream.u64().unwrap()
        };
        let ghost mid = self.stream.rest();
        let size: u64 = if sc == 1 {
            self.stream.u32().unwrap() as u64
        } else {
            self.stream.u64().unwrap()
        };
        proof {
            let a4 = 4 * ac as int;
            assert(mid =~= b.subrange(a4, b.len() as int));
            assert(self.stream.rest() =~= b.subrange(rec_len(self.sizes), b.len() as int));
            if sc == 1 {
                assert(be_u32_at(mid, 0) == be_u32_at(b, a4));
            } else {
                assert(be_u64_at(mid, 0) == be_u64_at(b, a4));
            }
        }
        Some(MemoryRegion { starting_address: base, size })
    }

    /// How many pairs are left.
    pub fn count(self) -> (r: usize)
        requires
            self.wf(),
        ensures
            r == self.pairs().len(),
    {
        let mut it = self;
        let mut n: usize = 0;
        loop
            invariant
                it.wf(),
                it.cells() == self.cells(),
                n + it.pairs().len() == self.pairs().len(),
                n + it.rest().len() <= self.rest().len(),
                self.rest().len() <= usize::MAX,
            decreases it.rest().len(),
        {
            let ghost before = it.rest();
            match it.next() {
                Some(_) => {
                    n = n + 1;
                },
                None => return n,
            }
        }
    }
}

/// The zero-separated strings of `d`, each read as UTF-8, up to the first that is not.
pub open spec fn text_list(d: Seq<u8>) -> Seq<Seq<u8>>
    decreases d.len(),
{
    if d.len() == 0 {
        Seq::empty()
    } else {
        match nul_from(d, 0) {
            Some(j) => if 0 <= j < d.len() && valid_utf8(d.subrange(0, j)) {
                seq![d.subrange(0, j)] + text_list(d.subrange(j + 1, d.len() as int))
            } else {
                Seq::empty()
            },
            None => if valid_utf8(d) {
                seq![d]
            } else {
                Seq::empty()
            },
        }
    }
}

/// The value of a `compatible` property: zero-terminated strings, most specific first.
#[derive(Debug, Clone, Copy)]
pub struct Compatible<'a> {
    pub(crate) data: &'a [u8],
}

impl<'a> Compatible<'a> {
    /// The raw value.
    pub open(crate) spec fn bytes(&self) -> Seq<u8> {
        self.data@
    }

    /// The first string.
    pub fn first(&self) -> (r: Option<&'a str>)
        ensures
            r is Some <==> (cstr_at(self.bytes(), 0) matches Some(s) && valid_utf8(s)),
            r matches Some(t) ==> cstr_at(self.bytes(), 0) == Some(t.spec_bytes()),
    {
        match nul_index(self.data, 0) {
            Some(j) => utf8_str(&self.data[0..j]),
            None => None,
        }
    }

    /// Every string, in order, up to the first that is not UTF-8.
    pub fn all(&self) -> (r: Vec<&'a str>)
        ensures
            r@.len() == text_list(self.bytes()).len(),
            forall|i: int| 0 <= i < r@.len() ==> r@[i].spec_bytes() == #[trigger] text_list(self.bytes())[i],
    {
        let mut d: &'a [u8] = self.data;
        let mut out: Vec<&'a str> = Vec::new();
        let ghost done: Seq<Seq<u8>> = Seq::empty();
        loop
            invariant
                text_list(self.data@) == done + text_list(d@),
                out@.len() == done.len(),
                forall|i: int| 0 <= i < out@.len() ==> out@[i].spec_bytes() == #[trigger] done[i],
            decreases d@.len(),
        {
            if d.len() == 0 {
                assert(text_list(self.data@) =~= done);
                return out;
            }
            proof {
                lemma_nul_from(d@, 0);
            }
            match nul_index(d, 0) {
                Some(j) => {
                    match utf8_str(&d[0..j]) {
                        Some(s) => {
                            out.push(s);
                            proof {
                                done = done.push(d@.subrange(0, j as int));
                                assert(text_list(self.data@) =~= done + text_list(d@.subrange(j + 1, d@.len() as int)));
                            }
                            d = &d[j + 1..d.len()];
                        },
                        None => {
                            assert(text_list(self.data@) =~= done);
                            return out;
                        },
                    }
                },
                None => {
                    match utf8_str(d) {
                        Some(s) => {
                            out.push(s);
                            proof {
                                done = done.push(d@);
                                assert(text_list(self.data@) =~= done);
                            }
                        },
                        None => {
                            assert(text_list(self.data@) =~= done);
                        },
                    }
                    return out;
                },
            }
        }
    }
}


/// The root node.
#[derive(Clone, Copy)]
pub struct Root<'a> {
    /// The node.
    pub node: FdtNode<'a>,
}

impl<'a> Root<'a> {
    /// The node is a decodable node.
    pub open(crate) spec fn wf(&self) -> bool {
        self.node.wf()
    }

    /// The node itself.
    pub open(crate) spec fn view_node(&self) -> FdtNode<'a> {
        self.node
    }

    /// The cell sizes that the root states for its children.
    pub fn cell_sizes(&self) -> (r: CellSizes)
        ensures
            r == self.node.cell_sizes_spec(),
    {
        self.node.cell_sizes()
    }

    /// The `model` property as text, trailing zero bytes removed.
    pub fn model(&self) -> (r: Option<&'a str>)
        requires
            self.wf(),
        ensures
            r is Some <==> (self.node.value_of("model".spec_bytes()) matches Some(v) && valid_utf8(
                trim_nul(v),
            )),
            r matches Some(t) ==> (self.node.value_of("model".spec_bytes()) matches Some(v) && trim_nul(v)
                == t.spec_bytes()),
    {
        match self.node.property("model") {
            Some(p) => p.as_str(),
            None => None,
        }
    }

    /// The `compatible` property.
    pub fn compatible(&self) -> (r: Option<Compatible<'a>>)
        requires
            self.wf(),
        ensures
            r is Some <==> self.node.value_of("compatible".spec_bytes()) is Some,
            r matches Some(c) ==> self.node.value_of("compatible".spec_bytes()) == Some(c.bytes()),
    {
        self.node.compatible()
    }

    /// The root's properties, in stored order.
    pub fn properties(&self) -> (r: Vec<NodeProperty<'a>>)
        requires
            self.wf(),
        ensures
            r@.len() == self.node.props().len(),
            forall|i: int|
                0 <= i < r@.len() ==> r@[i].value@ == prop_value(self.node.blob().st(), #[trigger] self.node.props()[i])
                    && prop_name(self.node.blob().st(), self.node.blob().strs(), self.node.props()[i]) == Some(
                    r@[i].name.spec_bytes(),
                ),
    {
        self.node.properties()
    }

    /// The first property called `name`.
    pub fn property(&self, name: &str) -> (r: Option<NodeProperty<'a>>)
        requires
            self.wf(),
        ensures
            r is Some <==> self.node.value_of(name.spec_bytes()) is Some,
            r matches Some(p) ==> self.node.value_of(name.spec_bytes()) == Some(p.value@),
    {
        self.node.property(name)
    }
}

/// The `/aliases` node, whose properties map short names to paths.
#[derive(Clone, Copy)]
pub struct Aliases<'a> {
    /// The blob the node belongs to.
    pub header: LinuxFdt<'a>,
    /// The node.
    pub node: FdtNode<'a>,
}

impl<'a> Aliases<'a> {
    /// The node is a decodable node of the blob it was found in.
    pub open(crate) spec fn wf(&self) -> bool {
        self.node.wf() && self.node.blob() == self.header
    }

    /// The text of the alias `alias`, trailing zero bytes removed.
    pub open(crate) spec fn alias_text(&self, alias: Seq<u8>) -> Option<Seq<u8>> {
        match self.node.value_of(alias) {
            Some(v) => if valid_utf8(trim_nul(v)) {
                Some(trim_nul(v))
            } else {
                None
            },
            None => None,
        }
    }

    /// The path that the alias `alias` stands for.
    pub fn resolve(&self, alias: &str) -> (r: Option<&'a str>)
        requires
            self.wf(),
        ensures
            r is Some <==> self.alias_text(alias.spec_bytes()) is Some,
            r matches Some(t) ==> self.alias_text(alias.spec_bytes()) == Some(t.spec_bytes()),
    {
        match self.node.property(alias) {
            Some(p) => p.as_str(),
            None => None,
        }
    }

    /// The node that the alias `alias` stands for, located as `find_node` locates its path.
    pub fn resolve_node(&self, alias: &str) -> (r: Option<FdtNode<'a>>)
        requires
            self.wf(),
        ensures
            r is Some <==> (self.alias_text(alias.spec_bytes()) matches Some(t) && self.header.locate(
                t,
            ) is Some),
            r matches Some(n) ==> n.wf() && n.blob() == self.header && (self.alias_text(
                alias.spec_bytes(),
            ) matches Some(t) && self.header.locate(t) == Some((n.position(), n.in_force()))),
    {
        match self.resolve(alias) {
            Some(path) => self.header.find_node(path),
            None => None,
        }
    }

    /// Whether the property record at `q` holds text.
    pub open(crate) spec fn is_text(&self, q: int) -> bool {
        valid_utf8(trim_nul(prop_value(self.node.blob().st(), q)))
    }

    /// The alias name and path that the property record at `q` gives.
    pub open(crate) spec fn entry(&self, q: int) -> (Seq<u8>, Seq<u8>) {
        (
            prop_name(self.node.blob().st(), self.node.blob().strs(), q).unwrap(),
            trim_nul(prop_value(self.node.blob().st(), q)),
        )
    }

    /// Every alias whose path is text, with that path (trailing zero bytes removed), in
    /// stored order.
    pub fn all(&self) -> (r: Vec<(&'a str, &'a str)>)
        requires
            self.wf(),
        ensures
            r@.map_values(|x: (&'a str, &'a str)| (x.0.spec_bytes(), x.1.spec_bytes())) == self.node.props().filter(
                |q: int| self.is_text(q),
            ).map_values(|q: int| self.entry(q)),
    {
        let props = self.node.properties();
        let ghost ps = self.node.props();
        let ghost pred = |q: int| self.is_text(q);
        let ghost f = |q: int| self.entry(q);
        let ghost g = |x: (&'a str, &'a str)| (x.0.spec_bytes(), x.1.spec_bytes());
        let mut out: Vec<(&'a str, &'a str)> = Vec::new();
        let mut i: usize = 0;
        while i < props.len()
            invariant
                i <= props@.len(),
                ps == self.node.props(),
                props@.len() == ps.len(),
                pred == (|q: int| self.is_text(q)),
                f == (|q: int| self.entry(q)),
                g == (|x: (&'a str, &'a str)| (x.0.spec_bytes(), x.1.spec_bytes())),
                forall|k: int|
                    0 <= k < props@.len() ==> (#[trigger] props@[k]).value@ == prop_value(self.node.blob().st(), ps[k])
                        && prop_name(self.node.blob().st(), self.node.blob().strs(), ps[k]) == Some(
                        props@[k].name.spec_bytes(),
                    ),
                out@.map_values(g) == ps.take(i as int).filter(pred).map_values(f),
            decreases props@.len() - i,
        {
            let p = props[i];
            let ghost before = out@;
            proof {
                crate::node::lemma_filter_step(ps, i as int, pred);
                assert(p.value@ == prop_value(self.node.blob().st(), ps[i as int]));
            }
            match p.as_str() {
                Some(v) => {
                    out.push((p.name, v));
                    proof {
                        assert(out@.map_values(g) =~= before.map_values(g).push(f(ps[i as int])));
                        assert(ps.take(i + 1).filter(pred) == ps.take(i as int).filter(pred).push(ps[i as int]));
                        assert(ps.take(i + 1).filter(pred).map_values(f) =~= ps.take(i as int).filter(pred).map_values(
                            f,
                        ).push(f(ps[i as int])));
                    }
                },
                None => {},
            }
            i = i + 1;
        }
        proof {
            assert(ps.take(props@.len() as int) =~= ps);
        }
        out
    }
}

/// A CPU node under `/cpus`, with its parent.
#[derive(Clone, Copy)]
pub struct Cpu<'a> {
    /// The CPU node's parent.
    pub parent: FdtNode<'a>,
    /// The node.
    pub node: FdtNode<'a>,
}

/// The value of a frequency property: four or eight bytes, big-endian.
pub open spec fn freq_value(v: Seq<u8>) -> Option<int> {
    if v.len() == 4 {
        Some(be_u32_at(v, 0))
    } else if v.len() == 8 && be_u64_at(v, 0) <= usize::MAX {
        Some(be_u64_at(v, 0))
    } else {
        None
    }
}

impl<'a> Cpu<'a> {
    /// Both nodes are decodable nodes.
    pub open(crate) spec fn wf(&self) -> bool {
        self.node.wf() && self.parent.wf()
    }

    /// The value of the property `name` on the CPU node, else on its parent.
    pub open(crate) spec fn inherited_value(&self, name: Seq<u8>) -> Option<Seq<u8>> {
        match self.node.value_of(name) {
            Some(v) => Some(v),
            None => self.parent.value_of(name),
        }
    }

    /// The CPU's `reg` property, read with the address width in force for the node.
    pub fn ids(&self) -> (r: Option<CpuIds<'a>>)
        requires
            self.wf(),
        ensures
            r is Some <==> self.node.value_of("reg".spec_bytes()) is Some,
            r matches Some(ids) ==> self.node.value_of("reg".spec_bytes()) == Some(ids.reg.value@)
                && ids.address_cells == self.node.in_force().address_cells,
    {
        match self.node.property("reg") {
            Some(reg) => Some(CpuIds { reg, address_cells: self.node.parent_cell_sizes().address_cells }),
            None => None,
        }
    }

    /// A frequency property of the node, else of its parent.
    fn frequency(&self, name: &str) -> (r: Option<usize>)
        requires
            self.wf(),
        ensures
            r is Some <==> (self.inherited_value(name.spec_bytes()) matches Some(v) && freq_value(
                v,
            ) is Some),
            r matches Some(f) ==> (self.inherited_value(name.spec_bytes()) matches Some(v)
                && freq_value(v) == Some(f as int)),
    {
        let p = match self.node.property(name) {
            Some(p) => p,
            None => match self.parent.property(name) {
                Some(p) => p,
                None => return None,
            },
        };
        if p.value.len() == 4 {
            Some(read_be_u32(p.value, 0) as usize)
        } else if p.value.len() == 8 {
            let v = read_be_u64(p.value, 0);
            if v > usize::MAX as u64 {
                return None;
            }
            Some(v as usize)
        } else {
            None
        }
    }

    /// The `clock-frequency` property of the node, else of its parent.
    pub fn clock_frequency(&self) -> (r: Option<usize>)
        requires
            self.wf(),
        ensures
            r matches Some(f) ==> (self.inherited_value("clock-frequency".spec_bytes()) matches Some(v)
                && freq_value(v) == Some(f as int)),
            r is None ==> !(self.inherited_value("clock-frequency".spec_bytes()) matches Some(v)
                && freq_value(v) is Some),
    {
        self.frequency("clock-frequency")
    }

    /// The `timebase-frequency` property of the node, else of its parent.
    pub fn timebase_frequency(&self) -> (r: Option<usize>)
        requires
            self.wf(),
        ensures
            r matches Some(f) ==> (self.inherited_value("timebase-frequency".spec_bytes()) matches Some(v)
                && freq_value(v) == Some(f as int)),
            r is None ==> !(self.inherited_value("timebase-frequency".spec_bytes()) matches Some(v)
                && freq_value(v) is Some),
    {
        self.frequency("timebase-frequency")
    }

    /// The CPU node's properties, in stored order.
    pub fn properties(&self) -> (r: Vec<NodeProperty<'a>>)
        requires
            self.wf(),
        ensures
            r@.len() == self.node.props().len(),
            forall|i: int|
                0 <= i < r@.len() ==> r@[i].value@ == prop_value(self.node.blob().st(), #[trigger] self.node.props()[i])
                    && prop_name(self.node.blob().st(), self.node.blob().strs(), self.node.props()[i]) == Some(
                    r@[i].name.spec_bytes(),
                ),
    {
        self.node.properties()
    }

    /// The first property of the CPU node called `name`.
    pub fn property(&self, name: &str) -> (r: Option<NodeProperty<'a>>)
        requires
            self.wf(),
        ensures
            r is Some <==> self.node.value_of(name.spec_bytes()) is Some,
            r matches Some(p) ==> self.node.value_of(name.spec_bytes()) == Some(p.value@),
    {
        self.node.property(name)
    }
}

/// The CPU or thread IDs that a CPU node's `reg` property lists.
#[derive(Clone, Copy)]
pub struct CpuIds<'a> {
    /// The `reg` property.
    pub reg: NodeProperty<'a>,
    /// The cells in one ID.
    pub address_cells: usize,
}

/// The IDs stored in `b`, each `w` cells wide, up to the last whole one.
pub open spec fn id_list(b: Seq<u8>, w: usize) -> Seq<int>
    decreases b.len(),
{
    if (w == 1 || w == 2) && b.len() >= 4 * w {
        seq![cell_val(b, 0, w)] + id_list(b.subrange(4 * w, b.len() as int), w)
    } else {
        Seq::empty()
    }
}

impl<'a> CpuIds<'a> {
    /// The first ID; `None` when the width is not one or two cells, the value is too
    /// short, or the ID does not fit a `usize`.
    pub fn first(&self) -> (r: Option<usize>)
        ensures
            r is Some <==> id_list(self.reg.value@, self.address_cells).len() > 0 && id_list(
                self.reg.value@,
                self.address_cells,
            )[0] <= usize::MAX,
            r matches Some(v) ==> v as int == id_list(self.reg.value@, self.address_cells)[0],
    {
        let w = self.address_cells;
        let d = self.reg.value;
        if w == 1 && d.len() >= 4 {
            Some(read_be_u32(d, 0) as usize)
        } else if w == 2 && d.len() >= 8 {
            let v = read_be_u64(d, 0);
            if v > usize::MAX as u64 {
                None
            } else {
                Some(v as usize)
            }
        } else {
            None
        }
    }

    /// Every ID, in stored order, up to the first that does not fit a `usize`.
    pub fn all(&self) -> (r: Vec<usize>)
        ensures
            r@.len() == id_list(self.reg.value@, self.address_cells).len() || (r@.len() < id_list(
                self.reg.value@,
                self.address_cells,
            ).len() && id_list(self.reg.value@, self.address_cells)[r@.len() as int] > usize::MAX),
            r@.len() <= id_list(self.reg.value@, self.address_cells).len(),
            forall|i: int|
                0 <= i < r@.len() ==> r@[i] as int == #[trigger] id_list(self.reg.value@, self.address_cells)[i],
    {
        let w = self.address_cells;
        let mut d: &'a [u8] = self.reg.value;
        let mut out: Vec<usize> = Vec::new();
        let ghost done: Seq<int> = Seq::empty();
        if !(w == 1 || w == 2) {
            return out;
        }
        loop
            invariant
                w == 1 || w == 2,
                w == self.address_cells,
                id_list(self.reg.value@, w) == done + id_list(d@, w),
                out@.len() == done.len(),
                forall|i: int| 0 <= i < out@.len() ==> out@[i] as int == #[trigger] done[i],
            decreases d@.len(),
        {
            if d.len() < 4 * w {
                return out;
            }
            let v: u64 = if w == 1 {
                read_be_u32(d, 0) as u64
            } else {
                read_be_u64(d, 0)
            };
            if v > usize::MAX as u64 {
                return out;
            }
            out.push(v as usize);
            proof {
                done = done.push(cell_val(d@, 0, w));
                assert(id_list(self.reg.value@, w) =~= done + id_list(d@.subrange(4 * w, d@.len() as int), w));
            }
            d = &d[4 * w..d.len()];
        }
    }
}

} // verus!
