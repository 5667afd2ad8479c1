//! The blob itself: its header, the blocks it locates, path lookup, the full-tree
//! scan and the memory-reservation list.

use vstd::prelude::*;
use vstd::string::StringSliceAdditionalSpecFns;
use crate::parsing::{be_u32_at, be_u64_at, read_be_u32, read_be_u64, FdtData};
use crate::tree::{
    align4, default_cells, lemma_scan_follows_path, lemma_scan_in_order, lookup, lookup_at,
    name_end, names_valid_from, node_name, root_pos, skip_nops, lemma_skip_nop, nul_from, scan_all, scan_nodes, scanned, top_cells, CellSizes,
    FDT_BEGIN_NODE,
};
use crate::node::{node_ok, node_value, pos_available, FdtNode};
use crate::text::trim_nul;
use crate::standard_nodes::{Aliases, Root};
use crate::chosen::Chosen;
use crate::memory::Memory;
use crate::reserved_memory::ReservedMemory;
use vstd::utf8::valid_utf8;

verus! {

/// The value that the first header field must hold.
pub const FDT_MAGIC: u32 = 0xd00dfeed;

/// Errors that reject a whole blob.
#[derive(Debug, Clone, Copy, PartialEq, Eq, Structural)]
pub enum FdtError {
    /// The first header field is not the magic value.
    BadMagic,
    /// The given pointer was null.
    BadPtr,
    /// The buffer is too short for the header, or for what the header declares.
    BufferTooSmall,
}

impl FdtError {
    /// A short description of the error.
    pub fn describe(&self) -> (r: &'static str) {
        match self {
            FdtError::BadMagic => "bad FDT magic value",
            FdtError::BadPtr => "an invalid pointer was passed",
            FdtError::BufferTooSmall => "the given buffer was too small to contain a FDT header",
        }
    }
}

/// Header field `k` (counting from zero) of the blob `d`.
pub open spec fn hdr(d: Seq<u8>, k: int) -> int {
    be_u32_at(d, 4 * k)
}

/// Whether the structure block and the string table that the header declares lie in `d`.
pub open spec fn blocks_fit(d: Seq<u8>) -> bool {
    hdr(d, 2) + hdr(d, 9) <= d.len() && hdr(d, 3) + hdr(d, 8) <= d.len()
}

/// The structure block of `d`.
pub open spec fn struct_block(d: Seq<u8>) -> Seq<u8> {
    d.subrange(hdr(d, 2), hdr(d, 2) + hdr(d, 9))
}

/// The string table of `d`.
pub open spec fn strings_block(d: Seq<u8>) -> Seq<u8> {
    d.subrange(hdr(d, 3), hdr(d, 3) + hdr(d, 8))
}

/// The ten header fields, in the order in which they are stored.
#[derive(Debug, Clone, Copy)]
pub(crate) struct FdtHeader {
    pub(crate) magic: u32,
    pub(crate) totalsize: u32,
    pub(crate) off_dt_struct: u32,
    pub(crate) off_dt_strings: u32,
    pub(crate) off_mem_rsvmap: u32,
    pub(crate) version: u32,
    pub(crate) last_comp_version: u32,
    pub(crate) boot_cpuid_phys: u32,
    pub(crate) size_dt_strings: u32,
    pub(crate) size_dt_struct: u32,
}

impl FdtHeader {
    /// Whether the fields are those stored at the start of `d`.
    pub open(crate) spec fn read_from(&self, d: Seq<u8>) -> bool {
        &&& self.magic as int == hdr(d, 0)
        &&& self.totalsize as int == hdr(d, 1)
        &&& self.off_dt_struct as int == hdr(d, 2)
        &&& self.off_dt_strings as int == hdr(d, 3)
        &&& self.off_mem_rsvmap as int == hdr(d, 4)
        &&& self.version as int == hdr(d, 5)
        &&& self.last_comp_version as int == hdr(d, 6)
        &&& self.boot_cpuid_phys as int == hdr(d, 7)
        &&& self.size_dt_strings as int == hdr(d, 8)
        &&& self.size_dt_struct as int == hdr(d, 9)
    }

    /// Whether the magic field holds the magic value.
    pub(crate) fn valid_magic(&self) -> (r: bool)
        ensures
            r == (self.magic == FDT_MAGIC),
    {
        self.magic == FDT_MAGIC
    }

    /// Reads the ten fields from the cursor; `None` when fewer than forty bytes remain.
    pub(crate) fn from_bytes(bytes: &mut FdtData<'_>) -> (r: Option<Self>)
        requires
            old(bytes).wf(),
        ensures
            final(bytes).wf(),
            r is Some <==> old(bytes).rest().len() >= 40,
            r matches Some(h) ==> h.read_from(old(bytes).rest()),
            r is Some ==> final(bytes).rest() == old(bytes).rest().subrange(40, old(bytes).rest().len() as int),
            r is None ==> *final(bytes) == *old(bytes),
    {
        let ghost d = bytes.rest();
        if bytes.remaining().len() < 40 {
            return None;
        }
        let magic = bytes.u32().unwrap();
        let totalsize = bytes.u32().unwrap();
        let off_dt_struct = bytes.u32().unwrap();
        let off_dt_strings = bytes.u32().unwrap();
        let off_mem_rsvmap = bytes.u32().unwrap();
        let version = bytes.u32().unwrap();
        let last_comp_version = bytes.u32().unwrap();
        let boot_cpuid_phys = bytes.u32().unwrap();
        let size_dt_strings = bytes.u32().unwrap();
        let size_dt_struct = bytes.u32().unwrap();
        Some(FdtHeader {
            magic,
            totalsize,
            off_dt_struct,
            off_dt_strings,
            off_mem_rsvmap,
            version,
            last_comp_version,
            boot_cpuid_phys,
            size_dt_strings,
            size_dt_struct,
        })
    }
}

/// The total size that the header at the start of `data` declares; `None` when `data`
/// is too short to hold a header.
pub fn header_total_size(data: &[u8]) -> (r: Option<u32>)
    ensures
        r is Some <==> data@.len() >= 40,
        r matches Some(t) ==> t as int == hdr(data@, 1),
{
    let mut stream = FdtData::new(data);
    match FdtHeader::from_bytes(&mut stream) {
        Some(h) => Some(h.totalsize),
        None => None,
    }
}

/// A reserved range of physical memory.
#[derive(Debug, Clone, Copy, PartialEq, Eq, Structural)]
pub struct MemoryReservation {
    /// The first address of the range.
    pub address: u64,
    /// The length of the range in bytes.
    pub size: u64,
}

impl MemoryReservation {
    /// The first address of the range.
    pub fn address(&self) -> (r: u64)
        ensures
            r == self.address,
    {
        self.address
    }

    /// The length of the range in bytes.
    pub fn size(&self) -> (r: u64)
        ensures
            r == self.size,
    {
        self.size
    }
}

/// The reservations listed at the start of `d`: sixteen-byte records of a big-endian
/// address and size, up to the all-zero record or the end of the bytes.
pub open spec fn reservations(d: Seq<u8>) -> Seq<(int, int)>
    decreases d.len(),
{
    if d.len() < 16 {
        Seq::empty()
    } else if be_u64_at(d, 0) == 0 && be_u64_at(d, 8) == 0 {
        Seq::empty()
    } else {
        seq![(be_u64_at(d, 0), be_u64_at(d, 8))] + reservations(d.subrange(16, d.len() as int))
    }
}

/// The all-zero record that ends the list never appears in it.
pub proof fn lemma_no_sentinel(d: Seq<u8>)
    ensures
        forall|i: int| 0 <= i < reservations(d).len() ==> reservations(d)[i] != (0int, 0int),
    decreases d.len(),
{
    if d.len() >= 16 && !(be_u64_at(d, 0) == 0 && be_u64_at(d, 8) == 0) {
        lemma_no_sentinel(d.subrange(16, d.len() as int));
        let rest = reservations(d.subrange(16, d.len() as int));
        assert forall|i: int| 0 <= i < reservations(d).len() implies reservations(d)[i] != (
            0int,
            0int,
        ) by {
            if i > 0 {
                assert(reservations(d)[i] == rest[i - 1]);
            }
        }
    }
}

/// Whether the first record of the structure block that is not a NOP is the root: a
/// node record with an empty name.
pub open spec fn root_well_formed(st: Seq<u8>) -> bool {
    let r = root_pos(st);
    r + 8 <= st.len() && be_u32_at(st, r) == FDT_BEGIN_NODE as int && st[r + 4] == 0
}

/// Following only `/` characters stays at the node where the walk started.
pub proof fn lemma_slashes_lead_home(st: Seq<u8>, strs: Seq<u8>, p: int, path: Seq<u8>, i: int)
    requires
        0 <= i <= path.len(),
        forall|k: int| 0 <= k < path.len() ==> path[k] == 47u8,
    ensures
        lookup(st, strs, p, default_cells(), path, i) == Some((p, default_cells())),
    decreases path.len() - i,
{
    if i < path.len() {
        lemma_slashes_lead_home(st, strs, p, path, i + 1);
    }
}

/// How many times `find_node` follows an alias to another alias before it gives up; a
/// longer chain, or a cycle, finds nothing.
pub const MAX_ALIAS_HOPS: usize = 16;

/// A flattened devicetree held in a borrowed buffer.
#[derive(Clone, Copy)]
pub struct LinuxFdt<'a> {
    pub(crate) data: &'a [u8],
    pub(crate) header: FdtHeader,
    pub(crate) structs: &'a [u8],
    pub(crate) strings: &'a [u8],
}

impl<'a> LinuxFdt<'a> {
    /// Whether the header fields are those stored at the start of `d`.
    pub open(crate) spec fn header_read_from(&self, d: Seq<u8>) -> bool {
        self.header.read_from(d)
    }

    /// The total size that the header declares.
    pub open(crate) spec fn declared_size(&self) -> int {
        self.header.totalsize as int
    }

    /// The whole blob.
    pub open(crate) spec fn bytes(&self) -> Seq<u8> {
        self.data@
    }

    /// The structure block.
    pub open(crate) spec fn st(&self) -> Seq<u8> {
        self.structs@
    }

    /// The string table.
    pub open(crate) spec fn strs(&self) -> Seq<u8> {
        self.strings@
    }

    /// The bytes from the reservation block's offset on (none when it lies past the end).
    pub open(crate) spec fn rsv_bytes(&self) -> Seq<u8> {
        if self.header.off_mem_rsvmap <= self.data@.len() {
            self.data@.subrange(self.header.off_mem_rsvmap as int, self.data@.len() as int)
        } else {
            Seq::empty()
        }
    }

    /// Validates the header of `data` and locates its blocks.
    pub fn new(data: &'a [u8]) -> (r: Result<Self, FdtError>)
        ensures
            data@.len() < 40 ==> r == Err::<Self, FdtError>(FdtError::BufferTooSmall),
            data@.len() >= 40 && hdr(data@, 0) != FDT_MAGIC ==> r == Err::<Self, FdtError>(
                FdtError::BadMagic,
            ),
            data@.len() >= 40 && hdr(data@, 0) == FDT_MAGIC && (hdr(data@, 1) > data@.len()
                || !blocks_fit(data@)) ==> r == Err::<Self, FdtError>(FdtError::BufferTooSmall),
            r is Ok <==> data@.len() >= 40 && hdr(data@, 0) == FDT_MAGIC && hdr(data@, 1)
                <= data@.len() && blocks_fit(data@),
            r matches Ok(f) ==> f.bytes() == data@ && f.header_read_from(data@) && f.st()
                == struct_block(data@) && f.strs() == strings_block(data@),
    {
        let mut stream = FdtData::new(data);
        let header = match FdtHeader::from_bytes(&mut stream) {
            Some(h) => h,
            None => return Err(FdtError::BufferTooSmall),
        };
        if !header.valid_magic() {
            return Err(FdtError::BadMagic);
        }
        let n = data.len();
        if n < header.totalsize as usize {
            return Err(FdtError::BufferTooSmall);
        }
        let ss = header.off_dt_struct as usize;
        let sl = header.size_dt_struct as usize;
        let ts = header.off_dt_strings as usize;
        let tl = header.size_dt_strings as usize;
        if ss > n || sl > n - ss || ts > n || tl > n - ts {
            return Err(FdtError::BufferTooSmall);
        }
        let structs = &data[ss..ss + sl];
        let strings = &data[ts..ts + tl];
        Ok(LinuxFdt { data, header, structs, strings })
    }

    /// The total size of the blob that the header declares.
    pub fn total_size(&self) -> (r: usize)
        ensures
            r as int == self.declared_size(),
    {
        self.header.totalsize as usize
    }

    /// The structure block.
    pub fn structs_block(&self) -> (r: &'a [u8])
        ensures
            r@ == self.st(),
    {
        self.structs
    }

    /// The string table.
    pub fn strings_block(&self) -> (r: &'a [u8])
        ensures
            r@ == self.strs(),
    {
        self.strings
    }

    /// The node that `path` leads to from the root (the first record that is not a NOP),
    /// with the cell sizes in force for it.
    pub open(crate) spec fn path_target(&self, path: Seq<u8>) -> Option<(int, CellSizes)> {
        lookup(self.st(), self.strs(), root_pos(self.st()), default_cells(), path, 0)
    }

    /// The decodable node that `path` leads to in the tree, with the cell sizes in force for it.
    pub open(crate) spec fn direct(&self, path: Seq<u8>) -> Option<(int, CellSizes)> {
        match self.path_target(path) {
            Some(t) => if node_ok(self.st(), t.0) {
                Some(t)
            } else {
                None
            },
            None => None,
        }
    }

    /// The path that `/aliases` gives for the alias `name`, trailing zero bytes removed.
    pub open(crate) spec fn alias_path(&self, name: Seq<u8>) -> Option<Seq<u8>> {
        match self.direct("/aliases".spec_bytes()) {
            Some(t) => match node_value(self.st(), self.strs(), t.0, name) {
                Some(v) => if valid_utf8(trim_nul(v)) {
                    Some(trim_nul(v))
                } else {
                    None
                },
                None => None,
            },
            None => None,
        }
    }

    /// The node that `path` leads to, or else, while `hops` is not spent, the node that
    /// the path given by the alias `path` is located at, one hop fewer.
    pub open(crate) spec fn locate_within(&self, path: Seq<u8>, hops: nat) -> Option<(int, CellSizes)>
        decreases hops,
    {
        match self.direct(path) {
            Some(t) => Some(t),
            None => if hops == 0 {
                None
            } else {
                match self.alias_path(path) {
                    Some(a) => self.locate_within(a, (hops - 1) as nat),
                    None => None,
                }
            },
        }
    }

    /// The node that `path` leads to, or else the node located at the path that the alias
    /// `path` gives, following aliases of aliases up to `MAX_ALIAS_HOPS` times.
    pub open(crate) spec fn locate(&self, path: Seq<u8>) -> Option<(int, CellSizes)> {
        self.locate_within(path, MAX_ALIAS_HOPS as nat)
    }

    /// Looks `path` up in the tree alone, from the root (the first record of the structure
    /// block that is not a NOP): segments are separated by `/`; one with a unit address matches a child's
    /// full name, one without matches a child's name with its unit address left out.
    pub fn find_path(&self, path: &str) -> (r: Option<FdtNode<'a>>)
        ensures
            r is Some <==> self.direct(path.spec_bytes()) is Some,
            r matches Some(n) ==> n.wf() && n.blob() == *self && self.direct(path.spec_bytes())
                == Some((n.position(), n.in_force())),
    {
        let root = skip_nops(self.structs, 0);
        match lookup_at(self.structs, self.strings, root, CellSizes { address_cells: 2, size_cells: 1 }, path.as_bytes()) {
            Some((pos, inh)) => FdtNode::at(*self, pos, inh),
            None => None,
        }
    }

    /// Every node of the tree, in document order (depth first, parents before children).
    pub open(crate) spec fn every_node(&self) -> Seq<(int, CellSizes)> {
        scan_all(self.st(), self.strs(), 0, Seq::empty())
    }

    /// Every node of the tree, in document order (depth first, parents before children),
    /// up to the first record that cannot be decoded.
    pub fn all_nodes(&self) -> (r: Vec<FdtNode<'a>>)
        ensures
            r@.len() == self.every_node().len(),
            forall|i: int| 0 <= i < r@.len() ==> (#[trigger] r@[i]).wf() && r@[i].blob() == *self,
            forall|i: int|
                0 <= i < r@.len() ==> ((#[trigger] r@[i]).position(), r@[i].in_force()) == self.every_node()[i],
    {
        let found = scan_nodes(self.structs, self.strings);
        let mut out: Vec<FdtNode<'a>> = Vec::new();
        let mut i: usize = 0;
        while i < found.len()
            invariant
                scanned(found@) == self.every_node(),
                i <= found@.len(),
                out@.len() == i,
                forall|k: int| 0 <= k < i ==> (#[trigger] out@[k]).wf() && out@[k].blob() == *self,
                forall|k: int|
                    0 <= k < i ==> ((#[trigger] out@[k]).position(), out@[k].in_force()) == self.every_node()[k],
            decreases found@.len() - i,
        {
            let (pos, inh) = found[i];
            proof {
                assert(scanned(found@)[i as int] == (pos as int, inh));
            }
            match FdtNode::at(*self, pos, inh) {
                Some(n) => {
                    out.push(n);
                },
                None => {
                    proof {
                        crate::node::lemma_scanned_nodes_ok(self.st(), self.strs(), 0, Seq::empty(), i as int);
                    }
                    return out;
                },
            }
            i = i + 1;
        }
        assert(scanned(found@).len() == found@.len());
        out
    }

    /// In a blob whose first record other than NOPs is the root, a path made only of `/`
    /// always finds the root, with the default cell sizes in force and an empty name.
    pub proof fn lemma_root_found(&self, path: Seq<u8>)
        requires
            root_well_formed(self.st()),
            path.len() > 0,
            forall|i: int| 0 <= i < path.len() ==> path[i] == 47u8,
        ensures
            self.locate(path) == Some((root_pos(self.st()), default_cells())),
            node_name(self.st(), root_pos(self.st())) == Seq::<u8>::empty(),
    {
        let st = self.st();
        let r = root_pos(st);
        lemma_skip_nop(st, self.strs(), 0);
        assert(nul_from(st, r + 4) == Some(r + 4));
        assert(align4(r + 5) == r + 8);
        assert(name_end(st, r) == Some(r + 8));
        assert(st.subrange(r + 4, r + 4) =~= Seq::<u8>::empty());
        assert(valid_utf8(Seq::<u8>::empty()));
        lemma_slashes_lead_home(st, self.strs(), r, path, 0);
    }

    /// In a blob whose first record other than NOPs is a node record, and whose node
    /// records met record after record from the start all have UTF-8 names, the full scan lists every node that path lookup finds, with the cell
    /// sizes that lookup gives it, exactly once; and it lists nodes in document order.
    pub proof fn lemma_found_nodes_listed(&self, path: Seq<u8>)
        requires
            names_valid_from(self.st(), 0),
            root_pos(self.st()) + 4 <= self.st().len(),
            be_u32_at(self.st(), root_pos(self.st())) == FDT_BEGIN_NODE as int,
        ensures
            self.direct(path) matches Some(t) ==> exists|i: int|
                0 <= i < self.every_node().len() && #[trigger] self.every_node()[i] == t && forall|j: int|
                    0 <= j < self.every_node().len() && j != i ==> #[trigger] self.every_node()[j].0 != t.0,
            forall|i: int, j: int|
                0 <= i < j < self.every_node().len() ==> #[trigger] self.every_node()[i].0 < #[trigger] self.every_node()[j].0,
    {
        let st = self.st();
        let strs = self.strs();
        lemma_scan_in_order(st, strs, 0, Seq::empty());
        lemma_skip_nop(st, strs, 0);
        if self.direct(path) is Some {
            let t = self.direct(path).unwrap();
            assert(top_cells(Seq::<CellSizes>::empty()) == default_cells());
            let r = lemma_scan_follows_path(st, strs, root_pos(st), Seq::empty(), path, 0);
            let rest = scan_all(st, strs, t.0, r.1);
            assert(node_ok(st, t.0));
            assert(rest[0] == (t.0, t.1));
            let i = r.0.len() as int;
            assert(self.every_node()[i] == t);
            assert forall|j: int| 0 <= j < self.every_node().len() && j != i implies #[trigger] self.every_node()[j].0 != t.0 by {
                if j < i {
                    assert(self.every_node()[j].0 < self.every_node()[i].0);
                } else {
                    assert(self.every_node()[i].0 < self.every_node()[j].0);
                }
            }
        }
    }

    /// Looks `path` up in the tree, and where no node is found there and `hops` is not
    /// spent, looks it up as an alias of `/aliases` and locates the path the alias gives.
    fn find_node_within(&self, path: &str, hops: usize) -> (r: Option<FdtNode<'a>>)
        ensures
            r is Some <==> self.locate_within(path.spec_bytes(), hops as nat) is Some,
            r matches Some(n) ==> n.wf() && n.blob() == *self && self.locate_within(path.spec_bytes(), hops as nat)
                == Some((n.position(), n.in_force())),
        decreases hops,
    {
        match self.find_path(path) {
            Some(n) => Some(n),
            None => {
                if hops == 0 {
                    return None;
                }
                match self.aliases() {
                    Some(al) => match al.resolve(path) {
                        Some(target) => self.find_node_within(target, hops - 1),
                        None => None,
                    },
                    None => None,
                }
            },
        }
    }

    /// Looks `path` up in the tree, and where no node is found there, looks it up as an
    /// alias of `/aliases` and locates the path that the alias gives the same way,
    /// following up to `MAX_ALIAS_HOPS` aliases (a longer chain or a cycle finds nothing).
    pub fn find_node(&self, path: &str) -> (r: Option<FdtNode<'a>>)
        ensures
            r is Some <==> self.locate(path.spec_bytes()) is Some,
            r matches Some(n) ==> n.wf() && n.blob() == *self && self.locate(path.spec_bytes())
                == Some((n.position(), n.in_force())),
    {
        self.find_node_within(path, MAX_ALIAS_HOPS)
    }

    /// The `/aliases` node.
    pub fn aliases(&self) -> (r: Option<Aliases<'a>>)
        ensures
            r is Some <==> self.direct("/aliases".spec_bytes()) is Some,
            r matches Some(al) ==> al.wf() && al.header == *self && self.direct("/aliases".spec_bytes())
                == Some((al.node.position(), al.node.in_force())),
    {
        match self.find_path("/aliases") {
            Some(node) => Some(Aliases { header: *self, node }),
            None => None,
        }
    }

    /// The root node.
    pub fn root(&self) -> (r: Option<Root<'a>>)
        ensures
            r is Some <==> self.direct("/".spec_bytes()) is Some,
            r matches Some(root) ==> root.wf() && root.view_node().blob() == *self
                && self.direct("/".spec_bytes()) == Some((root.view_node().position(), root.view_node().in_force())),
    {
        match self.find_path("/") {
            Some(node) => Some(Root { node }),
            None => None,
        }
    }

    /// The machine's name: the root's `model` property as text, trailing zero bytes removed.
    pub fn machine(&self) -> (r: Option<&'a str>)
        ensures
            r matches Some(t) ==> (self.direct("/".spec_bytes()) matches Some(x) && node_value(
                self.st(),
                self.strs(),
                x.0,
                "model".spec_bytes(),
            ) matches Some(v) && trim_nul(v) == t.spec_bytes()),
            r is None ==> !(self.direct("/".spec_bytes()) matches Some(x) && node_value(
                self.st(),
                self.strs(),
                x.0,
                "model".spec_bytes(),
            ) matches Some(v) && valid_utf8(trim_nul(v))),
    {
        match self.root() {
            Some(root) => root.model(),
            None => None,
        }
    }

    /// The `/chosen` node.
    pub fn chosen(&self) -> (r: Option<Chosen<'a>>)
        ensures
            r is Some <==> self.direct("/chosen".spec_bytes()) is Some,
            r matches Some(c) ==> c.wf() && c.node.blob() == *self && self.direct("/chosen".spec_bytes())
                == Some((c.node.position(), c.node.in_force())),
    {
        match self.find_path("/chosen") {
            Some(node) => Some(Chosen { node }),
            None => None,
        }
    }

    /// The `/reserved-memory` node, when it states both cell counts and `ranges`, and its
    /// cell counts are those in force for it.
    pub fn linux_reserved_memory(&self) -> (r: Option<ReservedMemory<'a>>)
        ensures
            r is Some <==> (self.direct("/reserved-memory".spec_bytes()) matches Some(x)
                && crate::reserved_memory::root_ok(self.st(), self.strs(), x.0, x.1)),
            r matches Some(m) ==> m.wf() && m.node.blob() == *self && self.direct(
                "/reserved-memory".spec_bytes(),
            ) == Some((m.node.position(), m.node.in_force())),
    {
        match self.find_path("/reserved-memory") {
            Some(node) => {
                let m = ReservedMemory { node };
                match m.check_root() {
                    Ok(()) => Some(m),
                    Err(()) => None,
                }
            },
            None => None,
        }
    }

    /// Whether the node at `p` is a memory node in use: its `device_type` reads `memory`
    /// once trailing zero bytes are removed.
    pub open(crate) spec fn is_memory(&self, p: int) -> bool {
        &&& node_value(self.st(), self.strs(), p, "device_type".spec_bytes()) matches Some(v)
        &&& valid_utf8(trim_nul(v))
        &&& trim_nul(v) == "memory".spec_bytes()
        &&& pos_available(self.st(), self.strs(), p)
    }

    /// The memory nodes in use, in document order.
    pub fn mem_nodes(&self) -> (r: Vec<Memory<'a>>)
        ensures
            r@.map_values(|m: Memory<'a>| m.node.position()) == self.every_node().map_values(
                |x: (int, CellSizes)| x.0,
            ).filter(|p: int| self.is_memory(p)),
            forall|i: int| 0 <= i < r@.len() ==> (#[trigger] r@[i]).wf() && r@[i].node.blob() == *self,
    {
        let nodes = self.all_nodes();
        let ghost ps = self.every_node().map_values(|x: (int, CellSizes)| x.0);
        let ghost pred = |p: int| self.is_memory(p);
        let mut out: Vec<Memory<'a>> = Vec::new();
        let mut i: usize = 0;
        while i < nodes.len()
            invariant
                i <= nodes@.len(),
                nodes@.len() == ps.len(),
                ps == self.every_node().map_values(|x: (int, CellSizes)| x.0),
                pred == (|p: int| self.is_memory(p)),
                forall|k: int| 0 <= k < nodes@.len() ==> (#[trigger] nodes@[k]).wf() && nodes@[k].blob() == *self,
                forall|k: int| 0 <= k < nodes@.len() ==> (#[trigger] nodes@[k]).position() == ps[k],
                out@.map_values(|m: Memory<'a>| m.node.position()) == ps.take(i as int).filter(pred),
                forall|k: int| 0 <= k < out@.len() ==> (#[trigger] out@[k]).wf() && out@[k].node.blob() == *self,
            decreases nodes@.len() - i,
        {
            let n = nodes[i];
            let keep = match n.property("device_type") {
                Some(p) => match p.as_str() {
                    Some(t) => crate::tree::bytes_eq(t.as_bytes(), "memory".as_bytes()) && n.is_available(),
                    None => false,
                },
                None => false,
            };
            let ghost before = out@;
            if keep {
                out.push(Memory { node: n });
            }
            proof {
                crate::node::lemma_filter_step(ps, i as int, pred);
                assert(pred(ps[i as int]) == keep);
                if keep {
                    assert(out@.map_values(|m: Memory<'a>| m.node.position()) =~= before.map_values(
                        |m: Memory<'a>| m.node.position(),
                    ).push(ps[i as int]));
                }
            }
            i = i + 1;
        }
        proof {
            assert(ps.take(nodes@.len() as int) =~= ps);
        }
        out
    }

    /// Whether the node at `p` has a `phandle` property whose first four bytes hold `ph`.
    pub open(crate) spec fn has_phandle(&self, p: int, ph: u32) -> bool {
        &&& node_value(self.st(), self.strs(), p, "phandle".spec_bytes()) matches Some(v)
        &&& v.len() >= 4
        &&& be_u32_at(v, 0) == ph as int
    }

    /// The first node, in document order, whose `phandle` is `phandle`.
    pub fn find_phandle(&self, phandle: u32) -> (r: Option<FdtNode<'a>>)
        ensures
            r matches Some(n) ==> n.wf() && n.blob() == *self && exists|i: int|
                0 <= i < self.every_node().len() && #[trigger] self.every_node()[i].0 == n.position()
                    && self.has_phandle(n.position(), phandle) && forall|k: int|
                    0 <= k < i ==> !self.has_phandle(#[trigger] self.every_node()[k].0, phandle),
            r is None ==> forall|k: int|
                0 <= k < self.every_node().len() ==> !self.has_phandle(#[trigger] self.every_node()[k].0, phandle),
    {
        let nodes = self.all_nodes();
        let mut i: usize = 0;
        while i < nodes.len()
            invariant
                i <= nodes@.len(),
                nodes@.len() == self.every_node().len(),
                forall|k: int| 0 <= k < nodes@.len() ==> (#[trigger] nodes@[k]).wf() && nodes@[k].blob() == *self,
                forall|k: int|
                    0 <= k < nodes@.len() ==> ((#[trigger] nodes@[k]).position(), nodes@[k].in_force()) == self.every_node()[k],
                forall|k: int| 0 <= k < i ==> !self.has_phandle(#[trigger] self.every_node()[k].0, phandle),
            decreases nodes@.len() - i,
        {
            let n = nodes[i];
            proof {
                assert((n.position(), n.in_force()) == self.every_node()[i as int]);
            }
            match n.property("phandle") {
                Some(p) => {
                    if p.value.len() >= 4 && read_be_u32(p.value, 0) == phandle {
                        proof {
                            assert(self.has_phandle(n.position(), phandle));
                            assert(self.every_node()[i as int].0 == n.position());
                        }
                        return Some(n);
                    }
                },
                None => {},
            }
            i = i + 1;
        }
        None
    }

    /// The memory-reservation list, in the order in which it is stored.
    pub fn sys_memory_reservations(&self) -> (r: Vec<MemoryReservation>)
        ensures
            r@.len() == reservations(self.rsv_bytes()).len(),
            forall|i: int|
                0 <= i < r@.len() ==> (r@[i].address as int, r@[i].size as int)
                    == #[trigger] reservations(self.rsv_bytes())[i],
    {
        let off = self.header.off_mem_rsvmap as usize;
        let d: &[u8] = if off <= self.data.len() {
            &self.data[off..self.data.len()]
        } else {
            &self.data[0..0]
        };
        proof {
            if off > self.data@.len() {
                assert(d@ =~= Seq::<u8>::empty());
            }
        }
        let mut out: Vec<MemoryReservation> = Vec::new();
        let mut pos: usize = 0;
        let ghost all = reservations(d@);
        proof {
            assert(d@ == self.rsv_bytes());
            assert(d@.subrange(0, d@.len() as int) =~= d@);
            assert(out@.map_values(|m: MemoryReservation| (m.address as int, m.size as int)) =~= Seq::<(int, int)>::empty());
            assert(all =~= out@.map_values(|m: MemoryReservation| (m.address as int, m.size as int)) + reservations(d@));
        }
        while d.len() - pos >= 16
            invariant
                pos <= d@.len(),
                d@ == self.rsv_bytes(),
                all == reservations(d@),
                all == out@.map_values(|m: MemoryReservation| (m.address as int, m.size as int))
                    + reservations(d@.subrange(pos as int, d@.len() as int)),
            decreases d@.len() - pos,
        {
            let ghost rest = d@.subrange(pos as int, d@.len() as int);
            let a = read_be_u64(d, pos);
            let s = read_be_u64(d, pos + 8);
            proof {
                assert(be_u64_at(rest, 0) == be_u64_at(d@, pos as int));
                assert(be_u64_at(rest, 8) == be_u64_at(d@, pos + 8));
            }
            if a == 0 && s == 0 {
                proof {
                    assert(reservations(rest) =~= Seq::empty());
                    assert(all =~= out@.map_values(|m: MemoryReservation| (m.address as int, m.size as int)));
                }
                return out;
            }
            let ghost before = out@;
            out.push(MemoryReservation { address: a, size: s });
            proof {
                assert(rest.subrange(16, rest.len() as int) =~= d@.subrange(pos + 16, d@.len() as int));
                assert(out@.map_values(|m: MemoryReservation| (m.address as int, m.size as int)) =~= before.map_values(
                    |m: MemoryReservation| (m.address as int, m.size as int),
                ) + seq![(a as int, s as int)]);
            }
            pos = pos + 16;
        }
        proof {
            let rest = d@.subrange(pos as int, d@.len() as int);
            assert(reservations(rest) =~= Seq::empty());
            assert(all =~= out@.map_values(|m: MemoryReservation| (m.address as int, m.size as int)));
        }
        out
    }
}

} // verus!
