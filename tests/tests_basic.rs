use fdtree_rs::tree::{find_child_at, name_end_at, skip_node};
use fdtree_rs::{CellSizes, Cpu, Dice, FdtError, InterruptController, LinuxFdt, MappedArea, Memory};

struct Builder {
    st: Vec<u8>,
    strs: Vec<u8>,
}

impl Builder {
    fn new() -> Self {
        Builder { st: Vec::new(), strs: Vec::new() }
    }

    fn word(&mut self, v: u32) {
        self.st.extend_from_slice(&v.to_be_bytes());
    }

    fn pad(&mut self) {
        while self.st.len() % 4 != 0 {
            self.st.push(0);
        }
    }

    fn begin(&mut self, name: &str) {
        self.word(1);
        self.st.extend_from_slice(name.as_bytes());
        self.st.push(0);
        self.pad();
    }

    fn end(&mut self) {
        self.word(2);
    }

    fn nop(&mut self) {
        self.word(4);
    }

    fn name_offset(&mut self, name: &str) -> u32 {
        let mut off = 0;
        while off < self.strs.len() {
            let end = off + self.strs[off..].iter().position(|b| *b == 0).unwrap();
            if &self.strs[off..end] == name.as_bytes() {
                return off as u32;
            }
            off = end + 1;
        }
        let off = self.strs.len();
        self.strs.extend_from_slice(name.as_bytes());
        self.strs.push(0);
        off as u32
    }

    fn prop(&mut self, name: &str, value: &[u8]) {
        let off = self.name_offset(name);
        self.word(3);
        self.word(value.len() as u32);
        self.word(off);
        self.st.extend_from_slice(value);
        self.pad();
    }

    fn prop_str(&mut self, name: &str, value: &str) {
        let mut v = value.as_bytes().to_vec();
        v.push(0);
        self.prop(name, &v);
    }

    fn prop_u32(&mut self, name: &str, value: u32) {
        self.prop(name, &value.to_be_bytes());
    }

    fn prop_cells(&mut self, name: &str, cells: &[u32]) {
        let mut v = Vec::new();
        for c in cells {
            v.extend_from_slice(&c.to_be_bytes());
        }
        self.prop(name, &v);
    }

    fn finish(mut self, reservations: &[(u64, u64)]) -> Vec<u8> {
        self.word(9);
        let mut rsv = Vec::new();
        for (a, s) in reservations {
            rsv.extend_from_slice(&a.to_be_bytes());
            rsv.extend_from_slice(&s.to_be_bytes());
        }
        rsv.extend_from_slice(&[0u8; 16]);
        let off_rsv = 40u32;
        let off_struct = off_rsv + rsv.len() as u32;
        let off_strings = off_struct + self.st.len() as u32;
        let total = off_strings + self.strs.len() as u32;
        let fields = [
            0xd00dfeedu32,
            total,
            off_struct,
            off_strings,
            off_rsv,
            17,
            16,
            0,
            self.strs.len() as u32,
            self.st.len() as u32,
        ];
        let mut out = Vec::new();
        for f in fields {
            out.extend_from_slice(&f.to_be_bytes());
        }
        out.extend_from_slice(&rsv);
        out.extend_from_slice(&self.st);
        out.extend_from_slice(&self.strs);
        out
    }
}

fn hi_lo(v: u64) -> [u32; 2] {
    [(v >> 32) as u32, v as u32]
}

fn pairs(list: &[(u64, u64)]) -> Vec<u32> {
    let mut out = Vec::new();
    for (a, s) in list {
        out.extend_from_slice(&hi_lo(*a));
        out.extend_from_slice(&hi_lo(*s));
    }
    out
}

fn machine_blob() -> Vec<u8> {
    let mut b = Builder::new();
    b.begin("");
    b.prop_u32("#address-cells", 2);
    b.prop_u32("#size-cells", 2);
    b.prop_str("compatible", "riscv-virtio");
    b.prop_str("model", "riscv-virtio,qemu");

    b.begin("chosen");
    b.prop_str("bootargs", "console=ttyS0");
    b.prop_str("stdout-path", "uart@10000000:115200n8");
    b.prop_cells(
        "linux,usable-memory-range",
        &pairs(&[(0x9_f000_0000, 0x1000_0000), (0xa_0000_0000, 0x2000_0000)]),
    );
    b.end();

    b.begin("aliases");
    b.prop_str("serial0", "/uart@10000000");
    b.end();

    b.begin("uart@10000000");
    b.prop_str("compatible", "ns16550a");
    b.prop_cells("reg", &pairs(&[(0x1000_0000, 0x100)]));
    b.prop_u32("phandle", 7);
    b.end();

    b.begin("memory@80000000");
    b.prop_str("device_type", "memory");
    b.prop_cells("reg", &pairs(&[(0x8000_0000, 0x1000_0000)]));
    b.end();

    b.begin("memory@90000000");
    b.prop_str("device_type", "memory");
    b.prop_cells("reg", &pairs(&[(0x9000_0000, 0x1000_0000)]));
    b.end();

    b.begin("memory@a0000000");
    b.prop_str("device_type", "memory");
    b.prop_str("status", "disabled");
    b.prop_cells("reg", &pairs(&[(0xa000_0000, 0x1000_0000)]));
    b.end();

    b.begin("reserved-memory");
    b.prop_u32("#address-cells", 2);
    b.prop_u32("#size-cells", 2);
    b.prop("ranges", &[]);

    b.begin("static_buf@0000000080000000");
    b.prop_cells("reg", &pairs(&[(0x8000_0000, 0x200_0000)]));
    b.end();

    b.begin("secure_carveout@0000000090000000");
    b.nop();
    b.prop_cells("reg", &pairs(&[(0x9000_0000, 0x100_0000), (0x9100_0000, 0x100_0000)]));
    b.prop("no-map", &[]);
    b.end();

    b.begin("dyn_pool");
    b.prop_cells("size", &hi_lo(0x400_0000));
    b.prop_cells("alignment", &hi_lo(0x20_0000));
    b.end();

    b.begin("linux,cma");
    b.prop_str("compatible", "shared-dma-pool");
    b.prop("reusable", &[]);
    b.prop_cells("size", &hi_lo(0x1000_0000));
    b.prop_cells("alignment", &hi_lo(0x200_0000));
    b.end();

    b.begin("disabled_buf@a0000000");
    b.prop_str("status", "disabled");
    b.prop_cells("reg", &pairs(&[(0xa000_0000, 0x1000)]));
    b.end();

    b.end();
    b.end();
    b.finish(&[(0x8000_0000, 0x100_0000), (0x9000_0000, 0x10_0000)])
}

fn setup() -> LinuxFdt<'static> {
    let data: &'static [u8] = Box::leak(machine_blob().into_boxed_slice());
    LinuxFdt::new(data).unwrap()
}

#[test]
fn get_model() {
    let fdt = setup();
    assert_eq!(fdt.machine().unwrap(), "riscv-virtio,qemu");
}

#[test]
fn chosen_node() {
    let fdt = setup();
    let chosen = fdt.chosen().unwrap();
    assert_eq!(chosen.bootargs().unwrap(), "console=ttyS0");
    assert_eq!(chosen.stdout().unwrap().node.name, "uart@10000000");
    assert_eq!(chosen.stdout().unwrap().options.unwrap(), "115200n8");

    let mut usable_memory_range = chosen.usable_mem_region().unwrap();

    let mut cnt: usize = 0;
    while let Some(region) = usable_memory_range.next() {
        cnt += 1;
        if cnt == 1 {
            assert_eq!(region.starting_address as usize, 0x9_f000_0000);
            assert_eq!(region.size, 0x10000000);
        } else {
            assert_eq!(region.starting_address as usize, 0xa_0000_0000);
            assert_eq!(region.size, 0x20000000);
        }
    }
    assert_eq!(cnt, 2);
}

#[test]
fn memory_node() {
    let fdt = setup();
    assert_eq!(fdt.mem_nodes().len(), 2);
    for (idn, node) in fdt.mem_nodes().into_iter().enumerate() {
        assert_eq!(1, node.regions().unwrap().count());
        let mut regions = node.regions().unwrap();
        let mut idx = 0;
        while let Some(region) = regions.next() {
            if idn == 0 && idx == 0 {
                assert_eq!(region.starting_address as usize, 0x80000000);
                assert_eq!(region.size, 0x10000000);
            }
            if idn == 1 && idx == 0 {
                assert_eq!(region.starting_address as usize, 0x90000000);
                assert_eq!(region.size, 0x10000000);
            }
            idx += 1;
        }
    }
}

#[test]
fn linux_reserved_memory() {
    let fdt = setup();
    let reserved = fdt.linux_reserved_memory().unwrap();
    assert_eq!(reserved.valid_reserved_nodes().len(), 2);

    let mut valid_node_iter = reserved.valid_reserved_nodes().into_iter();
    let vnode1 = valid_node_iter.next().unwrap();
    assert_eq!(vnode1.node.name, "static_buf@0000000080000000");
    assert_eq!(vnode1.nomap(), false);

    let mut vreg1_iter = vnode1.regions();
    assert_eq!(vreg1_iter.clone().count(), 1);
    let vreg1_0 = vreg1_iter.next().unwrap();
    assert_eq!(vreg1_0.starting_address as usize, 0x80000000);
    assert_eq!(vreg1_0.size, 0x2000000);

    let vnode2 = valid_node_iter.next().unwrap();
    assert_eq!(vnode2.node.name, "secure_carveout@0000000090000000");
    assert_eq!(vnode2.nomap(), true);

    let mut vreg2_iter = vnode2.regions();
    assert_eq!(vreg2_iter.clone().count(), 2);
    let vreg2_0 = vreg2_iter.next().unwrap();
    assert_eq!(vreg2_0.starting_address as usize, 0x90000000);
    assert_eq!(vreg2_0.size, 0x1000000);
    let vreg2_1 = vreg2_iter.next().unwrap();
    assert_eq!(vreg2_1.starting_address as usize, 0x91000000);
    assert_eq!(vreg2_1.size, 0x1000000);
}

#[test]
fn linux_reserved_memory_dynamic() {
    let fdt = setup();
    let reserved = fdt.linux_reserved_memory().unwrap();
    assert_eq!(reserved.dynamic_nodes().len(), 2);

    let mut dyn_node_iter = reserved.dynamic_nodes().into_iter();
    let dyn_node1 = dyn_node_iter.next().unwrap();
    assert_eq!(dyn_node1.node.name, "dyn_pool");
    assert_eq!(dyn_node1.size(), 0x4000000);
    assert_eq!(dyn_node1.alignment(), 0x200000);
    assert_eq!(dyn_node1.nomap(), false);
    assert_eq!(dyn_node1.reusable(), false);
    assert_eq!(dyn_node1.shared_dma_pool(), false);
    assert!(dyn_node1.alloc_ranges().is_none());

    let dyn_node2 = dyn_node_iter.next().unwrap();
    assert_eq!(dyn_node2.node.name, "linux,cma");
    assert_eq!(dyn_node2.size(), 0x10000000);
    assert_eq!(dyn_node2.alignment(), 0x2000000);
    assert_eq!(dyn_node2.nomap(), false);
    assert_eq!(dyn_node2.reusable(), true);
    assert_eq!(dyn_node2.shared_dma_pool(), true);
    assert!(dyn_node2.alloc_ranges().is_none());
}

#[test]
fn sys_memory_reservations() {
    let fdt = setup();
    let mut reservations = fdt.sys_memory_reservations().into_iter();
    let res_1 = reservations.next().unwrap();
    assert_eq!(res_1.address() as usize, 0x80000000);
    assert_eq!(res_1.size(), 0x1000000);

    let res_2 = reservations.next().unwrap();
    assert_eq!(res_2.address() as usize, 0x90000000);
    assert_eq!(res_2.size(), 0x100000);

    assert!(reservations.next().is_none());
}

#[test]
fn reservations_decode_the_same_twice_without_sentinel() {
    let fdt = setup();
    let first = fdt.sys_memory_reservations();
    let second = fdt.sys_memory_reservations();
    assert_eq!(first, second);
    assert_eq!(first.len(), 2);
    assert!(first.iter().all(|r| !(r.address() == 0 && r.size() == 0)));
}

#[test]
fn root_is_found_with_an_empty_name() {
    let fdt = setup();
    let root = fdt.find_node("/").unwrap();
    assert_eq!(root.name, "");
    assert_eq!(fdt.root().unwrap().cell_sizes(), CellSizes { address_cells: 2, size_cells: 2 });
}

#[test]
fn all_nodes_lists_every_node_in_document_order() {
    let fdt = setup();
    let names: Vec<&str> = fdt.all_nodes().iter().map(|n| n.name).collect();
    assert_eq!(
        names,
        vec![
            "",
            "chosen",
            "aliases",
            "uart@10000000",
            "memory@80000000",
            "memory@90000000",
            "memory@a0000000",
            "reserved-memory",
            "static_buf@0000000080000000",
            "secure_carveout@0000000090000000",
            "dyn_pool",
            "linux,cma",
            "disabled_buf@a0000000",
        ]
    );
    for path in ["/chosen", "/reserved-memory/dyn_pool", "/memory@90000000", "/reserved-memory/linux,cma"] {
        let found = fdt.find_node(path).unwrap();
        assert_eq!(fdt.all_nodes().iter().filter(|n| n.name == found.name).count(), 1);
    }
}

#[test]
fn cell_sizes_default_without_any_statement() {
    let mut b = Builder::new();
    b.begin("");
    b.begin("soc");
    b.begin("dev@1000");
    b.prop_cells("reg", &[0, 0x1000, 0x20]);
    b.end();
    b.end();
    b.end();
    let data: &'static [u8] = Box::leak(b.finish(&[]).into_boxed_slice());
    let fdt = LinuxFdt::new(data).unwrap();
    let dev = fdt.find_node("/soc/dev@1000").unwrap();
    assert_eq!(dev.parent_cell_sizes(), CellSizes { address_cells: 2, size_cells: 1 });
    assert_eq!(fdt.find_node("/").unwrap().parent_cell_sizes(), CellSizes { address_cells: 2, size_cells: 1 });
    let mut regs = dev.reg().unwrap();
    let r = regs.next().unwrap();
    assert_eq!(r.starting_address, 0x1000);
    assert_eq!(r.size, 0x20);
    assert!(regs.next().is_none());
}

#[test]
fn cell_sizes_come_from_the_nearest_ancestor() {
    let mut b = Builder::new();
    b.begin("");
    b.prop_u32("#address-cells", 1);
    b.begin("soc");
    b.prop_u32("#size-cells", 2);
    b.begin("bus");
    b.begin("dev@10");
    b.prop_cells("reg", &[0x10, 0, 0x40, 0x20, 0, 0x80]);
    b.end();
    b.end();
    b.end();
    b.end();
    let data: &'static [u8] = Box::leak(b.finish(&[]).into_boxed_slice());
    let fdt = LinuxFdt::new(data).unwrap();
    let dev = fdt.find_node("/soc/bus/dev@10").unwrap();
    assert_eq!(dev.parent_cell_sizes(), CellSizes { address_cells: 1, size_cells: 2 });
    let regs = dev.reg().unwrap();
    assert_eq!(regs.count(), 24 / ((1 + 2) * 4));
    let mut regs = dev.reg().unwrap();
    let a = regs.next().unwrap();
    let c = regs.next().unwrap();
    assert_eq!((a.starting_address, a.size), (0x10, 0x40));
    assert_eq!((c.starting_address, c.size), (0x20, 0x80));
}

#[test]
fn register_count_follows_value_length() {
    let fdt = setup();
    let uart = fdt.find_node("/uart@10000000").unwrap();
    assert_eq!(uart.reg().unwrap().count(), 16 / 16);
    let chosen = fdt.chosen().unwrap();
    assert_eq!(chosen.usable_mem_region().unwrap().count(), 32 / 16);
}

#[test]
fn reserved_regions_are_the_literal_pairs() {
    let fdt = setup();
    let reserved = fdt.linux_reserved_memory().unwrap();
    let valid = reserved.valid_reserved_nodes();
    let mut got = Vec::new();
    for v in &valid {
        let mut it = v.regions();
        while let Some(r) = it.next() {
            got.push((r.starting_address, r.size));
        }
    }
    assert_eq!(got, vec![(0x8000_0000, 0x200_0000), (0x9000_0000, 0x100_0000), (0x9100_0000, 0x100_0000)]);
}

#[test]
fn path_segments_match_by_base_name_or_full_name() {
    let fdt = setup();
    assert_eq!(fdt.find_node("/uart").unwrap().name, "uart@10000000");
    assert_eq!(fdt.find_node("/uart@10000000").unwrap().name, "uart@10000000");
    assert!(fdt.find_node("/uart@10000001").is_none());
    assert!(fdt.find_node("/uar").is_none());
    assert_eq!(fdt.find_node("uart@10000000").unwrap().name, "uart@10000000");
    assert_eq!(fdt.find_node("/memory").unwrap().name, "memory@80000000");
    assert_eq!(fdt.find_node("//reserved-memory//dyn_pool").unwrap().name, "dyn_pool");
    assert!(fdt.find_node("/reserved-memory/nothing").is_none());
}

#[test]
fn aliases_resolve_to_nodes() {
    let fdt = setup();
    let aliases = fdt.aliases().unwrap();
    assert_eq!(aliases.resolve("serial0").unwrap(), "/uart@10000000");
    assert_eq!(aliases.resolve_node("serial0").unwrap().name, "uart@10000000");
    assert_eq!(fdt.find_node("serial0").unwrap().name, "uart@10000000");
    assert_eq!(aliases.all(), vec![("serial0", "/uart@10000000")]);
}

#[test]
fn phandle_lookup_finds_the_node() {
    let fdt = setup();
    assert_eq!(fdt.find_phandle(7).unwrap().name, "uart@10000000");
    assert!(fdt.find_phandle(8).is_none());
}

#[test]
fn compatible_strings() {
    let fdt = setup();
    let root = fdt.root().unwrap();
    assert_eq!(root.compatible().unwrap().first().unwrap(), "riscv-virtio");
    assert_eq!(root.model().unwrap(), "riscv-virtio,qemu");
    let cma = fdt.find_node("/reserved-memory/linux,cma").unwrap();
    assert_eq!(cma.compatible().unwrap().all(), vec!["shared-dma-pool"]);
}

#[test]
fn status_decides_availability() {
    let fdt = setup();
    assert!(fdt.find_node("/memory@80000000").unwrap().is_available());
    assert!(!fdt.find_node("/memory@a0000000").unwrap().is_available());
}

#[test]
fn properties_in_stored_order() {
    let fdt = setup();
    let uart = fdt.find_node("/uart@10000000").unwrap();
    let names: Vec<&str> = uart.properties().iter().map(|p| p.name).collect();
    assert_eq!(names, vec!["compatible", "reg", "phandle"]);
    assert_eq!(uart.property("phandle").unwrap().as_usize(), Some(7));
    assert!(uart.property("missing").is_none());
    let children: Vec<&str> = fdt.find_node("/reserved-memory").unwrap().children().iter().map(|n| n.name).collect();
    assert_eq!(children.len(), 5);
    assert_eq!(children[0], "static_buf@0000000080000000");
}

#[test]
fn rejects_bad_blobs() {
    assert_eq!(LinuxFdt::new(&[0u8; 39]).err(), Some(FdtError::BufferTooSmall));
    let mut bad = machine_blob();
    bad[0] = 0;
    assert_eq!(LinuxFdt::new(&bad).err(), Some(FdtError::BadMagic));
    let good = machine_blob();
    let short = &good[..good.len() - 1];
    assert_eq!(LinuxFdt::new(short).err(), Some(FdtError::BufferTooSmall));
    assert_eq!(FdtError::BadMagic.describe(), "bad FDT magic value");
    let fdt = setup();
    assert_eq!(fdt.total_size(), good.len());
}

#[test]
fn skip_node_lands_after_matching_end() {
    let mut b = Builder::new();
    b.begin("");
    b.prop_u32("x", 1);
    b.begin("a");
    b.nop();
    b.begin("b");
    b.end();
    b.end();
    b.end();
    let st = b.st.clone();
    let body = name_end_at(&st, 0).unwrap();
    assert_eq!(body, 8);
    assert_eq!(skip_node(&st, body), Some(st.len()));
    let a = find_child_at(&st, body, b"a").unwrap();
    let a_body = name_end_at(&st, a).unwrap();
    assert_eq!(skip_node(&st, a_body), Some(st.len() - 4));
    assert_eq!(skip_node(&st[..st.len() - 4], body), None);
}

#[test]
fn non_text_values_and_names_are_absorbed() {
    let mut b = Builder::new();
    b.begin("");
    b.prop("model", &[0xff, 0xfe, 0]);
    b.begin("dev");
    b.prop("status", &[0xff, 0]);
    b.prop("label", &[b'o', b'k', 0, 0]);
    b.end();
    b.word(1);
    b.st.extend_from_slice(&[0xff, 0]);
    b.pad();
    b.end();
    b.begin("after");
    b.end();
    b.end();
    let data: &'static [u8] = Box::leak(b.finish(&[]).into_boxed_slice());
    let fdt = LinuxFdt::new(data).unwrap();
    assert!(fdt.machine().is_none());
    let dev = fdt.find_node("/dev").unwrap();
    assert!(!dev.is_available());
    assert!(dev.property("status").unwrap().as_str().is_none());
    assert_eq!(dev.property("label").unwrap().as_str(), Some("ok"));
    assert_eq!(fdt.find_node("/after").unwrap().name, "after");
    let names: Vec<&str> = fdt.all_nodes().iter().map(|n| n.name).collect();
    assert_eq!(names, vec!["", "dev"]);
}

#[test]
fn register_width_and_own_cells() {
    let fdt = setup();
    let uart = fdt.find_node("/uart@10000000").unwrap();
    assert_eq!(uart.property("reg").unwrap().value.len(), 16);
    assert_eq!(uart.cell_sizes(), CellSizes { address_cells: 2, size_cells: 1 });
    let regs = uart.property("reg").unwrap().as_reg(CellSizes { address_cells: 3, size_cells: 1 });
    assert!(regs.is_none());
}

fn cpu_blob() -> &'static [u8] {
    let mut b = Builder::new();
    b.begin("");
    b.prop_u32("#address-cells", 1);
    b.prop_u32("#size-cells", 1);
    b.begin("cpus");
    b.prop_u32("#address-cells", 1);
    b.prop_u32("#size-cells", 0);
    b.prop_u32("timebase-frequency", 10_000_000);
    b.begin("cpu@0");
    b.prop_cells("reg", &[0, 1]);
    b.prop_cells("clock-frequency", &hi_lo(3_000_000_000));
    b.begin("interrupt-controller");
    b.prop("interrupt-controller", &[]);
    b.prop_str("compatible", "riscv,cpu-intc");
    b.end();
    b.end();
    b.end();
    b.begin("memory@80000000");
    b.prop_str("device_type", "memory");
    b.prop_cells("reg", &[0x8000_0000, 0x1000_0000]);
    b.prop_cells("linux,usable-memory", &[0x8100_0000, 0x100_0000]);
    let mut ima = Vec::new();
    ima.extend_from_slice(&0x1_0000u64.to_be_bytes());
    ima.extend_from_slice(&0x2_0000u64.to_be_bytes());
    ima.extend_from_slice(&0x3000u32.to_be_bytes());
    b.prop("initial_mapped_area", &ima);
    b.end();
    b.begin("dice@90000000");
    b.prop_cells("reg", &[0x9000_0000, 0x1000]);
    b.end();
    b.end();
    Box::leak(b.finish(&[]).into_boxed_slice())
}

#[test]
fn cpu_ids_and_frequencies() {
    let fdt = LinuxFdt::new(cpu_blob()).unwrap();
    let cpu = Cpu { parent: fdt.find_node("/cpus").unwrap(), node: fdt.find_node("/cpus/cpu@0").unwrap() };
    let ids = cpu.ids().unwrap();
    assert_eq!(ids.first(), Some(0));
    assert_eq!(ids.all(), vec![0, 1]);
    assert_eq!(cpu.clock_frequency(), Some(3_000_000_000));
    assert_eq!(cpu.timebase_frequency(), Some(10_000_000));
    assert_eq!(cpu.property("reg").unwrap().value.len(), 8);
    assert_eq!(cpu.properties().len(), 2);
}

#[test]
fn interrupt_controller_and_dice_and_memory() {
    let fdt = LinuxFdt::new(cpu_blob()).unwrap();
    let intc = InterruptController { node: fdt.find_node("/cpus/cpu/interrupt-controller").unwrap() };
    assert_eq!(intc.compatible(), Some("riscv,cpu-intc"));

    let dice = Dice { node: fdt.find_node("/dice").unwrap() };
    let mut regs = dice.regions().unwrap();
    let r = regs.next().unwrap();
    assert_eq!((r.starting_address, r.size), (0x9000_0000, 0x1000));
    assert!(regs.next().is_none());

    let mem = fdt.mem_nodes();
    assert_eq!(mem.len(), 1);
    let m: &Memory = &mem[0];
    let mut regs = m.regions().unwrap();
    let r = regs.next().unwrap();
    assert_eq!((r.starting_address, r.size), (0x8100_0000, 0x100_0000));
    assert_eq!(
        m.initial_mapped_area(),
        Some(MappedArea { effective_address: 0x1_0000, physical_address: 0x2_0000, size: 0x3000 })
    );
}

#[test]
fn root_found_after_leading_nops() {
    let mut b = Builder::new();
    b.nop();
    b.nop();
    b.begin("");
    b.begin("chosen");
    b.prop_str("bootargs", "quiet");
    b.end();
    b.end();
    let data: &'static [u8] = Box::leak(b.finish(&[]).into_boxed_slice());
    let fdt = LinuxFdt::new(data).unwrap();
    assert_eq!(fdt.find_node("/").unwrap().name, "");
    assert!(fdt.root().is_some());
    assert_eq!(fdt.chosen().unwrap().bootargs(), Some("quiet"));
    let names: Vec<&str> = fdt.all_nodes().iter().map(|n| n.name).collect();
    assert_eq!(names, vec!["", "chosen"]);
}

#[test]
fn alias_chains_are_followed_and_cycles_find_nothing() {
    let mut b = Builder::new();
    b.begin("");
    b.begin("aliases");
    b.prop_str("console", "serial0");
    b.prop_str("serial0", "/soc/uart@1000");
    b.prop_str("loop-a", "loop-b");
    b.prop_str("loop-b", "loop-a");
    b.end();
    b.begin("soc");
    b.begin("uart@1000");
    b.end();
    b.end();
    b.end();
    let data: &'static [u8] = Box::leak(b.finish(&[]).into_boxed_slice());
    let fdt = LinuxFdt::new(data).unwrap();
    assert_eq!(fdt.find_node("console").unwrap().name, "uart@1000");
    assert_eq!(fdt.aliases().unwrap().resolve_node("console").unwrap().name, "uart@1000");
    assert!(fdt.find_node("loop-a").is_none());
    assert!(fdt.aliases().unwrap().resolve_node("loop-b").is_none());
}

#[test]
fn a_status_that_is_not_text_excludes_the_node() {
    let mut b = Builder::new();
    b.begin("");
    b.prop_u32("#address-cells", 1);
    b.prop_u32("#size-cells", 1);
    b.begin("memory@0");
    b.prop_str("device_type", "memory");
    b.prop("status", &[0xff, 0]);
    b.prop_cells("reg", &[0, 0x1000]);
    b.end();
    b.begin("memory@1000");
    b.prop_str("device_type", "memory");
    b.prop_str("status", "okay");
    b.prop_cells("reg", &[0x1000, 0x1000]);
    b.end();
    b.end();
    let data: &'static [u8] = Box::leak(b.finish(&[]).into_boxed_slice());
    let fdt = LinuxFdt::new(data).unwrap();
    let mem = fdt.mem_nodes();
    assert_eq!(mem.len(), 1);
    assert_eq!(mem[0].node.name, "memory@1000");
}
