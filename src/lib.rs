//! Decoding of flattened devicetree blobs: a tree of named nodes with byte-string
//! properties, read in place from one borrowed buffer.

pub mod parsing;
pub mod tree;
pub mod text;
pub mod fdt;
pub mod node;
pub mod standard_nodes;
pub mod chosen;
pub mod dice;
pub mod interrupt;
pub mod memory;
pub mod reserved_memory;

pub use fdt::{FdtError, LinuxFdt, MemoryReservation};
pub use node::{FdtNode, NodeProperty};
pub use standard_nodes::{Aliases, Compatible, Cpu, CpuIds, MemoryRegion, RegIter, Root};
pub use chosen::{Chosen, Stdout};
pub use dice::Dice;
pub use interrupt::InterruptController;
pub use memory::{MappedArea, Memory};
pub use reserved_memory::{DynamicReservedMemoryNode, ReservedMemory, ValidReservedMemoryNode};
pub use tree::CellSizes;
