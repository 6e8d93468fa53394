use vstd::prelude::*;
use std::collections::HashMap;

verus! {

/// Identifier of an interned stack frame. Zero is the trie root.
pub type FrameId = u32;

/// The commit state of a memory region.
#[derive(Clone, Copy, Debug, PartialEq, Eq, Structural)]
pub enum RegionState {
    Committed,
    Reserved,
    Free,
}

/// What backs a memory region.
#[derive(Clone, Copy, Debug, PartialEq, Eq, Structural)]
pub enum RegionKind {
    Image,
    Mapped,
    Private,
    Unknown,
}

/// The access rights of a memory region.
#[derive(Clone, Copy, Debug, PartialEq, Eq, Structural)]
pub enum RegionProtect {
    NoAccess,
    Readonly,
    ReadWrite,
    Execute,
    Guard,
    Other,
}

/// A single memory region in a process's address space.
#[derive(Clone, Debug)]
pub struct Region {
    pub base: usize,
    pub size: usize,
    pub state: RegionState,
    pub kind: RegionKind,
    pub protect: RegionProtect,
    pub name: String,
}

/// A region together with a display label.
#[derive(Clone, Debug)]
pub struct RegionEntry {
    pub base: usize,
    pub size: usize,
    pub state: RegionState,
    pub kind: RegionKind,
    pub protect: RegionProtect,
    pub name: String,
    pub label: String,
}

/// One block of a heap walk.
#[derive(Clone, Copy, Debug, PartialEq, Eq, Structural)]
pub struct HeapBlock {
    pub address: usize,
    pub size: usize,
    pub is_free: bool,
    pub vm_protect: RegionProtect,
}

/// Size figures of one heap.
#[derive(Clone, Copy, Debug, PartialEq, Eq, Structural)]
pub struct HeapStats {
    pub address: usize,
    pub size: usize,
    /// Resident set size: the part that is actually in RAM.
    pub rss: usize,
}

/// Integrity verdict on a loaded module.
#[derive(Clone, Copy, Debug, PartialEq, Eq, Structural)]
pub enum ModuleStatus {
    Intact,
    Tampered,
    Injected,
    Unreadable,
    Modified,
}

/// A module loaded into the inspected process.
#[derive(Clone, Debug)]
pub struct ModuleInfo {
    pub base: usize,
    pub size: usize,
    pub name: String,
    pub path: String,
    pub status: ModuleStatus,
}

/// The raw identity of a stack frame before interning.
#[derive(Clone, Copy, Debug, Hash, PartialEq, Eq, Structural)]
pub struct FrameKey {
    pub module_base: usize,
    pub instruction_pointer: usize,
}

/// An event reported by an allocation tracer.
#[derive(Clone, Debug)]
pub enum AllocationEvent {
    Alloc { address: usize, size: usize, thread_id: u32, sequence: u64, stack: Vec<FrameKey> },
    Free { address: usize, thread_id: u32, sequence: u64 },
}

/// How allocations are traced.
#[derive(Clone, Copy, Debug, PartialEq, Eq, Structural)]
pub enum TracingMode {
    EveryAllocation,
}

/// A node of the flame trie: the figures of every allocation whose call
/// path passes through this frame, keyed children by frame id.
#[derive(Debug)]
pub struct FlameNode {
    pub frame: FrameId,
    pub live_bytes: u64,
    pub total_bytes: u64,
    pub peak_live_bytes: u64,
    pub live_count: u64,
    pub total_count: u64,
    pub children: HashMap<FrameId, FlameNode>,
}

/// What is known of the code behind a frame.
#[derive(Clone, Debug)]
pub struct SymbolInfo {
    pub name: String,
    pub module: String,
    pub address: usize,
}

impl Default for SymbolInfo {
    fn default() -> (r: Self)
        ensures
            r.name@ == Seq::<char>::empty(),
            r.module@ == Seq::<char>::empty(),
            r.address == 0,
    {
        SymbolInfo { name: String::new(), module: String::new(), address: 0 }
    }
}

/// One traced allocation with the frames of its call stack.
#[derive(Clone, Debug)]
pub struct AllocationTrace {
    pub event: AllocationEvent,
    pub frames: Vec<FrameKey>,
}

} // verus!
