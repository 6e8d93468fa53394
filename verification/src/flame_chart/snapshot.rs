//! Immutable snapshots of the aggregated trie, as handed to the renderer.
use vstd::prelude::*;
use std::sync::Arc;
use crate::types::{FlameNode, FrameId, SymbolInfo};

verus! {

/// The symbol of every interned frame, indexed by frame id.
#[derive(Debug)]
pub struct SymbolSnapshot {
    pub frames: Vec<SymbolInfo>,
}

impl SymbolSnapshot {
    /// The symbol of `frame`, if the snapshot has one.
    pub fn get(&self, frame: FrameId) -> (r: Option<&SymbolInfo>)
        ensures
            frame < self.frames@.len() ==> r == Some(&self.frames@[frame as int]),
            frame >= self.frames@.len() ==> r is None,
    {
        let i = frame as usize;
        if i < self.frames.len() {
            Some(&self.frames[i])
        } else {
            None
        }
    }
}

/// A copy of the trie together with the symbols needed to label it.
#[derive(Debug)]
pub struct FlameSnapshot {
    pub root: FlameNode,
    pub symbols: Arc<SymbolSnapshot>,
    pub generated_sequence: u64,
}

} // verus!
