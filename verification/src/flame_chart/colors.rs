//! Colouring of flame-chart bars.
use vstd::prelude::*;
use vstd::utf8::encode_utf8;
use crate::flame_chart::layout::FlameLayoutNode;
use crate::flame_chart::snapshot::SymbolSnapshot;
use crate::types::SymbolInfo;

verus! {

/// How bars are coloured.
#[derive(Debug, Clone, Copy, PartialEq, Eq, Structural)]
pub enum ColorMode {
    /// Cycles through three colours by depth.
    Depth,
    /// A colour of the 256-colour cube picked by the module name.
    Module,
    /// A heat map of the bar's bytes.
    Bytes,
    /// Everything dark grey.
    Mono,
}

/// A terminal colour.
#[derive(Debug, Clone, Copy, PartialEq, Eq, Structural)]
pub enum ChartColor {
    Rgb(u8, u8, u8),
    /// An entry of the 256-colour palette.
    Indexed(u8),
    DarkGray,
    White,
}

/// The sum of `bytes` modulo 2^16.
pub open spec fn byte_hash(bytes: Seq<u8>) -> nat
    decreases bytes.len(),
{
    if bytes.len() == 0 {
        0
    } else {
        ((byte_hash(bytes.drop_last()) + bytes.last()) % 65536) as nat
    }
}

/// The palette entry for a module: its name's UTF-8 bytes summed modulo
/// 2^16, folded into the colour cube (entries 16 to 230).
pub open spec fn module_color(module: Seq<char>) -> u8 {
    (byte_hash(encode_utf8(module)) % 215 + 16) as u8
}

/// The colour of `node` in `mode`, with `frames` the symbol of each frame id.
pub open spec fn color_of(node: FlameLayoutNode, mode: ColorMode, frames: Seq<SymbolInfo>) -> ChartColor {
    match mode {
        ColorMode::Depth => if node.depth % 3 == 0 {
            ChartColor::Rgb(255, 100, 100)
        } else if node.depth % 3 == 1 {
            ChartColor::Rgb(100, 255, 100)
        } else {
            ChartColor::Rgb(100, 100, 255)
        },
        ColorMode::Module => if node.frame < frames.len() {
            ChartColor::Indexed(module_color(frames[node.frame as int].module@))
        } else {
            ChartColor::DarkGray
        },
        ColorMode::Bytes => ChartColor::Rgb(255, (255 - node.bytes % 255) as u8, 0),
        ColorMode::Mono => ChartColor::DarkGray,
    }
}

/// The sum of `bytes` modulo 2^16, added with wrap-around.
fn hash_bytes(bytes: &[u8]) -> (h: u16)
    ensures
        h == byte_hash(bytes@),
{
    let mut acc: u16 = 0;
    let mut i: usize = 0;
    while i < bytes.len()
        invariant
            i <= bytes@.len(),
            acc == byte_hash(bytes@.take(i as int)),
        decreases bytes@.len() - i,
    {
        let b = bytes[i];
        proof {
            assert(bytes@.take(i + 1).drop_last() =~= bytes@.take(i as int));
        }
        acc = acc.wrapping_add(b as u16);
        i = i + 1;
    }
    assert(bytes@.take(bytes@.len() as int) =~= bytes@);
    acc
}

/// The colour of `node` in `mode`.
pub fn get_color(node: &FlameLayoutNode, mode: ColorMode, symbols: &SymbolSnapshot) -> (c: ChartColor)
    ensures
        c == color_of(*node, mode, symbols.frames@),
{
    match mode {
        ColorMode::Depth => {
            let d = node.depth % 3;
            if d == 0 {
                ChartColor::Rgb(255, 100, 100)
            } else if d == 1 {
                ChartColor::Rgb(100, 255, 100)
            } else {
                ChartColor::Rgb(100, 100, 255)
            }
        },
        ColorMode::Module => {
            match symbols.get(node.frame) {
                Some(info) => {
                    let hash = hash_bytes(info.module.as_str().as_bytes());
                    ChartColor::Indexed((hash % 215 + 16) as u8)
                },
                None => ChartColor::DarkGray,
            }
        },
        ColorMode::Bytes => ChartColor::Rgb(255, (255 - node.bytes % 255) as u8, 0),
        ColorMode::Mono => ChartColor::DarkGray,
    }
}

} // verus!
