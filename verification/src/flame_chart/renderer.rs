//! What a flame chart draws: one bar per laid-out node that fits the area,
//! coloured, marked when selected, and labelled with its (elided) symbol.
use vstd::prelude::*;
use vstd::utf8::encode_utf8;
use crate::flame_chart::colors::{ChartColor, ColorMode, color_of, get_color};
use crate::flame_chart::layout::{FlameLayout, FlameLayoutNode, NodeId};
use crate::flame_chart::navigation::FlameNavigator;
use crate::flame_chart::snapshot::SymbolSnapshot;
use crate::text::push_char;
use crate::types::SymbolInfo;

verus! {

/// A rectangle of terminal cells.
#[derive(Debug, Clone, Copy, PartialEq, Eq, Structural)]
pub struct Area {
    pub x: u16,
    pub y: u16,
    pub width: u16,
    pub height: u16,
}

/// One bar to draw: `width` cells of row `y` from column `x`.
#[derive(Debug, Clone)]
pub struct Bar {
    pub x: u16,
    pub y: u16,
    pub width: u16,
    /// The background; the text is white.
    pub color: ChartColor,
    /// The bar is the navigator's selection, drawn bold and reversed.
    pub selected: bool,
    /// The text written from the bar's first cell, if any.
    pub label: Option<String>,
}

/// A bar with its label as characters.
pub struct BarModel {
    pub x: u16,
    pub y: u16,
    pub width: u16,
    pub color: ChartColor,
    pub selected: bool,
    pub label: Option<Seq<char>>,
}

impl View for Bar {
    type V = BarModel;

    open spec fn view(&self) -> BarModel {
        BarModel {
            x: self.x,
            y: self.y,
            width: self.width,
            color: self.color,
            selected: self.selected,
            label: match self.label {
                Some(l) => Some(l@),
                None => None,
            },
        }
    }
}

/// A flame chart ready to draw: a layout, the symbols that label it, the
/// navigator whose selection is marked, and how bars are coloured.
pub struct FlameChartWidget<'a> {
    layout: &'a FlameLayout,
    symbols: &'a SymbolSnapshot,
    navigator: Option<&'a FlameNavigator>,
    color_mode: ColorMode,
}

/// The name a bar shows: the symbol's name, or "unknown" when it is empty.
pub open spec fn shown_name(name: Seq<char>) -> Seq<char> {
    if name.len() == 0 {
        "unknown"@
    } else {
        name
    }
}

/// The first `n` characters of `s` (all of them when it is shorter).
pub open spec fn first_chars(s: Seq<char>, n: int) -> Seq<char> {
    if n < s.len() {
        s.take(n)
    } else {
        s
    }
}

/// `name` fitted into `width` cells: cut to `width` characters on narrow
/// bars (up to five cells); on wider bars kept whole when its UTF-8 length
/// fits, else cut to `width - 3` characters followed by "...".
pub open spec fn elide(name: Seq<char>, width: int) -> Seq<char> {
    if width <= 5 {
        first_chars(name, width)
    } else if encode_utf8(name).len() > width {
        first_chars(name, width - 3) + "..."@
    } else {
        name
    }
}

/// The bar drawn for `node` in `area`, or none when the node's row lies
/// below the area or the node has no width.
pub open spec fn bar_of(
    node: FlameLayoutNode,
    area: Area,
    frames: Seq<SymbolInfo>,
    selected: Option<NodeId>,
    mode: ColorMode,
) -> Option<BarModel> {
    let y = area.y + node.depth;
    if y >= area.y + area.height || node.width == 0 {
        None
    } else {
        Some(
            BarModel {
                x: (area.x + node.x) as u16,
                y: y as u16,
                width: node.width,
                color: color_of(node, mode, frames),
                selected: selected == Some(node.id),
                label: if node.width > 2 && node.frame < frames.len() {
                    Some(elide(shown_name(frames[node.frame as int].name@), node.width as int))
                } else {
                    None
                },
            },
        )
    }
}

/// The bars of `nodes`, in order, skipping the nodes that draw none.
pub open spec fn bars_of(
    nodes: Seq<FlameLayoutNode>,
    area: Area,
    frames: Seq<SymbolInfo>,
    selected: Option<NodeId>,
    mode: ColorMode,
) -> Seq<BarModel>
    decreases nodes.len(),
{
    if nodes.len() == 0 {
        Seq::empty()
    } else {
        let rest = bars_of(nodes.drop_last(), area, frames, selected, mode);
        match bar_of(nodes.last(), area, frames, selected, mode) {
            Some(b) => rest.push(b),
            None => rest,
        }
    }
}

/// Every coordinate the chart computes for `nodes` in `area` fits in `u16`.
pub open spec fn fits_area(nodes: Seq<FlameLayoutNode>, area: Area) -> bool {
    &&& area.y + area.height <= u16::MAX
    &&& forall|i: int|
        0 <= i < nodes.len() ==> {
            &&& area.y + #[trigger] nodes[i].depth <= u16::MAX
            &&& area.y + nodes[i].depth < area.y + area.height ==> area.x + nodes[i].x <= u16::MAX
        }
}

/// The first `n` characters of `s`.
fn take_chars(s: &str, n: usize) -> (r: String)
    ensures
        r@ == first_chars(s@, n as int),
{
    let len = s.unicode_len();
    let end = if n < len {
        n
    } else {
        len
    };
    let mut r = String::new();
    let mut i: usize = 0;
    while i < end
        invariant
            len == s@.len(),
            end <= len,
            i <= end,
            r@ == s@.take(i as int),
        decreases end - i,
    {
        push_char(&mut r, s.get_char(i));
        i = i + 1;
        assert(r@ =~= s@.take(i as int));
    }
    assert(s@.take(len as int) =~= s@);
    r
}

/// The label of a bar `width` cells wide for the symbol name `name`.
fn label_for(name: &String, width: u16) -> (r: String)
    ensures
        r@ == elide(shown_name(name@), width as int),
{
    let shown = if name.as_str().unicode_len() == 0 {
        String::from_str("unknown")
    } else {
        name.clone()
    };
    proof {
        reveal_strlit("unknown");
    }
    if width <= 5 {
        take_chars(shown.as_str(), width as usize)
    } else if shown.as_str().as_bytes().len() > width as usize {
        let mut cut = take_chars(shown.as_str(), (width - 3) as usize);
        cut.append("...");
        proof {
            reveal_strlit("...");
        }
        cut
    } else {
        shown
    }
}

proof fn lemma_utf8_at_least_chars(s: Seq<char>)
    ensures
        encode_utf8(s).len() >= s.len(),
    decreases s.len(),
{
    if s.len() > 0 {
        lemma_utf8_at_least_chars(s.drop_first());
    }
}

/// A label never has more characters than its bar has cells.
pub proof fn lemma_label_fits(name: Seq<char>, width: int)
    requires
        width >= 0,
    ensures
        elide(name, width).len() <= width,
{
    reveal_strlit("...");
    if width > 5 && encode_utf8(name).len() <= width {
        lemma_utf8_at_least_chars(name);
    }
}

impl<'a> FlameChartWidget<'a> {
    /// The layout drawn.
    pub closed spec fn layout(&self) -> &'a FlameLayout {
        self.layout
    }

    /// The symbols that label the bars.
    pub closed spec fn symbols(&self) -> &'a SymbolSnapshot {
        self.symbols
    }

    /// The navigator whose selection is marked, if any.
    pub closed spec fn navigator(&self) -> Option<&'a FlameNavigator> {
        self.navigator
    }

    /// How bars are coloured.
    pub closed spec fn color_mode(&self) -> ColorMode {
        self.color_mode
    }

    /// The node id marked as selected, if any.
    pub open spec fn selection(&self) -> Option<NodeId> {
        match self.navigator() {
            Some(nav) => nav.selected_node,
            None => None,
        }
    }

    pub fn new(
        layout: &'a FlameLayout,
        symbols: &'a SymbolSnapshot,
        navigator: Option<&'a FlameNavigator>,
        color_mode: ColorMode,
    ) -> (r: Self)
        ensures
            r.layout() == layout,
            r.symbols() == symbols,
            r.navigator() == navigator,
            r.color_mode() == color_mode,
    {
        FlameChartWidget { layout, symbols, navigator, color_mode }
    }

    /// The bars the chart draws in `area`, in layout order.
    pub fn render(&self, area: Area) -> (bars: Vec<Bar>)
        requires
            fits_area(self.layout().nodes@, area),
        ensures
            bars@.map_values(|b: Bar| b@) == bars_of(
                self.layout().nodes@,
                area,
                self.symbols().frames@,
                self.selection(),
                self.color_mode(),
            ),
    {
        let nodes = &self.layout.nodes;
        let frames = &self.symbols.frames;
        let selected = match self.navigator {
            Some(nav) => nav.selected_node,
            None => None,
        };
        let mut bars: Vec<Bar> = Vec::new();
        let mut i: usize = 0;
        while i < nodes.len()
            invariant
                fits_area(nodes@, area),
                i <= nodes@.len(),
                *nodes == self.layout().nodes,
                *frames == self.symbols().frames,
                selected == self.selection(),
                bars@.map_values(|b: Bar| b@) == bars_of(
                    nodes@.take(i as int),
                    area,
                    frames@,
                    selected,
                    self.color_mode(),
                ),
            decreases nodes@.len() - i,
        {
            let node = nodes[i];
            proof {
                assert(nodes@.take(i + 1).drop_last() =~= nodes@.take(i as int));
                assert(nodes@.take(i + 1).last() == node);
                assert(area.y + nodes@[i as int].depth <= u16::MAX);
            }
            let y = area.y + node.depth;
            if y < area.y + area.height && node.width != 0 {
                let color = get_color(&node, self.color_mode, self.symbols);
                let is_selected = match selected {
                    Some(s) => s == node.id,
                    None => false,
                };
                let label = if node.width > 2 {
                    match self.symbols.get(node.frame) {
                        Some(info) => Some(label_for(&info.name, node.width)),
                        None => None,
                    }
                } else {
                    None
                };
                let bar = Bar { x: area.x + node.x, y, width: node.width, color, selected: is_selected, label };
                let ghost before = bars@;
                bars.push(bar);
                proof {
                    assert(bars@.map_values(|b: Bar| b@) =~= before.map_values(|b: Bar| b@).push(bar@));
                }
            }
            i = i + 1;
        }
        proof {
            assert(nodes@.take(nodes@.len() as int) =~= nodes@);
        }
        bars
    }
}

} // verus!
