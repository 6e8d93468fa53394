//! Layout of a flame trie on a character grid: each node gets a row (its
//! depth) and a horizontal span proportional to its share of its parent.
use vstd::prelude::*;
use std::collections::HashMap;
use crate::flame_chart::snapshot::FlameSnapshot;
use crate::tree::{child_keys, key_order, lemma_node_at_step, node_at};
use crate::types::{FlameNode, FrameId};

verus! {

/// The position of a node in a layout's node list.
pub type NodeId = u64;

/// A laid-out node: the cells `[x, x + width)` of row `depth`.
#[derive(Clone, Copy, Debug)]
pub struct FlameLayoutNode {
    pub id: NodeId,
    pub frame: FrameId,
    pub x: u16,
    pub width: u16,
    pub depth: u16,
    pub bytes: u64,
}

/// The laid-out nodes, in depth-first pre-order.
pub struct FlameLayout {
    pub nodes: Vec<FlameLayoutNode>,
}

/// Which figure of a node sizes its span.
#[derive(Clone, Copy, PartialEq, Eq, Debug, Structural)]
pub enum Metric {
    LiveBytes,
    TotalBytes,
    PeakLiveBytes,
}

/// The figure of `n` that `m` selects.
pub open spec fn metric_value(n: FlameNode, m: Metric) -> u64 {
    match m {
        Metric::LiveBytes => n.live_bytes,
        Metric::TotalBytes => n.total_bytes,
        Metric::PeakLiveBytes => n.peak_live_bytes,
    }
}

/// The figure of `n` that `m` selects.
pub fn metric_bytes(n: &FlameNode, m: Metric) -> (b: u64)
    ensures
        b == metric_value(*n, m),
{
    match m {
        Metric::LiveBytes => n.live_bytes,
        Metric::TotalBytes => n.total_bytes,
        Metric::PeakLiveBytes => n.peak_live_bytes,
    }
}

/// `s` with `k` inserted after every key whose child has at least `k`'s figure.
pub open spec fn insert_desc(s: Seq<FrameId>, k: FrameId, m: Map<FrameId, FlameNode>, metric: Metric) -> Seq<
    FrameId,
>
    decreases s.len(),
{
    if s.len() == 0 {
        seq![k]
    } else if metric_value(m[s[0]], metric) >= metric_value(m[k], metric) {
        seq![s[0]] + insert_desc(s.drop_first(), k, m, metric)
    } else {
        seq![k] + s
    }
}

/// `keys` sorted by decreasing figure of their children; keys with equal
/// figures keep their order.
pub open spec fn sort_desc(keys: Seq<FrameId>, m: Map<FrameId, FlameNode>, metric: Metric) -> Seq<FrameId>
    decreases keys.len(),
{
    if keys.len() == 0 {
        Seq::empty()
    } else {
        insert_desc(sort_desc(keys.drop_last(), m, metric), keys.last(), m, metric)
    }
}

/// The order in which the children of `n` are laid out: largest figure first,
/// ties in the child map's iteration order.
pub open spec fn child_order(n: FlameNode, metric: Metric) -> Seq<FrameId> {
    sort_desc(key_order(&n.children), n.children@, metric)
}

/// A child's span: its share `cb / rb` of the remaining width `rw`, rounded to
/// the nearest cell (halves up) and capped at `rw`.
pub open spec fn share(rw: int, cb: int, rb: int) -> int {
    let r = (2 * rw * cb + rb) / (2 * rb);
    if r > rw {
        rw
    } else {
        r
    }
}

/// The layout of the subtree at `n` placed at `[x, x + w)` on row `depth`,
/// numbering its nodes from `id`: the node itself, then its children's
/// layouts left to right. A zero width lays out nothing.
pub open spec fn layout_of(n: FlameNode, x: int, w: int, depth: int, metric: Metric, id: int) -> Seq<
    FlameLayoutNode,
>
    decreases n, child_order(n, metric).len() + 1,
{
    if w <= 0 {
        Seq::empty()
    } else {
        let me = FlameLayoutNode {
            id: id as u64,
            frame: n.frame,
            x: x as u16,
            width: w as u16,
            depth: depth as u16,
            bytes: metric_value(n, metric),
        };
        seq![me] + children_layout(
            n,
            child_order(n, metric),
            0,
            x,
            w,
            metric_value(n, metric) as int,
            depth + 1,
            metric,
            id + 1,
        )
    }
}

/// The layouts of the children `order[i..]` of `n`, starting at `cx` with `rw`
/// cells and `rb` bytes left to share out. Children with no bytes are passed
/// over, as is everything once the width or the bytes run out.
pub open spec fn children_layout(
    n: FlameNode,
    order: Seq<FrameId>,
    i: int,
    cx: int,
    rw: int,
    rb: int,
    depth: int,
    metric: Metric,
    id: int,
) -> Seq<FlameLayoutNode>
    decreases n, order.len() - i,
{
    if i < 0 || i >= order.len() {
        Seq::empty()
    } else if !n.children@.contains_key(order[i]) {
        children_layout(n, order, i + 1, cx, rw, rb, depth, metric, id)
    } else {
        let c = n.children@[order[i]];
        let cb = metric_value(c, metric) as int;
        if cb == 0 || rb == 0 || rw == 0 {
            children_layout(n, order, i + 1, cx, rw, rb, depth, metric, id)
        } else {
            let cw = share(rw, cb, rb);
            let sub = layout_of(c, cx, cw, depth, metric, id);
            sub + children_layout(
                n,
                order,
                i + 1,
                cx + cw,
                rw - cw,
                rb - cb,
                depth,
                metric,
                id + sub.len(),
            )
        }
    }
}

/// Laying out the subtree at `n` never takes more bytes from a parent than it
/// has left, and never places a node below row `u16::MAX`.
pub open spec fn layout_safe(n: FlameNode, x: int, w: int, depth: int, metric: Metric) -> bool
    decreases n, child_order(n, metric).len() + 1,
{
    w <= 0 || children_safe(
        n,
        child_order(n, metric),
        0,
        x,
        w,
        metric_value(n, metric) as int,
        depth + 1,
        metric,
    )
}

/// The children `order[i..]` of `n` can be laid out safely from the given state.
pub open spec fn children_safe(
    n: FlameNode,
    order: Seq<FrameId>,
    i: int,
    cx: int,
    rw: int,
    rb: int,
    depth: int,
    metric: Metric,
) -> bool
    decreases n, order.len() - i,
{
    if i < 0 || i >= order.len() {
        true
    } else if !n.children@.contains_key(order[i]) {
        children_safe(n, order, i + 1, cx, rw, rb, depth, metric)
    } else {
        let c = n.children@[order[i]];
        let cb = metric_value(c, metric) as int;
        if cb == 0 || rb == 0 || rw == 0 {
            children_safe(n, order, i + 1, cx, rw, rb, depth, metric)
        } else {
            let cw = share(rw, cb, rb);
            &&& cb <= rb
            &&& (cw > 0 ==> depth <= u16::MAX && layout_safe(c, cx, cw, depth, metric))
            &&& children_safe(n, order, i + 1, cx + cw, rw - cw, rb - cb, depth, metric)
        }
    }
}

proof fn lemma_insert_desc(s: Seq<FrameId>, k: FrameId, m: Map<FrameId, FlameNode>, metric: Metric, p: int)
    requires
        0 <= p <= s.len(),
        forall|j: int| 0 <= j < p ==> metric_value(m[#[trigger] s[j]], metric) >= metric_value(m[k], metric),
        p < s.len() ==> metric_value(m[s[p]], metric) < metric_value(m[k], metric),
    ensures
        insert_desc(s, k, m, metric) == s.take(p) + seq![k] + s.skip(p),
    decreases s.len(),
{
    if s.len() == 0 {
        assert(s.take(p) + seq![k] + s.skip(p) =~= seq![k]);
    } else if p == 0 {
        assert(s.take(p) + seq![k] + s.skip(p) =~= seq![k] + s);
    } else {
        let t = s.drop_first();
        assert forall|j: int| 0 <= j < p - 1 implies metric_value(m[#[trigger] t[j]], metric) >= metric_value(m[k], metric) by {
            assert(t[j] == s[j + 1]);
        }
        lemma_insert_desc(t, k, m, metric, p - 1);
        assert(s.take(p) + seq![k] + s.skip(p) =~= seq![s[0]] + (t.take(p - 1) + seq![k] + t.skip(p - 1)));
    }
}

/// The figure of the child under key `k`.
fn child_metric(children: &HashMap<FrameId, FlameNode>, k: FrameId, metric: Metric) -> (b: u64)
    requires
        children@.contains_key(k),
    ensures
        b == metric_value(children@[k], metric),
{
    match children.get(&k) {
        Some(c) => metric_bytes(c, metric),
        None => 0,
    }
}

/// The keys of the children of `node` in layout order.
pub fn sorted_children(node: &FlameNode, metric: Metric) -> (order: Vec<FrameId>)
    ensures
        order@ == child_order(*node, metric),
        forall|j: int| 0 <= j < order@.len() ==> node.children@.contains_key(#[trigger] order@[j]),
{
    let keys = child_keys(&node.children);
    let ghost m = node.children@;
    let mut sorted: Vec<FrameId> = Vec::new();
    let mut i: usize = 0;
    assert(keys@.take(0) =~= Seq::<FrameId>::empty());
    while i < keys.len()
        invariant
            i <= keys@.len(),
            keys@ == key_order(&node.children),
            keys@.to_set() == m.dom(),
            m == node.children@,
            sorted@ == sort_desc(keys@.take(i as int), m, metric),
            forall|j: int| 0 <= j < sorted@.len() ==> m.contains_key(#[trigger] sorted@[j]),
        decreases keys@.len() - i,
    {
        let k = keys[i];
        assert(keys@.to_set().contains(keys@[i as int]));
        let kb = child_metric(&node.children, k, metric);
        let mut p: usize = 0;
        while p < sorted.len() && child_metric(&node.children, sorted[p], metric) >= kb
            invariant
                p <= sorted@.len(),
                m == node.children@,
                m.contains_key(k),
                kb == metric_value(m[k], metric),
                forall|j: int| 0 <= j < sorted@.len() ==> m.contains_key(#[trigger] sorted@[j]),
                forall|j: int| 0 <= j < p ==> metric_value(m[#[trigger] sorted@[j]], metric) >= kb,
            decreases sorted@.len() - p,
        {
            p = p + 1;
        }
        proof {
            lemma_insert_desc(sorted@, k, m, metric, p as int);
            assert(keys@.take(i + 1).drop_last() =~= keys@.take(i as int));
        }
        let ghost before = sorted@;
        sorted.insert(p, k);
        i = i + 1;
        proof {
            assert(sorted@ =~= before.take(p as int) + seq![k] + before.skip(p as int));
            assert forall|j: int| 0 <= j < sorted@.len() implies m.contains_key(#[trigger] sorted@[j]) by {
                if j < p {
                    assert(sorted@[j] == before[j]);
                } else if j > p {
                    assert(sorted@[j] == before[j - 1]);
                }
            }
        }
    }
    assert(keys@.take(keys@.len() as int) =~= keys@);
    sorted
}

/// A child's span in cells, as `share` states it.
pub fn share_of(rw: u16, cb: u64, rb: u64) -> (cw: u16)
    requires
        rb > 0,
    ensures
        cw == share(rw as int, cb as int, rb as int),
{
    assert(2 * (rw as u128) * (cb as u128) + rb as u128 <= 0x1_0000_0000_0000_0000_0000_0000) by (nonlinear_arith)
        requires
            rw <= 0xffff,
            cb <= 0xffff_ffff_ffff_ffff,
            rb <= 0xffff_ffff_ffff_ffff,
    ;
    let num: u128 = 2 * (rw as u128) * (cb as u128) + rb as u128;
    let den: u128 = 2 * (rb as u128);
    let r: u128 = num / den;
    if r > rw as u128 {
        rw
    } else {
        r as u16
    }
}

/// Some node of the trie at `root` is for frame `f`.
pub open spec fn has_frame(root: FlameNode, f: FrameId) -> bool {
    exists|p: Seq<FrameId>| #[trigger] node_at(root, p) matches Some(m) && m.frame == f
}

/// The layout of the whole subtree at `n` over `width` cells, or nothing when
/// `n` has no bytes under the metric.
pub open spec fn layout_or_empty(n: FlameNode, width: int, metric: Metric) -> Seq<FlameLayoutNode> {
    if metric_value(n, metric) > 0 {
        layout_of(n, 0, width, 0, metric, 0)
    } else {
        Seq::empty()
    }
}

/// The subtree at `n` can be laid out over `width` cells without a counter
/// leaving its integer type.
pub open spec fn layout_fits(n: FlameNode, width: int, metric: Metric) -> bool {
    &&& layout_safe(n, 0, width, 0, metric)
    &&& layout_or_empty(n, width, metric).len() <= u64::MAX
}

/// The first node for frame `f` in a depth-first, pre-order walk of the
/// trie at `n`, children taken in the child map's iteration order.
pub open spec fn find_first(n: FlameNode, f: FrameId) -> Option<FlameNode>
    decreases n, key_order(&n.children).len() + 1,
{
    if n.frame == f {
        Some(n)
    } else {
        find_in_children(n, key_order(&n.children), 0, f)
    }
}

/// The first node for frame `f` in the subtrees of the children `keys[i..]` of `n`.
pub open spec fn find_in_children(n: FlameNode, keys: Seq<FrameId>, i: int, f: FrameId) -> Option<FlameNode>
    decreases n, keys.len() - i,
{
    if i < 0 || i >= keys.len() {
        None
    } else if !n.children@.contains_key(keys[i]) {
        find_in_children(n, keys, i + 1, f)
    } else {
        match find_first(n.children@[keys[i]], f) {
            Some(m) => Some(m),
            None => find_in_children(n, keys, i + 1, f),
        }
    }
}

/// The node whose subtree `build` lays out: the first node for the focused
/// frame when the trie has one, the root otherwise.
pub open spec fn build_root(root: FlameNode, focus: Option<FrameId>) -> FlameNode {
    match focus {
        Some(f) => match find_first(root, f) {
            Some(m) => m,
            None => root,
        },
        None => root,
    }
}

/// The subtree that `build` lays out fits.
pub open spec fn build_fits(root: FlameNode, width: int, metric: Metric, focus: Option<FrameId>) -> bool {
    layout_fits(build_root(root, focus), width, metric)
}

/// What `build` lays out: the subtree of the first node for the focused frame
/// when there is one, the whole trie otherwise.
pub open spec fn build_result(
    root: FlameNode,
    width: int,
    metric: Metric,
    focus: Option<FrameId>,
    nodes: Seq<FlameLayoutNode>,
) -> bool {
    nodes == layout_or_empty(build_root(root, focus), width, metric)
}

impl FlameLayout {
    /// Some node of the trie at `root` for `frame`, searched depth first.
    pub fn find_node(root: &FlameNode, frame: FrameId) -> (r: Option<&FlameNode>)
        ensures
            match r {
                Some(n) => n.frame == frame && exists|p: Seq<FrameId>| #[trigger] node_at(*root, p) == Some(*n),
                None => !has_frame(*root, frame),
            },
            match r {
                Some(n) => find_first(*root, frame) == Some(*n),
                None => find_first(*root, frame) is None,
            },
        decreases root,
    {
        if root.frame == frame {
            assert(node_at(*root, Seq::<FrameId>::empty()) == Some(*root));
            return Some(root);
        }
        let keys = child_keys(&root.children);
        let mut i: usize = 0;
        while i < keys.len()
            invariant
                i <= keys@.len(),
                keys@.to_set() == root.children@.dom(),
                root.frame != frame,
                keys@ == key_order(&root.children),
                forall|j: int| 0 <= j < i ==> !has_frame(root.children@[#[trigger] keys@[j]], frame),
                find_in_children(*root, keys@, 0, frame) == find_in_children(*root, keys@, i as int, frame),
            decreases keys@.len() - i,
        {
            let k = keys[i];
            assert(keys@.to_set().contains(keys@[i as int]));
            let child = match root.children.get(&k) {
                Some(c) => c,
                None => {
                    i = i + 1;
                    continue;
                },
            };
            proof {
                assert(decreases_to!(root => root.children@[k]));
            }
            match Self::find_node(child, frame) {
                Some(found) => {
                    proof {
                        let q = choose|q: Seq<FrameId>| #[trigger] node_at(*child, q) == Some(*found);
                        let p = seq![k] + q;
                        assert(p.drop_first() =~= q);
                        lemma_node_at_step(*root, p);
                        assert(node_at(*root, p) == Some(*found));
                    }
                    return Some(found);
                },
                None => {},
            }
            i = i + 1;
        }
        proof {
            if has_frame(*root, frame) {
                let p = choose|p: Seq<FrameId>| #[trigger] node_at(*root, p) matches Some(m) && m.frame == frame;
                lemma_node_at_step(*root, p);
                let k = p[0];
                assert(keys@.to_set().contains(k));
                let j = choose|j: int| 0 <= j < keys@.len() && keys@[j] == k;
                assert(!has_frame(root.children@[keys@[j]], frame));
                assert(node_at(root.children@[k], p.drop_first()) matches Some(m) && m.frame == frame);
            }
        }
        None
    }

    /// Lays out the snapshot's trie, or the subtree of the focused frame when
    /// the trie has one, over `total_width` cells under `metric`.
    pub fn build(
        snapshot: &FlameSnapshot,
        total_width: u16,
        metric: Metric,
        focused_node_frame: Option<FrameId>,
    ) -> (r: Self)
        requires
            build_fits(snapshot.root, total_width as int, metric, focused_node_frame),
        ensures
            build_result(snapshot.root, total_width as int, metric, focused_node_frame, r.nodes@),
    {
        let mut nodes: Vec<FlameLayoutNode> = Vec::new();
        let mut next_id: NodeId = 0;
        let mut root_node = &snapshot.root;
        if let Some(frame) = focused_node_frame {
            if let Some(focused) = Self::find_node(&snapshot.root, frame) {
                root_node = focused;
            }
        }
        assert(*root_node == build_root(snapshot.root, focused_node_frame));
        let root_bytes = metric_bytes(root_node, metric);
        if root_bytes > 0 {
            Self::layout_node(root_node, 0, total_width, 0, metric, &mut nodes, &mut next_id);
        }
        let r = FlameLayout { nodes };
        proof {
            assert(r.nodes@ =~= layout_or_empty(*root_node, total_width as int, metric));
        }
        r
    }

    /// Lays out the subtree at `node` from `x` over `width` cells on row
    /// `depth`, appending its nodes to `nodes` and numbering them from `next_id`.
    pub fn layout_node(
        node: &FlameNode,
        x: u16,
        width: u16,
        depth: u16,
        metric: Metric,
        nodes: &mut Vec<FlameLayoutNode>,
        next_id: &mut NodeId,
    )
        requires
            x + width <= u16::MAX,
            layout_safe(*node, x as int, width as int, depth as int, metric),
            *old(next_id) + layout_of(*node, x as int, width as int, depth as int, metric, *old(next_id) as int).len()
                <= u64::MAX,
        ensures
            final(nodes)@ == old(nodes)@ + layout_of(
                *node,
                x as int,
                width as int,
                depth as int,
                metric,
                *old(next_id) as int,
            ),
            *final(next_id) == *old(next_id) + layout_of(
                *node,
                x as int,
                width as int,
                depth as int,
                metric,
                *old(next_id) as int,
            ).len(),
        decreases node,
    {
        if width == 0 {
            return;
        }
        let id = *next_id;
        *next_id = id + 1;
        let bytes = metric_bytes(node, metric);
        let me = FlameLayoutNode { id, frame: node.frame, x, width, depth, bytes };
        nodes.push(me);
        let order = sorted_children(node, metric);
        let ghost full = children_layout(
            *node,
            order@,
            0,
            x as int,
            width as int,
            bytes as int,
            depth + 1,
            metric,
            id + 1,
        );
        let ghost base = nodes@;
        let mut current_x: u16 = x;
        let mut remaining_width: u16 = width;
        let mut remaining_bytes: u64 = bytes;
        let mut i: usize = 0;
        while i < order.len()
            invariant
                i <= order@.len(),
                order@ == child_order(*node, metric),
                forall|j: int| 0 <= j < order@.len() ==> node.children@.contains_key(#[trigger] order@[j]),
                current_x + remaining_width == x + width,
                x + width <= u16::MAX,
                *next_id == id + 1 + (nodes@.len() - base.len()),
                base.len() <= nodes@.len(),
                base + full == nodes@ + children_layout(
                    *node,
                    order@,
                    i as int,
                    current_x as int,
                    remaining_width as int,
                    remaining_bytes as int,
                    depth + 1,
                    metric,
                    *next_id as int,
                ),
                children_safe(
                    *node,
                    order@,
                    i as int,
                    current_x as int,
                    remaining_width as int,
                    remaining_bytes as int,
                    depth + 1,
                    metric,
                ),
                *next_id + children_layout(
                    *node,
                    order@,
                    i as int,
                    current_x as int,
                    remaining_width as int,
                    remaining_bytes as int,
                    depth + 1,
                    metric,
                    *next_id as int,
                ).len() <= u64::MAX,
            decreases order@.len() - i,
        {
            let k = order[i];
            let child = match node.children.get(&k) {
                Some(c) => c,
                None => {
                    i = i + 1;
                    continue;
                },
            };
            let child_bytes = metric_bytes(child, metric);
            if child_bytes == 0 || remaining_bytes == 0 || remaining_width == 0 {
                i = i + 1;
                continue;
            }
            let child_width = share_of(remaining_width, child_bytes, remaining_bytes);
            let ghost sub = layout_of(
                *child,
                current_x as int,
                child_width as int,
                depth + 1,
                metric,
                *next_id as int,
            );
            if child_width > 0 {
                proof {
                    assert(decreases_to!(node => node.children@[k]));
                }
                Self::layout_node(child, current_x, child_width, depth + 1, metric, nodes, next_id);
            }
            current_x = current_x + child_width;
            remaining_width = remaining_width - child_width;
            remaining_bytes = remaining_bytes - child_bytes;
            i = i + 1;
            proof {
                assert(base + full =~= nodes@ + children_layout(
                    *node,
                    order@,
                    i as int,
                    current_x as int,
                    remaining_width as int,
                    remaining_bytes as int,
                    depth + 1,
                    metric,
                    *next_id as int,
                ));
            }
        }
        proof {
            assert(base + full =~= nodes@);
            assert(nodes@ =~= old(nodes)@ + layout_of(
                *node,
                x as int,
                width as int,
                depth as int,
                metric,
                *old(next_id) as int,
            ));
        }
    }
}

/// The total width of the nodes of `nodes` that lie on row `r`.
pub open spec fn row_width(nodes: Seq<FlameLayoutNode>, r: int) -> int
    decreases nodes.len(),
{
    if nodes.len() == 0 {
        0
    } else {
        row_width(nodes.drop_last(), r) + if nodes.last().depth == r {
            nodes.last().width as int
        } else {
            0
        }
    }
}

/// The figures of the children `order[i..]` of `n`, added up.
pub open spec fn children_total(n: FlameNode, order: Seq<FrameId>, i: int, metric: Metric) -> int
    decreases order.len() - i,
{
    if i < 0 || i >= order.len() {
        0
    } else {
        (if n.children@.contains_key(order[i]) {
            metric_value(n.children@[order[i]], metric) as int
        } else {
            0
        }) + children_total(n, order, i + 1, metric)
    }
}

proof fn lemma_row_width_concat(a: Seq<FlameLayoutNode>, b: Seq<FlameLayoutNode>, r: int)
    ensures
        row_width(a + b, r) == row_width(a, r) + row_width(b, r),
    decreases b.len(),
{
    if b.len() > 0 {
        assert((a + b).drop_last() =~= a + b.drop_last());
        lemma_row_width_concat(a, b.drop_last(), r);
    } else {
        assert(a + b =~= a);
    }
}

proof fn lemma_row_width_absent(nodes: Seq<FlameLayoutNode>, r: int)
    requires
        forall|k: int| 0 <= k < nodes.len() ==> #[trigger] nodes[k].depth != r,
    ensures
        row_width(nodes, r) == 0,
    decreases nodes.len(),
{
    if nodes.len() > 0 {
        lemma_row_width_absent(nodes.drop_last(), r);
    }
}

proof fn lemma_layout_depths(n: FlameNode, x: int, w: int, depth: int, metric: Metric, id: int)
    requires
        layout_safe(n, x, w, depth, metric),
        0 <= depth <= u16::MAX,
    ensures
        forall|k: int|
            0 <= k < layout_of(n, x, w, depth, metric, id).len() ==> {
                &&& #[trigger] layout_of(n, x, w, depth, metric, id)[k].depth >= depth
                &&& k > 0 ==> layout_of(n, x, w, depth, metric, id)[k].depth > depth
            },
        layout_of(n, x, w, depth, metric, id).len() > 0 ==> layout_of(n, x, w, depth, metric, id)[0].depth
            == depth,
    decreases n, child_order(n, metric).len() + 1,
{
    if w > 0 {
        let cl = children_layout(
            n,
            child_order(n, metric),
            0,
            x,
            w,
            metric_value(n, metric) as int,
            depth + 1,
            metric,
            id + 1,
        );
        lemma_children_depths(
            n,
            child_order(n, metric),
            0,
            x,
            w,
            metric_value(n, metric) as int,
            depth + 1,
            metric,
            id + 1,
        );
        let l = layout_of(n, x, w, depth, metric, id);
        assert forall|k: int| 0 < k < l.len() implies #[trigger] l[k].depth > depth by {
            assert(l[k] == cl[k - 1]);
        }
    }
}

proof fn lemma_children_depths(
    n: FlameNode,
    order: Seq<FrameId>,
    i: int,
    cx: int,
    rw: int,
    rb: int,
    depth: int,
    metric: Metric,
    id: int,
)
    requires
        children_safe(n, order, i, cx, rw, rb, depth, metric),
        0 <= depth,
    ensures
        forall|k: int|
            0 <= k < children_layout(n, order, i, cx, rw, rb, depth, metric, id).len()
                ==> #[trigger] children_layout(n, order, i, cx, rw, rb, depth, metric, id)[k].depth
                >= depth,
    decreases n, order.len() - i,
{
    if 0 <= i < order.len() {
        if !n.children@.contains_key(order[i]) {
            lemma_children_depths(n, order, i + 1, cx, rw, rb, depth, metric, id);
            assert(children_layout(n, order, i, cx, rw, rb, depth, metric, id) == children_layout(
                n,
                order,
                i + 1,
                cx,
                rw,
                rb,
                depth,
                metric,
                id,
            ));
        } else {
            let c = n.children@[order[i]];
            let cb = metric_value(c, metric) as int;
            if cb == 0 || rb == 0 || rw == 0 {
                lemma_children_depths(n, order, i + 1, cx, rw, rb, depth, metric, id);
                assert(children_layout(n, order, i, cx, rw, rb, depth, metric, id) == children_layout(
                    n,
                    order,
                    i + 1,
                    cx,
                    rw,
                    rb,
                    depth,
                    metric,
                    id,
                ));
            } else {
                let cw = share(rw, cb, rb);
                let sub = layout_of(c, cx, cw, depth, metric, id);
                if cw > 0 {
                    assert(decreases_to!(n => n.children@[order[i]]));
                    lemma_layout_depths(c, cx, cw, depth, metric, id);
                }
                lemma_children_depths(n, order, i + 1, cx + cw, rw - cw, rb - cb, depth, metric, id + sub.len());
                let rest = children_layout(n, order, i + 1, cx + cw, rw - cw, rb - cb, depth, metric, id + sub.len());
                let all = children_layout(n, order, i, cx, rw, rb, depth, metric, id);
                assert(all == sub + rest);
                assert forall|k: int| 0 <= k < all.len() implies #[trigger] all[k].depth >= depth by {
                    if k < sub.len() {
                        assert(all[k] == sub[k]);
                    } else {
                        assert(all[k] == rest[k - sub.len()]);
                    }
                }
            }
        }
    }
}

proof fn lemma_layout_top_row(n: FlameNode, x: int, w: int, depth: int, metric: Metric, id: int)
    requires
        layout_safe(n, x, w, depth, metric),
        0 <= depth <= u16::MAX,
        0 <= w <= u16::MAX,
    ensures
        row_width(layout_of(n, x, w, depth, metric, id), depth) == w,
{
    if w > 0 {
        let l = layout_of(n, x, w, depth, metric, id);
        lemma_layout_depths(n, x, w, depth, metric, id);
        let me = seq![l[0]];
        let rest = l.skip(1);
        assert(l =~= me + rest);
        lemma_row_width_concat(me, rest, depth);
        assert(me.drop_last() =~= Seq::<FlameLayoutNode>::empty());
        assert(row_width(Seq::<FlameLayoutNode>::empty(), depth) == 0);
        assert(l[0].width == w);
        assert(row_width(me, depth) == w);
        assert forall|k: int| 0 <= k < rest.len() implies #[trigger] rest[k].depth != depth by {
            assert(rest[k] == l[k + 1]);
        }
        lemma_row_width_absent(rest, depth);
    }
}

proof fn lemma_children_row(
    n: FlameNode,
    order: Seq<FrameId>,
    i: int,
    cx: int,
    rw: int,
    rb: int,
    depth: int,
    metric: Metric,
    id: int,
)
    requires
        children_safe(n, order, i, cx, rw, rb, depth, metric),
        0 <= depth,
        0 <= rw <= u16::MAX,
        0 <= rb,
        i >= 0,
        rw == 0 || (children_total(n, order, i, metric) == rb && rb > 0),
    ensures
        row_width(children_layout(n, order, i, cx, rw, rb, depth, metric, id), depth) == rw,
    decreases order.len() - i,
{
    if i >= order.len() {
    } else if !n.children@.contains_key(order[i]) {
        lemma_children_row(n, order, i + 1, cx, rw, rb, depth, metric, id);
    } else {
        let c = n.children@[order[i]];
        let cb = metric_value(c, metric) as int;
        if cb == 0 || rb == 0 || rw == 0 {
            lemma_children_row(n, order, i + 1, cx, rw, rb, depth, metric, id);
        } else {
            let cw = share(rw, cb, rb);
            assert(0 <= cw <= rw) by (nonlinear_arith)
                requires
                    cw == share(rw, cb, rb),
                    rw > 0,
                    cb > 0,
                    rb > 0,
            ;
            let sub = layout_of(c, cx, cw, depth, metric, id);
            if cw > 0 {
                lemma_layout_top_row(c, cx, cw, depth, metric, id);
            }
            if cb == rb {
                assert((2 * rw * rb + rb) / (2 * rb) == rw) by (nonlinear_arith)
                    requires
                        rb > 0,
                        rw >= 0,
                ;
            }
            lemma_children_row(n, order, i + 1, cx + cw, rw - cw, rb - cb, depth, metric, id + sub.len());
            let rest = children_layout(n, order, i + 1, cx + cw, rw - cw, rb - cb, depth, metric, id + sub.len());
            lemma_row_width_concat(sub, rest, depth);
        }
    }
}

/// When the figures of a node's children add up to the node's own figure,
/// the children's spans on the row below fill the node's span exactly:
/// rounding neither leaves a cell uncovered nor covers one twice.
pub proof fn lemma_children_fill_parent(n: FlameNode, x: int, w: int, depth: int, metric: Metric, id: int)
    requires
        layout_safe(n, x, w, depth, metric),
        0 <= depth < u16::MAX,
        0 < w <= u16::MAX,
        metric_value(n, metric) > 0,
        children_total(n, child_order(n, metric), 0, metric) == metric_value(n, metric),
    ensures
        row_width(layout_of(n, x, w, depth, metric, id), depth + 1) == w,
{
    let mv = metric_value(n, metric) as int;
    let order = child_order(n, metric);
    let cl = children_layout(n, order, 0, x, w, mv, depth + 1, metric, id + 1);
    let l = layout_of(n, x, w, depth, metric, id);
    let me = seq![l[0]];
    assert(l =~= me + cl);
    lemma_row_width_concat(me, cl, depth + 1);
    assert(me.drop_last() =~= Seq::<FlameLayoutNode>::empty());
    assert(row_width(Seq::<FlameLayoutNode>::empty(), depth + 1) == 0);
    assert(l[0].depth == depth);
    assert(row_width(me, depth + 1) == 0);
    lemma_children_row(n, order, 0, x, w, mv, depth + 1, metric, id + 1);
}

/// Each node's id is its position in the list, as in the layouts that
/// `FlameLayout::build` makes.
pub open spec fn ids_are_positions(nodes: Seq<FlameLayoutNode>) -> bool {
    forall|i: int| 0 <= i < nodes.len() ==> #[trigger] nodes[i].id == i
}

/// Only the first node lies on the top row, as in the layouts that
/// `FlameLayout::build` makes.
pub open spec fn one_root(nodes: Seq<FlameLayoutNode>) -> bool {
    forall|i: int| 0 < i < nodes.len() ==> #[trigger] nodes[i].depth > 0
}

proof fn lemma_layout_ids(n: FlameNode, x: int, w: int, depth: int, metric: Metric, id: int)
    ensures
        forall|k: int|
            0 <= k < layout_of(n, x, w, depth, metric, id).len() ==> #[trigger] layout_of(
                n,
                x,
                w,
                depth,
                metric,
                id,
            )[k].id == (id + k) as u64,
    decreases n, child_order(n, metric).len() + 1,
{
    if w > 0 {
        let cl = children_layout(
            n,
            child_order(n, metric),
            0,
            x,
            w,
            metric_value(n, metric) as int,
            depth + 1,
            metric,
            id + 1,
        );
        lemma_children_ids(
            n,
            child_order(n, metric),
            0,
            x,
            w,
            metric_value(n, metric) as int,
            depth + 1,
            metric,
            id + 1,
        );
        let l = layout_of(n, x, w, depth, metric, id);
        assert forall|k: int| 0 <= k < l.len() implies #[trigger] l[k].id == (id + k) as u64 by {
            if k > 0 {
                assert(l[k] == cl[k - 1]);
            }
        }
    }
}

proof fn lemma_children_ids(
    n: FlameNode,
    order: Seq<FrameId>,
    i: int,
    cx: int,
    rw: int,
    rb: int,
    depth: int,
    metric: Metric,
    id: int,
)
    ensures
        forall|k: int|
            0 <= k < children_layout(n, order, i, cx, rw, rb, depth, metric, id).len()
                ==> #[trigger] children_layout(n, order, i, cx, rw, rb, depth, metric, id)[k].id == (id
                + k) as u64,
    decreases n, order.len() - i,
{
    if 0 <= i < order.len() {
        let all = children_layout(n, order, i, cx, rw, rb, depth, metric, id);
        if !n.children@.contains_key(order[i]) {
            lemma_children_ids(n, order, i + 1, cx, rw, rb, depth, metric, id);
            assert(all == children_layout(n, order, i + 1, cx, rw, rb, depth, metric, id));
        } else {
            let c = n.children@[order[i]];
            let cb = metric_value(c, metric) as int;
            if cb == 0 || rb == 0 || rw == 0 {
                lemma_children_ids(n, order, i + 1, cx, rw, rb, depth, metric, id);
                assert(all == children_layout(n, order, i + 1, cx, rw, rb, depth, metric, id));
            } else {
                let cw = share(rw, cb, rb);
                let sub = layout_of(c, cx, cw, depth, metric, id);
                assert(decreases_to!(n => n.children@[order[i]]));
                lemma_layout_ids(c, cx, cw, depth, metric, id);
                lemma_children_ids(n, order, i + 1, cx + cw, rw - cw, rb - cb, depth, metric, id + sub.len());
                let rest = children_layout(n, order, i + 1, cx + cw, rw - cw, rb - cb, depth, metric, id + sub.len());
                assert(all == sub + rest);
                assert forall|k: int| 0 <= k < all.len() implies #[trigger] all[k].id == (id + k) as u64 by {
                    if k < sub.len() {
                        assert(all[k] == sub[k]);
                    } else {
                        assert(all[k] == rest[k - sub.len()]);
                    }
                }
            }
        }
    }
}

/// The nodes of a layout that `build` makes are numbered by their position,
/// and only the first of them lies on the top row.
pub proof fn lemma_build_shape(
    root: FlameNode,
    width: int,
    metric: Metric,
    focus: Option<FrameId>,
    nodes: Seq<FlameLayoutNode>,
)
    requires
        build_fits(root, width, metric, focus),
        build_result(root, width, metric, focus, nodes),
    ensures
        ids_are_positions(nodes),
        one_root(nodes),
{
    let n = build_root(root, focus);
    if metric_value(n, metric) > 0 {
        lemma_layout_ids(n, 0, width, 0, metric, 0);
        lemma_layout_depths(n, 0, width, 0, metric, 0);
        assert forall|i: int| 0 <= i < nodes.len() implies #[trigger] nodes[i].id == i by {
            assert(nodes[i].id == (0 + i) as u64);
        }
    }
}

proof fn lemma_layout_len_id(n: FlameNode, x: int, w: int, depth: int, metric: Metric, id: int)
    ensures
        layout_of(n, x, w, depth, metric, id).len() == layout_of(n, x, w, depth, metric, 0).len(),
    decreases n, child_order(n, metric).len() + 1,
{
    if w > 0 {
        lemma_children_len_id(
            n,
            child_order(n, metric),
            0,
            x,
            w,
            metric_value(n, metric) as int,
            depth + 1,
            metric,
            id + 1,
            1,
        );
    }
}

proof fn lemma_children_len_id(
    n: FlameNode,
    order: Seq<FrameId>,
    i: int,
    cx: int,
    rw: int,
    rb: int,
    depth: int,
    metric: Metric,
    id: int,
    id2: int,
)
    ensures
        children_layout(n, order, i, cx, rw, rb, depth, metric, id).len() == children_layout(
            n,
            order,
            i,
            cx,
            rw,
            rb,
            depth,
            metric,
            id2,
        ).len(),
    decreases n, order.len() - i,
{
    if 0 <= i < order.len() {
        if !n.children@.contains_key(order[i]) {
            lemma_children_len_id(n, order, i + 1, cx, rw, rb, depth, metric, id, id2);
        } else {
            let c = n.children@[order[i]];
            let cb = metric_value(c, metric) as int;
            if cb == 0 || rb == 0 || rw == 0 {
                lemma_children_len_id(n, order, i + 1, cx, rw, rb, depth, metric, id, id2);
            } else {
                let cw = share(rw, cb, rb);
                assert(decreases_to!(n => n.children@[order[i]]));
                lemma_layout_len_id(c, cx, cw, depth, metric, id);
                lemma_layout_len_id(c, cx, cw, depth, metric, id2);
                let l1 = layout_of(c, cx, cw, depth, metric, id).len();
                let l2 = layout_of(c, cx, cw, depth, metric, id2).len();
                lemma_children_len_id(n, order, i + 1, cx + cw, rw - cw, rb - cb, depth, metric, id + l1, id2 + l2);
            }
        }
    }
}

proof fn lemma_children_safe_no_bytes(
    n: FlameNode,
    order: Seq<FrameId>,
    i: int,
    cx: int,
    rw: int,
    depth: int,
    metric: Metric,
)
    ensures
        children_safe(n, order, i, cx, rw, 0, depth, metric),
    decreases order.len() - i,
{
    if 0 <= i < order.len() {
        lemma_children_safe_no_bytes(n, order, i + 1, cx, rw, depth, metric);
    }
}

/// Whether the subtree at `node`, placed at `x` over `w` cells on row
/// `depth`, lays out safely in a layout of at most `u64::MAX` nodes; if so,
/// how many nodes it lays out.
fn fits_count(node: &FlameNode, x: u64, w: u16, depth: u32, metric: Metric) -> (r: Option<u64>)
    requires
        x + w <= u64::MAX,
        depth <= u16::MAX,
    ensures
        r is Some <==> (layout_safe(*node, x as int, w as int, depth as int, metric) && layout_of(
            *node,
            x as int,
            w as int,
            depth as int,
            metric,
            0,
        ).len() <= u64::MAX),
        r matches Some(c) ==> c == layout_of(*node, x as int, w as int, depth as int, metric, 0).len(),
    decreases node,
{
    if w == 0 {
        return Some(0);
    }
    let mv = metric_bytes(node, metric);
    let order = sorted_children(node, metric);
    let ghost full = children_layout(
        *node,
        order@,
        0,
        x as int,
        w as int,
        mv as int,
        depth + 1,
        metric,
        1,
    );
    let mut count: u64 = 1;
    let mut cx: u64 = x;
    let mut rw: u16 = w;
    let mut rb: u64 = mv;
    let mut i: usize = 0;
    while i < order.len()
        invariant
            i <= order@.len(),
            order@ == child_order(*node, metric),
            forall|j: int| 0 <= j < order@.len() ==> node.children@.contains_key(#[trigger] order@[j]),
            cx + rw == x + w,
            x + w <= u64::MAX,
            depth <= u16::MAX,
            w > 0,
            mv == metric_value(*node, metric),
            full == children_layout(*node, order@, 0, x as int, w as int, mv as int, depth + 1, metric, 1),
            count >= 1,
            1 + full.len() == count + children_layout(
                *node,
                order@,
                i as int,
                cx as int,
                rw as int,
                rb as int,
                depth + 1,
                metric,
                count as int,
            ).len(),
            children_safe(*node, order@, 0, x as int, w as int, mv as int, depth + 1, metric)
                == children_safe(*node, order@, i as int, cx as int, rw as int, rb as int, depth + 1, metric),
        decreases order@.len() - i,
    {
        let k = order[i];
        let child = match node.children.get(&k) {
            Some(c) => c,
            None => {
                i = i + 1;
                continue;
            },
        };
        let cb = metric_bytes(child, metric);
        if cb == 0 || rb == 0 || rw == 0 {
            i = i + 1;
            continue;
        }
        if cb > rb {
            proof {
                assert(!children_safe(*node, order@, i as int, cx as int, rw as int, rb as int, depth + 1, metric));
                assert(layout_safe(*node, x as int, w as int, depth as int, metric) == children_safe(
                    *node,
                    order@,
                    0,
                    x as int,
                    w as int,
                    mv as int,
                    depth + 1,
                    metric,
                ));
            }
            return None;
        }
        let cw = share_of(rw, cb, rb);
        proof {
            assert(0 <= cw <= rw) by (nonlinear_arith)
                requires
                    cw == share(rw as int, cb as int, rb as int),
                    rw > 0,
                    cb > 0,
                    rb > 0,
            ;
            lemma_layout_len_id(*child, cx as int, cw as int, depth + 1, metric, count as int);
        }
        let ghost sub = layout_of(*child, cx as int, cw as int, depth + 1, metric, count as int);
        if cw > 0 {
            if depth + 1 > 0xffff {
                return None;
            }
            proof {
                assert(decreases_to!(node => node.children@[k]));
            }
            match fits_count(child, cx, cw, depth + 1, metric) {
                None => {
                    proof {
                        let rest = children_layout(
                            *node,
                            order@,
                            i + 1,
                            cx + cw,
                            rw - cw,
                            rb - cb,
                            depth + 1,
                            metric,
                            count + sub.len(),
                        );
                        assert(children_layout(
                            *node,
                            order@,
                            i as int,
                            cx as int,
                            rw as int,
                            rb as int,
                            depth + 1,
                            metric,
                            count as int,
                        ) == sub + rest);
                        assert(layout_safe(*node, x as int, w as int, depth as int, metric) == children_safe(
                            *node,
                            order@,
                            0,
                            x as int,
                            w as int,
                            mv as int,
                            depth + 1,
                            metric,
                        ));
                        assert(layout_of(*node, x as int, w as int, depth as int, metric, 0).len() == 1
                            + full.len());
                    }
                    return None;
                },
                Some(c) => {
                    if c > u64::MAX - count {
                        return None;
                    }
                    count = count + c;
                },
            }
        }
        cx = cx + cw as u64;
        rw = rw - cw;
        rb = rb - cb;
        i = i + 1;
    }
    Some(count)
}

/// Whether `build` can lay out the snapshot's trie for this focus: the
/// condition its `requires` asks for.
pub fn build_fits_check(
    snapshot: &FlameSnapshot,
    total_width: u16,
    metric: Metric,
    focused_node_frame: Option<FrameId>,
) -> (r: bool)
    ensures
        r == build_fits(snapshot.root, total_width as int, metric, focused_node_frame),
{
    let mut root_node = &snapshot.root;
    if let Some(frame) = focused_node_frame {
        if let Some(focused) = FlameLayout::find_node(&snapshot.root, frame) {
            root_node = focused;
        }
    }
    assert(*root_node == build_root(snapshot.root, focused_node_frame));
    if metric_bytes(root_node, metric) == 0 {
        proof {
            if total_width > 0 {
                lemma_children_safe_no_bytes(
                    *root_node,
                    child_order(*root_node, metric),
                    0,
                    0,
                    total_width as int,
                    1,
                    metric,
                );
            }
        }
        return true;
    }
    fits_count(root_node, 0, total_width, 0, metric).is_some()
}

/// Each metric sizes spans by its own figure: live bytes, total bytes or
/// peak live bytes.
pub proof fn lemma_metric_figures(n: FlameNode)
    ensures
        metric_value(n, Metric::LiveBytes) == n.live_bytes,
        metric_value(n, Metric::TotalBytes) == n.total_bytes,
        metric_value(n, Metric::PeakLiveBytes) == n.peak_live_bytes,
{
}

/// The first node of a layout from `build` is the laid-out root, spanning
/// the whole width on the top row, and carries that root's figure under the
/// metric: its live, total or peak live bytes.
pub proof fn lemma_build_root_node(
    root: FlameNode,
    width: int,
    metric: Metric,
    focus: Option<FrameId>,
    nodes: Seq<FlameLayoutNode>,
)
    requires
        build_result(root, width, metric, focus, nodes),
        nodes.len() > 0,
    ensures
        ({
            let r = build_root(root, focus);
            &&& nodes[0].frame == r.frame
            &&& nodes[0].x == 0
            &&& nodes[0].width == width as u16
            &&& nodes[0].depth == 0
            &&& nodes[0].bytes == match metric {
                Metric::LiveBytes => r.live_bytes,
                Metric::TotalBytes => r.total_bytes,
                Metric::PeakLiveBytes => r.peak_live_bytes,
            }
        }),
{
}

} // verus!
