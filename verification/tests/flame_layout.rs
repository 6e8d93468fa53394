use mvis::flame_chart::layout::{build_fits_check, FlameLayout, FlameLayoutNode, Metric};
use mvis::flame_chart::navigation::{FlameNavigator, NavKey};
use mvis::flame_chart::snapshot::{FlameSnapshot, SymbolSnapshot};
use mvis::types::FlameNode;
use std::collections::HashMap;
use std::sync::Arc;

fn leaf(frame: u32, bytes: u64) -> FlameNode {
    FlameNode {
        frame,
        live_bytes: bytes,
        total_bytes: bytes,
        peak_live_bytes: bytes,
        live_count: 1,
        total_count: 1,
        children: HashMap::new(),
    }
}

fn snapshot_of(root: FlameNode) -> FlameSnapshot {
    FlameSnapshot { root, symbols: Arc::new(SymbolSnapshot { frames: Vec::new() }), generated_sequence: 1 }
}

#[test]
fn test_rounding_absorbs_remainders() {
    // A root with 3 equal children (each 26.666 units)
    let child1 = FlameNode {
        frame: 1,
        live_bytes: 10,
        total_bytes: 10,
        peak_live_bytes: 10,
        live_count: 1,
        total_count: 1,
        children: HashMap::new(),
    };
    let child2 = FlameNode {
        frame: 2,
        live_bytes: 10,
        total_bytes: 10,
        peak_live_bytes: 10,
        live_count: 1,
        total_count: 1,
        children: HashMap::new(),
    };
    let child3 = FlameNode {
        frame: 3,
        live_bytes: 10,
        total_bytes: 10,
        peak_live_bytes: 10,
        live_count: 1,
        total_count: 1,
        children: HashMap::new(),
    };

    let mut children = HashMap::new();
    children.insert(1, child1);
    children.insert(2, child2);
    children.insert(3, child3);

    let root = FlameNode {
        frame: 0,
        live_bytes: 30,
        total_bytes: 30,
        peak_live_bytes: 30,
        live_count: 3,
        total_count: 3,
        children,
    };

    let snapshot = FlameSnapshot {
        root,
        symbols: Arc::new(SymbolSnapshot { frames: Vec::new() }),
        generated_sequence: 1,
    };

    let layout = FlameLayout::build(&snapshot, 80, Metric::LiveBytes, None);

    // Root + 3 children = 4 nodes
    assert_eq!(layout.nodes.len(), 4);

    let child_nodes: Vec<&FlameLayoutNode> = layout.nodes.iter().filter(|n| n.depth == 1).collect();
    assert_eq!(child_nodes.len(), 3);

    let sum_width: u16 = child_nodes.iter().map(|n| n.width).sum();

    // The children exactly sum up to 80, since their live bytes add up to the root's.
    assert_eq!(sum_width, 80);

    let mut widths: Vec<u16> = child_nodes.iter().map(|n| n.width).collect();
    widths.sort();
    assert_eq!(widths, vec![26, 27, 27]);
}

#[test]
fn test_golden_deterministic_tree() {
    let child_a_1 = leaf(3, 10);
    let child_a_2 = leaf(4, 10);

    let mut child_a_children = HashMap::new();
    child_a_children.insert(3, child_a_1);
    child_a_children.insert(4, child_a_2);

    let child_a = FlameNode {
        frame: 1,
        live_bytes: 20,
        total_bytes: 20,
        peak_live_bytes: 20,
        live_count: 2,
        total_count: 2,
        children: child_a_children,
    };
    let child_b = FlameNode {
        frame: 2,
        live_bytes: 30,
        total_bytes: 30,
        peak_live_bytes: 30,
        live_count: 1,
        total_count: 1,
        children: HashMap::new(),
    };

    let mut root_children = HashMap::new();
    root_children.insert(1, child_a);
    root_children.insert(2, child_b);

    let root = FlameNode {
        frame: 0,
        live_bytes: 50,
        total_bytes: 50,
        peak_live_bytes: 50,
        live_count: 3,
        total_count: 3,
        children: root_children,
    };

    let snapshot = snapshot_of(root);

    // child_a = 40 width (20/50 * 100), child_b = 60 width (30/50 * 100),
    // child_a_1 = child_a_2 = 20 width (10/20 * 40)
    let layout = FlameLayout::build(&snapshot, 100, Metric::LiveBytes, None);

    assert_eq!(layout.nodes.len(), 5);

    assert_eq!(layout.nodes[0].frame, 0);
    assert_eq!(layout.nodes[0].depth, 0);
    assert_eq!(layout.nodes[0].x, 0);
    assert_eq!(layout.nodes[0].width, 100);

    // Sort nodes by depth and then x position to check them in a fixed order
    let mut nodes = layout.nodes.clone();
    nodes.sort_by(|a, b| a.depth.cmp(&b.depth).then(a.x.cmp(&b.x)));

    // child_b, since 30 > 20 it comes first
    assert_eq!(nodes[1].frame, 2);
    assert_eq!(nodes[1].depth, 1);
    assert_eq!(nodes[1].x, 0);
    assert_eq!(nodes[1].width, 60);

    // child_a
    assert_eq!(nodes[2].frame, 1);
    assert_eq!(nodes[2].depth, 1);
    assert_eq!(nodes[2].x, 60);
    assert_eq!(nodes[2].width, 40);

    // child_a_1 and child_a_2 both have 10 bytes; either may come first.
    let n3 = &nodes[3];
    let n4 = &nodes[4];
    assert!(n3.frame == 3 || n3.frame == 4);
    assert_eq!(n3.depth, 2);
    assert_eq!(n3.x, 60);
    assert_eq!(n3.width, 20);

    assert!(n4.frame == 3 || n4.frame == 4);
    assert_eq!(n4.depth, 2);
    assert_eq!(n4.x, 80);
    assert_eq!(n4.width, 20);

    // Navigation checks
    let mut nav = FlameNavigator::new();
    assert_eq!(nav.selected_node, Some(0)); // Starts at root

    // Down -> First child (child_b)
    nav.handle_key(NavKey::Down, &layout);
    let child_b_id = nodes[1].id;
    assert_eq!(nav.selected_node, Some(child_b_id));

    // Right -> Next sibling (child_a)
    nav.handle_key(NavKey::Right, &layout);
    let child_a_id = nodes[2].id;
    assert_eq!(nav.selected_node, Some(child_a_id));

    // Left -> Previous sibling (child_b)
    nav.handle_key(NavKey::Left, &layout);
    assert_eq!(nav.selected_node, Some(child_b_id));

    // Right -> child_a again
    nav.handle_key(NavKey::Right, &layout);

    // Down -> First child of child_a
    nav.handle_key(NavKey::Down, &layout);
    assert_eq!(nav.selected_node, Some(nodes[3].id));

    // Up -> Parent (back to child_a)
    nav.handle_key(NavKey::Up, &layout);
    assert_eq!(nav.selected_node, Some(child_a_id));
}

#[test]
fn layout_ids_are_positions_and_only_the_root_is_on_top() {
    let mut kids = HashMap::new();
    kids.insert(1, leaf(1, 5));
    kids.insert(2, leaf(2, 3));
    let root = FlameNode { frame: 0, live_bytes: 8, total_bytes: 8, peak_live_bytes: 8, live_count: 2, total_count: 2, children: kids };
    let layout = FlameLayout::build(&snapshot_of(root), 16, Metric::LiveBytes, None);
    for (i, n) in layout.nodes.iter().enumerate() {
        assert_eq!(n.id, i as u64);
        assert_eq!(n.depth == 0, i == 0);
    }
    assert_eq!(layout.nodes[1].frame, 1);
    assert_eq!(layout.nodes[1].width, 10);
    assert_eq!(layout.nodes[2].x, 10);
    assert_eq!(layout.nodes[2].width, 6);
}

#[test]
fn empty_root_lays_out_nothing() {
    let layout = FlameLayout::build(&snapshot_of(leaf(0, 0)), 80, Metric::LiveBytes, None);
    assert!(layout.nodes.is_empty());
}

#[test]
fn metric_selects_the_figure() {
    let mut kids = HashMap::new();
    let mut a = leaf(1, 10);
    a.live_bytes = 0;
    kids.insert(1, a);
    kids.insert(2, leaf(2, 10));
    let root = FlameNode { frame: 0, live_bytes: 10, total_bytes: 20, peak_live_bytes: 20, live_count: 1, total_count: 2, children: kids };
    let snap = snapshot_of(root);
    assert_eq!(FlameLayout::build(&snap, 40, Metric::LiveBytes, None).nodes.len(), 2);
    let total = FlameLayout::build(&snap, 40, Metric::TotalBytes, None);
    assert_eq!(total.nodes.len(), 3);
    assert_eq!(total.nodes[0].bytes, 20);
}

#[test]
fn focus_lays_out_the_focused_subtree() {
    let mut inner = HashMap::new();
    inner.insert(5, leaf(5, 4));
    let mid = FlameNode { frame: 3, live_bytes: 4, total_bytes: 4, peak_live_bytes: 4, live_count: 1, total_count: 1, children: inner };
    let mut kids = HashMap::new();
    kids.insert(3, mid);
    let root = FlameNode { frame: 0, live_bytes: 4, total_bytes: 4, peak_live_bytes: 4, live_count: 1, total_count: 1, children: kids };
    let snap = snapshot_of(root);
    let focused = FlameLayout::build(&snap, 10, Metric::LiveBytes, Some(3));
    assert_eq!(focused.nodes.len(), 2);
    assert_eq!(focused.nodes[0].frame, 3);
    assert_eq!(focused.nodes[0].depth, 0);
    let missing = FlameLayout::build(&snap, 10, Metric::LiveBytes, Some(42));
    assert_eq!(missing.nodes[0].frame, 0);
    assert_eq!(missing.nodes.len(), 3);
    assert!(FlameLayout::find_node(&snap.root, 5).is_some());
    assert!(FlameLayout::find_node(&snap.root, 6).is_none());
}

#[test]
fn enter_focuses_and_esc_clears() {
    let mut kids = HashMap::new();
    kids.insert(1, leaf(1, 5));
    let root = FlameNode { frame: 0, live_bytes: 5, total_bytes: 5, peak_live_bytes: 5, live_count: 1, total_count: 1, children: kids };
    let layout = FlameLayout::build(&snapshot_of(root), 10, Metric::LiveBytes, None);
    let mut nav = FlameNavigator::default();
    nav.handle_key(NavKey::Down, &layout);
    nav.handle_key(NavKey::Enter, &layout);
    assert_eq!(nav.focused_node, Some(1));
    nav.handle_key(NavKey::Other, &layout);
    assert_eq!(nav.selected_node, Some(1));
    nav.handle_key(NavKey::Esc, &layout);
    assert_eq!(nav.focused_node, None);
    // Up from the root and Left at the top row do not move.
    let mut top = FlameNavigator::new();
    top.handle_key(NavKey::Up, &layout);
    top.handle_key(NavKey::Left, &layout);
    assert_eq!(top.selected_node, Some(0));
}

#[test]
fn find_node_prefers_the_root_and_then_depth_first() {
    let mut inner = HashMap::new();
    inner.insert(7, leaf(7, 1));
    let mut mid = leaf(7, 1);
    mid.children = inner;
    let mut kids = HashMap::new();
    kids.insert(1, mid);
    let root = FlameNode { frame: 7, live_bytes: 1, total_bytes: 1, peak_live_bytes: 1, live_count: 1, total_count: 1, children: kids };
    let found = FlameLayout::find_node(&root, 7).unwrap();
    assert!(std::ptr::eq(found, &root));
    let child = root.children.get(&1).unwrap();
    let deeper = FlameLayout::find_node(child, 7).unwrap();
    assert!(std::ptr::eq(deeper, child));
}

#[test]
fn build_fits_check_rejects_children_heavier_than_their_parent() {
    let mut kids = HashMap::new();
    kids.insert(1, leaf(1, 10));
    let ok = FlameNode { frame: 0, live_bytes: 10, total_bytes: 10, peak_live_bytes: 10, live_count: 1, total_count: 1, children: kids };
    assert!(build_fits_check(&snapshot_of(ok), 20, Metric::LiveBytes, None));
    let mut kids = HashMap::new();
    kids.insert(1, leaf(1, 10));
    kids.insert(2, leaf(2, 10));
    let heavy = FlameNode { frame: 0, live_bytes: 15, total_bytes: 15, peak_live_bytes: 15, live_count: 1, total_count: 1, children: kids };
    assert!(!build_fits_check(&snapshot_of(heavy), 20, Metric::LiveBytes, None));
    assert!(build_fits_check(&snapshot_of(leaf(0, 0)), 20, Metric::LiveBytes, Some(3)));
}
