use mvis::export::{heap_to_junit_xml, region_entries, CheckResult};
use mvis::flame_chart::colors::{get_color, ChartColor, ColorMode};
use mvis::flame_chart::layout::{FlameLayout, FlameLayoutNode};
use mvis::flame_chart::navigation::FlameNavigator;
use mvis::flame_chart::renderer::{Area, FlameChartWidget};
use mvis::flame_chart::snapshot::SymbolSnapshot;
use mvis::hex_dump::format_hex_dump;
use mvis::tracing::trace_allocations;
use mvis::types::{Region, RegionKind, RegionProtect, RegionState, SymbolInfo};

#[test]
fn hex_dump_of_nothing() {
    assert_eq!(format_hex_dump(0x1000, &[]), vec!["  <no bytes read>".to_string()]);
}

#[test]
fn hex_dump_full_line() {
    let bytes: Vec<u8> = (0x41u8..0x51).collect();
    let lines = format_hex_dump(0x7ffe_1234, &bytes);
    assert_eq!(lines.len(), 1);
    assert_eq!(
        lines[0],
        "0x00007ffe1234:  41 42 43 44 45 46 47 48  49 4a 4b 4c 4d 4e 4f 50  |ABCDEFGHIJKLMNOP|"
    );
}

#[test]
fn hex_dump_short_line_is_padded_and_dots_unprintables() {
    let lines = format_hex_dump(0x10, &[0x00, 0x20, 0x7e, 0x7f, 0xff]);
    assert_eq!(lines, vec!["0x000000000010:  00 20 7e 7f ff           |. ~..|".to_string()]);
}

#[test]
fn hex_dump_breaks_every_sixteen_bytes() {
    let bytes: Vec<u8> = (0u8..20).collect();
    let lines = format_hex_dump(0xfff0, &bytes);
    assert_eq!(lines.len(), 2);
    assert!(lines[0].starts_with("0x00000000fff0:  00 01"));
    assert_eq!(lines[1], "0x000000010000:  10 11 12 13              |....|");
    let nine: Vec<u8> = vec![b'a'; 9];
    assert_eq!(
        format_hex_dump(0, &nine)[0],
        "0x000000000000:  61 61 61 61 61 61 61 61  61  |aaaaaaaaa|"
    );
}

fn node(frame: u32, x: u16, width: u16, depth: u16, bytes: u64, id: u64) -> FlameLayoutNode {
    FlameLayoutNode { id, frame, x, width, depth, bytes }
}

fn symbols(names: &[(&str, &str)]) -> SymbolSnapshot {
    SymbolSnapshot {
        frames: names
            .iter()
            .map(|(n, m)| SymbolInfo { name: n.to_string(), module: m.to_string(), address: 0 })
            .collect(),
    }
}

#[test]
fn colors_by_mode() {
    let syms = symbols(&[("root", ""), ("f", "ab")]);
    assert_eq!(get_color(&node(0, 0, 4, 0, 0, 0), ColorMode::Depth, &syms), ChartColor::Rgb(255, 100, 100));
    assert_eq!(get_color(&node(0, 0, 4, 4, 0, 0), ColorMode::Depth, &syms), ChartColor::Rgb(100, 255, 100));
    assert_eq!(get_color(&node(0, 0, 4, 5, 0, 0), ColorMode::Depth, &syms), ChartColor::Rgb(100, 100, 255));
    // 'a' + 'b' = 195; 195 % 215 + 16 = 211
    assert_eq!(get_color(&node(1, 0, 4, 1, 0, 0), ColorMode::Module, &syms), ChartColor::Indexed(211));
    assert_eq!(get_color(&node(9, 0, 4, 1, 0, 0), ColorMode::Module, &syms), ChartColor::DarkGray);
    assert_eq!(get_color(&node(0, 0, 4, 1, 300, 0), ColorMode::Bytes, &syms), ChartColor::Rgb(255, 210, 0));
    assert_eq!(get_color(&node(0, 0, 4, 1, 255, 0), ColorMode::Bytes, &syms), ChartColor::Rgb(255, 255, 0));
    assert_eq!(get_color(&node(0, 0, 4, 1, 0, 0), ColorMode::Mono, &syms), ChartColor::DarkGray);
}

#[test]
fn module_hash_wraps_around_and_counts_utf8_bytes() {
    let long = "z".repeat(600); // 600 * 122 = 73200, 73200 mod 65536 = 7664
    let syms = symbols(&[("x", long.as_str()), ("y", "\u{e9}")]);
    assert_eq!(get_color(&node(0, 0, 4, 1, 0, 0), ColorMode::Module, &syms), ChartColor::Indexed((7664 % 215 + 16) as u8));
    // U+00E9 is 0xC3 0xA9 in UTF-8: 195 + 169 = 364
    assert_eq!(get_color(&node(1, 0, 4, 1, 0, 0), ColorMode::Module, &syms), ChartColor::Indexed((364 % 215 + 16) as u8));
}

#[test]
fn render_clips_skips_and_labels() {
    let layout = FlameLayout {
        nodes: vec![
            node(0, 0, 30, 0, 10, 0),
            node(1, 0, 4, 1, 5, 1),
            node(2, 4, 0, 1, 0, 2),
            node(3, 4, 12, 1, 5, 3),
            node(4, 4, 2, 2, 1, 4),
            node(9, 6, 7, 1, 1, 5),
        ],
    };
    let syms = symbols(&[("", "m"), ("alloc_vec", "m"), ("b", "m"), ("a_very_long_symbol_name", "m"), ("zz", "m")]);
    let mut nav = FlameNavigator::new();
    nav.selected_node = Some(3);
    let widget = FlameChartWidget::new(&layout, &syms, Some(&nav), ColorMode::Mono);
    let bars = widget.render(Area { x: 2, y: 1, width: 40, height: 2 });
    // node 2 has no width, node 4 is below the area
    assert_eq!(bars.len(), 4);
    assert_eq!((bars[0].x, bars[0].y, bars[0].width), (2, 1, 30));
    assert_eq!(bars[0].label.as_deref(), Some("unknown"));
    assert!(!bars[0].selected);
    assert_eq!(bars[1].label.as_deref(), Some("allo"));
    assert_eq!(bars[2].label.as_deref(), Some("a_very_lo..."));
    assert!(bars[2].selected);
    assert_eq!((bars[2].x, bars[2].y), (6, 2));
    // frame 9 has no symbol: no label
    assert_eq!(bars[3].label, None);
    assert_eq!(bars[3].color, ChartColor::DarkGray);
    let plain = FlameChartWidget::new(&layout, &syms, None, ColorMode::Depth);
    assert!(plain.render(Area { x: 0, y: 0, width: 40, height: 3 }).iter().all(|b| !b.selected));
}

#[test]
fn narrow_bars_get_short_or_no_labels() {
    let layout = FlameLayout { nodes: vec![node(0, 0, 2, 0, 1, 0), node(0, 0, 3, 1, 1, 1), node(0, 0, 6, 2, 1, 2)] };
    let syms = symbols(&[("abcdefgh", "")]);
    let widget = FlameChartWidget::new(&layout, &syms, None, ColorMode::Mono);
    let bars = widget.render(Area { x: 0, y: 0, width: 10, height: 10 });
    assert_eq!(bars[0].label, None);
    assert_eq!(bars[1].label.as_deref(), Some("abc"));
    assert_eq!(bars[2].label.as_deref(), Some("abc..."));
    let fits = symbols(&[("abcdef", "")]);
    let w = FlameChartWidget::new(&layout, &fits, None, ColorMode::Mono);
    assert_eq!(w.render(Area { x: 0, y: 0, width: 10, height: 10 })[2].label.as_deref(), Some("abcdef"));
}

#[test]
fn region_entries_pair_regions_with_labels() {
    let region = |base: usize, name: &str| Region {
        base,
        size: 0x1000,
        state: RegionState::Committed,
        kind: RegionKind::Private,
        protect: RegionProtect::ReadWrite,
        name: name.to_string(),
    };
    let regions = vec![region(0x1000, "heap"), region(0x2000, "stack"), region(0x3000, "anon")];
    let entries = region_entries(&regions, &vec!["h", "s"]);
    assert_eq!(entries.len(), 2);
    assert_eq!(entries[0].base, 0x1000);
    assert_eq!(entries[0].name, "heap");
    assert_eq!(entries[0].label, "h");
    assert_eq!(entries[1].label, "s");
    assert_eq!(entries[1].protect, RegionProtect::ReadWrite);
    assert_eq!(region_entries(&regions[..1].to_vec(), &vec!["a", "b", "c"]).len(), 1);
}

#[test]
fn junit_report_counts_and_messages() {
    let results = vec![
        CheckResult { name: "max-memory".to_string(), passed: true, message: None },
        CheckResult { name: "leak-check".to_string(), passed: false, message: Some("memory leak detected".to_string()) },
    ];
    let xml = heap_to_junit_xml(results).unwrap();
    assert!(xml.contains("mvis-ci-checks"));
    assert!(xml.contains("memory-checks"));
    assert!(xml.contains("tests=\"2\""));
    assert!(xml.contains("failures=\"1\""));
    assert!(xml.contains("memory leak detected"));
    assert!(xml.contains("max-memory"));
    assert_eq!(xml.matches("<failure").count(), 1);
}

#[test]
fn tracing_is_not_available_here() {
    match trace_allocations(1, 5, &[]) {
        Err(m) => assert_eq!(m, "Linux allocation tracing is not yet implemented"),
        Ok(_) => panic!("expected an error"),
    }
}
