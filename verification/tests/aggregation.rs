use mvis::aggregator::Aggregator;
use mvis::types::{AllocationEvent, FrameKey};

fn key(module_base: usize, instruction_pointer: usize) -> FrameKey {
    FrameKey { module_base, instruction_pointer }
}

#[test]
fn test_interner_deduplication() {
    let mut aggregator = Aggregator::new();
    let key1 = FrameKey { module_base: 0x1000, instruction_pointer: 0x1050 };
    let key2 = FrameKey { module_base: 0x1000, instruction_pointer: 0x1050 };
    let key3 = FrameKey { module_base: 0x1000, instruction_pointer: 0x2000 };

    let id1 = aggregator.intern_frame(key1);
    let id2 = aggregator.intern_frame(key2);
    let id3 = aggregator.intern_frame(key3);

    assert_eq!(id1, id2);
    assert_ne!(id1, id3);
    assert_eq!(aggregator.interner.len(), 2);
}

#[test]
fn test_alloc_free_lifecycle() {
    let mut aggregator = Aggregator::new();

    let frame1 = FrameKey { module_base: 0, instruction_pointer: 100 };
    let frame2 = FrameKey { module_base: 0, instruction_pointer: 200 };

    aggregator.process_event(AllocationEvent::Alloc {
        address: 0x1000,
        size: 64,
        thread_id: 1,
        sequence: 1,
        stack: vec![frame1.clone(), frame2.clone()],
    });

    assert_eq!(aggregator.root.live_bytes, 64);
    assert_eq!(aggregator.root.total_bytes, 64);
    assert_eq!(aggregator.root.peak_live_bytes, 64);
    assert_eq!(aggregator.live_allocations.len(), 1);

    aggregator.process_event(AllocationEvent::Alloc {
        address: 0x2000,
        size: 128,
        thread_id: 1,
        sequence: 2,
        stack: vec![frame1.clone()],
    });

    assert_eq!(aggregator.root.live_bytes, 192);
    assert_eq!(aggregator.root.total_bytes, 192);
    assert_eq!(aggregator.root.peak_live_bytes, 192);
    assert_eq!(aggregator.live_allocations.len(), 2);

    aggregator.process_event(AllocationEvent::Free { address: 0x1000, thread_id: 1, sequence: 3 });

    assert_eq!(aggregator.root.live_bytes, 128);
    assert_eq!(aggregator.root.total_bytes, 192); // Total does not decrease
    assert_eq!(aggregator.root.peak_live_bytes, 192); // Peak does not decrease
    assert_eq!(aggregator.live_allocations.len(), 1);
}

#[test]
fn test_allocator_frame_stripping() {
    let mut aggregator = Aggregator::new();
    let key_ntdll = FrameKey { module_base: 0x1, instruction_pointer: 0x100 };
    let key_malloc = FrameKey { module_base: 0x2, instruction_pointer: 0x200 };
    let key_main = FrameKey { module_base: 0x3, instruction_pointer: 0x300 };

    let id_ntdll = aggregator.intern_frame(key_ntdll.clone());
    let id_malloc = aggregator.intern_frame(key_malloc.clone());
    let id_main = aggregator.intern_frame(key_main.clone());

    // Override symbols manually for the test
    aggregator.symbol_table.get_mut(&id_ntdll).unwrap().module = "ntdll".to_string();
    aggregator.symbol_table.get_mut(&id_malloc).unwrap().name = "malloc".to_string();
    aggregator.symbol_table.get_mut(&id_main).unwrap().name = "main".to_string();

    assert!(aggregator.should_strip(id_ntdll));
    assert!(aggregator.should_strip(id_malloc));
    assert!(!aggregator.should_strip(id_main));

    aggregator.process_event(AllocationEvent::Alloc {
        address: 0x5000,
        size: 64,
        thread_id: 1,
        sequence: 1,
        stack: vec![key_ntdll, key_malloc, key_main],
    });

    // Only `main` remains of the stack.
    assert_eq!(aggregator.live_allocations.get(&0x5000).unwrap().stack.len(), 1);
    assert_eq!(aggregator.live_allocations.get(&0x5000).unwrap().stack[0], id_main);
}

#[test]
fn test_determinism() {
    let mut aggregator1 = Aggregator::new();
    let mut aggregator2 = Aggregator::new();

    let events = vec![
        AllocationEvent::Alloc {
            address: 0x1,
            size: 64,
            thread_id: 1,
            sequence: 1,
            stack: vec![FrameKey { module_base: 0, instruction_pointer: 10 }],
        },
        AllocationEvent::Alloc {
            address: 0x2,
            size: 128,
            thread_id: 1,
            sequence: 2,
            stack: vec![FrameKey { module_base: 0, instruction_pointer: 10 }],
        },
        AllocationEvent::Free { address: 0x1, thread_id: 1, sequence: 3 },
    ];

    for event in &events {
        aggregator1.process_event(event.clone());
        aggregator2.process_event(event.clone());
    }

    assert_eq!(aggregator1.root.live_bytes, aggregator2.root.live_bytes);
    assert_eq!(aggregator1.root.total_bytes, aggregator2.root.total_bytes);
    assert_eq!(aggregator1.live_allocations.len(), aggregator2.live_allocations.len());
    assert_eq!(aggregator1.interner.len(), aggregator2.interner.len());
}

#[test]
fn placeholder_symbol_names_the_instruction_pointer() {
    let mut aggregator = Aggregator::new();
    let id = aggregator.intern_frame(key(7, 0x1fa0));
    assert_eq!(id, 1);
    let info = aggregator.symbol_table.get(&id).unwrap();
    assert_eq!(info.name, "0x1fa0");
    assert_eq!(info.module, "unknown");
    assert_eq!(info.address, 0x1fa0);
    assert_eq!(aggregator.next_frame_id, 2);
}

#[test]
fn trie_counts_along_the_outermost_frame_first() {
    let mut aggregator = Aggregator::new();
    // innermost frame first: leaf at 0x20, called from 0x10
    aggregator.process_event(AllocationEvent::Alloc {
        address: 0x100,
        size: 40,
        thread_id: 1,
        sequence: 1,
        stack: vec![key(0, 0x20), key(0, 0x10)],
    });
    let leaf = aggregator.intern_frame(key(0, 0x20));
    let caller = aggregator.intern_frame(key(0, 0x10));
    let outer = aggregator.root.children.get(&caller).unwrap();
    assert_eq!(outer.live_bytes, 40);
    let inner = outer.children.get(&leaf).unwrap();
    assert_eq!(inner.live_bytes, 40);
    assert_eq!(inner.live_count, 1);
}

#[test]
fn alloc_then_free_restores_live_figures() {
    let mut aggregator = Aggregator::new();
    aggregator.process_event(AllocationEvent::Alloc {
        address: 0x1,
        size: 10,
        thread_id: 1,
        sequence: 1,
        stack: vec![key(0, 1)],
    });
    let before_live = aggregator.root.live_bytes;
    aggregator.process_event(AllocationEvent::Alloc {
        address: 0x2,
        size: 30,
        thread_id: 1,
        sequence: 2,
        stack: vec![key(0, 1), key(0, 2)],
    });
    aggregator.process_event(AllocationEvent::Free { address: 0x2, thread_id: 1, sequence: 3 });
    assert_eq!(aggregator.root.live_bytes, before_live);
    assert_eq!(aggregator.root.total_bytes, 40);
    assert_eq!(aggregator.root.peak_live_bytes, 40);
    assert_eq!(aggregator.live_allocations.len(), 1);
}

#[test]
fn free_of_unknown_address_changes_nothing() {
    let mut aggregator = Aggregator::new();
    aggregator.process_event(AllocationEvent::Free { address: 0x99, thread_id: 1, sequence: 1 });
    assert_eq!(aggregator.root.live_bytes, 0);
    assert_eq!(aggregator.root.live_count, 0);
    assert!(aggregator.live_allocations.is_empty());
}

#[test]
fn a_stack_of_allocator_frames_only_is_kept_whole() {
    let mut aggregator = Aggregator::new();
    let a = aggregator.intern_frame(key(1, 1));
    let b = aggregator.intern_frame(key(1, 2));
    aggregator.symbol_table.get_mut(&a).unwrap().name = "HeapAlloc".to_string();
    aggregator.symbol_table.get_mut(&b).unwrap().module = "libc.so.6".to_string();
    aggregator.process_event(AllocationEvent::Alloc {
        address: 0x7,
        size: 8,
        thread_id: 1,
        sequence: 1,
        stack: vec![key(1, 1), key(1, 2)],
    });
    assert_eq!(aggregator.live_allocations.get(&0x7).unwrap().stack, vec![a, b]);
}

#[test]
fn accepts_rejects_an_allocation_that_would_overflow_totals() {
    let mut aggregator = Aggregator::new();
    aggregator.root.total_bytes = u64::MAX - 4;
    let ok = AllocationEvent::Alloc { address: 1, size: 4, thread_id: 0, sequence: 0, stack: vec![] };
    let too_big = AllocationEvent::Alloc { address: 1, size: 5, thread_id: 0, sequence: 0, stack: vec![] };
    assert!(aggregator.accepts(&ok));
    assert!(!aggregator.accepts(&too_big));
    assert!(aggregator.accepts(&AllocationEvent::Free { address: 1, thread_id: 0, sequence: 0 }));
}

#[test]
fn run_publishes_when_the_interval_has_passed() {
    let mut aggregator = Aggregator::default();
    let event = AllocationEvent::Alloc { address: 0x1000, size: 64, thread_id: 1, sequence: 1, stack: Vec::new() };
    assert!(aggregator.run(event.clone(), true, 100, 500).is_none());
    let snapshot = aggregator.run(
        AllocationEvent::Alloc { address: 0x2000, size: 36, thread_id: 1, sequence: 2, stack: Vec::new() },
        true,
        500,
        500,
    );
    let snapshot = snapshot.unwrap();
    assert_eq!(snapshot.root.live_bytes, 100);
    assert_eq!(snapshot.generated_sequence, 0);
    assert_eq!(snapshot.symbols.frames.len(), 1);
    assert!(aggregator.run(AllocationEvent::Free { address: 0x1000, thread_id: 1, sequence: 3 }, false, 900, 500).is_none());
    assert_eq!(aggregator.root.live_bytes, 36);
}

#[test]
fn snapshot_indexes_symbols_by_frame_id() {
    let mut aggregator = Aggregator::new();
    aggregator.intern_frame(key(0, 0xab));
    aggregator.intern_frame(key(0, 0xcd));
    let snapshot = aggregator.snapshot();
    assert_eq!(snapshot.symbols.frames.len(), 3);
    assert_eq!(snapshot.symbols.frames[0].name, "");
    assert_eq!(snapshot.symbols.frames[1].name, "0xab");
    assert_eq!(snapshot.symbols.get(2).unwrap().name, "0xcd");
    assert!(snapshot.symbols.get(3).is_none());
}
