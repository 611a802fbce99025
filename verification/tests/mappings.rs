use one_collect::intern::InternedStrings;
use one_collect::mappings::{ExportDevNode, ExportMapping, ExportMappingLookup, UnwindType, KERNEL_START};
use one_collect::symbols::{ExportSymbol, ExportSymbolReader};

fn new_map(time: u64, start: u64, end: u64, id: usize) -> ExportMapping {
    ExportMapping::new(time, 0, start, end, 0, false, id, UnwindType::Prolog)
}

struct MockSymbolReader {
    symbols: Vec<(u64, u64, String)>,
    current_idx: usize,
    reset_called: bool,
}

impl MockSymbolReader {
    fn new(symbols: Vec<(u64, u64, String)>) -> Self {
        Self { symbols, current_idx: 0, reset_called: false }
    }
}

impl ExportSymbolReader for MockSymbolReader {
    fn reset(&mut self) {
        self.current_idx = 0;
        self.reset_called = true;
    }

    fn next(&mut self) -> bool {
        if self.current_idx < self.symbols.len() {
            self.current_idx += 1;
            true
        } else {
            false
        }
    }

    fn start(&self) -> u64 {
        if self.current_idx > 0 && self.current_idx <= self.symbols.len() {
            self.symbols[self.current_idx - 1].0
        } else {
            0
        }
    }

    fn end(&self) -> u64 {
        if self.current_idx > 0 && self.current_idx <= self.symbols.len() {
            self.symbols[self.current_idx - 1].1
        } else {
            0
        }
    }

    fn name(&self) -> &str {
        if self.current_idx > 0 && self.current_idx <= self.symbols.len() {
            &self.symbols[self.current_idx - 1].2
        } else {
            ""
        }
    }

    fn demangle(&mut self) -> Option<String> {
        None
    }
}

#[test]
fn add_matching_symbols_test() {
    let start = 4096;
    let end = start + 4096;
    let file_offset = 1024;

    let mut mapping = ExportMapping::new(0, 0, start, end, file_offset, false, 0, UnwindType::Prolog);

    let symbols = vec![
        (1024, 1100, "symbol_at_start".to_string()),
        (1150, 1250, "symbol_middle_1".to_string()),
        (1300, 1400, "symbol_middle_2".to_string()),
        (1500, 1600, "symbol_middle_3".to_string()),
        (1700, 1800, "symbol_middle_4".to_string()),
        (1828, 1927, "symbol_at_end".to_string()),
        (4900, 5020, "symbol_near_end".to_string()),
        (6000, 6100, "symbol_out_of_range".to_string()),
    ];

    let mut sym_reader = MockSymbolReader::new(symbols);
    let mut strings = InternedStrings::new(32);

    let mut unique_ips = vec![
        4096, 4222, 4372, 4172, 4322, 4472, 4136, 4272, 4422, 4622, 4822, 8032, 4572, 4672, 4772, 4872, 7972,
        8092, 4999, 4200, 8500,
    ];

    mapping.add_matching_symbols(&mut unique_ips, &mut sym_reader, &mut strings);

    assert_eq!(7, mapping.symbols().len(), "Should have added 7 symbols");
    assert!(sym_reader.reset_called, "Expected reset() to be called");
    assert!(unique_ips.windows(2).all(|w| w[0] <= w[1]), "Expected unique_ips to be sorted");

    let expected_symbols = vec![
        ("symbol_at_start", 4096, 4172),
        ("symbol_middle_1", 4222, 4322),
        ("symbol_middle_2", 4372, 4472),
        ("symbol_middle_3", 4572, 4672),
        ("symbol_middle_4", 4772, 4872),
        ("symbol_at_end", 4900, 4999),
        ("symbol_near_end", 7972, 8092),
    ];

    for (i, (expected_name, expected_start, expected_end)) in expected_symbols.iter().enumerate() {
        assert_eq!(*expected_start, mapping.symbols()[i].start(), "Symbol {} should start at {}", i, expected_start);
        assert_eq!(*expected_end, mapping.symbols()[i].end(), "Symbol {} should end at {}", i, expected_end);
        assert_eq!(
            *expected_name,
            strings.from_id(mapping.symbols()[i].name_id()).unwrap(),
            "Symbol {} should be '{}'",
            i,
            expected_name
        );
    }
}

#[test]
fn lookup() {
    let mappings = vec![new_map(0, 0, 1023, 1), new_map(0, 2048, 3071, 3), new_map(0, 1024, 2047, 2), new_map(100, 128, 255, 4)];

    let mut lookup = ExportMappingLookup::default();

    for mapping in mappings {
        lookup.mappings_mut().push(mapping);
    }

    /* No Time: Linear */
    lookup.set_lookup_min_size(usize::MAX);
    assert_eq!(1, lookup.find(0, None).unwrap().id());
    assert_eq!(2, lookup.find(1024, None).unwrap().id());
    assert_eq!(3, lookup.find(2048, None).unwrap().id());
    assert_eq!(4, lookup.find(128, None).unwrap().id());

    /* No Time: Lookup */
    lookup.set_lookup_min_size(0);
    assert_eq!(1, lookup.find(0, None).unwrap().id());
    assert_eq!(2, lookup.find(1024, None).unwrap().id());
    assert_eq!(3, lookup.find(2048, None).unwrap().id());
    assert_eq!(4, lookup.find(128, None).unwrap().id());

    /* Time: Linear */
    lookup.set_lookup_min_size(usize::MAX);
    assert_eq!(1, lookup.find(0, Some(0)).unwrap().id());
    assert_eq!(2, lookup.find(1024, Some(0)).unwrap().id());
    assert_eq!(3, lookup.find(2048, Some(0)).unwrap().id());
    assert_eq!(1, lookup.find(128, Some(0)).unwrap().id());
    assert_eq!(4, lookup.find(128, Some(100)).unwrap().id());

    /* Time: Lookup */
    lookup.set_lookup_min_size(0);
    assert_eq!(1, lookup.find(0, Some(0)).unwrap().id());
    assert_eq!(2, lookup.find(1024, Some(0)).unwrap().id());
    assert_eq!(3, lookup.find(2048, Some(0)).unwrap().id());
    assert_eq!(1, lookup.find(128, Some(0)).unwrap().id());
    assert_eq!(4, lookup.find(128, Some(100)).unwrap().id());

    lookup.mappings_mut().push(new_map(200, 0, 3071, 5));

    lookup.set_lookup_min_size(usize::MAX);

    /* No Time: Large span Linear */
    assert_eq!(5, lookup.find(0, None).unwrap().id());
    assert_eq!(5, lookup.find(1024, None).unwrap().id());
    assert_eq!(5, lookup.find(2048, None).unwrap().id());
    assert_eq!(5, lookup.find(128, None).unwrap().id());

    /* Time: Large span Linear */
    assert_eq!(1, lookup.find(0, Some(0)).unwrap().id());
    assert_eq!(2, lookup.find(1024, Some(0)).unwrap().id());
    assert_eq!(3, lookup.find(2048, Some(0)).unwrap().id());
    assert_eq!(1, lookup.find(128, Some(0)).unwrap().id());
    assert_eq!(4, lookup.find(128, Some(100)).unwrap().id());

    assert_eq!(5, lookup.find(0, Some(200)).unwrap().id());
    assert_eq!(5, lookup.find(1024, Some(200)).unwrap().id());
    assert_eq!(5, lookup.find(2048, Some(200)).unwrap().id());
    assert_eq!(5, lookup.find(128, Some(200)).unwrap().id());
    assert_eq!(5, lookup.find(128, Some(200)).unwrap().id());

    lookup.set_lookup_min_size(0);

    /* No Time: Large span Lookup */
    assert_eq!(5, lookup.find(0, None).unwrap().id());
    assert_eq!(5, lookup.find(1024, None).unwrap().id());
    assert_eq!(5, lookup.find(2048, None).unwrap().id());
    assert_eq!(5, lookup.find(128, None).unwrap().id());

    /* Time: Large span Lookup */
    assert_eq!(1, lookup.find(0, Some(0)).unwrap().id());
    assert_eq!(2, lookup.find(1024, Some(0)).unwrap().id());
    assert_eq!(3, lookup.find(2048, Some(0)).unwrap().id());
    assert_eq!(1, lookup.find(128, Some(0)).unwrap().id());
    assert_eq!(4, lookup.find(128, Some(100)).unwrap().id());

    assert_eq!(5, lookup.find(0, Some(200)).unwrap().id());
    assert_eq!(5, lookup.find(1024, Some(200)).unwrap().id());
    assert_eq!(5, lookup.find(2048, Some(200)).unwrap().id());
    assert_eq!(5, lookup.find(128, Some(200)).unwrap().id());
    assert_eq!(5, lookup.find(128, Some(200)).unwrap().id());
}

#[test]
fn file_to_va() {
    let start = 4096;
    let end = start + 4096;
    let file_offset = 1024;

    let mapping = ExportMapping::new(0, 0, start, end, file_offset, false, 0, UnwindType::Prolog);

    /* Simple in range case: start */
    let va_range = mapping.file_to_va_range(1024, 1096).unwrap();
    assert_eq!((start, start + 72), va_range);

    /* Simple in range case: middle */
    let va_range = mapping.file_to_va_range(1096, 2048).unwrap();
    assert_eq!((start + 72, start + 72 + 952), va_range);

    /* Entirely out of range cases */
    assert!(mapping.file_to_va_range(end, end + 1).is_none());
    assert!(mapping.file_to_va_range(0, 1023).is_none());

    /* Partial start case */
    let va_range = mapping.file_to_va_range(956, 1096).unwrap();
    assert_eq!((start, start + 72), va_range);

    /* Partial end case */
    let va_range = mapping.file_to_va_range(1096, 9216).unwrap();
    assert_eq!((start + 72, end), va_range);
}

#[test]
fn file_to_va_reversed_range_outside() {
    let mapping = ExportMapping::new(0, 0, 4096, 8192, 1024, false, 0, UnwindType::Prolog);
    assert!(mapping.file_to_va_range(900, 10).is_none());
    assert!(mapping.file_to_va_range(9000, 6000).is_none());
}

#[test]
fn file_to_va_is_identity_for_anon_and_kernel() {
    let anon = ExportMapping::new(0, 0, 4096, 8192, 1024, true, 0, UnwindType::Prolog);
    assert_eq!(Some((10, 20)), anon.file_to_va_range(10, 20));
    let kernel = ExportMapping::new(0, 0, KERNEL_START, KERNEL_START + 4096, 0, false, 0, UnwindType::Prolog);
    assert_eq!(Some((5, 6)), kernel.file_to_va_range(5, 6));
}

#[test]
fn lookup_prefers_newest_then_first_listed() {
    let mut lookup = ExportMappingLookup::default();
    lookup.mappings_mut().push(new_map(10, 0, 100, 1));
    lookup.mappings_mut().push(new_map(10, 50, 150, 2));
    lookup.mappings_mut().push(new_map(20, 90, 200, 3));
    for min in [usize::MAX, 0] {
        lookup.set_lookup_min_size(min);
        assert_eq!(Some(0), lookup.find_index(60, None));
        assert_eq!(Some(2), lookup.find_index(95, None));
        assert_eq!(Some(0), lookup.find_index(95, Some(15)));
        assert_eq!(None, lookup.find_index(95, Some(5)));
        assert_eq!(None, lookup.find_index(201, None));
        assert!(lookup.find(201, None).is_none());
    }
}

#[test]
fn sort_mappings_by_time_is_stable() {
    let mut lookup = ExportMappingLookup::default();
    lookup.mappings_mut().push(new_map(30, 0, 1, 1));
    lookup.mappings_mut().push(new_map(10, 0, 1, 2));
    lookup.mappings_mut().push(new_map(30, 0, 1, 3));
    lookup.mappings_mut().push(new_map(20, 0, 1, 4));
    lookup.sort_mappings_by_time();
    let ids: Vec<usize> = lookup.mappings().iter().map(|m| m.id()).collect();
    assert_eq!(vec![2, 4, 1, 3], ids);
}

#[test]
fn mapping_accessors() {
    let mut m = ExportMapping::new(7, 3, 4096, 8191, 512, false, 9, UnwindType::DWARF);
    assert_eq!(7, m.time());
    assert_eq!(3, m.filename_id());
    assert_eq!(4096, m.start());
    assert_eq!(8191, m.end());
    assert_eq!(4095, m.len());
    assert_eq!(512, m.file_offset());
    assert!(!m.anon());
    assert_eq!(9, m.id());
    assert!(m.contains_ip(4096));
    assert!(m.contains_ip(8191));
    assert!(!m.contains_ip(8192));
    assert!(m.node().is_none());
    m.set_node(ExportDevNode::new(1, 2));
    assert_eq!(2, m.node().as_ref().unwrap().ino());
    m.set_va_offset(100);
    assert_eq!(100, m.va_offset());
    *m.time_mut() = 11;
    assert_eq!(11, m.time());
    *m.end_mut() = 9000;
    assert_eq!(9000, m.end());
    m.add_symbol(ExportSymbol::new(1, 4100, 4200));
    assert_eq!(1, m.symbols().len());
    m.symbols_mut().clear();
    assert_eq!(0, m.symbols().len());
}

#[test]
fn rva_adds_file_and_segment_offsets() {
    let mut m = ExportMapping::new(0, 0, 0x400000, 0x401000, 0x2000, false, 0, UnwindType::DWARF);
    assert_eq!(0x2010, m.rva(0x400010));
    m.set_va_offset(0x1000);
    assert_eq!(0x3010, m.rva(0x400010));
    assert_eq!(UnwindType::DWARF, m.unwind_type());
    assert_eq!((0, 0), (m.key().dev, m.key().ino));
    m.set_node(ExportDevNode::new(8, 42));
    assert_eq!((8, 42), (m.key().dev, m.key().ino));
}

/// A reader that records the calls made on it.
struct LoggingReader {
    inner: MockSymbolReader,
    calls: Vec<char>,
}

impl ExportSymbolReader for LoggingReader {
    fn reset(&mut self) {
        self.calls.push('r');
        self.inner.reset();
    }

    fn next(&mut self) -> bool {
        self.calls.push('n');
        self.inner.next()
    }

    fn start(&self) -> u64 {
        self.inner.start()
    }

    fn end(&self) -> u64 {
        self.inner.end()
    }

    fn name(&self) -> &str {
        self.inner.name()
    }

    fn demangle(&mut self) -> Option<String> {
        self.calls.push('d');
        self.inner.demangle()
    }
}

#[test]
fn add_matching_symbols_reader_calls() {
    let mut mapping = ExportMapping::new(0, 0, 4096, 8192, 1024, false, 0, UnwindType::Prolog);
    let symbols = vec![
        (1024, 1100, "hit".to_string()),
        (1150, 1250, "miss".to_string()),
        (6000, 6100, "outside".to_string()),
        (1300, 1400, "hit_too".to_string()),
    ];
    let mut reader = LoggingReader { inner: MockSymbolReader::new(symbols), calls: Vec::new() };
    let mut strings = InternedStrings::new(8);
    let mut ips = vec![4400, 4100];
    mapping.add_matching_symbols(&mut ips, &mut reader, &mut strings);
    assert_eq!(vec![4100, 4400], ips);
    assert_eq!("rndnnndn", reader.calls.iter().collect::<String>());
    assert_eq!(2, mapping.symbols().len());
}
