use one_collect::symbols::{ExportSymbolReader, SymbolPageMap};

#[test]
fn symbol_page_map() {
    let mut map = SymbolPageMap::new(256);

    map.mark_ip(0);
    map.mark_ip(257);
    map.mark_ip(1024);

    assert!(map.seen_range(0, 256));
    assert!(map.seen_range(257, 257));
    assert!(map.seen_range(511, 511));
    assert!(!map.seen_range(512, 1023));
    assert!(map.seen_range(1024, 4096));
    assert!(map.seen_range(1279, 1279));
    assert!(!map.seen_range(1280, 4096));
}

#[test]
fn symbol_page_map_zero_page_size() {
    let mut map = SymbolPageMap::new(0);
    map.mark_ip(100);
    assert!(map.seen_range(100, 200));
    assert!(!map.seen_range(200, 100));
}


use one_collect::symbols::{
    ElfSymbol, ElfSymbolReader, KernelSymbolReader, PerfMapSymbolReader, R2RLoadedLayoutSymbolTransformer,
    R2RMapSymbolReader,
};

fn lines(text: &str) -> Vec<String> {
    text.split_inclusive('\n').map(|l| l.to_string()).collect()
}

#[test]
fn kernel_symbol_reader_lines() {
    let mut reader = KernelSymbolReader::new();
    assert!(!reader.next());

    reader.set_lines(lines(
        "000000000000000a T method1\n00000000000000aa d some_data\n00000000000000ac t method2 [module]\n00000000000000bb T method3\n",
    ));

    for _ in 0..4 {
        assert!(reader.next());
        assert_eq!(0x0A, reader.start());
        assert_eq!(0xA9, reader.end());
        assert_eq!("method1", reader.name());

        assert!(reader.next());
        assert_eq!(0xAC, reader.start());
        assert_eq!(0xBA, reader.end());
        assert_eq!("[module] method2", reader.name());

        assert!(reader.next());
        assert_eq!(0xBB, reader.start());
        assert_eq!(0xFFFFFFFFFFFFFFFF, reader.end());
        assert_eq!("method3", reader.name());
        assert!(reader.demangle().is_none());

        assert!(!reader.next());

        reader.reset();
    }
}

#[test]
fn kernel_symbols_with_hidden_addresses_end_at_the_top() {
    let mut reader = KernelSymbolReader::new();
    reader.set_lines(lines("0000000000000000 T a\n0000000000000000 T b\n"));
    assert!(reader.next());
    assert_eq!(0, reader.start());
    assert_eq!(u64::MAX, reader.end());
    assert!(reader.next());
    assert!(!reader.next());
}

#[test]
fn perf_map_reader_needs_reset_and_parses_lines() {
    let mut reader = PerfMapSymbolReader::new(lines(
        "7F148458E6A0 1B0 int32 [System.Private.CoreLib] System.SpanHelpers::IndexOf(char&,char,int32)[OptimizedTier1]\n0x1000 10 with\0nul\r\n",
    ));
    assert!(!reader.next());
    reader.reset();
    assert!(reader.next());
    assert_eq!(0x7F148458E6A0, reader.start());
    assert_eq!(0x7F148458E6A0 + 0x1B0, reader.end());
    assert_eq!(
        "int32 [System.Private.CoreLib] System.SpanHelpers::IndexOf(char&,char,int32)[OptimizedTier1]",
        reader.name()
    );
    assert!(reader.next());
    assert_eq!(0x1000, reader.start());
    assert_eq!(0x1010, reader.end());
    assert_eq!("with", reader.name());
    assert!(!reader.next());
    assert_eq!(0, reader.start());
    assert_eq!("", reader.name());
}

#[test]
fn perf_map_skips_malformed_lines_inline() {
    let mut reader = PerfMapSymbolReader::new(lines(&[
        "0x7a231c4c0020 c49 instance bool [System.Private.CoreLib] System.IO.Enumeration.FileSystemEnumerator`1[System.__Canon]::MoveNext()[OptimizedTier1]\n",
        "0x7a231c4c0cb0 4 stub\n",
        "rs.HeaderDescriptor,string)[OptimizedTier1]\n",
        "7402ec4bb340 1668 JS:*'parserOnIncoming node:_http_server:1084:26\n",
        "del.Protocols.OpenIdConnect 12 x\n",
        "7402ec4bca40 11e0 JS:*'write_ node:_http_outgoing:887:16\n",
        "0X7402EC2F8640 250 JS:+ node:internal/deps/undici/undici:3179:40\n",
        "1234\n",
    ].concat()));
    reader.reset();

    assert!(reader.next());
    assert_eq!(0x7a231c4c0020, reader.start());
    assert_eq!(0x7a231c4c0020 + 0xc49, reader.end());
    assert_eq!(
        reader.name(),
        "instance bool [System.Private.CoreLib] System.IO.Enumeration.FileSystemEnumerator`1[System.__Canon]::MoveNext()[OptimizedTier1]"
    );

    assert!(reader.next());
    assert_eq!(0x7a231c4c0cb0, reader.start());
    assert_eq!(0x7a231c4c0cb0 + 0x4, reader.end());

    assert!(reader.next());
    assert_eq!(0x7402ec4bb340, reader.start());
    assert_eq!(0x7402ec4bb340 + 0x1668, reader.end());
    assert_eq!(reader.name(), "JS:*'parserOnIncoming node:_http_server:1084:26");

    assert!(reader.next());
    assert_eq!(0x7402ec4bca40, reader.start());
    assert_eq!(0x7402ec4bca40 + 0x11e0, reader.end());
    assert_eq!(reader.name(), "JS:*'write_ node:_http_outgoing:887:16");

    assert!(reader.next());
    assert_eq!(0x7402EC2F8640, reader.start());
    assert_eq!(0x7402EC2F8640 + 0x250, reader.end());
    assert_eq!(reader.name(), "JS:+ node:internal/deps/undici/undici:3179:40");

    assert!(!reader.next());
}

fn r2r_lines() -> Vec<String> {
    lines(&[
        "FFFFFFFE 0 header entry\n",
        "FFFFFFFF 0 7B8E6711BFD1A8791184F7DB99CDB3A5\n",
        "FFFFFFF8 0 more header\n",
        "0011D1D0 23 Interop::CheckIo(Interop+Error, System.String, System.Boolean)\n",
        "0x0011FB00 54 System.Int32 Interop+ErrorInfo::get_RawErrno()\r\n",
    ].concat())
}

#[test]
fn r2r_map_symbol_reader_lines() {
    let mut reader = R2RMapSymbolReader::new(r2r_lines());
    assert_eq!(&[0u8; 16], reader.signature());
    reader.reset();

    let expected_signature: [u8; 16] =
        [0x7B, 0x8E, 0x67, 0x11, 0xBF, 0xD1, 0xA8, 0x79, 0x11, 0x84, 0xF7, 0xDB, 0x99, 0xCD, 0xB3, 0xA5];
    assert_eq!(&expected_signature, reader.signature());

    assert!(reader.next());
    assert_eq!(0x0011D1D0, reader.start());
    assert_eq!(0x0011D1D0 + 0x23, reader.end());
    assert_eq!(reader.name(), "Interop::CheckIo(Interop+Error, System.String, System.Boolean)");

    assert!(reader.next());
    assert_eq!(0x0011FB00, reader.start());
    assert_eq!(0x0011FB00 + 0x54, reader.end());
    assert_eq!(reader.name(), "System.Int32 Interop+ErrorInfo::get_RawErrno()");

    assert!(!reader.next());
}

#[test]
fn r2r_map_without_signature_has_no_symbols() {
    let mut reader = R2RMapSymbolReader::new(lines("0011D1D0 23 a\n0011E880 A5 b\n"));
    reader.reset();
    assert_eq!(&[0u8; 16], reader.signature());
    assert!(!reader.next());
}

#[test]
fn r2r_bad_signature_reads_as_zeros() {
    let mut reader = R2RMapSymbolReader::new(lines("FFFFFFFF 0 7B8E6711BFD1A8791184F7DB99CDB3AZ\n10 2 f\n"));
    reader.reset();
    assert_eq!(&[0u8; 16], reader.signature());
    assert!(reader.next());
    assert_eq!("f", reader.name());
}

#[test]
fn r2r_transformer_shifts_by_offset() {
    let mut reader = R2RLoadedLayoutSymbolTransformer::new(R2RMapSymbolReader::new(r2r_lines()), 0x1000);
    reader.reset();
    assert!(reader.next());
    assert_eq!(0x0011D1D0 - 0x1000, reader.start());
    assert_eq!(0x0011D1D0 + 0x23 - 0x1000, reader.end());
    assert_eq!(reader.name(), "Interop::CheckIo(Interop+Error, System.String, System.Boolean)");
    assert!(reader.demangle().is_none());
}

#[test]
fn elf_symbol_reader_yields_symbols() {
    let mut reader = ElfSymbolReader::new(vec![
        ElfSymbol { start: 0x10, end: 0x20, name: "_ZN3foo3barEv".to_string(), demangled: Some("foo::bar()".to_string()) },
        ElfSymbol { start: 0x30, end: 0x30, name: "plain".to_string(), demangled: None },
    ]);
    assert_eq!(0, reader.start());
    assert_eq!("", reader.name());
    assert!(reader.next());
    assert_eq!(0x10, reader.start());
    assert_eq!(0x20, reader.end());
    assert_eq!("_ZN3foo3barEv", reader.name());
    assert_eq!(Some("foo::bar()".to_string()), reader.demangle());
    assert!(reader.next());
    assert_eq!("plain", reader.name());
    assert!(reader.demangle().is_none());
    assert!(!reader.next());
    assert_eq!(0, reader.start());
    reader.reset();
    assert!(reader.next());
    assert_eq!(0x10, reader.start());
}
