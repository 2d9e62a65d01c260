use xmplay::{BinaryReader, BinaryWriter, Row, Symbol, SymbolEncodingSize, SymbolPrefix, SymbolPrefixBits};

fn test_write_read_eq(x: &Symbol) -> bool {
    let mut bw = BinaryWriter::new();
    x.write(&mut bw);
    let data = bw.into_bytes();
    let mut y = Symbol::RowEvent(Row::new());
    let mut br = BinaryReader::new(&data);
    let ok = y.read(&mut br).is_ok();
    ok && *x == y && br.pos == data.len()
}

fn row(note: u8, instrument: u8, volume: u8, effect_type: u8, effect_param: u8) -> Row {
    Row { note, instrument, volume, effect_type, effect_param }
}

fn bytes_of(x: &Symbol) -> Vec<u8> {
    let mut bw = BinaryWriter::new();
    x.write(&mut bw);
    bw.into_bytes()
}

#[test]
fn write_read_eq() {
    assert!(test_write_read_eq(&Symbol::Dictionary(16)));
    assert!(test_write_read_eq(&Symbol::Reference(33)));
    assert!(test_write_read_eq(&Symbol::RLE(5)));
    assert!(test_write_read_eq(&Symbol::RowEvent(Row::new())));
}

#[test]
fn write_read_boundaries() {
    assert!(test_write_read_eq(&Symbol::Dictionary(0)));
    assert!(test_write_read_eq(&Symbol::Dictionary(127)));
    assert!(test_write_read_eq(&Symbol::Reference(0)));
    assert!(test_write_read_eq(&Symbol::Reference(63)));
    for n in [1u16, 31, 32, 33, 1023, 1024, 32767, 32768, 65535] {
        assert!(test_write_read_eq(&Symbol::RLE(n)), "count {}", n);
    }
    assert!(test_write_read_eq(&Symbol::RowEvent(row(60, 1, 0, 0, 0))));
    assert!(test_write_read_eq(&Symbol::RowEvent(row(0, 0, 0x40, 0x0C, 0))));
    assert!(test_write_read_eq(&Symbol::RowEvent(row(97, 2, 0x30, 3, 0xFF))));
}

#[test]
fn symbol_bytes_exact() {
    assert_eq!(bytes_of(&Symbol::Dictionary(16)), vec![0x10]);
    assert_eq!(bytes_of(&Symbol::Reference(33)), vec![0x80 | 33]);
    assert_eq!(bytes_of(&Symbol::RLE(5)), vec![0xC5]);
    assert_eq!(bytes_of(&Symbol::RLE(32)), vec![0xC0, 0xC1]);
    assert_eq!(bytes_of(&Symbol::RLE(33)), vec![0xC1, 0xC1]);
    assert_eq!(bytes_of(&Symbol::RowEvent(Row::new())), vec![0xE0]);
    assert_eq!(bytes_of(&Symbol::RowEvent(row(60, 0, 0, 0x0F, 6))), vec![0xE0 | 0x19, 60, 0x0F, 6]);
    assert_eq!(bytes_of(&Symbol::Unknown), Vec::<u8>::new());
}

#[test]
fn encoding_size_matches_bytes() {
    let symbols = vec![
        Symbol::Dictionary(3),
        Symbol::Reference(7),
        Symbol::RLE(1),
        Symbol::RLE(32),
        Symbol::RLE(1024),
        Symbol::RLE(40000),
        Symbol::RowEvent(row(1, 2, 3, 4, 5)),
        Symbol::Unknown,
    ];
    let mut total = 0;
    for s in &symbols {
        assert_eq!(s.encoding_size(), bytes_of(s).len());
        total += bytes_of(s).len();
    }
    assert_eq!(symbols.as_slice().encoding_size(), total);
    assert_eq!(Symbol::RLE(40000).encoding_size(), 4);
}

#[test]
fn prefix_of_bytes() {
    assert_eq!(0x00u8.symbol_prefix(), SymbolPrefix::Dictionary);
    assert_eq!(0x7Fu8.symbol_prefix(), SymbolPrefix::Dictionary);
    assert_eq!(0x80u8.symbol_prefix(), SymbolPrefix::Reference);
    assert_eq!(0xBFu8.symbol_prefix(), SymbolPrefix::Reference);
    assert_eq!(0xC0u8.symbol_prefix(), SymbolPrefix::RLE);
    assert_eq!(0xDFu8.symbol_prefix(), SymbolPrefix::RLE);
    assert_eq!(0xE0u8.symbol_prefix(), SymbolPrefix::RowEvent);
    assert_eq!(0xFFu8.symbol_prefix(), SymbolPrefix::RowEvent);
}

#[test]
fn read_rejects_truncated_and_long_chains() {
    let mut s = Symbol::Unknown;
    let empty: Vec<u8> = Vec::new();
    let mut br = BinaryReader::new(&empty);
    assert!(s.read(&mut br).is_err());
    let short = vec![0xE3, 60];
    let mut br = BinaryReader::new(&short);
    assert!(s.read(&mut br).is_err());
    assert_eq!(br.pos, 0);
    assert_eq!(s, Symbol::Unknown);
    let long = vec![0xC1, 0xC0, 0xC0, 0xC0, 0xC0];
    let mut br = BinaryReader::new(&long);
    assert!(s.read(&mut br).is_err());
    let chained = vec![0xC1, 0xC1, 0x05];
    let mut br = BinaryReader::new(&chained);
    assert!(s.read(&mut br).is_ok());
    assert_eq!(s, Symbol::RLE(33));
    assert_eq!(br.pos, 2);
}

#[test]
fn symbol_kinds() {
    assert!(Symbol::RowEvent(Row::new()).is_row_event_or_dictionary());
    assert!(Symbol::Dictionary(1).is_row_event_or_dictionary());
    assert!(!Symbol::RLE(1).is_row_event_or_dictionary());
    assert!(Symbol::RLE(1).is_rle());
    assert!(Symbol::Reference(1).is_reference());
    assert!(!Symbol::Dictionary(1).is_reference());
    assert!(Symbol::RowEvent(Row::new()).is_empty_row());
    assert!(!Symbol::RowEvent(row(1, 0, 0, 0, 0)).is_empty_row());
}
