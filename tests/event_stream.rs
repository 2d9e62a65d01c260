use xmplay::event_stream::compress_events;
use xmplay::pattern::extract_channel;
use xmplay::{BinaryWriter, EventStream, Pattern, Row, Symbol};

fn row(note: u8, instrument: u8, volume: u8, effect_type: u8, effect_param: u8) -> Row {
    Row { note, instrument, volume, effect_type, effect_param }
}

fn note(n: u8) -> Symbol {
    Symbol::RowEvent(row(n, 1, 0, 0, 0))
}

/// Events from a string: a letter is a note, `.` an empty row.
fn notes_from_string(notes: &str) -> Vec<Symbol> {
    notes
        .chars()
        .map(|ch| if ch == '.' { Symbol::RowEvent(Row::new()) } else { note(ch as u8) })
        .collect()
}

fn round_trip(events: Vec<Symbol>) -> EventStream {
    let stream = compress_events(0, events.clone());
    assert_eq!(stream.unpack_symbols(), events);
    stream
}

#[test]
fn event_stream_compress_decompress_eq() {
    round_trip(notes_from_string("C...E...G...C...E...G...ABABABAB........CDEFGAB.C...E...G..."));
}

#[test]
fn compress_decompress_eq() {
    round_trip(notes_from_string("A.A.A.A.BBBBBBBBCDCDCDCD....EFGAEFGAEFGA....A.A.A.A."));
}

#[test]
fn channel_compress_decompress_eq() {
    let mut events = Vec::new();
    for i in 0..200u32 {
        let n = (i % 7) as u8 + 40;
        events.push(Symbol::RowEvent(row(n, (i % 3) as u8, 0x40, 0, 0)));
        if i % 5 == 0 {
            events.push(Symbol::RowEvent(Row::new()));
            events.push(Symbol::RowEvent(Row::new()));
        }
    }
    round_trip(events);
}

#[test]
fn round_trip_edge_cases() {
    round_trip(Vec::new());
    round_trip(vec![note(60)]);
    round_trip(vec![note(60); 100]);
    round_trip((1..=90u8).map(note).collect());
    round_trip(vec![Symbol::RowEvent(Row::new()); 70000]);
}

#[test]
fn each_pass_keeps_the_events() {
    let events = notes_from_string("ABCDABCDABCD....ABCDEFGH....EFGHEFGH");
    let mut stream = EventStream::from_symbols(3, events.clone());
    assert_eq!(stream.unpack_symbols(), events);
    stream.compress_rows_rle();
    assert_eq!(stream.unpack_symbols(), events);
    stream.compress_with_dict();
    assert_eq!(stream.unpack_symbols(), events);
    stream.compress_repeated_parts();
    assert_eq!(stream.unpack_symbols(), events);
    assert_eq!(stream.index, 3);
}

#[test]
fn rle_run_becomes_one_count() {
    let mut stream = EventStream::from_symbols(0, vec![note(60); 16]);
    stream.compress_rows_rle();
    assert_eq!(stream.symbols, vec![note(60), Symbol::RLE(15)]);
    assert_eq!(stream.unpack_symbols(), vec![note(60); 16]);
    let mut pair = EventStream::from_symbols(0, vec![note(1), note(1), note(2)]);
    pair.compress_rows_rle();
    assert_eq!(pair.symbols, vec![note(1), Symbol::RLE(1), note(2)]);
}

#[test]
fn rle_never_folds_references() {
    let slice: Vec<Symbol> = vec![note(1), note(2), note(3), note(4)];
    let mut stream = EventStream {
        index: 0,
        symbols: vec![Symbol::Reference(0), Symbol::Reference(0), note(5)],
        row_dict: Vec::new(),
        slice_dict: slice.clone(),
        slices: vec![(0, 4)],
    };
    let before = stream.unpack_symbols();
    stream.compress_rows_rle();
    assert_eq!(stream.symbols, vec![Symbol::Reference(0), Symbol::Reference(0), note(5)]);
    assert_eq!(stream.unpack_symbols(), before);
    assert_eq!(before.len(), 9);
}

#[test]
fn dictionary_respects_cap() {
    let mut events = Vec::new();
    for round in 0..2 {
        for i in 0..130u8 {
            events.push(Symbol::RowEvent(row(i + 1, round + 1, 0x20, 0, 0)));
            events.push(Symbol::RowEvent(row(i + 1, 9, 0x20, 0, 0)));
        }
    }
    let mut stream = EventStream::from_symbols(0, events.clone());
    stream.compress_with_dict();
    assert_eq!(stream.row_dict.len(), 120);
    assert!(stream.row_dict.iter().all(|(_, count)| *count == 2));
    assert_eq!(stream.unpack_symbols(), events);
}

#[test]
fn dictionary_orders_by_frequency() {
    let a = note(10);
    let b = note(20);
    let c = note(30);
    let events = vec![a, b, a, b, c, b, Symbol::RowEvent(Row::new()), Symbol::RowEvent(Row::new())];
    let mut stream = EventStream::from_symbols(0, events.clone());
    stream.compress_with_dict();
    assert_eq!(stream.row_dict, vec![(row(20, 1, 0, 0, 0), 3), (row(10, 1, 0, 0, 0), 2)]);
    assert_eq!(
        stream.symbols,
        vec![
            Symbol::Dictionary(1),
            Symbol::Dictionary(0),
            Symbol::Dictionary(1),
            Symbol::Dictionary(0),
            c,
            Symbol::Dictionary(0),
            Symbol::RowEvent(Row::new()),
            Symbol::RowEvent(Row::new()),
        ]
    );
    assert_eq!(stream.unpack_symbols(), events);
}

#[test]
fn slices_do_not_overlap() {
    let events = notes_from_string("ABCDEFABCDEFABCDEFxyz");
    let mut stream = EventStream::from_symbols(0, events.clone());
    stream.compress_repeated_parts();
    assert!(!stream.slices.is_empty());
    assert!(stream.symbols.iter().any(|s| s.is_reference()));
    for (off, len) in &stream.slices {
        assert!((*off as usize) + (*len as usize) <= stream.slice_dict.len());
        assert!(*len >= 4);
    }
    assert!(stream.slice_dict.iter().all(|s| !s.is_reference()));
    assert_eq!(stream.unpack_symbols(), events);
}

#[test]
fn short_stream_skips_slice_search() {
    for n in 0..=3usize {
        let events: Vec<Symbol> = (0..n).map(|i| note(i as u8 + 1)).collect();
        let mut stream = EventStream::from_symbols(0, events.clone());
        stream.compress_repeated_parts();
        assert_eq!(stream.symbols, events);
        assert!(stream.slices.is_empty());
        assert!(stream.slice_dict.is_empty());
    }
}

#[test]
fn song_with_repeated_pattern() {
    let a = row(50, 2, 0, 0, 0);
    let b = row(52, 2, 0, 0, 0);
    let pat0 = Pattern { num_rows: 16, channels: vec![vec![row(60, 0, 0, 0, 0); 16]] };
    let mut rows1 = vec![a, b];
    let mut rows2 = vec![a, b];
    for i in 0..14u8 {
        rows1.push(row(70 + i, 3, 0, 0, 0));
        rows2.push(row(30 + i, 4, 0, 0, 0));
    }
    let pat1 = Pattern { num_rows: 16, channels: vec![rows1] };
    let pat2 = Pattern { num_rows: 16, channels: vec![rows2] };
    let pat3 = Pattern { num_rows: 16, channels: vec![vec![]] };
    let patterns = vec![pat0, pat1, pat2, pat3];
    let order = vec![0, 1, 0, 2];
    let mut stream = extract_channel(&patterns, &order, 0);
    assert_eq!(stream.symbols.len(), 64);
    let events = stream.symbols.clone();
    stream.compress_rows_rle();
    assert_eq!(&stream.symbols[0..2], &[Symbol::RowEvent(row(60, 0, 0, 0, 0)), Symbol::RLE(15)]);
    assert_eq!(&stream.symbols[18..20], &[Symbol::RowEvent(row(60, 0, 0, 0, 0)), Symbol::RLE(15)]);
    stream.compress_with_dict();
    stream.compress_repeated_parts();
    assert_eq!(stream.slices.len(), 1);
    assert_eq!(stream.symbols[0], Symbol::Reference(0));
    assert_eq!(stream.symbols.iter().filter(|s| **s == Symbol::Reference(0)).count(), 2);
    assert_eq!(stream.unpack_symbols(), events);
}

#[test]
fn missing_rows_are_empty() {
    let p = Pattern { num_rows: 3, channels: vec![vec![row(1, 1, 1, 1, 1)]] };
    assert_eq!(p.get_channel_row(0, 0), row(1, 1, 1, 1, 1));
    assert_eq!(p.get_channel_row(0, 2), Row::new());
    assert_eq!(p.get_channel_row(5, 0), Row::new());
    let stream = extract_channel(&vec![p], &vec![0, 0], 1);
    assert_eq!(stream.symbols, vec![Symbol::RowEvent(Row::new()); 6]);
}

#[test]
fn written_size_matches() {
    let events = notes_from_string("ABCDABCDABCD....ABCDEFGH....EFGHEFGH");
    let stream = compress_events(0, events);
    let mut bw = BinaryWriter::new();
    let n = stream.write(&mut bw);
    assert_eq!(n, bw.pos());
    assert_eq!(n, stream.get_total_encoding_size());
    let bytes = bw.into_bytes();
    assert_eq!(bytes[0] as usize, stream.row_dict.len());
}

#[test]
fn written_block_exact() {
    let stream = EventStream {
        index: 0,
        symbols: vec![Symbol::Dictionary(0), Symbol::RLE(2), Symbol::Reference(0)],
        row_dict: vec![(row(60, 0, 0, 0, 0), 2)],
        slice_dict: vec![note(1), note(2), note(3), note(4)],
        slices: vec![(0, 4)],
    };
    let mut bw = BinaryWriter::new();
    stream.write(&mut bw);
    let mut expected = vec![1, 0xE1, 60, 4];
    for n in 1..=4u8 {
        expected.extend_from_slice(&[0xE3, n, 1]);
    }
    expected.extend_from_slice(&[1, 0, 0, 0, 0x00, 0xC2, 0x80]);
    assert_eq!(bw.into_bytes(), expected);
    assert_eq!(stream.get_total_encoding_size(), expected.len());
    assert_eq!(
        stream.unpack_symbols(),
        vec![
            Symbol::RowEvent(row(60, 0, 0, 0, 0)),
            Symbol::RowEvent(row(60, 0, 0, 0, 0)),
            Symbol::RowEvent(row(60, 0, 0, 0, 0)),
            note(1),
            note(2),
            note(3),
            note(4)
        ]
    );
}

#[test]
fn builder_writes_every_channel() {
    let mut b = xmplay::Builder::new();
    assert_eq!((b.tempo.default, b.bpm.default), (6, 120));
    let pat0 = Pattern {
        num_rows: 8,
        channels: vec![vec![row(60, 1, 0, 0, 0); 8], vec![row(40, 2, 0, 0, 0), Row::new()]],
    };
    b.num_channels = 2;
    b.patterns = vec![pat0];
    b.pattern_order = vec![0, 0, 0];
    let data = b.build();
    assert_eq!(&data[0..4], b"UM01");
    assert_eq!(&data[4..8], &[2, 0, 0, 0]);
    assert_eq!(&data[8..12], &[24, 0, 0, 0]);
    let first = compress_events(0, extract_channel(&b.patterns, &b.pattern_order, 0).symbols);
    let mut bw = BinaryWriter::new();
    let n = first.write(&mut bw);
    assert_eq!(&data[12..12 + n], bw.bytes().as_slice());
    assert_eq!(&data[12 + n..16 + n], &[24, 0, 0, 0]);
}
