use seqextract::bytes::append_bytes;
use seqextract::bytes::append_decimal;
use seqextract::bytes::same_bytes;
use seqextract::cli::Cli;
use seqextract::complement::reverse_complement;
use seqextract::error::Error;
use seqextract::error::FormatError;
use seqextract::extraction::Extraction;
use seqextract::scan::body_is_marked;
use seqextract::scan::build_index;
use seqextract::scan::entry_marks;
use seqextract::scan::header_is_marked;
use seqextract::scan::is_blank_byte;
use seqextract::index::parse_index;
use seqextract::index::write_index;
use seqextract::index::IndexEntry;
use seqextract::record::write_records;
use seqextract::record::Record;
use seqextract::store::check_read;
use seqextract::store::entries_fit;
use seqextract::store::IndexedStore;

fn fields(e: &IndexEntry) -> (Vec<u8>, u64, u64, u64, u64) {
    (e.name.clone(), e.length, e.offset, e.line_bases, e.line_width)
}

fn record(name: &[u8], sequence: &[u8]) -> Record {
    Record { name: name.to_vec(), description: None, sequence: sequence.to_vec() }
}

#[test]
fn index_of_a_wrapped_collection() {
    let fasta = b">one\nACGTAC\nGTACGT\nAC\n>two desc\nTTTT\nGG\n";
    let entries = build_index(fasta).unwrap();
    let got: Vec<_> = entries.iter().map(fields).collect();
    assert_eq!(
        got,
        vec![(b"one".to_vec(), 14, 5, 6, 7), (b"two".to_vec(), 6, 32, 4, 5)]
    );
}

#[test]
fn index_of_an_empty_collection_is_empty() {
    assert_eq!(build_index(b"").unwrap().len(), 0);
}

#[test]
fn malformed_collections_are_format_errors() {
    let uneven = b">sq0\nACGT\nACG\nACGT\nAC\n";
    assert_eq!(build_index(uneven).err(), Some(Error::Format(FormatError::Collection)));
    let wide = b">sq0\nACGT\nACGT\r\nACGT\nAC\n";
    assert_eq!(build_index(wide).err(), Some(Error::Format(FormatError::Collection)));
    let empty = b">sq0\n";
    assert_eq!(build_index(empty).err(), Some(Error::Format(FormatError::Collection)));
    let second_empty = b">sq0\nACGT\n>sq1\n";
    assert_eq!(build_index(second_empty).err(), Some(Error::Format(FormatError::Collection)));
    let headless = b"ACGT\n";
    assert_eq!(build_index(headless).err(), Some(Error::Format(FormatError::Collection)));
    assert!(matches!(
        IndexedStore::build(uneven.to_vec()),
        Err(Error::Format(FormatError::Collection))
    ));
}

#[test]
fn index_text_round_trip() {
    let entries = vec![
        IndexEntry { name: b"sq0".to_vec(), length: 13, offset: 5, line_bases: 80, line_width: 81 },
        IndexEntry { name: b"sq1".to_vec(), length: 10946, offset: 1024, line_bases: 60, line_width: 62 },
    ];
    let text = write_index(&entries).unwrap();
    assert_eq!(text, b"sq0\t13\t5\t80\t81\nsq1\t10946\t1024\t60\t62\n".to_vec());
    let back = parse_index(&text).unwrap();
    let got: Vec<_> = back.iter().map(fields).collect();
    let want: Vec<_> = entries.iter().map(fields).collect();
    assert_eq!(got, want);
}

#[test]
fn index_text_needs_line_metrics() {
    let entries = vec![IndexEntry { name: b"sq0".to_vec(), length: 13, offset: 5, line_bases: 0, line_width: 81 }];
    assert_eq!(write_index(&entries), Err(Error::Format(FormatError::Index)));
    assert_eq!(parse_index(b"sq0\t13\n").err(), Some(Error::Format(FormatError::Index)));
    assert_eq!(parse_index(b"sq0\t13\t5\t0\t81\n").err(), Some(Error::Format(FormatError::Index)));
    assert_eq!(parse_index(b"").unwrap().len(), 0);
}

#[test]
fn byte_positions_follow_the_line_wrapping() {
    let e = IndexEntry { name: b"one".to_vec(), length: 14, offset: 5, line_bases: 6, line_width: 7 };
    assert_eq!(e.byte_position(1), Some(5));
    assert_eq!(e.byte_position(6), Some(10));
    assert_eq!(e.byte_position(7), Some(12));
    assert_eq!(e.byte_position(14), Some(20));
    assert_eq!(e.byte_position(0), None);
    assert!(e.fits(21));
    assert!(!e.fits(20));
    let e = IndexEntry { name: b"x".to_vec(), length: 2, offset: u64::MAX, line_bases: 1, line_width: 2 };
    assert_eq!(e.byte_position(2), None);
    assert!(!e.fits(usize::MAX));
}

#[test]
fn written_store_reads_back_the_same() {
    let one: Vec<u8> = b"ACGTNacgtn".iter().cycle().take(205).copied().collect();
    let two: Vec<u8> = b"TTGGA".iter().cycle().take(80).copied().collect();
    let three: Vec<u8> = b"G".to_vec();
    let records = vec![record(b"one", &one), record(b"two", &two), record(b"three", &three)];
    for width in [1usize, 7, 80, 500] {
        let text = write_records(&records, width);
        let store = IndexedStore::build(text).unwrap();
        assert_eq!(store.get_whole(b"one"), Ok(one.clone()));
        assert_eq!(store.get_whole(b"two"), Ok(two.clone()));
        assert_eq!(store.get_whole(b"three"), Ok(three.clone()));
        assert_eq!(store.get(b"one", 80, 82), Ok(one[79..82].to_vec()));
    }
}

#[test]
fn records_are_wrapped_at_the_line_width() {
    let long: Vec<u8> = vec![b'A'; 165];
    let mut with_description = record(b"sq1", b"ACGTA");
    with_description.description = Some(b"LN:5".to_vec());
    let text = write_records(&vec![record(b"sq0", &long), with_description, record(b"none", b"")], 80);
    let mut want = b">sq0\n".to_vec();
    want.extend(vec![b'A'; 80]);
    want.push(b'\n');
    want.extend(vec![b'A'; 80]);
    want.push(b'\n');
    want.extend(vec![b'A'; 5]);
    want.extend(b"\n>sq1 LN:5\nACGTA\n>none\n");
    assert_eq!(text, want);
    assert_eq!(write_records(&vec![record(b"s", b"ACGTAC")], 3), b">s\nACG\nTAC\n".to_vec());
}

#[test]
fn reverse_complement_keeps_case_and_knows_ambiguity_codes() {
    assert_eq!(reverse_complement(b"ACGTA"), Ok(b"TACGT".to_vec()));
    assert_eq!(reverse_complement(b"acgtn"), Ok(b"nacgt".to_vec()));
    assert_eq!(reverse_complement(b"WSMKRYBDHVN"), Ok(b"NBDHVRYMKSW".to_vec()));
    assert_eq!(reverse_complement(b"AU"), Ok(b"AT".to_vec()));
    assert_eq!(reverse_complement(b""), Ok(Vec::new()));
    assert_eq!(reverse_complement(b"AC-T"), Err(Error::Complement));
}

#[test]
fn reverse_complement_twice_is_the_identity() {
    let bases = b"ACGTWSMKRYBDHVNacgtwsmkrybdhvn".to_vec();
    let once = reverse_complement(&bases).unwrap();
    assert_eq!(reverse_complement(&once), Ok(bases));
    let with_u = reverse_complement(&reverse_complement(b"GU").unwrap());
    assert_eq!(with_u, Ok(b"GT".to_vec()));
}

#[test]
fn merged_filler_counts() {
    let mut extraction = Extraction::new();
    assert_eq!(extraction.merged(4), Vec::<u8>::new());
    extraction.append(b"a", b"AC");
    assert_eq!(extraction.merged(4), b"AC".to_vec());
    extraction.append(b"b", b"G");
    extraction.append(b"c", b"TTT");
    assert_eq!(extraction.merged(4), b"ACNNNNGNNNNTTT".to_vec());
    assert_eq!(extraction.merged(0), b"ACGTTT".to_vec());
    for gap in 0usize..6 {
        let merged = extraction.merged(gap);
        assert_eq!(merged.len(), 6 + gap * 2);
        assert!(merged.starts_with(b"AC"));
        assert!(merged.ends_with(b"TTT"));
    }
    extraction.append(b"a", b"GG");
    assert_eq!(extraction.merged(1), b"ACGGNGNTTT".to_vec());
    assert_eq!(extraction.find(b"b"), Some(1));
    assert_eq!(extraction.find(b"d"), None);
    assert_eq!(extraction.records().len(), 3);
}

#[test]
fn merging_nothing_gives_an_empty_record_with_its_name() {
    let store = IndexedStore::build(b">chr1\nACGT\n".to_vec()).unwrap();
    let run = seqextract::sequences::Sequences::new(store, "", String::from("regions"));
    assert_eq!(run.write(true, None, 10), b">regions\n".to_vec());
    assert_eq!(run.write(true, Some(String::from("named")), 10), b">named\n".to_vec());
    assert_eq!(run.write(false, None, 10), Vec::<u8>::new());
}

#[test]
fn reads_are_held_against_the_index() {
    let data = b">one\nACGTAC\nGTACGT\nAC\n";
    let entry = IndexEntry { name: b"one".to_vec(), length: 14, offset: 5, line_bases: 6, line_width: 7 };
    assert_eq!(entry.base_at(data, 1), Some(b'A'));
    assert_eq!(entry.base_at(data, 6), Some(b'C'));
    assert_eq!(entry.base_at(data, 7), Some(b'G'));
    assert_eq!(entry.base_at(data, 14), Some(b'C'));
    assert_eq!(entry.base_at(data, 0), None);
    assert_eq!(entry.base_at(data, 40), None);
    assert_eq!(check_read(Some(b"CGT".to_vec()), data, &entry, 6, 8), Ok(b"CGT".to_vec()));
    assert_eq!(
        check_read(Some(b"CG".to_vec()), data, &entry, 6, 8),
        Err(Error::Format(FormatError::Index))
    );
    assert_eq!(
        check_read(Some(b"CGA".to_vec()), data, &entry, 6, 8),
        Err(Error::Format(FormatError::Index))
    );
    assert_eq!(check_read(None, data, &entry, 6, 8), Err(Error::Io));
    assert_eq!(check_read(Some(Vec::new()), data, &entry, 5, 4), Ok(Vec::new()));
    assert_eq!(
        check_read(Some(Vec::new()), data, &entry, 6, 4),
        Err(Error::Format(FormatError::Index))
    );
    assert_eq!(
        check_read(Some(Vec::new()), data, &entry, 0, usize::MAX),
        Err(Error::Format(FormatError::Index))
    );
    assert!(entries_fit(&vec![entry], data.len()));
}

#[test]
fn byte_helpers() {
    assert!(same_bytes(b"abc", b"abc"));
    assert!(!same_bytes(b"abc", b"abd"));
    assert!(!same_bytes(b"abc", b"ab"));
    let mut text = b"n=".to_vec();
    append_decimal(&mut text, 0);
    append_bytes(&mut text, b",");
    append_decimal(&mut text, 1234567890);
    append_bytes(&mut text, b",");
    append_decimal(&mut text, u64::MAX);
    assert_eq!(text, b"n=0,1234567890,18446744073709551615".to_vec());
}

#[test]
fn settings_are_handed_out_unchanged() {
    let cli = Cli {
        fasta: String::from("ref.fa"),
        regions: String::from("regions.txt"),
        output: Some(String::from("out.fa")),
        merge_contigs: true,
        contig_name: None,
        gap_size: 7,
    };
    assert_eq!(cli.get_input(), (String::from("ref.fa"), String::from("regions.txt")));
    assert_eq!(cli.get_output(), (Some(String::from("out.fa")), true, None, 7));
}

#[test]
fn every_symbol_has_the_complement_of_the_table() {
    let pairs: &[(&[u8], &[u8])] = &[
        (b"ACGTUWSMKRYBDHVN", b"TGCAAWSKMYRVHDBN"),
        (b"acgtuwsmkrybdhvn", b"tgcaawskmyrvhdbn"),
    ];
    let mut expected: Vec<Option<u8>> = vec![None; 256];
    for (from, to) in pairs {
        for (a, b) in from.iter().zip(to.iter()) {
            expected[*a as usize] = Some(*b);
        }
    }
    for symbol in 0u8..=255 {
        let got = reverse_complement(&[symbol]);
        match expected[symbol as usize] {
            Some(other) => assert_eq!(got, Ok(vec![other])),
            None => assert_eq!(got, Err(Error::Complement)),
        }
    }
}

#[test]
fn index_of_a_written_collection_describes_it() {
    let long: Vec<u8> = b"ACGT".iter().cycle().take(23).copied().collect();
    let mut described = record(b"short", b"ACG");
    described.description = Some(b"three bases".to_vec());
    let records = vec![record(b"long", &long), described, record(b"even", b"ACGTACGTAC")];
    let text = write_records(&records, 10);
    let entries = build_index(&text).unwrap();
    let got: Vec<_> = entries.iter().map(fields).collect();
    assert_eq!(
        got,
        vec![
            (b"long".to_vec(), 23, 6, 10, 11),
            (b"short".to_vec(), 3, 51, 3, 4),
            (b"even".to_vec(), 10, 61, 10, 11),
        ]
    );
    let store = IndexedStore::open(text, entries).unwrap();
    assert_eq!(store.get_whole(b"long"), Ok(long));
    assert_eq!(store.get_whole(b"short"), Ok(b"ACG".to_vec()));
    assert_eq!(store.get_whole(b"even"), Ok(b"ACGTACGTAC".to_vec()));
}

#[test]
fn unusual_layouts_are_indexed_and_read() {
    let cases: &[(&[u8], &[u8], &[u8])] = &[
        (b">a\nACGT\nACGT\n\n>b\nGG\n", b"a", b"ACGTACGT"),
        (b">a\nACGT\nACGT\n\n>b\nGG\n", b"b", b"GG"),
        (b">a\nACGT\nAC", b"a", b"ACGTAC"),
        (b">a\r\nACGT\r\nAC\n", b"a", b"ACGTAC"),
        (b">a\r\nACGT\r\nAC\r\n>b\r\nT\r\n", b"b", b"T"),
        (b">a\tthe first\nACGT\n", b"a", b"ACGT"),
        (b">a\nACGT", b"a", b"ACGT"),
        (b">a\nACGT\r", b"a", b"ACGT"),
        (b">a\nAC>T\nAC\n", b"a", b"AC>TAC"),
        (b">a\nacgtn\nACGTN\nA\n>b c d\nA\n", b"a", b"acgtnACGTNA"),
        (b">a\nA\nC\nG\n", b"a", b"ACG"),
    ];
    for (text, name, sequence) in cases {
        let store = IndexedStore::build(text.to_vec()).unwrap();
        assert_eq!(store.get_whole(name), Ok(sequence.to_vec()));
    }
}

#[test]
fn entries_are_held_against_the_collection() {
    let data = b">one two\nACGTAC\nGTACGT\nAC\n>next\nA\n";
    let entry = IndexEntry { name: b"one".to_vec(), length: 14, offset: 9, line_bases: 6, line_width: 7 };
    assert!(header_is_marked(data, &entry, 0));
    assert!(body_is_marked(data, &entry, 26));
    assert!(entry_marks(data, &entry, 0, 26));
    assert!(!entry_marks(data, &entry, 0, 25));
    assert!(!entry_marks(data, &entry, 1, 26));
    let short = IndexEntry { length: 13, ..entry.clone() };
    assert!(!body_is_marked(data, &short, 26));
    let long = IndexEntry { length: 15, ..entry.clone() };
    assert!(!body_is_marked(data, &long, 26));
    let narrow = IndexEntry { line_bases: 5, ..entry.clone() };
    assert!(!body_is_marked(data, &narrow, 26));
    let renamed = IndexEntry { name: b"on".to_vec(), ..entry.clone() };
    assert!(!header_is_marked(data, &renamed, 0));
    let moved = IndexEntry { offset: 10, ..entry.clone() };
    assert!(!header_is_marked(data, &moved, 0));
    let swallowing = IndexEntry { name: b"one".to_vec(), length: 19, offset: 9, line_bases: 6, line_width: 7 };
    assert!(!body_is_marked(data, &swallowing, 32));
    assert!(is_blank_byte(b' ') && is_blank_byte(b'\t') && is_blank_byte(b'\n'));
    assert!(is_blank_byte(b'\r') && is_blank_byte(0x0c) && !is_blank_byte(b'A'));
}
