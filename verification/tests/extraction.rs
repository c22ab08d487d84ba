use seqextract::error::Error;
use seqextract::error::FormatError;
use seqextract::sequences::extract_region;
use seqextract::sequences::Sequences;
use seqextract::region::Region;
use seqextract::store::IndexedStore;

fn run(fasta: &[u8], regions: &str) -> Sequences {
    Sequences::new(IndexedStore::build(fasta.to_vec()).unwrap(), regions, String::from("regions"))
}

fn names(run: &Sequences) -> Vec<Vec<u8>> {
    run.records().iter().map(|r| r.name.clone()).collect()
}

fn bodies(run: &Sequences) -> Vec<Vec<u8>> {
    run.records().iter().map(|r| r.sequence.clone()).collect()
}

#[test]
fn reversed_region_is_reverse_complemented() {
    let mut run = run(b">chr1\nACGTA\n", "-chr1:1-5\n");
    assert_eq!(run.extract(false), Ok(()));
    assert_eq!(bodies(&run), vec![b"TACGT".to_vec()]);
    assert_eq!(names(&run), vec![b"chr1:1-5".to_vec()]);
}

#[test]
fn two_regions_give_two_records() {
    let mut run = run(b">chr1\nACGTACGT\n", "chr1:1-4\nchr1:5-8\n");
    assert_eq!(run.extract(false), Ok(()));
    assert_eq!(names(&run), vec![b"chr1:1-4".to_vec(), b"chr1:5-8".to_vec()]);
    assert_eq!(bodies(&run), vec![b"ACGT".to_vec(), b"ACGT".to_vec()]);
    assert_eq!(run.write(false, None, 0), b">chr1:1-4\nACGT\n>chr1:5-8\nACGT\n".to_vec());
}

#[test]
fn merging_two_records_puts_the_gap_between_them() {
    let mut run = run(b">chr1\nACGTACGT\n", "chr1:1-4\nchr1:5-8\n");
    assert_eq!(run.extract(false), Ok(()));
    assert_eq!(run.write(true, None, 3), b">regions\nACGTNNNACGT\n".to_vec());
}

#[test]
fn gathering_per_record_joins_regions_of_one_record() {
    let mut run = run(b">chr1\nACGTACGT\n", "chr1:1-4\nchr1:5-8\n");
    assert_eq!(run.extract(true), Ok(()));
    assert_eq!(names(&run), vec![b"chr1".to_vec()]);
    assert_eq!(bodies(&run), vec![b"ACGTACGT".to_vec()]);
    assert_eq!(run.write(true, None, 3), b">regions\nACGTACGT\n".to_vec());
}

#[test]
fn gathering_per_record_keeps_first_seen_order() {
    let fasta = b">a\nAAAA\n>b\nCCCC\n";
    let mut run = run(fasta, "b:1-2\na:1-2\nb:3-4\n");
    assert_eq!(run.extract(true), Ok(()));
    assert_eq!(names(&run), vec![b"b".to_vec(), b"a".to_vec()]);
    assert_eq!(bodies(&run), vec![b"CCCC".to_vec(), b"AA".to_vec()]);
    assert_eq!(run.write(true, Some(String::from("joined")), 2), b">joined\nCCCCNNAA\n".to_vec());
}

#[test]
fn unknown_record_is_not_found() {
    let mut run = run(b">chr1\nACGT\n", "chr1:1-2\nchr9:1-2\nchr1:3-4\n");
    assert_eq!(run.extract(false), Err(Error::NotFound));
    assert_eq!(names(&run), vec![b"chr1:1-2".to_vec()]);
}

#[test]
fn coordinates_beyond_the_record_are_a_range_error() {
    let store = IndexedStore::build(b">chr1\nACGT\n".to_vec()).unwrap();
    assert_eq!(store.get(b"chr1", 1, 5), Err(Error::Range));
    assert_eq!(store.get(b"chr1", 0, 2), Err(Error::Range));
    assert_eq!(store.get(b"chr1", 3, 2), Err(Error::Range));
    assert_eq!(store.get(b"chr1", 5, 5), Err(Error::Range));
    assert_eq!(store.get(b"chr1", 4, 4), Ok(b"T".to_vec()));
    assert_eq!(store.get(b"chr1", 1, 4), Ok(b"ACGT".to_vec()));
    assert_eq!(store.get(b"chr2", 1, 1), Err(Error::NotFound));
}

#[test]
fn queries_cross_line_breaks() {
    let fasta = b">one\nACGTAC\nGTACGT\nAC\n>two desc\nTTTT\nGG\n".to_vec();
    let store = IndexedStore::build(fasta).unwrap();
    assert_eq!(store.get_whole(b"one"), Ok(b"ACGTACGTACGTAC".to_vec()));
    assert_eq!(store.get(b"one", 5, 8), Ok(b"ACGT".to_vec()));
    assert_eq!(store.get(b"one", 6, 13), Ok(b"CGTACGTA".to_vec()));
    assert_eq!(store.get(b"one", 7, 7), Ok(b"G".to_vec()));
    assert_eq!(store.get(b"one", 14, 14), Ok(b"C".to_vec()));
    assert_eq!(store.get_whole(b"two"), Ok(b"TTTTGG".to_vec()));
    assert_eq!(store.get(b"two", 4, 5), Ok(b"TG".to_vec()));
}

#[test]
fn queries_skip_carriage_returns() {
    let fasta = b">one\r\nACGT\r\nACGT\r\nAC\r\n".to_vec();
    let store = IndexedStore::build(fasta).unwrap();
    assert_eq!(store.get(b"one", 3, 6), Ok(b"GTAC".to_vec()));
    assert_eq!(store.get_whole(b"one"), Ok(b"ACGTACGTAC".to_vec()));
}

#[test]
fn whole_record_region_and_single_position() {
    let mut run = run(b">chr1\nACGTACGT\n", "chr1\nchr1:3\n-chr1:3\n");
    assert_eq!(run.extract(false), Ok(()));
    assert_eq!(
        names(&run),
        vec![b"chr1".to_vec(), b"chr1:3-3".to_vec()]
    );
    assert_eq!(bodies(&run), vec![b"ACGTACGT".to_vec(), b"GC".to_vec()]);
}

#[test]
fn repeated_regions_are_appended_again() {
    let mut run = run(b">chr1\nACGTACGT\n", "chr1:1-4\nchr1:1-4\n");
    assert_eq!(run.extract(false), Ok(()));
    assert_eq!(names(&run), vec![b"chr1:1-4".to_vec()]);
    assert_eq!(bodies(&run), vec![b"ACGTACGT".to_vec()]);
}

#[test]
fn extraction_twice_gives_the_same_text() {
    let fasta = b">a\nACGTAC\nGT\n>b\nTTGGCCAA\n";
    let regions = "a:2-7\n-b\nb:1-3\n";
    let mut first = run(fasta, regions);
    let mut second = run(fasta, regions);
    assert_eq!(first.extract(false), second.extract(false));
    assert_eq!(first.write(false, None, 0), second.write(false, None, 0));
    assert_eq!(first.write(true, None, 5), second.write(true, None, 5));
    assert_eq!(first.write(false, None, 0), b">a:2-7\nCGTACG\n>b\nTTGGCCAA\n>b:1-3\nTTG\n".to_vec());
}

#[test]
fn symbol_without_complement_fails_a_reversed_region() {
    let mut run = run(b">chr1\nACXT\n", "chr1\n-chr1\n");
    assert_eq!(run.extract(false), Err(Error::Complement));
    assert_eq!(bodies(&run), vec![b"ACXT".to_vec()]);
}

#[test]
fn extract_region_reads_one_region() {
    let store = IndexedStore::build(b">chr1\nAACCGGTT\n".to_vec()).unwrap();
    let region = Region { name: b"chr1".to_vec(), start: 2, end: Some(5), reverse: false };
    assert_eq!(extract_region(&store, &region), Ok(b"ACCG".to_vec()));
    let region = Region { name: b"chr1".to_vec(), start: 2, end: Some(5), reverse: true };
    assert_eq!(extract_region(&store, &region), Ok(b"CGGT".to_vec()));
    let region = Region { name: b"chr1".to_vec(), start: 1, end: None, reverse: true };
    assert_eq!(extract_region(&store, &region), Ok(b"AACCGGTT".to_vec()));
    let region = Region { name: b"chr1".to_vec(), start: 2, end: Some(9), reverse: false };
    assert_eq!(extract_region(&store, &region), Err(Error::Range));
}

#[test]
fn stale_index_is_refused_or_reported() {
    let fasta = b">chr1\nACGT\n".to_vec();
    let entries = vec![seqextract::index::IndexEntry {
        name: b"chr1".to_vec(),
        length: 40,
        offset: 6,
        line_bases: 4,
        line_width: 5,
    }];
    assert!(matches!(
        IndexedStore::open(fasta.clone(), entries),
        Err(Error::Format(FormatError::Index))
    ));
    let entries = vec![seqextract::index::IndexEntry {
        name: b"chr1".to_vec(),
        length: 5,
        offset: 6,
        line_bases: 9,
        line_width: 10,
    }];
    let store = IndexedStore::open(fasta, entries).unwrap();
    assert_eq!(store.get(b"chr1", 1, 5), Err(Error::Format(FormatError::Index)));
}

#[test]
fn a_given_index_is_used() {
    let fasta = b">chr1\nACGT\nACGT\n".to_vec();
    let entries = vec![seqextract::index::IndexEntry {
        name: b"chr1".to_vec(),
        length: 8,
        offset: 6,
        line_bases: 4,
        line_width: 5,
    }];
    let store = IndexedStore::open(fasta, entries).unwrap();
    let mut run = Sequences::new(store, "chr1:4-5", String::from("r"));
    assert_eq!(run.extract(false), Ok(()));
    assert_eq!(bodies(&run), vec![b"TA".to_vec()]);
    assert_eq!(run.store().entries().len(), 1);
    assert_eq!(run.regions().len(), 1);
}

#[test]
fn a_fresh_index_is_loaded_and_a_stale_one_rebuilt() {
    let fasta = b">chr1\nACGT\nACGT\n".to_vec();
    let (store, anew) = IndexedStore::load(fasta.clone(), None).unwrap();
    assert!(anew);
    assert_eq!(store.entries().len(), 1);
    assert_eq!(store.data(), &fasta);
    let (store, anew) = IndexedStore::load(fasta.clone(), Some(b"chr1\t8\t6\t4\t5\n")).unwrap();
    assert!(!anew);
    assert_eq!(store.get(b"chr1", 4, 5), Ok(b"TA".to_vec()));
    let (store, anew) = IndexedStore::load(fasta.clone(), Some(b"first\t6\t7\t2\t3\n")).unwrap();
    assert!(!anew);
    assert_eq!(store.get_whole(b"first"), Err(Error::Format(FormatError::Index)));
    assert_eq!(store.get(b"first", 1, 2), Ok(b"CG".to_vec()));
    assert_eq!(store.get_whole(b"chr1"), Err(Error::NotFound));
    let (store, anew) = IndexedStore::load(fasta.clone(), Some(b"chr1\t800\t6\t4\t5\n")).unwrap();
    assert!(anew);
    assert_eq!(store.get_whole(b"chr1"), Ok(b"ACGTACGT".to_vec()));
    let (_, anew) = IndexedStore::load(fasta, Some(b"not an index\n")).unwrap();
    assert!(anew);
    assert!(matches!(
        IndexedStore::load(b">chr1\n".to_vec(), Some(b"chr1\t8\t6\t4\t5\n")),
        Err(Error::Format(FormatError::Collection))
    ));
}
