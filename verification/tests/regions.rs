use seqextract::error::Error;
use seqextract::region::parse_region_line;
use seqextract::region::parse_regions;
use seqextract::region::region_from_parts;
use seqextract::region::split_lines;
use seqextract::region::Region;

fn parts(region: &Region) -> (Vec<u8>, usize, Option<usize>, bool) {
    (region.name.clone(), region.start, region.end, region.reverse)
}

#[test]
fn line_forms() {
    let r = parse_region_line(b"chr1").unwrap();
    assert_eq!(parts(&r), (b"chr1".to_vec(), 1, None, false));
    let r = parse_region_line(b"chr1:10-20").unwrap();
    assert_eq!(parts(&r), (b"chr1".to_vec(), 10, Some(20), false));
    let r = parse_region_line(b"chr1:7").unwrap();
    assert_eq!(parts(&r), (b"chr1".to_vec(), 7, Some(7), false));
    let r = parse_region_line(b"-chr1:10-20").unwrap();
    assert_eq!(parts(&r), (b"chr1".to_vec(), 10, Some(20), true));
    let r = parse_region_line(b"-chr1").unwrap();
    assert_eq!(parts(&r), (b"chr1".to_vec(), 1, None, true));
}

#[test]
fn malformed_lines_are_parse_errors() {
    assert_eq!(parse_region_line(b"").err(), Some(Error::Parse));
    assert_eq!(parse_region_line(b"-").err(), Some(Error::Parse));
    assert_eq!(parse_region_line(b"chr1:x-5").err(), Some(Error::Parse));
    assert_eq!(parse_region_line(b"chr1:5-x").err(), Some(Error::Parse));
    assert_eq!(parse_region_line(b"chr1:0-5").err(), Some(Error::Parse));
    assert_eq!(parse_region_line(b"chr1:9-5").err(), Some(Error::Parse));
    assert_eq!(parse_region_line(b"chr1:-5").err(), Some(Error::Parse));
    assert_eq!(parse_region_line(&[0xff, 0xfe]).err(), Some(Error::Parse));
}

#[test]
fn parts_are_normalized() {
    assert!(region_from_parts(b"a".to_vec(), Some(0), None, false).is_none());
    assert!(region_from_parts(b"a".to_vec(), Some(3), Some(2), false).is_none());
    assert!(region_from_parts(b"a".to_vec(), None, Some(0), false).is_none());
    let r = region_from_parts(b"a".to_vec(), None, Some(4), true).unwrap();
    assert_eq!(parts(&r), (b"a".to_vec(), 1, Some(4), true));
    let r = region_from_parts(b"a".to_vec(), Some(4), Some(4), false).unwrap();
    assert_eq!(parts(&r), (b"a".to_vec(), 4, Some(4), false));
}

#[test]
fn regions_list_keeps_order_and_duplicates_and_skips_bad_lines() {
    let text = b"chr1:1-4\n\nnot:a:region:x\n-chr2\r\nchr1:1-4\nchr3:2";
    let regions = parse_regions(text);
    let got: Vec<_> = regions.iter().map(parts).collect();
    assert_eq!(
        got,
        vec![
            (b"chr1".to_vec(), 1, Some(4), false),
            (b"chr2".to_vec(), 1, None, true),
            (b"chr1".to_vec(), 1, Some(4), false),
            (b"chr3".to_vec(), 2, Some(2), false),
        ]
    );
}

#[test]
fn lines_are_split_at_line_feeds() {
    assert_eq!(split_lines(b""), Vec::<Vec<u8>>::new());
    assert_eq!(split_lines(b"a"), vec![b"a".to_vec()]);
    assert_eq!(split_lines(b"a\n"), vec![b"a".to_vec()]);
    assert_eq!(split_lines(b"a\r\nb\n\nc\r"), vec![b"a".to_vec(), b"b".to_vec(), b"".to_vec(), b"c\r".to_vec()]);
    assert_eq!(split_lines(b"\n"), vec![b"".to_vec()]);
}

#[test]
fn labels_and_keys() {
    let r = Region { name: b"chr1".to_vec(), start: 12, end: Some(3400), reverse: true };
    assert_eq!(r.label(), b"chr1:12-3400".to_vec());
    assert_eq!(r.key(false), b"chr1:12-3400".to_vec());
    assert_eq!(r.key(true), b"chr1".to_vec());
    let r = Region { name: b"chr1".to_vec(), start: 1, end: None, reverse: false };
    assert_eq!(r.label(), b"chr1".to_vec());
}
