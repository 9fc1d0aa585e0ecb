use datesync::catalog::{Catalog, DateRecord, FileRecord};
use datesync::codec::{encode_catalog, parse_catalog};

fn fr(name: &str) -> FileRecord {
    FileRecord { file_name: name.to_string() }
}

fn sample_catalog() -> Catalog {
    Catalog {
        watermark: Some(20240104),
        records: vec![
            (
                20240101,
                DateRecord { downloaded: false, files: vec![fr("a.zip"), fr("b.zip")] },
            ),
            (20240102, DateRecord { downloaded: true, files: vec![fr("c.zip")] }),
            (20240103, DateRecord { downloaded: false, files: vec![] }),
        ],
    }
}

#[test]
fn encode_writes_canonical_text() {
    let text = encode_catalog(&sample_catalog());
    assert_eq!(
        text,
        "last_update=20240104\n20240101 0 a.zip b.zip\n20240102 1 c.zip\n20240103 0\n"
    );
}

#[test]
fn encode_without_watermark() {
    let c = Catalog {
        watermark: None,
        records: vec![(20240101, DateRecord { downloaded: false, files: vec![fr("x.zip")] })],
    };
    assert_eq!(encode_catalog(&c), "last_update=-\n20240101 0 x.zip\n");
}

#[test]
fn round_trip_preserves_catalog() {
    let c = sample_catalog();
    let text = encode_catalog(&c);
    let back = parse_catalog(text.as_str()).expect("canonical text must parse");
    assert!(back == c);
}

#[test]
fn round_trip_without_watermark() {
    let c = Catalog {
        watermark: None,
        records: vec![(20231231, DateRecord { downloaded: true, files: vec![fr("y.zip")] })],
    };
    let back = parse_catalog(encode_catalog(&c).as_str()).expect("canonical text must parse");
    assert!(back == c);
}

#[test]
fn round_trip_empty_catalog() {
    let c = Catalog { watermark: Some(20240104), records: vec![] };
    let back = parse_catalog(encode_catalog(&c).as_str()).expect("canonical text must parse");
    assert!(back == c);
}

#[test]
fn parse_rejects_garbage() {
    assert!(parse_catalog("not a catalog").is_none());
    assert!(parse_catalog("").is_none());
    assert!(parse_catalog("{\"last_update\":\"2024-01-04\"}").is_none());
}

#[test]
fn parse_rejects_missing_header() {
    assert!(parse_catalog("20240101 0 a.zip\n").is_none());
}

#[test]
fn parse_rejects_bad_watermark() {
    assert!(parse_catalog("last_update=2024010\n").is_none());
    assert!(parse_catalog("last_update=20241301\n").is_none());
    assert!(parse_catalog("last_update=20240104").is_none());
}

#[test]
fn parse_rejects_duplicate_keys() {
    assert!(parse_catalog("last_update=-\n20240101 0 a.zip\n20240101 1 b.zip\n").is_none());
}

#[test]
fn parse_rejects_invalid_record_date() {
    assert!(parse_catalog("last_update=-\n20240132 0 a.zip\n").is_none());
}

#[test]
fn parse_rejects_truncated_line() {
    assert!(parse_catalog("last_update=-\n20240101 0 a.zip").is_none());
    assert!(parse_catalog("last_update=-\n20240101 2 a.zip\n").is_none());
    assert!(parse_catalog("last_update=-\n20240101 0  a.zip\n").is_none());
}

#[test]
fn parse_accepts_record_without_files() {
    let c = parse_catalog("last_update=-\n20240101 1\n").expect("must parse");
    assert_eq!(c.watermark, None);
    assert_eq!(c.records.len(), 1);
    assert_eq!(c.records[0].0, 20240101);
    assert!(c.records[0].1.downloaded);
    assert!(c.records[0].1.files.is_empty());
}
