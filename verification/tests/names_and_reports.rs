use vt7tool::report::{diff, statistics};
use vt7tool::resource::Resource;

fn leaf(identifier: u32, data: Vec<u8>) -> Resource {
    Resource {
        identifier,
        format: None,
        extension: None,
        data,
        hidden: false,
        subresources: Vec::new(),
    }
}

#[test]
fn filename_composes_identifier_and_tags() {
    let mut r = leaf(0xdeadbeef, Vec::new());
    assert_eq!(r.get_filename(), b"deadbeef".to_vec());
    r.extension = Some(b"txt".to_vec());
    assert_eq!(r.get_filename(), b"deadbeef.txt".to_vec());
    r.format = Some(b"vt7a2".to_vec());
    assert_eq!(r.get_filename(), b"deadbeef.vt7a2.txt".to_vec());
    assert_eq!(r.get_dirname(), b"deadbeef.vt7a2.txt.d".to_vec());
}

#[test]
fn filename_parses_back() {
    let mut r = leaf(0, Vec::new());
    r.parse_filename(b"00000001.txt").unwrap();
    assert_eq!(r.identifier, 1);
    assert_eq!(r.extension.as_deref(), Some(b"txt".as_slice()));
    assert_eq!(r.format, None);
    let mut r2 = leaf(0, Vec::new());
    r2.parse_filename(b"0000002a.vt7a2.json").unwrap();
    assert_eq!(r2.identifier, 0x2a);
    assert_eq!(r2.format.as_deref(), Some(b"vt7a2".as_slice()));
    assert_eq!(r2.extension.as_deref(), Some(b"json".as_slice()));
    let mut r3 = leaf(0, Vec::new());
    r3.parse_filename(b"cafe").unwrap();
    assert_eq!(r3.identifier, 0xcafe);
}

#[test]
fn malformed_filenames_are_rejected() {
    let mut r = leaf(0, Vec::new());
    assert!(r.parse_filename(b"a.b.c.d").is_err());
    assert!(r.parse_filename(b"nothex.txt").is_err());
    assert!(r.parse_filename(b"").is_err());
    assert!(r.parse_filename(b"FFFF.txt").is_err());
    // the resource stays untouched on a failed parse
    assert_eq!(r.identifier, 0);
    assert_eq!(r.extension, None);
}

#[test]
fn digest_flags_changed_payloads() {
    let a = leaf(1, b"same".to_vec());
    let b = leaf(1, b"same".to_vec());
    let c = leaf(1, b"different".to_vec());
    assert_eq!(a.hash(), b.hash());
    assert_ne!(a.hash(), c.hash());
    assert_eq!(a.hash().len(), 32);
}

#[test]
fn statistics_groups_children_by_tags() {
    let mut archive = leaf(0, Vec::new());
    let mut t1 = leaf(1, Vec::new());
    t1.extension = Some(b"txt".to_vec());
    let mut t2 = leaf(2, Vec::new());
    t2.extension = Some(b"txt".to_vec());
    let mut r1 = leaf(3, Vec::new());
    r1.extension = Some(b"raw".to_vec());
    archive.subresources = vec![t1, t2, r1];
    let rows = statistics(&archive);
    assert_eq!(rows.len(), 2);
    assert_eq!(rows[0].extension.as_deref(), Some(b"txt".as_slice()));
    assert_eq!(rows[0].count, 2);
    assert_eq!(rows[1].extension.as_deref(), Some(b"raw".as_slice()));
    assert_eq!(rows[1].count, 1);
}

#[test]
fn diff_reports_missing_and_changed_children() {
    let mut first = leaf(0, Vec::new());
    let mut second = leaf(0, Vec::new());
    let mut a1 = leaf(1, b"shared".to_vec());
    a1.extension = Some(b"txt".to_vec());
    let a2 = leaf(2, b"only in first".to_vec());
    let mut b1 = leaf(1, b"shared but changed".to_vec());
    b1.extension = Some(b"txt".to_vec());
    let b3 = leaf(3, b"only in second".to_vec());
    first.subresources = vec![a1, a2];
    second.subresources = vec![b1, b3];
    let report = diff(&first, &second);
    assert_eq!(report.only_first, vec![b"00000002".to_vec()]);
    assert_eq!(report.only_second, vec![b"00000003".to_vec()]);
    assert_eq!(report.changed, vec![b"00000001.txt".to_vec()]);
}
