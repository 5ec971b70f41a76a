use vt7tool::codecs::{decode, encode, load_subresources};
use vt7tool::compression::{compress, decompress, CompressionFormat};
use vt7tool::error::{DecodingError, EncodingError};
use vt7tool::resource::Resource;
use vt7tool::store::{FileEntry, FileStore};

fn leaf(data: Vec<u8>) -> Resource {
    Resource {
        identifier: 0,
        format: None,
        extension: None,
        data,
        hidden: false,
        subresources: Vec::new(),
    }
}

fn le32(x: u32) -> [u8; 4] {
    x.to_le_bytes()
}

fn contains(haystack: &[u8], needle: &[u8]) -> bool {
    if needle.is_empty() {
        return true;
    }
    haystack.windows(needle.len()).any(|w| w == needle)
}

/// A two-entry versioned archive: id 1 uncompressed text, id 2 zlib-compressed
/// unclassifiable bytes.
fn sample_vt7a() -> (Vec<u8>, Vec<u8>, Vec<u8>) {
    let text = b"hello world".to_vec();
    let blob = vec![0xff, 0xfe, 0x01, 0x02, 0x80, 0x81];
    let packed = compress(&blob, CompressionFormat::Zlib).unwrap();
    let mut data = Vec::new();
    data.extend_from_slice(b"VT7A");
    data.extend_from_slice(&le32(2));
    data.extend_from_slice(&le32(7));
    data.extend_from_slice(&le32(2));
    let dir_off = 16 + 2 * 16;
    // entry 1: stored verbatim
    data.extend_from_slice(&le32(1));
    data.extend_from_slice(&le32(dir_off));
    data.extend_from_slice(&le32(text.len() as u32));
    data.extend_from_slice(&le32(0));
    // entry 2: zlib-compressed
    data.extend_from_slice(&le32(2));
    data.extend_from_slice(&le32(dir_off + text.len() as u32));
    data.extend_from_slice(&le32(blob.len() as u32));
    data.extend_from_slice(&le32(packed.len() as u32));
    data.extend_from_slice(&text);
    data.extend_from_slice(&packed);
    (data, text, blob)
}

#[test]
fn vt7a_decode_classifies_children() {
    let (data, text, blob) = sample_vt7a();
    let mut archive = leaf(data);
    decode(&mut archive).unwrap();
    assert_eq!(archive.identifier, 7);
    assert_eq!(archive.extension.as_deref(), Some(b"json".as_slice()));
    assert_eq!(archive.format.as_deref(), Some(b"vt7a2".as_slice()));
    assert_eq!(archive.subresources.len(), 2);
    let c1 = &archive.subresources[0];
    assert_eq!(c1.identifier, 1);
    assert_eq!(c1.extension.as_deref(), Some(b"txt".as_slice()));
    assert_eq!(c1.data, text);
    assert!(!c1.hidden);
    let c2 = &archive.subresources[1];
    assert_eq!(c2.identifier, 2);
    assert_eq!(c2.extension.as_deref(), Some(b"raw".as_slice()));
    assert_eq!(c2.data, blob);
    assert!(c2.hidden);
    // the manifest names both children and embeds the raw child inline
    assert!(contains(&archive.data, b"\"00000001.txt\""));
    assert!(contains(&archive.data, b"\"00000002.raw\""));
    assert!(contains(&archive.data, b"\"compressed\": true"));
    assert!(contains(&archive.data, b"\"compressed\": false"));
    assert!(contains(&archive.data, b"\"original_data\": null"));
}

#[test]
fn vt7a_round_trip_in_memory() {
    let (data, _, _) = sample_vt7a();
    let mut archive = leaf(data.clone());
    decode(&mut archive).unwrap();
    encode(&mut archive).unwrap();
    assert_eq!(archive.data, data);
    assert_eq!(archive.extension.as_deref(), Some(b"vt7a".as_slice()));
    assert_eq!(archive.format, None);
    assert!(archive.subresources.is_empty());
}

#[test]
fn vt7a_manifest_fidelity_with_partial_files() {
    // decode, then rebuild from the manifest with only the text child's file
    // present: the raw child must come back through the inline fallback
    let (data, text, _) = sample_vt7a();
    let mut archive = leaf(data.clone());
    decode(&mut archive).unwrap();
    let mut root = Resource {
        identifier: archive.identifier,
        format: archive.format.clone(),
        extension: archive.extension.clone(),
        data: archive.data.clone(),
        hidden: false,
        subresources: Vec::new(),
    };
    let mut dir = b"out/".to_vec();
    dir.extend_from_slice(&root.get_dirname());
    let mut path = dir.clone();
    path.extend_from_slice(b"/00000001.txt");
    let store = FileStore { files: vec![FileEntry { path, data: text }] };
    load_subresources(&store, b"out", &mut root).unwrap();
    assert_eq!(root.subresources.len(), 2);
    encode(&mut root).unwrap();
    assert_eq!(root.data, data);
}

#[test]
fn vt7a_partial_edit_skips_orphan_records() {
    // a manifest record whose identifier has no child is skipped silently
    let (data, _, _) = sample_vt7a();
    let mut archive = leaf(data);
    decode(&mut archive).unwrap();
    // drop the raw child but keep both manifest records
    archive.subresources.truncate(1);
    encode(&mut archive).unwrap();
    // count field says one entry
    assert_eq!(&archive.data[12..16], &le32(1));
}

#[test]
fn vt7a_bad_version_is_parse_error() {
    let mut data = b"VT7A".to_vec();
    data.extend_from_slice(&le32(9));
    data.extend_from_slice(&le32(0));
    data.extend_from_slice(&le32(0));
    let mut archive = leaf(data);
    match decode(&mut archive) {
        Err(DecodingError::ParsingError(_)) => {},
        other => panic!("expected a parse error, got {:?}", other.is_ok()),
    }
}

#[test]
fn vt7a_truncated_directory_is_io_error() {
    let mut data = b"VT7A".to_vec();
    data.extend_from_slice(&le32(2));
    data.extend_from_slice(&le32(0));
    data.extend_from_slice(&le32(5));
    let mut archive = leaf(data);
    match decode(&mut archive) {
        Err(DecodingError::IOError(_)) => {},
        other => panic!("expected an i/o error, got {:?}", other.is_ok()),
    }
}

#[test]
fn vt7a_corrupt_stream_is_decompress_error() {
    let mut data = b"VT7A".to_vec();
    data.extend_from_slice(&le32(2));
    data.extend_from_slice(&le32(0));
    data.extend_from_slice(&le32(1));
    data.extend_from_slice(&le32(9));
    data.extend_from_slice(&le32(32));
    data.extend_from_slice(&le32(4));
    data.extend_from_slice(&le32(4));
    data.extend_from_slice(&[0xde, 0xad, 0xbe, 0xef]);
    let mut archive = leaf(data);
    match decode(&mut archive) {
        Err(DecodingError::DecompressError { identifier, offset }) => {
            assert_eq!(identifier, 9);
            assert_eq!(offset, 32);
        },
        other => panic!("expected a decompression error, got {:?}", other.is_ok()),
    }
}

fn sample_osa() -> (Vec<u8>, Vec<u8>) {
    let text = b"plain text entry".to_vec();
    let mut data = Vec::new();
    data.extend_from_slice(b"AUFS");
    data.extend_from_slice(&le32(1));
    let dir_off = 8 + 12;
    data.extend_from_slice(&le32(0x30));
    data.extend_from_slice(&le32(dir_off));
    data.extend_from_slice(&le32(text.len() as u32));
    data.extend_from_slice(&text);
    (data, text)
}

#[test]
fn osa_round_trip_in_memory() {
    let (data, text) = sample_osa();
    let mut archive = leaf(data.clone());
    decode(&mut archive).unwrap();
    assert_eq!(archive.extension.as_deref(), Some(b"json".as_slice()));
    assert_eq!(archive.format.as_deref(), Some(b"osa".as_slice()));
    assert_eq!(archive.subresources.len(), 1);
    assert_eq!(archive.subresources[0].identifier, 0x30);
    assert_eq!(archive.subresources[0].data, text);
    assert!(contains(&archive.data, b"\"00000030.txt\""));
    encode(&mut archive).unwrap();
    assert_eq!(archive.data, data);
    assert_eq!(archive.extension.as_deref(), Some(b"osa".as_slice()));
}

fn sample_sword() -> Vec<u8> {
    let lines: [(u32, &[u8]); 2] = [(11, b"first line"), (12, b"second")];
    let mut dir = Vec::new();
    let mut pay = Vec::new();
    let base = 12 + 8 * lines.len() as u32;
    for (id, text) in lines.iter() {
        dir.extend_from_slice(&le32(*id));
        dir.extend_from_slice(&le32(base + pay.len() as u32));
        pay.extend_from_slice(text);
        pay.push(0);
    }
    let mut data = Vec::new();
    data.extend_from_slice(b"TEXT");
    data.extend_from_slice(&[0, 0, 0, 0]);
    data.extend_from_slice(&le32(lines.len() as u32));
    data.extend_from_slice(&dir);
    data.extend_from_slice(&pay);
    data
}

#[test]
fn sword_text_round_trip_in_memory() {
    let data = sample_sword();
    let mut table = leaf(data.clone());
    decode(&mut table).unwrap();
    assert_eq!(table.extension.as_deref(), Some(b"json".as_slice()));
    assert_eq!(table.format.as_deref(), Some(b"sword_text".as_slice()));
    assert!(contains(&table.data, b"\"text\": \"first line\""));
    assert!(contains(&table.data, b"\"identifier\": 12"));
    encode(&mut table).unwrap();
    assert_eq!(table.data, data);
    assert_eq!(table.extension.as_deref(), Some(b"swordtext".as_slice()));
}

#[test]
fn nested_archive_round_trip() {
    // an archive holding another archive: decode expands both levels
    let (inner, _, _) = sample_vt7a();
    let mut data = Vec::new();
    data.extend_from_slice(b"AUFS");
    data.extend_from_slice(&le32(1));
    // the nested archive's own header carries identifier 7, and re-encoding
    // writes the child's post-decode identifier into the outer directory
    data.extend_from_slice(&le32(7));
    data.extend_from_slice(&le32(8 + 12));
    data.extend_from_slice(&le32(inner.len() as u32));
    data.extend_from_slice(&inner);
    let mut archive = leaf(data.clone());
    decode(&mut archive).unwrap();
    assert_eq!(archive.subresources.len(), 1);
    let nested = &archive.subresources[0];
    assert_eq!(nested.format.as_deref(), Some(b"vt7a2".as_slice()));
    assert_eq!(nested.subresources.len(), 2);
    encode(&mut archive).unwrap();
    assert_eq!(archive.data, data);
}

#[test]
fn fallback_marks_unclassified_bytes_invisible() {
    // not a signature, not text: the catch-all codec takes it
    let mut blob = leaf(vec![0xff, 0x00, 0x13, 0x37]);
    decode(&mut blob).unwrap();
    assert_eq!(blob.extension.as_deref(), Some(b"raw".as_slice()));
    assert!(blob.hidden);
    assert_eq!(blob.data, vec![0xff, 0x00, 0x13, 0x37]);
}

#[test]
fn decode_is_deterministic_across_runs() {
    let (data, _, _) = sample_vt7a();
    let mut a = leaf(data.clone());
    let mut b = leaf(data);
    decode(&mut a).unwrap();
    decode(&mut b).unwrap();
    assert_eq!(a.data, b.data);
    assert_eq!(a.subresources.len(), b.subresources.len());
}

#[test]
fn decoded_manifest_is_not_a_container() {
    // running decode on an already-decoded payload classifies it as text,
    // never as a container again
    let (data, _, _) = sample_vt7a();
    let mut archive = leaf(data);
    decode(&mut archive).unwrap();
    let mut again = leaf(archive.data.clone());
    decode(&mut again).unwrap();
    assert_eq!(again.extension.as_deref(), Some(b"txt".as_slice()));
    assert!(again.subresources.is_empty());
    assert_eq!(again.data, archive.data);
}

#[test]
fn old_engine_header_decodes_to_format_tag() {
    let mut data = b"Script".to_vec();
    data.extend_from_slice(&3u16.to_le_bytes());
    data.extend_from_slice(b"rest of the asset");
    let mut asset = leaf(data);
    decode(&mut asset).unwrap();
    assert_eq!(asset.extension.as_deref(), Some(b"oldengine".as_slice()));
    assert_eq!(asset.format.as_deref(), Some(b"Script3".as_slice()));
}

#[test]
fn leaf_signatures_decode_to_their_tags() {
    let cases: [(&[u8], &[u8]); 4] = [
        (b"OggSxxxx", b"ogg"),
        (&[0x1A, 0x45, 0xDF, 0xA3, 0x00], b"webm"),
        (&[0x00, 0x01, 0x00, 0x00, 0x00, 0x99], b"ttf"),
        (b"RIFF\x00\x00\x00\x00WEBPVP8 ", b"webp"),
    ];
    for (bytes, tag) in cases.iter() {
        let mut r = leaf(bytes.to_vec());
        decode(&mut r).unwrap();
        assert_eq!(r.extension.as_deref(), Some(*tag));
    }
}

#[test]
fn xml_document_decodes_to_xml_tag() {
    let mut doc = leaf(b"<?xml version=\"1.0\"?><root><a/></root>".to_vec());
    decode(&mut doc).unwrap();
    assert_eq!(doc.extension.as_deref(), Some(b"xml".as_slice()));
}

#[test]
fn compression_round_trips() {
    let data = b"the same bytes come back from every algorithm".to_vec();
    for fmt in [CompressionFormat::Stored, CompressionFormat::Zlib, CompressionFormat::Zstd] {
        let packed = compress(&data, fmt).unwrap();
        let unpacked = decompress(&packed, fmt).unwrap();
        assert_eq!(unpacked, data);
    }
}

#[test]
fn corrupt_zlib_stream_is_reported() {
    assert!(decompress(&[1, 2, 3, 4], CompressionFormat::Zlib).is_err());
}

#[test]
fn missing_file_without_fallback_fails_load() {
    let (data, _, _) = sample_vt7a();
    let mut archive = leaf(data);
    decode(&mut archive).unwrap();
    let mut root = Resource {
        identifier: archive.identifier,
        format: archive.format.clone(),
        extension: archive.extension.clone(),
        data: archive.data.clone(),
        hidden: false,
        subresources: Vec::new(),
    };
    // no files at all: the text child has no inline fallback, so loading fails
    let store = FileStore { files: Vec::new() };
    match load_subresources(&store, b"out", &mut root) {
        Err(EncodingError::IOError(_)) => {},
        other => panic!("expected an i/o error, got {:?}", other.is_ok()),
    }
}

#[test]
fn encode_with_unknown_format_tag_passes_through() {
    let mut r = Resource {
        identifier: 1,
        format: Some(b"vt7a9".to_vec()),
        extension: Some(b"json".to_vec()),
        data: b"[]".to_vec(),
        hidden: false,
        subresources: Vec::new(),
    };
    // an unknown container format tag falls through to the catch-all encoder,
    // which leaves the resource untouched
    encode(&mut r).unwrap();
    assert_eq!(r.data, b"[]".to_vec());
}

#[test]
fn vt7a_version_error_names_the_number() {
    let mut data = b"VT7A".to_vec();
    data.extend_from_slice(&le32(9));
    data.extend_from_slice(&le32(0));
    data.extend_from_slice(&le32(0));
    let mut archive = leaf(data);
    match decode(&mut archive) {
        Err(DecodingError::ParsingError(msg)) => {
            assert_eq!(msg, "archive header has wrong version number 9");
        },
        other => panic!("expected a parse error, got {:?}", other.is_ok()),
    }
}

#[test]
fn sword_text_error_names_identifier_and_offset() {
    // one line whose bytes are not valid text
    let mut data = Vec::new();
    data.extend_from_slice(b"TEXT");
    data.extend_from_slice(&[0, 0, 0, 0]);
    data.extend_from_slice(&le32(1));
    data.extend_from_slice(&le32(0x0b));
    data.extend_from_slice(&le32(20));
    data.extend_from_slice(&[0xff, 0xfe, 0x00]);
    let mut table = leaf(data);
    match decode(&mut table) {
        Err(DecodingError::ParsingError(msg)) => {
            assert_eq!(
                msg,
                "parsing text error with identifier 0000000b at offset 0x00000014"
            );
        },
        other => panic!("expected a parse error, got {:?}", other.is_ok()),
    }
}

#[test]
fn missing_file_error_names_the_file() {
    let (data, _, _) = sample_vt7a();
    let mut archive = leaf(data);
    decode(&mut archive).unwrap();
    let mut root = Resource {
        identifier: archive.identifier,
        format: archive.format.clone(),
        extension: archive.extension.clone(),
        data: archive.data.clone(),
        hidden: false,
        subresources: Vec::new(),
    };
    let store = FileStore { files: Vec::new() };
    match load_subresources(&store, b"out", &mut root) {
        Err(EncodingError::IOError(msg)) => {
            assert_eq!(msg, "file 00000001.txt not found");
        },
        other => panic!("expected an i/o error, got {:?}", other.is_ok()),
    }
}

#[test]
fn vt7a_out_of_bounds_payload_is_io_error() {
    // a directory entry whose slice runs past the end of the buffer
    let mut data = b"VT7A".to_vec();
    data.extend_from_slice(&le32(2));
    data.extend_from_slice(&le32(0));
    data.extend_from_slice(&le32(1));
    data.extend_from_slice(&le32(1));
    data.extend_from_slice(&le32(100));
    data.extend_from_slice(&le32(4));
    data.extend_from_slice(&le32(0));
    let mut archive = leaf(data);
    match decode(&mut archive) {
        Err(DecodingError::IOError(_)) => {},
        other => panic!("expected an i/o error, got {:?}", other.is_ok()),
    }
}

#[test]
fn osa_out_of_bounds_payload_is_io_error() {
    let mut data = b"AUFS".to_vec();
    data.extend_from_slice(&le32(1));
    data.extend_from_slice(&le32(1));
    data.extend_from_slice(&le32(100));
    data.extend_from_slice(&le32(4));
    let mut archive = leaf(data);
    match decode(&mut archive) {
        Err(DecodingError::IOError(_)) => {},
        other => panic!("expected an i/o error, got {:?}", other.is_ok()),
    }
}
