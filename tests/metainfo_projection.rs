use bencode_torrent::decode::decode_bencoded_value;
use bencode_torrent::metainfo::{assemble_torrent, decode_torrent, hashes_from_blob, info_from_value, Keys, HASH_LEN};
use bencode_torrent::value::{DecodeError, Value};

fn bstr(b: &[u8]) -> Vec<u8> {
    let mut out = format!("{}:", b.len()).into_bytes();
    out.extend_from_slice(b);
    out
}

fn ienc(n: i64) -> Vec<u8> {
    format!("i{}e", n).into_bytes()
}

fn dict(entries: &[(&[u8], Vec<u8>)]) -> Vec<u8> {
    let mut out = vec![b'd'];
    for (k, v) in entries {
        out.extend(bstr(k));
        out.extend_from_slice(v);
    }
    out.push(b'e');
    out
}

fn blob(n: usize) -> Vec<u8> {
    (0..n).map(|i| (i * 7 % 256) as u8).collect()
}

fn info_value(encoded: &[u8]) -> Value {
    decode_bencoded_value(encoded).unwrap().0
}

#[test]
fn hashes_from_forty_bytes() {
    let b = blob(40);
    let h = hashes_from_blob(&b).unwrap();
    assert_eq!(h.0.len(), 2);
    assert_eq!(&h.0[0][..], &b[0..20]);
    assert_eq!(&h.0[1][..], &b[20..40]);
    assert_eq!(HASH_LEN, 20);
}

#[test]
fn hashes_from_misaligned_blob() {
    assert!(matches!(hashes_from_blob(&blob(39)), Err(DecodeError::HashBlobMisaligned)));
    assert!(matches!(hashes_from_blob(&blob(1)), Err(DecodeError::HashBlobMisaligned)));
}

#[test]
fn hashes_from_empty_blob() {
    assert_eq!(hashes_from_blob(&[]).unwrap().0.len(), 0);
}

#[test]
fn single_file_layout() {
    let enc = dict(&[
        (b"length", ienc(100)),
        (b"name", bstr(b"sample.txt")),
        (b"piece length", ienc(16384)),
        (b"pieces", bstr(&blob(40))),
    ]);
    let info = info_from_value(&info_value(&enc)).unwrap();
    assert_eq!(info.plength, 16384);
    assert_eq!(info.name, "sample.txt");
    assert_eq!(info.pieces.0.len(), 2);
    assert_eq!(&info.pieces.0[1][..], &blob(40)[20..40]);
    assert!(matches!(info.keys, Keys::SingleFile { length: 100 }));
}

#[test]
fn multi_file_layout() {
    let file_a = dict(&[(b"length", ienc(5)), (b"path", b"l3:dir5:a.txte".to_vec())]);
    let file_b = dict(&[(b"length", ienc(7)), (b"path", b"l5:b.txte".to_vec())]);
    let mut files = vec![b'l'];
    files.extend(file_a);
    files.extend(file_b);
    files.push(b'e');
    let enc = dict(&[
        (b"files", files),
        (b"name", bstr(b"folder")),
        (b"piece length", ienc(32)),
        (b"pieces", bstr(&blob(20))),
    ]);
    let info = info_from_value(&info_value(&enc)).unwrap();
    match info.keys {
        Keys::MultiFile { files } => {
            assert_eq!(files.len(), 2);
            assert_eq!(files[0].length, 5);
            assert_eq!(files[0].path, vec!["dir".to_string(), "a.txt".to_string()]);
            assert_eq!(files[1].length, 7);
            assert_eq!(files[1].path, vec!["b.txt".to_string()]);
        }
        Keys::SingleFile { .. } => panic!("expected a multi-file layout"),
    }
}

#[test]
fn layout_with_both_keys_is_ambiguous() {
    let enc = dict(&[
        (b"files", b"le".to_vec()),
        (b"length", ienc(3)),
        (b"name", bstr(b"x")),
        (b"piece length", ienc(1)),
        (b"pieces", bstr(&[])),
    ]);
    assert!(matches!(info_from_value(&info_value(&enc)), Err(DecodeError::AmbiguousLayout)));
}

#[test]
fn layout_with_neither_key_is_ambiguous() {
    let enc = dict(&[(b"name", bstr(b"x")), (b"piece length", ienc(1)), (b"pieces", bstr(&[]))]);
    assert!(matches!(info_from_value(&info_value(&enc)), Err(DecodeError::AmbiguousLayout)));
}

#[test]
fn info_with_misaligned_pieces() {
    let enc = dict(&[
        (b"length", ienc(1)),
        (b"name", bstr(b"x")),
        (b"piece length", ienc(1)),
        (b"pieces", bstr(&blob(39))),
    ]);
    assert!(matches!(info_from_value(&info_value(&enc)), Err(DecodeError::HashBlobMisaligned)));
}

#[test]
fn info_with_invalid_name() {
    let enc = dict(&[
        (b"length", ienc(1)),
        (b"name", bstr(&[0xff, 0xfe])),
        (b"piece length", ienc(1)),
        (b"pieces", bstr(&[])),
    ]);
    assert!(matches!(info_from_value(&info_value(&enc)), Err(DecodeError::InvalidName)));
}

#[test]
fn info_with_missing_or_invalid_fields() {
    let missing = dict(&[(b"length", ienc(1)), (b"name", bstr(b"x")), (b"pieces", bstr(&[]))]);
    assert!(matches!(info_from_value(&info_value(&missing)), Err(DecodeError::MissingField)));
    let negative = dict(&[
        (b"length", ienc(1)),
        (b"name", bstr(b"x")),
        (b"piece length", ienc(-1)),
        (b"pieces", bstr(&[])),
    ]);
    assert!(matches!(info_from_value(&info_value(&negative)), Err(DecodeError::InvalidField)));
    assert!(matches!(info_from_value(&Value::Integer(3)), Err(DecodeError::InvalidField)));
}

fn sample_info() -> Vec<u8> {
    dict(&[
        (b"length", ienc(100)),
        (b"name", bstr(b"sample.txt")),
        (b"piece length", ienc(16384)),
        (b"pieces", bstr(&blob(40))),
    ])
}

#[test]
fn torrent_with_valid_announce() {
    let enc = dict(&[(b"announce", bstr(b"http://tracker.example:6969/announce")), (b"info", sample_info())]);
    let t = decode_torrent(&enc).unwrap();
    assert_eq!(t.announce.as_str(), "http://tracker.example:6969/announce");
    assert_eq!(t.announce.host_str(), Some("tracker.example"));
    assert_eq!(t.info.name, "sample.txt");
}

#[test]
fn torrent_with_invalid_announce() {
    let enc = dict(&[(b"announce", bstr(b"not a url")), (b"info", sample_info())]);
    assert!(matches!(decode_torrent(&enc), Err(DecodeError::InvalidAnnounceUrl)));
    let enc = dict(&[(b"announce", bstr(&[0xc3, 0x28])), (b"info", sample_info())]);
    assert!(matches!(decode_torrent(&enc), Err(DecodeError::InvalidAnnounceUrl)));
}

#[test]
fn torrent_with_missing_info() {
    let enc = dict(&[(b"announce", bstr(b"http://tracker.example/announce"))]);
    assert!(matches!(decode_torrent(&enc), Err(DecodeError::MissingField)));
}

#[test]
fn torrent_from_malformed_bytes() {
    assert!(matches!(decode_torrent(b"d8:announce"), Err(DecodeError::UnrecognizedValue)));
}

#[test]
fn assemble_torrent_from_parse_outcome() {
    let info = info_value(&sample_info());
    assert!(matches!(assemble_torrent(None, &info), Err(DecodeError::InvalidAnnounceUrl)));
    let url = reqwest::Url::parse("udp://tracker.example:80").unwrap();
    let t = assemble_torrent(Some(url), &info).unwrap();
    assert_eq!(t.announce.scheme(), "udp");
    assert_eq!(t.info.plength, 16384);
    assert!(matches!(assemble_torrent(None, &Value::Integer(1)), Err(DecodeError::InvalidAnnounceUrl)));
    let url = reqwest::Url::parse("http://a.example/").unwrap();
    assert!(matches!(assemble_torrent(Some(url), &Value::Integer(1)), Err(DecodeError::InvalidField)));
}
