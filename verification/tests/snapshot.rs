use delayed_release::codec::{decode_snapshot, encode_snapshot};
use delayed_release::config::ConfigFile;
use delayed_release::data::{CommitLog, Data};

fn store(entries: &[(&str, &str, i64)]) -> Data {
    let mut d = Data::new();
    for (id, branch, at) in entries {
        d.add(CommitLog::new(id.to_string(), branch.to_string(), *at));
    }
    d
}

fn assert_same_records(a: &Data, b: &Data) {
    assert_eq!(a.len(), b.len());
    for i in 0..a.len() {
        let x = a.get(i);
        let y = b.get(i);
        assert_eq!(x.commit_id, y.commit_id);
        assert_eq!(x.branch, y.branch);
        assert_eq!(x.release_at, y.release_at);
    }
}

#[test]
fn round_trip_empty() {
    let d = store(&[]);
    let back = decode_snapshot(&encode_snapshot(&d));
    assert_same_records(&d, &back);
}

#[test]
fn round_trip_one_record() {
    let d = store(&[("0a1b2c", "main", 1521590400)]);
    let bytes = encode_snapshot(&d);
    let back = decode_snapshot(&bytes);
    assert_same_records(&d, &back);
    assert_eq!(back.get(0).commit_id, "0a1b2c");
    assert_eq!(back.get(0).branch, "main");
    assert_eq!(back.get(0).release_at, 1521590400);
}

#[test]
fn round_trip_many_records() {
    let d = store(&[
        ("c1", "main", 0),
        ("c2", "feature/x", -5),
        ("c3", "main", i64::MAX),
        ("c4", "übergang", i64::MIN),
        ("", "", 42),
    ]);
    let back = decode_snapshot(&encode_snapshot(&d));
    assert_same_records(&d, &back);
}

#[test]
fn load_from_empty_bytes_yields_empty_store() {
    let c = ConfigFile::new(&[]);
    assert!(!c.has_logs());
    assert_eq!(c.store().len(), 0);
}

#[test]
fn load_from_garbage_yields_empty_store() {
    let garbage: Vec<u8> = vec![0xde, 0xad, 0xbe, 0xef, 0x01, 0x02];
    let c = ConfigFile::new(&garbage);
    assert!(!c.has_logs());
}

#[test]
fn load_truncated_record_yields_empty_store() {
    // A count of one record, but no record bytes follow.
    let mut bytes = Vec::new();
    bytes.extend_from_slice(&1u64.to_le_bytes());
    let c = ConfigFile::new(&bytes);
    assert!(!c.has_logs());
}

#[test]
fn load_invalid_utf8_field_yields_empty_store() {
    // One record whose commit id claims one byte that is not valid UTF-8.
    let mut bytes = Vec::new();
    bytes.extend_from_slice(&1u64.to_le_bytes());
    bytes.extend_from_slice(&1u64.to_le_bytes());
    bytes.push(0xff);
    let c = ConfigFile::new(&bytes);
    assert!(!c.has_logs());
}

#[test]
fn load_ignores_bytes_after_the_last_record() {
    // A stream reader stops after the declared records; trailing bytes do
    // not spoil the snapshot.
    let d = store(&[("c1", "main", 9)]);
    let mut bytes = encode_snapshot(&d);
    bytes.extend_from_slice(b"trailing junk");
    let back = decode_snapshot(&bytes);
    assert_same_records(&d, &back);
}

#[test]
fn config_save_then_load_restores_records() {
    let mut c = ConfigFile::new(&[]);
    c.add_log(CommitLog::new("abc".to_string(), "main".to_string(), 7));
    c.add_log(CommitLog::new("def".to_string(), "dev".to_string(), -3));
    let bytes = c.save();
    let reloaded = ConfigFile::new(&bytes);
    assert_same_records(c.store(), reloaded.store());
}

#[test]
fn snapshot_layout_is_length_prefixed_little_endian() {
    let d = store(&[("ab", "m", 3)]);
    let bytes = encode_snapshot(&d);
    let mut expected = Vec::new();
    expected.extend_from_slice(&1u64.to_le_bytes());
    expected.extend_from_slice(&2u64.to_le_bytes());
    expected.extend_from_slice(b"ab");
    expected.extend_from_slice(&1u64.to_le_bytes());
    expected.extend_from_slice(b"m");
    expected.extend_from_slice(&3u64.to_le_bytes());
    assert_eq!(bytes, expected);
}
