use cantal::codec::{decode_snapshot, encode_snapshot, DecodeError, VERSION_TAG};
use cantal::history::History;
use cantal::keys::Key;
use cantal::values::Value;

fn sample() -> History {
    let mut h = History::new(5, 50);
    let cpu = Key::metric("cpu.user");
    let disk = Key::pairs(vec![
        ("device".to_string(), "sda".to_string()),
        ("metric".to_string(), "disk.read.ops".to_string()),
    ])
    .unwrap();
    let state = Key::metric("proc.state");
    h.push(
        (1000, 3),
        &vec![
            (cpu.dup(), Value::Counter(10)),
            (disk.dup(), Value::Counter(100)),
            (state.dup(), Value::State(990, "running".to_string())),
        ],
    );
    h.push(
        (2000, 4),
        &vec![
            (cpu.dup(), Value::Counter(35)),
            (state.dup(), Value::State(1990, "idle".to_string())),
        ],
    );
    h
}

#[test]
fn snapshot_round_trips() {
    let h = sample();
    let buf = encode_snapshot(&h).expect("within bounds");
    let back = decode_snapshot(&buf).expect("decodes");
    // The decoded history matches what was encoded, field for field.
    assert_eq!(back.tip.latest, h.tip.latest);
    assert_eq!(back.tip.values.len(), h.tip.values.len());
    for ((k1, v1), (k2, v2)) in back.tip.values.iter().zip(h.tip.values.iter()) {
        assert!(k1.same(k2));
        assert_eq!(format!("{:?}", v1), format!("{:?}", v2));
    }
    assert_eq!(back.fine.max_len, h.fine.max_len);
    assert_eq!(back.fine.timestamps, h.fine.timestamps);
    assert_eq!(back.fine.series.len(), h.fine.series.len());
    for ((k1, s1), (k2, s2)) in back.fine.series.iter().zip(h.fine.series.iter()) {
        assert!(k1.same(k2));
        assert_eq!(s1.kind, s2.kind);
        assert_eq!(format!("{:?}", s1.values), format!("{:?}", s2.values));
    }
    assert_eq!(back.coarse.max_len, h.coarse.max_len);
    assert_eq!(back.coarse.timestamps, h.coarse.timestamps);
    assert_eq!(back.coarse.series.len(), 0);
}

#[test]
fn empty_history_round_trips() {
    let h = History::new(1, 1);
    let buf = encode_snapshot(&h).expect("within bounds");
    let back = decode_snapshot(&buf).expect("decodes");
    assert_eq!(back.tip.latest, None);
    assert_eq!(back.fine.timestamps.len(), 0);
    assert_eq!(back.fine.series.len(), 0);
}

#[test]
fn foreign_version_is_rejected() {
    let h = sample();
    let mut buf = encode_snapshot(&h).expect("within bounds");
    // Overwrite the version word with a foreign tag.
    let foreign: u64 = VERSION_TAG + 1;
    for (i, b) in foreign.to_le_bytes().iter().enumerate() {
        buf[i] = *b;
    }
    assert!(matches!(decode_snapshot(&buf), Err(DecodeError::VersionMismatch)));
}

#[test]
fn corrupt_buffers_are_rejected_not_trusted() {
    let h = sample();
    let buf = encode_snapshot(&h).expect("within bounds");
    // Not a whole number of words.
    let mut odd = buf.clone();
    odd.push(0);
    assert!(matches!(decode_snapshot(&odd), Err(DecodeError::Truncated)));
    // Cut off mid-history.
    let cut: Vec<u8> = buf[..buf.len() - 16].to_vec();
    assert!(decode_snapshot(&cut).is_err());
    // An absurd length word must be refused before any allocation.
    let mut huge: Vec<u8> = Vec::new();
    huge.extend_from_slice(&VERSION_TAG.to_le_bytes());
    huge.extend_from_slice(&0u64.to_le_bytes()); // tip: no latest marker
    huge.extend_from_slice(&u64::MAX.to_le_bytes()); // tip value count
    assert!(matches!(decode_snapshot(&huge), Err(DecodeError::LimitExceeded)));
}

#[test]
fn malformed_histories_are_detected() {
    // A freshly built history is well formed.
    assert!(sample().validate());
    // Unsorted markers are caught.
    let mut bad = History::new(5, 5);
    bad.fine.timestamps.push_back((1000, 0));
    bad.fine.timestamps.push_back((2000, 0));
    assert!(!bad.validate());
    // A value ring out of alignment with the marker ring is caught.
    let mut bad2 = sample();
    let (_, sr) = &mut bad2.fine.series[0];
    sr.values.push_back(None);
    assert!(!bad2.validate());
}
