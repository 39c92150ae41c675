use hwboard::journal::{decode_journal, encode_record, JOURNAL_VERSION};

fn journal(payloads: &[&[u8]]) -> Vec<u8> {
    let mut file = vec![JOURNAL_VERSION];
    for p in payloads {
        file.extend(encode_record(p));
    }
    file
}

#[test]
fn record_is_length_then_payload() {
    assert_eq!(encode_record(&[7, 8, 9]), vec![3, 0, 0, 0, 7, 8, 9]);
    assert_eq!(encode_record(&[]), vec![0, 0, 0, 0]);
    let big = vec![1u8; 300];
    let rec = encode_record(&big);
    assert_eq!(&rec[..4], &[44, 1, 0, 0]);
    assert_eq!(rec.len(), 304);
}

#[test]
fn journal_round_trips() {
    let file = journal(&[b"one", b"", b"three"]);
    let recs = decode_journal(&file);
    assert_eq!(recs, vec![b"one".to_vec(), Vec::new(), b"three".to_vec()]);
}

#[test]
fn torn_record_is_dropped() {
    let file = journal(&[b"one", b"three"]);
    for cut in 1..file.len() {
        let recs = decode_journal(&file[..cut]);
        let expected: Vec<Vec<u8>> = if cut >= 1 + 4 + 3 { vec![b"one".to_vec()] } else { Vec::new() };
        assert_eq!(recs, expected, "cut at {}", cut);
    }
    assert_eq!(decode_journal(&file).len(), 2);
}

#[test]
fn wrong_version_or_empty_reads_nothing() {
    assert!(decode_journal(&[]).is_empty());
    let mut file = journal(&[b"x"]);
    file[0] = 2;
    assert!(decode_journal(&file).is_empty());
    assert!(decode_journal(&[JOURNAL_VERSION]).is_empty());
}

#[test]
fn oversized_length_stops_reading() {
    let mut file = journal(&[b"ok"]);
    file.extend([255, 255, 0, 0, 1, 2]);
    assert_eq!(decode_journal(&file), vec![b"ok".to_vec()]);
}
