use join::codec::{check_frame, decode, read_frame, seal, ChecksumError, ReadError};
use join::random::random_sorted_relation;
use join::relations::Relation;

fn sample() -> Relation {
    Relation {
        data: vec![1, -2, 3, 4],
        size: 2,
        arity: 2,
    }
}

fn sample_bytes() -> Vec<u8> {
    vec![
        2, 0, 0, 0, 0, 0, 0, 0, // size
        2, 0, 0, 0, 0, 0, 0, 0, // arity
        1, 0, 0, 0, 254, 255, 255, 255, 3, 0, 0, 0, 4, 0, 0, 0, // tuple data
        109, 224, 254, 72, // checksum
    ]
}

#[test]
fn write_then_read() {
    let relation = random_sorted_relation();
    let bytes = relation.encode();
    let read_relation = decode(&bytes).unwrap();
    assert_eq!(relation, read_relation);
}

#[test]
fn encode_gives_the_documented_bytes() {
    assert_eq!(sample().encode(), sample_bytes());
    assert_eq!(sample().encode_body(), sample_bytes()[..32].to_vec());
}

#[test]
fn encode_of_empty_relations() {
    let none = Relation { data: vec![], size: 0, arity: 0 };
    assert_eq!(
        none.encode(),
        vec![0, 0, 0, 0, 0, 0, 0, 0, 0, 0, 0, 0, 0, 0, 0, 0, 85, 75, 187, 236]
    );
    let wide = Relation { data: vec![], size: 0, arity: 3 };
    assert_eq!(
        wide.encode(),
        vec![0, 0, 0, 0, 0, 0, 0, 0, 3, 0, 0, 0, 0, 0, 0, 0, 182, 76, 52, 98]
    );
}

#[test]
fn checksum_is_the_crc32_of_the_body() {
    let relation = Relation { data: vec![3, 5, 8], size: 3, arity: 1 };
    let bytes = relation.encode();
    assert_eq!(bytes.len(), 16 + 12 + 4);
    assert_eq!(bytes[28..].to_vec(), 486785011u32.to_le_bytes().to_vec());
    assert_eq!(bytes[28..].to_vec(), crc32fast::hash(&bytes[..28]).to_le_bytes().to_vec());
}

#[test]
fn decode_reads_the_documented_bytes() {
    assert_eq!(decode(&sample_bytes()), Ok(sample()));
}

#[test]
fn decode_does_not_sort() {
    let unsorted = Relation { data: vec![9, 1, 5], size: 3, arity: 1 };
    assert_eq!(decode(&unsorted.encode()), Ok(unsorted));
}

#[test]
fn decode_round_trips_edge_cases() {
    for relation in [
        Relation { data: vec![], size: 0, arity: 0 },
        Relation { data: vec![], size: 0, arity: 7 },
        Relation { data: vec![], size: 7, arity: 0 },
        Relation { data: vec![i32::MIN, i32::MAX, 0, -1], size: 1, arity: 4 },
        Relation { data: vec![i32::MIN, i32::MAX, 0, -1], size: 4, arity: 1 },
    ] {
        let bytes = relation.encode();
        assert_eq!(bytes.len(), 20 + 4 * relation.data.len());
        assert_eq!(decode(&bytes), Ok(relation));
    }
}

#[test]
fn decode_ignores_what_follows_the_checksum() {
    let mut bytes = sample_bytes();
    bytes.extend_from_slice(&[1, 2, 3]);
    assert_eq!(decode(&bytes), Ok(sample()));
}

#[test]
fn decode_reports_every_short_input() {
    let bytes = sample_bytes();
    for len in 0..bytes.len() {
        assert_eq!(decode(&bytes[..len]), Err(ReadError::Truncated));
    }
}

#[test]
fn decode_reports_a_header_that_announces_too_much() {
    let mut bytes = sample_bytes();
    bytes[0] = 3;
    assert_eq!(decode(&bytes), Err(ReadError::Truncated));
    let mut bytes = sample_bytes();
    bytes[7] = 255;
    bytes[15] = 255;
    assert_eq!(decode(&bytes), Err(ReadError::Truncated));
}

#[test]
fn decode_reports_a_changed_checksum() {
    let mut bytes = sample_bytes();
    bytes[32] = 110;
    assert_eq!(
        decode(&bytes),
        Err(ReadError::Checksum(ChecksumError {
            expected: 1224663150,
            actual: 1224663149,
        }))
    );
}

#[test]
fn decode_reports_a_changed_data_byte() {
    let mut bytes = sample_bytes();
    bytes[16] = 2;
    assert_eq!(
        decode(&bytes),
        Err(ReadError::Checksum(ChecksumError {
            expected: 1224663149,
            actual: 1630950559,
        }))
    );
}

#[test]
fn decode_detects_any_flipped_byte_of_the_tuple_data() {
    let bytes = sample_bytes();
    for at in 16..32 {
        for flip in [1u8, 0x80, 0xff] {
            let mut tampered = bytes.clone();
            tampered[at] ^= flip;
            match decode(&tampered) {
                Err(ReadError::Checksum(e)) => {
                    assert_eq!(e.expected, 1224663149);
                    assert_ne!(e.actual, e.expected);
                }
                other => panic!("byte {} went unnoticed: {:?}", at, other),
            }
        }
    }
}

#[test]
fn decode_never_returns_what_was_written_after_a_flip_before_the_checksum() {
    let relation = random_sorted_relation();
    let bytes = relation.encode();
    for at in 0..bytes.len() - 4 {
        let mut tampered = bytes.clone();
        tampered[at] ^= 0x10;
        assert_ne!(decode(&tampered), Ok(random_copy(&relation)));
    }
}

fn random_copy(relation: &Relation) -> Relation {
    Relation {
        data: relation.data.clone(),
        size: relation.size,
        arity: relation.arity,
    }
}

#[test]
fn seal_appends_the_checksum_little_endian() {
    assert_eq!(seal(vec![], 0), vec![0, 0, 0, 0]);
    assert_eq!(
        seal(vec![9, 8], 0x0403_0201),
        vec![9, 8, 1, 2, 3, 4]
    );
    assert_eq!(seal(vec![7], u32::MAX), vec![7, 255, 255, 255, 255]);
}

#[test]
fn read_frame_returns_relation_and_stored_checksum() {
    assert_eq!(read_frame(&sample_bytes()), Ok((sample(), 1224663149)));
    let mut bytes = sample_bytes();
    bytes[35] = 0;
    bytes[20] = 0;
    assert_eq!(
        read_frame(&bytes),
        Ok((
            Relation { data: vec![1, -256, 3, 4], size: 2, arity: 2 },
            0x00fe_e06d
        ))
    );
    assert_eq!(read_frame(&bytes[..35]), Err(ReadError::Truncated));
    assert_eq!(read_frame(&[]), Err(ReadError::Truncated));
}

#[test]
fn check_frame_compares_the_checksums() {
    assert_eq!(check_frame(sample(), 5, 5), Ok(sample()));
    assert_eq!(
        check_frame(sample(), 5, 6),
        Err(ReadError::Checksum(ChecksumError { expected: 5, actual: 6 }))
    );
    assert_eq!(
        check_frame(sample(), u32::MAX, 0),
        Err(ReadError::Checksum(ChecksumError { expected: u32::MAX, actual: 0 }))
    );
}

#[test]
fn checksum_error_reads_as_a_sentence() {
    let error = ChecksumError { expected: 1224663149, actual: 0 };
    assert_eq!(
        error.to_string(),
        "Checksum error: expected 1224663149, actual 0"
    );
    let error = ChecksumError { expected: 7, actual: u32::MAX };
    assert_eq!(error.to_string(), "Checksum error: expected 7, actual 4294967295");
}
