use image_carver::scanner::{find_all_starts, find_next_start, match_start, FileType};
use image_carver::signature::{find_signature, matches_at, JPEG_END, RW2_START};

const JPEG_START: &[u8] = &[0xFF, 0xD8];

// ---------------------------
// find_signature
// ---------------------------

#[test]
fn test_should_return_correct_index_when_signature_is_found() {
    // 1. setup
    let buffer = [0x00, 0x11, 0x22, 0xFF, 0xD8, 0x33, 0x44];
    let signature = JPEG_START;

    // 2. execute
    let result = find_signature(&buffer, signature);
    println!("{:?}", result);

    // 3. verify
    assert_eq!(result, Some(3));
}

#[test]
fn test_should_return_none_when_signature_is_not_found() {
    // 1. setup
    let buffer = [0x00, 0x11, 0x22, 0x33, 0x44];
    let signature = JPEG_START;

    // 2. execute
    let result = find_signature(&buffer, signature);

    // 3. verify
    assert_eq!(result, None);
}

#[test]
fn test_should_return_first_occurrence_when_multiple_matches_exist() {
    // 1. setup
    let buffer = [0xFF, 0xD8, 0x00, 0xFF, 0xD8, 0x01];
    let signature = JPEG_START;

    // 2. execute
    let result = find_signature(&buffer, signature);

    // 3. verify
    assert_eq!(result, Some(0)); // the match at index 0 comes first
}

// ---------------------------
// find_all_starts
// ---------------------------

#[test]
fn test_should_return_jpeg_and_rw2_when_both_signatures_exist() {
    // 1. setup
    let buffer = [
        0x00, 0xFF, 0xD8, 0x01, 0x49, 0x49, 0x2A, 0x00, 0x02,
    ];

    // 2. execute
    let results = find_all_starts(&buffer);

    // 3. verify
    assert_eq!(results.len(), 2);
    assert_eq!(results[0], (1, FileType::Jpeg));
    assert_eq!(results[1], (4, FileType::Rw2));
}

#[test]
fn test_should_return_only_jpeg_when_only_jpeg_signature_exists() {
    // 1. setup
    let buffer = [0xFF, 0xD8, 0x10, 0x20];

    // 2. execute
    let results = find_all_starts(&buffer);

    // 3. verify
    assert_eq!(results.len(), 1);
    assert_eq!(results[0], (0, FileType::Jpeg));
}

#[test]
fn test_should_return_only_rw2_when_only_rw2_signature_exists() {
    // 1. setup
    let buffer = [0x49, 0x49, 0x2A, 0x00, 0xAA, 0xBB];

    // 2. execute
    let results = find_all_starts(&buffer);

    // 3. verify
    assert_eq!(results.len(), 1);
    assert_eq!(results[0], (0, FileType::Rw2));
}

#[test]
fn test_should_return_empty_when_no_signatures_exist() {
    // 1. setup
    let buffer = [0x00, 0x01, 0x02, 0x03, 0x04];

    // 2. execute
    let results = find_all_starts(&buffer);

    // 3. verify
    assert_eq!(results.len(), 0);
}

// ---------------------------
// further cases
// ---------------------------

#[test]
fn find_signature_in_empty_buffer_finds_nothing() {
    let buffer: [u8; 0] = [];
    assert_eq!(find_signature(&buffer, JPEG_START), None);
    assert_eq!(find_signature(&buffer, &RW2_START), None);
    assert_eq!(find_signature(&buffer, &[]), None);
}

#[test]
fn find_signature_in_buffer_shorter_than_signature_finds_nothing() {
    let buffer = [0x49, 0x49, 0x2A];
    assert_eq!(find_signature(&buffer, &RW2_START), None);
    assert_eq!(find_signature(&[0xFF], JPEG_START), None);
}

#[test]
fn find_signature_at_the_very_end() {
    let buffer = [0x00, 0x01, 0x02, 0xFF, 0xD9];
    assert_eq!(find_signature(&buffer, &JPEG_END), Some(3));
    let buffer = [0x00, 0x49, 0x49, 0x2A, 0x00];
    assert_eq!(find_signature(&buffer, &RW2_START), Some(1));
}

#[test]
fn find_signature_when_buffer_is_the_signature() {
    assert_eq!(find_signature(&[0xFF, 0xD8], JPEG_START), Some(0));
    assert_eq!(find_signature(&RW2_START, &RW2_START), Some(0));
}

#[test]
fn find_signature_skips_partial_matches() {
    // 0xFF 0xFF 0xD8: the first 0xFF opens no signature, the second does.
    let buffer = [0xFF, 0xFF, 0xD8];
    assert_eq!(find_signature(&buffer, JPEG_START), Some(1));
    let buffer = [0x49, 0x49, 0x49, 0x2A, 0x00];
    assert_eq!(find_signature(&buffer, &RW2_START), Some(1));
    let buffer = [0x49, 0x49, 0x2A, 0x49, 0x49, 0x2A, 0x00];
    assert_eq!(find_signature(&buffer, &RW2_START), Some(3));
}

#[test]
fn find_signature_with_empty_pattern_finds_the_first_index() {
    assert_eq!(find_signature(&[0x01, 0x02], &[]), Some(0));
}

#[test]
fn matches_at_tells_occurrences_apart() {
    let buffer = [0x00, 0xFF, 0xD8, 0xFF];
    assert!(matches_at(&buffer, JPEG_START, 1));
    assert!(!matches_at(&buffer, JPEG_START, 0));
    assert!(!matches_at(&buffer, JPEG_START, 2));
    // the signature does not fit behind index 3
    assert!(!matches_at(&buffer, JPEG_START, 3));
    // beyond the buffer's end
    assert!(!matches_at(&buffer, JPEG_START, 4));
    assert!(!matches_at(&buffer, JPEG_START, usize::MAX));
}

#[test]
fn find_all_starts_puts_rw2_first_when_it_comes_first() {
    let buffer = [0x49, 0x49, 0x2A, 0x00, 0x07, 0xFF, 0xD8, 0x01];
    let results = find_all_starts(&buffer);
    assert_eq!(results, vec![(0, FileType::Rw2), (5, FileType::Jpeg)]);
}

#[test]
fn find_all_starts_reports_only_the_first_start_of_each_format() {
    let buffer = [
        0xFF, 0xD8, 0x00, 0xFF, 0xD8, 0x49, 0x49, 0x2A, 0x00, 0x49, 0x49, 0x2A, 0x00,
    ];
    let results = find_all_starts(&buffer);
    assert_eq!(results, vec![(0, FileType::Jpeg), (5, FileType::Rw2)]);
}

#[test]
fn find_all_starts_is_strictly_ascending() {
    let buffers: Vec<Vec<u8>> = vec![
        vec![0x00, 0xFF, 0xD8, 0x01, 0x49, 0x49, 0x2A, 0x00, 0x02],
        vec![0x49, 0x49, 0x2A, 0x00, 0xFF, 0xD8],
        vec![0xFF, 0xD8, 0x49, 0x49, 0x2A, 0x00],
    ];
    for buffer in buffers.iter() {
        let results = find_all_starts(buffer);
        assert_eq!(results.len(), 2);
        assert!(results[0].0 < results[1].0);
    }
}

#[test]
fn find_all_starts_on_empty_buffer() {
    assert_eq!(find_all_starts(&[]), vec![]);
}

#[test]
fn match_start_reads_the_front_of_the_buffer() {
    assert_eq!(match_start(&[0xFF, 0xD8, 0x00]), Some(FileType::Jpeg));
    assert_eq!(match_start(&[0xFF, 0xD8]), Some(FileType::Jpeg));
    assert_eq!(match_start(&[0x49, 0x49, 0x2A, 0x00, 0x01]), Some(FileType::Rw2));
    assert_eq!(match_start(&[0x49, 0x49, 0x2A, 0x00]), Some(FileType::Rw2));
    assert_eq!(match_start(&[0x00, 0xFF, 0xD8]), None);
    assert_eq!(match_start(&[0x49, 0x49, 0x2A]), None);
    assert_eq!(match_start(&[0xFF]), None);
    assert_eq!(match_start(&[]), None);
}

#[test]
fn find_next_start_gives_the_lowest_start_of_either_format() {
    assert_eq!(find_next_start(&[0x00, 0xFF, 0xD8, 0x49, 0x49, 0x2A, 0x00]), Some(1));
    assert_eq!(find_next_start(&[0x00, 0x49, 0x49, 0x2A, 0x00, 0xFF, 0xD8]), Some(1));
    assert_eq!(find_next_start(&[0x00, 0x00, 0x00, 0xFF, 0xD8]), Some(3));
    assert_eq!(find_next_start(&[0xFF, 0xD8]), Some(0));
    assert_eq!(find_next_start(&[0x00, 0x01, 0x02]), None);
    assert_eq!(find_next_start(&[0x49, 0x49, 0x2A]), None);
    assert_eq!(find_next_start(&[]), None);
}

#[test]
fn find_next_start_agrees_with_the_earliest_candidate() {
    let buffers: Vec<Vec<u8>> = vec![
        vec![0x00, 0xFF, 0xD8, 0x01, 0x49, 0x49, 0x2A, 0x00, 0x02],
        vec![0x49, 0x49, 0x2A, 0x00, 0xFF, 0xD8],
        vec![0x01, 0x02, 0x03],
        vec![],
    ];
    for buffer in buffers.iter() {
        let earliest = find_all_starts(buffer).first().map(|c| c.0);
        assert_eq!(find_next_start(buffer), earliest);
    }
}
