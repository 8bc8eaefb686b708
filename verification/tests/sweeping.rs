use image_carver::scanner::FileType;
use image_carver::sweep::{sweep, Span};

#[test]
fn sweep_finds_no_file_without_a_start_signature() {
    assert_eq!(sweep(&[]), vec![]);
    assert_eq!(sweep(&[0x00, 0x01, 0x02, 0xFF, 0xD9]), vec![]);
    assert_eq!(sweep(&[0x49, 0x49, 0x2A]), vec![]);
}

#[test]
fn sweep_runs_a_single_file_to_the_end_of_the_buffer() {
    let buffer = [0x00, 0x00, 0xFF, 0xD8, 0x01, 0x02, 0xFF, 0xD9, 0x07];
    assert_eq!(sweep(&buffer), vec![Span { start: 2, end: 9, file_type: FileType::Jpeg }]);
}

#[test]
fn sweep_ends_each_file_at_the_next_start() {
    let buffer = [
        0x00, 0xFF, 0xD8, 0x01, 0x49, 0x49, 0x2A, 0x00, 0x02, 0x03, 0xFF, 0xD8, 0x04,
    ];
    assert_eq!(
        sweep(&buffer),
        vec![
            Span { start: 1, end: 4, file_type: FileType::Jpeg },
            Span { start: 4, end: 10, file_type: FileType::Rw2 },
            Span { start: 10, end: 13, file_type: FileType::Jpeg },
        ]
    );
}

#[test]
fn sweep_handles_files_that_touch() {
    let buffer = [0xFF, 0xD8, 0xFF, 0xD8, 0x49, 0x49, 0x2A, 0x00];
    assert_eq!(
        sweep(&buffer),
        vec![
            Span { start: 0, end: 2, file_type: FileType::Jpeg },
            Span { start: 2, end: 4, file_type: FileType::Jpeg },
            Span { start: 4, end: 8, file_type: FileType::Rw2 },
        ]
    );
}

#[test]
fn sweep_covers_the_buffer_from_the_first_start_on() {
    let buffer = [
        0x09, 0x49, 0x49, 0x2A, 0x00, 0x01, 0xFF, 0xD8, 0x02, 0x03, 0x49, 0x49, 0x2A, 0x00, 0x04,
    ];
    let spans = sweep(&buffer);
    assert_eq!(spans.len(), 3);
    assert_eq!(spans[0].start, 1);
    for i in 0..spans.len() - 1 {
        assert_eq!(spans[i].end, spans[i + 1].start);
    }
    assert_eq!(spans[spans.len() - 1].end, buffer.len());
}
