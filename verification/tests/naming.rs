use image_carver::naming::{extension, file_name, SEQUENCE_WIDTH};
use image_carver::scanner::FileType;

#[test]
fn extension_follows_the_format() {
    assert_eq!(extension(FileType::Jpeg), "jpg");
    assert_eq!(extension(FileType::Rw2), "rw2");
}

#[test]
fn file_name_of_the_first_file() {
    assert_eq!(file_name("recovered", 0, FileType::Jpeg), "recovered/image_000000.jpg");
    assert_eq!(file_name("recovered", 0, FileType::Rw2), "recovered/image_000000.rw2");
}

#[test]
fn file_name_fills_the_number_with_zeros() {
    assert_eq!(file_name("out", 7, FileType::Jpeg), "out/image_000007.jpg");
    assert_eq!(file_name("out", 12, FileType::Rw2), "out/image_000012.rw2");
    assert_eq!(file_name("out", 100, FileType::Jpeg), "out/image_000100.jpg");
    assert_eq!(file_name("out", 40302, FileType::Jpeg), "out/image_040302.jpg");
    assert_eq!(file_name("out", 999999, FileType::Jpeg), "out/image_999999.jpg");
}

#[test]
fn file_name_widens_for_large_numbers() {
    assert_eq!(file_name("out", 1000000, FileType::Jpeg), "out/image_1000000.jpg");
    assert_eq!(file_name("out", 1234567890, FileType::Rw2), "out/image_1234567890.rw2");
    let widest = format!("out/image_{}.jpg", usize::MAX);
    assert_eq!(file_name("out", usize::MAX, FileType::Jpeg), widest);
}

#[test]
fn file_name_agrees_with_the_format_macro() {
    let numbers: Vec<usize> = vec![0, 1, 9, 10, 11, 99, 100, 101, 99999, 100000, 999999, 1000000];
    for n in numbers.iter() {
        assert_eq!(file_name("recovered", *n, FileType::Jpeg), format!("recovered/image_{:06}.jpg", n));
        assert_eq!(file_name("recovered", *n, FileType::Rw2), format!("recovered/image_{:06}.rw2", n));
    }
}

#[test]
fn file_name_keeps_the_directory_as_it_is() {
    assert_eq!(file_name("", 3, FileType::Jpeg), "/image_000003.jpg");
    assert_eq!(file_name("/mnt/card/out", 3, FileType::Jpeg), "/mnt/card/out/image_000003.jpg");
    assert_eq!(file_name("dir/", 3, FileType::Rw2), "dir//image_000003.rw2");
}

#[test]
fn file_names_do_not_collide() {
    let mut names: Vec<String> = Vec::new();
    for n in 0..300usize {
        names.push(file_name("recovered", n, FileType::Jpeg));
        names.push(file_name("recovered", n, FileType::Rw2));
    }
    names.push(file_name("recovered", 999999, FileType::Jpeg));
    names.push(file_name("recovered", 1000000, FileType::Jpeg));
    names.push(file_name("recovered", 9999990, FileType::Jpeg));
    let count = names.len();
    names.sort();
    names.dedup();
    assert_eq!(names.len(), count);
}

#[test]
fn sequence_width_is_six() {
    assert_eq!(SEQUENCE_WIDTH, 6);
}
