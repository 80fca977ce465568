use dezero::mnist::{check_idx_images, check_idx_labels, idx_image_bytes, parse_idx_images, parse_idx_labels, read_be_u32, to_one_hot};

#[test]
fn parse_idx_labels_test() {
    let bytes: Vec<u8> = vec![
        0x00, 0x00, 0x08, 0x01, // magic number
        0x00, 0x00, 0x00, 0x03, // number of items
        0x07, 0x02, 0x09, // labels
    ];
    assert!(check_idx_labels(&bytes));
    let labels = parse_idx_labels(&bytes);
    assert_eq!(labels.len(), 3);
    assert_eq!(labels.get(0), 7);
    assert_eq!(labels.get(1), 2);
    assert_eq!(labels.get(2), 9);
}

#[test]
fn to_one_hot_test() {
    let labels = vec![0, 1, 2, 1];
    let num_classes = 3;
    let one_hot = to_one_hot(&labels, num_classes, 0.0f32, 1.0f32);
    assert_eq!(one_hot.len(), 4 * 3);
    let at = |i: usize, j: usize| one_hot[i * num_classes + j];
    assert_eq!(at(0, 0), 1.0);
    assert_eq!(at(0, 1), 0.0);
    assert_eq!(at(0, 2), 0.0);
    assert_eq!(at(1, 0), 0.0);
    assert_eq!(at(1, 1), 1.0);
    assert_eq!(at(1, 2), 0.0);
    assert_eq!(at(2, 0), 0.0);
    assert_eq!(at(2, 1), 0.0);
    assert_eq!(at(2, 2), 1.0);
    assert_eq!(at(3, 0), 0.0);
    assert_eq!(at(3, 1), 1.0);
    assert_eq!(at(3, 2), 0.0);
}

#[test]
fn test_parse_idx_labels() {
    let mut bytes = vec![];
    bytes.extend_from_slice(&[0, 0, 8, 1]);
    bytes.extend_from_slice(&[0, 0, 0, 2]);
    bytes.extend_from_slice(&[5, 0]);

    let labels = parse_idx_labels(&bytes);
    assert_eq!(labels.len(), 2);
    assert_eq!(labels.get(0), 5);
    assert_eq!(labels.get(1), 0);
}

#[test]
fn test_parse_idx_images() {
    let mut bytes = vec![];
    bytes.extend_from_slice(&[0, 0, 8, 3]);
    bytes.extend_from_slice(&[0, 0, 0, 2]);
    bytes.extend_from_slice(&[0, 0, 0, 2]);
    bytes.extend_from_slice(&[0, 0, 0, 2]);
    bytes.extend_from_slice(&[1, 2, 3, 4, 5, 6, 7, 8]);

    assert!(check_idx_images(&bytes));
    let images = parse_idx_images(&bytes);
    assert_eq!(images.dims(), (2, 1, 2, 2));
    assert_eq!(images.get(0, 0, 0, 0), 1);
    assert_eq!(images.get(0, 0, 1, 1), 4);
    assert_eq!(images.get(1, 0, 0, 0), 5);
    assert_eq!(images.get(1, 0, 1, 1), 8);
}

#[test]
fn big_endian_words() {
    assert_eq!(read_be_u32(&[0x12, 0x34, 0x56, 0x78, 0x9a], 1), 0x3456789a);
    assert_eq!(read_be_u32(&[0, 0, 8, 3], 0), 2051);
}

#[test]
fn malformed_idx_files_are_rejected() {
    // wrong header word
    assert!(!check_idx_labels(&[0, 0, 8, 3, 0, 0, 0, 0]));
    // more labels announced than present
    assert!(!check_idx_labels(&[0, 0, 8, 1, 0, 0, 0, 3, 1, 2]));
    // too short for a header
    assert!(!check_idx_labels(&[0, 0, 8]));
    assert!(!check_idx_images(&[0, 0, 8, 3, 0, 0, 0, 1, 0, 0, 0, 2]));
    // one pixel missing
    assert!(!check_idx_images(&[0, 0, 8, 3, 0, 0, 0, 1, 0, 0, 0, 1, 0, 0, 0, 2, 7]));
    // a label file is not an image file
    assert!(!check_idx_images(&[0, 0, 8, 1, 0, 0, 0, 0, 0, 0, 0, 0, 0, 0, 0, 0]));
    // trailing bytes are ignored
    assert!(check_idx_labels(&[0, 0, 8, 1, 0, 0, 0, 1, 4, 9, 9]));
    assert_eq!(parse_idx_labels(&[0, 0, 8, 1, 0, 0, 0, 1, 4, 9, 9]).len(), 1);
}

#[test]
fn image_header_and_pixels() {
    let bytes = vec![0, 0, 8, 3, 0, 0, 0, 1, 0, 0, 0, 2, 0, 0, 0, 3, 1, 2, 3, 4, 5, 6, 99];
    let (pixels, dims) = idx_image_bytes(&bytes);
    assert_eq!(dims, (1, 2, 3));
    assert_eq!(pixels, vec![1, 2, 3, 4, 5, 6]);
    let images = parse_idx_images(&bytes);
    assert_eq!(images.dims(), (1, 1, 2, 3));
    assert_eq!(images.get(0, 0, 1, 0), 4);
}

#[test]
fn empty_label_file() {
    let labels = parse_idx_labels(&[0, 0, 8, 1, 0, 0, 0, 0]);
    assert_eq!(labels.len(), 0);
}

#[test]
fn image_files_fit_in_an_array() {
    let bytes = vec![0, 0, 8, 3, 0, 0, 0, 0, 0xff, 0xff, 0xff, 0xff, 0xff, 0xff, 0xff, 0xff];
    assert!(dezero::mnist::check_idx_images(&bytes));
    // no image, but the rows and columns alone overflow a 32-bit count
    assert_eq!(dezero::mnist::idx_images_fit(&bytes), (0xffff_ffffu128 * 0xffff_ffff) <= isize::MAX as u128);
    assert!(dezero::mnist::idx_images_fit(&[0, 0, 8, 3, 0, 0, 0, 2, 0, 0, 0, 2, 0, 0, 0, 2, 1, 2, 3, 4, 5, 6, 7, 8]));
}

#[test]
fn parse_idx_images_test() {
    let bytes: Vec<u8> = vec![
        0x00, 0x00, 0x08, 0x03, // magic number
        0x00, 0x00, 0x00, 0x02, // number of images
        0x00, 0x00, 0x00, 0x02, // number of rows
        0x00, 0x00, 0x00, 0x02, // number of columns
        0x00, 0xFF, 0x00, 0xFF, // first image
        0xFF, 0x00, 0xFF, 0x00, // second image
    ];
    assert!(check_idx_images(&bytes));
    let (pixels, (count, rows, cols)) = idx_image_bytes(&bytes);
    assert_eq!((count, rows, cols), (2, 2, 2));
    // one flattened image per row: a 2 × 4 matrix
    assert_eq!((count, rows * cols), (2, 4));
    // 0x00 scales to 0.0 and 0xFF to 1.0
    assert_eq!(pixels, vec![0x00, 0xFF, 0x00, 0xFF, 0xFF, 0x00, 0xFF, 0x00]);
    let images = parse_idx_images(&bytes);
    assert_eq!(images.dims(), (2, 1, 2, 2));
    assert_eq!(images.get(0, 0, 0, 1), 0xFF);
    assert_eq!(images.get(1, 0, 0, 0), 0xFF);
    assert_eq!(images.get(1, 0, 1, 1), 0x00);
}
