use ap_project::datasets::mnist::{parse_images, parse_labels, read_u32_be, IdxError};

fn header(magic: u32, fields: &[u32]) -> Vec<u8> {
    let mut v = magic.to_be_bytes().to_vec();
    for f in fields {
        v.extend_from_slice(&f.to_be_bytes());
    }
    v
}

#[test]
fn reads_big_endian_words() {
    let bytes = [0x00, 0x00, 0x08, 0x03, 0xDE, 0xAD, 0xBE, 0xEF];
    assert_eq!(read_u32_be(&bytes, 0), 0x0803);
    assert_eq!(read_u32_be(&bytes, 4), 0xDEADBEEF);
    assert_eq!(read_u32_be(&bytes, 2), 0x0803DEAD);
}

#[test]
fn parses_labels() {
    let mut bytes = header(0x0801, &[4]);
    bytes.extend_from_slice(&[7, 2, 1, 0, 99]);
    assert_eq!(parse_labels(&bytes), Ok(vec![7, 2, 1, 0]));
}

#[test]
fn label_errors() {
    assert_eq!(parse_labels(&[0, 0, 8]), Err(IdxError::Truncated));
    assert_eq!(parse_labels(&header(0x0803, &[0])), Err(IdxError::BadMagic(0x0803)));
    assert_eq!(parse_labels(&[0, 0, 8, 1, 0]), Err(IdxError::Truncated));
    let mut short = header(0x0801, &[3]);
    short.extend_from_slice(&[1, 2]);
    assert_eq!(parse_labels(&short), Err(IdxError::Truncated));
}

#[test]
fn parses_images() {
    let mut bytes = header(0x0803, &[2, 28, 28]);
    let pixels: Vec<u8> = (0..2 * 784).map(|k| (k % 251) as u8).collect();
    bytes.extend_from_slice(&pixels);
    let img = parse_images(&bytes).unwrap();
    assert_eq!((img.count, img.rows, img.cols), (2, 28, 28));
    assert_eq!(img.pixels, pixels);
}

#[test]
fn image_errors() {
    assert_eq!(parse_images(&[0, 0]).err(), Some(IdxError::Truncated));
    assert_eq!(parse_images(&header(0x0801, &[1, 28, 28])).err(), Some(IdxError::BadMagic(0x0801)));
    assert_eq!(parse_images(&header(0x0803, &[1, 28])).err(), Some(IdxError::Truncated));
    assert_eq!(
        parse_images(&header(0x0803, &[1, 28, 27])).err(),
        Some(IdxError::BadImageSize(28, 27))
    );
    let mut short = header(0x0803, &[2, 28, 28]);
    short.extend_from_slice(&[0u8; 784 + 783]);
    assert_eq!(parse_images(&short).err(), Some(IdxError::Truncated));
    assert_eq!(parse_images(&header(0x0803, &[u32::MAX, 28, 28])).err(), Some(IdxError::Truncated));
}
