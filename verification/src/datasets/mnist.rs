//! The IDX format of the MNIST files: a big-endian header followed by raw
//! bytes.

use vstd::prelude::*;

verus! {

/// Side of an MNIST image.
pub const IMAGE_SIZE: usize = 28;

/// Pixels per MNIST image.
pub const FEATURES: usize = 784;

/// Number of MNIST classes.
pub const CLASSES: usize = 10;

/// Magic number of an IDX image file.
pub const IMAGE_MAGIC: u32 = 0x0803;

/// Magic number of an IDX label file.
pub const LABEL_MAGIC: u32 = 0x0801;

/// The big-endian `u32` stored in `bytes[offset..offset + 4]`.
pub open spec fn be_u32(bytes: Seq<u8>, offset: int) -> nat {
    (bytes[offset] as nat) * 16777216 + (bytes[offset + 1] as nat) * 65536 + (bytes[offset + 2] as nat)
        * 256 + (bytes[offset + 3] as nat)
}

/// Reads the big-endian `u32` at `bytes[offset..offset + 4]`.
pub fn read_u32_be(bytes: &[u8], offset: usize) -> (v: u32)
    requires
        offset + 4 <= bytes@.len(),
    ensures
        v as nat == be_u32(bytes@, offset as int),
{
    let b0 = bytes[offset];
    let b1 = bytes[offset + 1];
    let b2 = bytes[offset + 2];
    let b3 = bytes[offset + 3];
    let v: u32 = ((b0 as u32) << 24u32) | ((b1 as u32) << 16u32) | ((b2 as u32) << 8u32) | (b3 as u32);
    assert(v == (b0 as u32) * 16777216 + (b1 as u32) * 65536 + (b2 as u32) * 256 + (b3 as u32)) by (bit_vector)
        requires
            v == ((b0 as u32) << 24u32) | ((b1 as u32) << 16u32) | ((b2 as u32) << 8u32) | (b3 as u32);
    v
}

/// Why an IDX buffer was refused.
#[derive(Debug, PartialEq, Eq, Structural)]
pub enum IdxError {
    /// The buffer ends before the header or the data it announces.
    Truncated,
    /// The magic number is not the one of the expected kind of file.
    BadMagic(u32),
    /// The images are not `IMAGE_SIZE` by `IMAGE_SIZE`.
    BadImageSize(u32, u32),
}

/// The decoded contents of an IDX image file.
pub struct IdxImages {
    /// Number of images.
    pub count: usize,
    /// Rows per image.
    pub rows: usize,
    /// Columns per image.
    pub cols: usize,
    /// `count * rows * cols` raw pixel bytes, image after image, row-major.
    pub pixels: Vec<u8>,
}

/// `bytes` is a complete IDX label file: magic `0x0801`, a count `c`, and
/// at least `8 + c` bytes in all.
pub open spec fn is_label_file(bytes: Seq<u8>) -> bool {
    &&& bytes.len() >= 8
    &&& be_u32(bytes, 0) == 0x0801
    &&& bytes.len() >= 8 + be_u32(bytes, 4)
}

/// `bytes` is a complete IDX file of 28 by 28 images: magic `0x0803`, a
/// count `c`, 28 rows, 28 columns, and at least `16 + 784 * c` bytes.
pub open spec fn is_image_file(bytes: Seq<u8>) -> bool {
    &&& bytes.len() >= 16
    &&& be_u32(bytes, 0) == 0x0803
    &&& be_u32(bytes, 8) == 28
    &&& be_u32(bytes, 12) == 28
    &&& bytes.len() >= 16 + 784 * be_u32(bytes, 4)
}

/// A complete label file, the exact length `8 + c` included, decodes to
/// its `c` label bytes; a buffer is refused as truncated only when it
/// holds fewer than `8 + c` bytes (or no full header); and only complete
/// label files decode.
pub proof fn lemma_labels_law(bytes: Seq<u8>)
    ensures
        is_label_file(bytes) ==> spec_parse_labels(bytes) == Ok::<Seq<usize>, IdxError>(
            Seq::new(be_u32(bytes, 4), |i: int| bytes[8 + i] as usize),
        ),
        spec_parse_labels(bytes) is Ok ==> is_label_file(bytes),
        spec_parse_labels(bytes) == Err::<Seq<usize>, IdxError>(IdxError::Truncated) ==> bytes.len() < 8
            || bytes.len() < 8 + be_u32(bytes, 4),
{
}

/// A complete image file, the exact length `16 + 784 c` included, decodes
/// to its count and its `784 c` pixel bytes; a buffer is refused as
/// truncated only when it holds fewer bytes than its header announces (or
/// no full header); and only complete image files decode.
pub proof fn lemma_images_law(bytes: Seq<u8>)
    ensures
        is_image_file(bytes) ==> spec_parse_images(bytes) == Ok::<(nat, nat, nat, Seq<u8>), IdxError>(
            (be_u32(bytes, 4), 28, 28, bytes.subrange(16, 16 + 784 * be_u32(bytes, 4) as int)),
        ),
        spec_parse_images(bytes) is Ok ==> is_image_file(bytes),
        spec_parse_images(bytes) matches Err(IdxError::Truncated) ==> bytes.len() < 16 || bytes.len() < 16
            + 784 * be_u32(bytes, 4),
{
    assert(be_u32(bytes, 4) * 28 * 28 == 784 * be_u32(bytes, 4)) by (nonlinear_arith);
}

/// What decoding an IDX label buffer gives: the labels, or why it fails.
pub open spec fn spec_parse_labels(bytes: Seq<u8>) -> Result<Seq<usize>, IdxError> {
    if bytes.len() < 4 {
        Err(IdxError::Truncated)
    } else if be_u32(bytes, 0) != LABEL_MAGIC {
        Err(IdxError::BadMagic(be_u32(bytes, 0) as u32))
    } else if bytes.len() < 8 || 8 + be_u32(bytes, 4) > bytes.len() {
        Err(IdxError::Truncated)
    } else {
        Ok(Seq::new(be_u32(bytes, 4), |i: int| bytes[8 + i] as usize))
    }
}

/// Decodes an IDX label buffer: an 8-byte header (magic `0x0801`, count)
/// followed by one label byte per example.
pub fn parse_labels(bytes: &[u8]) -> (r: Result<Vec<usize>, IdxError>)
    ensures
        match r {
            Ok(v) => spec_parse_labels(bytes@) == Ok::<Seq<usize>, IdxError>(v@),
            Err(e) => spec_parse_labels(bytes@) == Err::<Seq<usize>, IdxError>(e),
        },
        is_label_file(bytes@) ==> r is Ok && r->Ok_0@ == Seq::new(
            be_u32(bytes@, 4),
            |i: int| bytes@[8 + i] as usize,
        ),
        r is Ok ==> is_label_file(bytes@),
        r == Err::<Vec<usize>, IdxError>(IdxError::Truncated) ==> bytes@.len() < 8 || bytes@.len() < 8
            + be_u32(bytes@, 4),
{
    proof {
        lemma_labels_law(bytes@);
    }
    let len = bytes.len();
    if len < 4 {
        return Err(IdxError::Truncated);
    }
    let magic = read_u32_be(bytes, 0);
    if magic != LABEL_MAGIC {
        return Err(IdxError::BadMagic(magic));
    }
    if len < 8 {
        return Err(IdxError::Truncated);
    }
    let count = read_u32_be(bytes, 4) as usize;
    if count > len - 8 {
        return Err(IdxError::Truncated);
    }
    let mut labels: Vec<usize> = Vec::with_capacity(count);
    let mut i: usize = 0;
    while i < count
        invariant
            count == be_u32(bytes@, 4),
            8 + count <= bytes@.len(),
            len == bytes@.len(),
            i <= count,
            labels@ == Seq::new(i as nat, |k: int| bytes@[8 + k] as usize),
        decreases count - i,
    {
        labels.push(bytes[8 + i] as usize);
        i = i + 1;
        assert(labels@ =~= Seq::new(i as nat, |k: int| bytes@[8 + k] as usize));
    }
    Ok(labels)
}

/// What decoding an IDX image buffer gives: `(count, rows, cols, pixels)`,
/// or why it fails.
pub open spec fn spec_parse_images(bytes: Seq<u8>) -> Result<(nat, nat, nat, Seq<u8>), IdxError> {
    if bytes.len() < 4 {
        Err(IdxError::Truncated)
    } else if be_u32(bytes, 0) != IMAGE_MAGIC {
        Err(IdxError::BadMagic(be_u32(bytes, 0) as u32))
    } else if bytes.len() < 16 {
        Err(IdxError::Truncated)
    } else if be_u32(bytes, 8) != IMAGE_SIZE || be_u32(bytes, 12) != IMAGE_SIZE {
        Err(IdxError::BadImageSize(be_u32(bytes, 8) as u32, be_u32(bytes, 12) as u32))
    } else if 16 + be_u32(bytes, 4) * be_u32(bytes, 8) * be_u32(bytes, 12) > bytes.len() {
        Err(IdxError::Truncated)
    } else {
        let n = be_u32(bytes, 4) * be_u32(bytes, 8) * be_u32(bytes, 12);
        Ok((be_u32(bytes, 4), be_u32(bytes, 8), be_u32(bytes, 12), bytes.subrange(16, 16 + n as int)))
    }
}

/// Decodes an IDX image buffer: a 16-byte header (magic `0x0803`, count,
/// rows, cols) followed by `count * rows * cols` pixel bytes. Images other
/// than `IMAGE_SIZE` by `IMAGE_SIZE` are refused.
pub fn parse_images(bytes: &[u8]) -> (r: Result<IdxImages, IdxError>)
    ensures
        match r {
            Ok(img) => spec_parse_images(bytes@) == Ok::<(nat, nat, nat, Seq<u8>), IdxError>(
                (img.count as nat, img.rows as nat, img.cols as nat, img.pixels@),
            ),
            Err(e) => spec_parse_images(bytes@) == Err::<(nat, nat, nat, Seq<u8>), IdxError>(e),
        },
        is_image_file(bytes@) ==> r is Ok && r->Ok_0.count == be_u32(bytes@, 4) && r->Ok_0.pixels@
            == bytes@.subrange(16, 16 + 784 * be_u32(bytes@, 4) as int),
        r is Ok ==> is_image_file(bytes@),
        r matches Err(IdxError::Truncated) ==> bytes@.len() < 16 || bytes@.len() < 16 + 784 * be_u32(
            bytes@,
            4,
        ),
{
    proof {
        lemma_images_law(bytes@);
    }
    let len = bytes.len();
    if len < 4 {
        return Err(IdxError::Truncated);
    }
    let magic = read_u32_be(bytes, 0);
    if magic != IMAGE_MAGIC {
        return Err(IdxError::BadMagic(magic));
    }
    if len < 16 {
        return Err(IdxError::Truncated);
    }
    let count32 = read_u32_be(bytes, 4);
    let rows32 = read_u32_be(bytes, 8);
    let cols32 = read_u32_be(bytes, 12);
    if rows32 != 28 || cols32 != 28 {
        return Err(IdxError::BadImageSize(rows32, cols32));
    }
    let count = count32 as usize;
    let avail = len - 16;
    if count > avail / FEATURES {
        proof {
            crate::layout::lemma_div_mod(avail as int, FEATURES as int);
            assert((count as nat) * 784 > avail) by (nonlinear_arith)
                requires count > avail / 784, avail == 784 * (avail / 784) + avail % 784, avail % 784 < 784;
        }
        return Err(IdxError::Truncated);
    }
    proof {
        crate::layout::lemma_div_mod(avail as int, FEATURES as int);
        assert((count as nat) * 784 <= avail) by (nonlinear_arith)
            requires count <= avail / 784, avail == 784 * (avail / 784) + avail % 784, avail % 784 >= 0;
    }
    let n = count * FEATURES;
    let mut pixels: Vec<u8> = Vec::with_capacity(n);
    let mut i: usize = 0;
    while i < n
        invariant
            16 + n <= bytes@.len(),
            len == bytes@.len(),
            i <= n,
            pixels@ == bytes@.subrange(16, 16 + i),
        decreases n - i,
    {
        pixels.push(bytes[16 + i]);
        i = i + 1;
        assert(pixels@ =~= bytes@.subrange(16, 16 + i));
    }
    assert(be_u32(bytes@, 4) * be_u32(bytes@, 8) * be_u32(bytes@, 12) == (count as nat) * 784) by (nonlinear_arith)
        requires be_u32(bytes@, 8) == 28, be_u32(bytes@, 12) == 28, be_u32(bytes@, 4) == count;
    Ok(IdxImages { count, rows: 28, cols: 28, pixels })
}

} // verus!
