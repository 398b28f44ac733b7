//! The decoding of a whole stream: the signature, the header and the
//! scanlines of the image, row after row.

use crate::error::LoadError;
use crate::header::{header_spec, lemma_header_spec_errors, lemma_header_spec_len, parse_header};
use crate::image::{Image, ImageView};
use crate::outcome::{
    advanced, fails_in_encoding, lemma_prepend_twice, lemma_skip_skip, prepend, Decoded,
};
use crate::pixel::{RGB, RGBE};
use crate::reader::ByteReader;
use crate::scanline::{
    decrunch, decrunch_spec, lemma_decrunch_spec_errors, lemma_decrunch_spec_len,
};
use vstd::prelude::*;

verus! {

/// The length of the signature.
pub const MAGIC_LEN: usize = 10;

/// The signature that every stream starts with: the bytes `#?RADIANCE`.
pub open spec fn magic() -> Seq<u8> {
    seq![0x23, 0x3f, 0x52, 0x41, 0x44, 0x49, 0x41, 0x4e, 0x43, 0x45]
}

/// The pixels of `rows` scanlines of `width` pixels each that `s` encodes,
/// one scanline after the other.
pub open spec fn rows_spec(s: Seq<u8>, width: nat, rows: nat) -> Decoded<Seq<RGB>>
    recommends
        width > 0,
    decreases rows,
{
    if rows == 0 {
        Ok((Seq::empty(), 0))
    } else {
        match decrunch_spec(s, width) {
            Err(e) => Err(e),
            Ok((line, used)) => prepend(
                line,
                used,
                rows_spec(s.skip(used as int), width, (rows - 1) as nat),
            ),
        }
    }
}

/// The pixels of an image of `width` by `height` pixels that `s` encodes.
///
/// An image with more pixels than the machine word can count is a format
/// error. An image without pixels takes no bytes.
pub open spec fn pixels_spec(s: Seq<u8>, width: nat, height: nat) -> Decoded<Seq<RGB>> {
    if width * height > usize::MAX {
        Err(LoadError::FileFormat)
    } else if width * height == 0 {
        Ok((Seq::empty(), 0))
    } else {
        rows_spec(s, width, height)
    }
}

/// The image that the stream `s` holds: the signature, then the header, then
/// the scanlines.
pub open spec fn load_spec(s: Seq<u8>) -> Decoded<ImageView> {
    if s.len() < magic().len() {
        Err(LoadError::Eof)
    } else if s.take(magic().len() as int) != magic() {
        Err(LoadError::FileFormat)
    } else {
        match header_spec(s.skip(magic().len() as int)) {
            Err(e) => Err(e),
            Ok(((width, height), n)) => match pixels_spec(
                s.skip((magic().len() + n) as int),
                width,
                height,
            ) {
                Err(e) => Err(e),
                Ok((pixels, m)) => Ok(
                    (ImageView { width, height, pixels }, magic().len() + n + m),
                ),
            },
        }
    }
}

/// Row `row` of an image starts at `row * width` in the image's data and
/// lies within the data.
proof fn lemma_row_bounds(row: int, height: int, width: int)
    by (nonlinear_arith)
    requires
        0 <= row < height,
        0 < width,
    ensures
        0 <= row * width,
        row * width + width == (row + 1) * width,
        (row + 1) * width <= height * width,
        height * width == width * height,
{
}

/// Decodes one scanline from the stream into the `width` pixels of `data`
/// from `start` on.
fn read_row(
    reader: &mut ByteReader,
    data: &mut Vec<RGB>,
    start: usize,
    width: usize,
) -> (result: Result<(), LoadError>)
    requires
        width > 0,
        start + width <= old(data)@.len(),
    ensures
        final(data)@.len() == old(data)@.len(),
        advanced(old(reader)@, final(reader)@),
        result == Err::<(), LoadError>(LoadError::Eof) ==> final(reader)@.len() == 0,
        match decrunch_spec(old(reader)@, width as nat) {
            Ok((pixels, used)) => {
                &&& result is Ok
                &&& used <= old(reader)@.len()
                &&& pixels.len() == width
                &&& final(reader)@ == old(reader)@.skip(used as int)
                &&& final(data)@.take(start + width) == old(data)@.take(start as int) + pixels
                &&& final(data)@.skip(start + width) == old(data)@.skip(start + width)
            },
            Err(e) => result == Err::<(), LoadError>(e),
        },
{
    proof {
        lemma_decrunch_spec_len(reader@, width as nat);
    }
    let all = data.as_mut_slice();
    let (_, rest) = all.split_at_mut(start);
    let (line, _) = rest.split_at_mut(width);
    decrunch(reader, line)
}

/// Rows fail for no other reason than an early end of the stream or a run
/// or literal that does not fit.
pub proof fn lemma_rows_spec_errors(s: Seq<u8>, width: nat, rows: nat)
    ensures
        fails_in_encoding(rows_spec(s, width, rows)),
    decreases rows,
{
    if rows != 0 {
        lemma_decrunch_spec_errors(s, width);
        if let Ok((line, used)) = decrunch_spec(s, width) {
            lemma_rows_spec_errors(s.skip(used as int), width, (rows - 1) as nat);
        }
    }
}

/// The pixels of an image are a format error where and only where they are
/// more than the machine word can count.
pub proof fn lemma_pixels_spec_errors(s: Seq<u8>, width: nat, height: nat)
    ensures
        pixels_spec(s, width, height) == Err::<(Seq<RGB>, nat), LoadError>(LoadError::FileFormat)
            <==> width * height > usize::MAX,
        pixels_spec(s, width, height) matches Err(e) ==> e != LoadError::Io,
{
    lemma_rows_spec_errors(s, width, height);
}

/// Decoding a stream never fails with [`LoadError::Io`]: bytes in memory do
/// not fail to be read.
pub proof fn lemma_load_spec_errors(s: Seq<u8>)
    ensures
        load_spec(s) matches Err(e) ==> e != LoadError::Io,
{
    if s.len() >= magic().len() {
        let s1 = s.skip(magic().len() as int);
        lemma_header_spec_errors(s1);
        if let Ok(((width, height), n)) = header_spec(s1) {
            lemma_pixels_spec_errors(s.skip((magic().len() + n) as int), width, height);
        }
    }
}

/// An image of one pixel is the pixel that its four bytes encode, whatever
/// they hold: no byte of such a scanline is read as a marker.
pub proof fn lemma_single_pixel(s: Seq<u8>)
    requires
        s.len() >= 4,
    ensures
        pixels_spec(s, 1, 1) == Ok::<(Seq<RGB>, nat), LoadError>(
            (seq![RGB::from_rgbe(RGBE::from_seq(s))], 4),
        ),
{
    let first = RGB::from_rgbe(RGBE::from_seq(s));
    let line = decrunch_spec(s, 1);
    assert(line == Ok::<(Seq<RGB>, nat), LoadError>((seq![first], 4))) by {
        assert(seq![first] + Seq::<RGB>::empty() =~= seq![first]);
    }
    assert(rows_spec(s.skip(4), 1, 0) == Ok::<(Seq<RGB>, nat), LoadError>((Seq::empty(), 0)));
    assert(seq![first] + Seq::<RGB>::empty() =~= seq![first]);
}

/// Reads the pixels of an image of `width` by `height` pixels: row after
/// row, each in the encoding that it announces. The first row that fails
/// ends the reading, and no image is returned.
pub fn read_image(reader: &mut ByteReader, width: usize, height: usize) -> (result: Result<
    Image,
    LoadError,
>)
    ensures
        advanced(old(reader)@, final(reader)@),
        result matches Err(LoadError::Eof) ==> final(reader)@.len() == 0,
        (result matches Err(LoadError::FileFormat)) <==> width * height > usize::MAX,
        width * height > usize::MAX ==> final(reader)@ == old(reader)@,
        !(result matches Err(LoadError::Io)),
        width == 0 || height == 0 ==> (result matches Ok(image) && image.data@.len() == 0)
            && final(reader)@ == old(reader)@,
        match pixels_spec(old(reader)@, width as nat, height as nat) {
            Ok((pixels, used)) => {
                &&& result matches Ok(image)
                &&& image@ == (ImageView { width: width as nat, height: height as nat, pixels })
                &&& image.wf()
                &&& final(reader)@ == old(reader)@.skip(used as int)
            },
            Err(e) => result matches Err(f) && f == e,
        },
{
    assert(width == 0 || height == 0 <==> width * height == 0) by (nonlinear_arith);
    proof {
        lemma_pixels_spec_errors(reader@, width as nat, height as nat);
    }
    let length = match width.checked_mul(height) {
        Some(length) => length,
        None => {
            return Err(LoadError::FileFormat);
        },
    };
    let mut data: Vec<RGB> = vec![RGB { r: 0, g: 0, b: 0, expo: 0 }; length];
    if length > 0 {
        let ghost r0 = reader@;
        let ghost mut used: nat = 0;
        let mut row: usize = 0;
        let mut start: usize = 0;
        proof {
            assert(r0.skip(0) =~= r0);
            assert(data@.take(0) =~= Seq::<RGB>::empty());
            assert(width > 0 && height > 0 && 0 * width == 0) by (nonlinear_arith)
                requires
                    width * height > 0,
            ;
        }
        while row < height
            invariant
                r0 == old(reader)@,
                width > 0,
                row <= height,
                start == row * width,
                start <= length,
                data@.len() == length == width * height,
                used <= r0.len(),
                reader@ == r0.skip(used as int),
                rows_spec(r0, width as nat, height as nat) == prepend(
                    data@.take(start as int),
                    used,
                    rows_spec(reader@, width as nat, (height - row) as nat),
                ),
            decreases height - row,
        {
            proof {
                lemma_row_bounds(row as int, height as int, width as int);
                lemma_pixels_spec_errors(r0, width as nat, height as nat);
            }
            let ghost d1 = data@;
            let ghost r1 = reader@;
            read_row(reader, &mut data, start, width)?;
            proof {
                let (pixels, taken) = decrunch_spec(r1, width as nat)->Ok_0;
                lemma_prepend_twice(
                    d1.take(start as int),
                    used,
                    pixels,
                    taken,
                    rows_spec(r1.skip(taken as int), width as nat, (height - row - 1) as nat),
                );
                lemma_skip_skip(r0, used, taken);
                used = used + taken;
            }
            row += 1;
            start += width;
        }
        proof {
            lemma_row_bounds(height - 1, height as int, width as int);
            assert(data@.take(start as int) =~= data@);
            assert(data@ + Seq::<RGB>::empty() =~= data@);
        }
    }
    Ok(Image { width, height, data })
}

/// Whether `bytes` are the signature.
fn is_magic(bytes: &[u8]) -> (same: bool)
    requires
        bytes@.len() == magic().len(),
    ensures
        same == (bytes@ == magic()),
{
    let signature: [u8; 10] = [0x23, 0x3f, 0x52, 0x41, 0x44, 0x49, 0x41, 0x4e, 0x43, 0x45];
    assert(signature@ =~= magic());
    let mut k: usize = 0;
    while k < 10
        invariant
            k <= 10,
            bytes@.len() == 10,
            signature@ == magic(),
            forall|j: int| 0 <= j < k ==> bytes@[j] == signature@[j],
        decreases 10 - k,
    {
        if bytes[k] != signature[k] {
            return false;
        }
        k += 1;
    }
    assert(bytes@ =~= magic());
    true
}

/// Load a Radiance HDR image from a byte stream.
///
/// The stream must start with the signature `#?RADIANCE`; this is tested
/// before anything else is read. Then come the header and the scanlines. What
/// follows the last scanline is left in the reader.
pub fn load(reader: &mut ByteReader) -> (result: Result<Image, LoadError>)
    ensures
        advanced(old(reader)@, final(reader)@),
        result matches Err(LoadError::Eof) ==> final(reader)@.len() == 0,
        old(reader)@.len() < MAGIC_LEN ==> result matches Err(LoadError::Eof),
        old(reader)@.len() >= MAGIC_LEN && old(reader)@.take(MAGIC_LEN as int) != magic() ==> {
            &&& result matches Err(LoadError::FileFormat)
            &&& final(reader)@ == old(reader)@.skip(MAGIC_LEN as int)
        },
        !(result matches Err(LoadError::Io)),
        match load_spec(old(reader)@) {
            Ok((view, used)) => {
                &&& result matches Ok(image)
                &&& image@ == view
                &&& image.wf()
                &&& final(reader)@ == old(reader)@.skip(used as int)
            },
            Err(e) => result matches Err(f) && f == e,
        },
{
    let ghost r0 = reader@;
    proof {
        lemma_load_spec_errors(r0);
    }
    let signature = reader.read_exact(MAGIC_LEN)?;
    if !is_magic(signature) {
        return Err(LoadError::FileFormat);
    }
    let ghost r1 = reader@;
    let (width, height) = parse_header(reader)?;
    let ghost r2 = reader@;
    let ghost n = header_spec(r1)->Ok_0.1;
    proof {
        lemma_skip_skip(r0, 10, n);
    }
    let image = read_image(reader, width, height)?;
    proof {
        let m = pixels_spec(r2, width as nat, height as nat)->Ok_0.1;
        lemma_pixels_spec_len(r2, width as nat, height as nat);
        lemma_skip_skip(r0, 10 + n, m);
    }
    Ok(image)
}

/// Rows that decode lie within the bytes they were decoded from, and are as
/// many pixels as asked for.
pub proof fn lemma_rows_spec_len(s: Seq<u8>, width: nat, rows: nat)
    requires
        width > 0,
    ensures
        rows_spec(s, width, rows) matches Ok((pixels, used)) ==> pixels.len() == width * rows
            && used <= s.len(),
    decreases rows,
{
    if rows > 0 {
        lemma_decrunch_spec_len(s, width);
        if let Ok((line, used)) = decrunch_spec(s, width) {
            lemma_rows_spec_len(s.skip(used as int), width, (rows - 1) as nat);
            assert(width + width * (rows - 1) == width * rows) by (nonlinear_arith);
        }
    } else {
        assert(width * rows == 0) by (nonlinear_arith)
            requires
                rows == 0,
        ;
    }
}

/// An image that decodes lies within the bytes it was decoded from, and has
/// `width * height` pixels.
pub proof fn lemma_pixels_spec_len(s: Seq<u8>, width: nat, height: nat)
    ensures
        pixels_spec(s, width, height) matches Ok((pixels, used)) ==> pixels.len() == width
            * height && used <= s.len(),
{
    if width * height != 0 {
        assert(width > 0) by (nonlinear_arith)
            requires
                width * height != 0,
        ;
        lemma_rows_spec_len(s, width, height);
    }
}

/// An image that decodes lies within the bytes it was decoded from.
pub proof fn lemma_load_spec_len(s: Seq<u8>)
    ensures
        load_spec(s) matches Ok((image, used)) ==> used <= s.len() && image.pixels.len()
            == image.width * image.height,
{
    if s.len() >= magic().len() {
        let s1 = s.skip(magic().len() as int);
        lemma_header_spec_len(s1);
        if let Ok(((width, height), n)) = header_spec(s1) {
            lemma_pixels_spec_len(s.skip((magic().len() + n) as int), width, height);
        }
    }
}

} // verus!
