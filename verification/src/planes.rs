//! The plane-by-plane run-length encoding of a scanline.
//!
//! A scanline in this form holds its red mantissas, then its green ones, its
//! blue ones and its exponents. Each plane is a sequence of segments. A
//! segment starts with a control byte: above 128 it announces a run, the byte
//! after it repeated `control - 128` times; up to 128 it announces that many
//! bytes to take as they come.

use crate::error::LoadError;
use crate::outcome::{
    advanced, fails_in_encoding, lemma_prepend_twice, lemma_skip_skip, prepend, Decoded,
};
use crate::pixel::{Channel, RGB, RGBE};
use crate::reader::ByteReader;
use vstd::prelude::*;

verus! {

/// The segment at the start of `s`, of a plane that still lacks `room`
/// bytes: the bytes that it stands for. The count of a run is its control
/// byte without the top bit.
///
/// A run that is longer than what the plane still lacks is an encoding error,
/// found before its value is read. Of a literal too long for the plane, the
/// stream must hold more bytes than the plane lacks for the error to be
/// found; a stream that ends before then has ended early.
pub open spec fn segment_spec(s: Seq<u8>, room: nat) -> Decoded<Seq<u8>> {
    if s.len() == 0 {
        Err(LoadError::Eof)
    } else if s[0] > 128 {
        let count = (s[0] - 128) as nat;
        if count > room {
            Err(LoadError::Rle)
        } else if s.len() < 2 {
            Err(LoadError::Eof)
        } else {
            Ok((Seq::new(count, |i: int| s[1]), 2))
        }
    } else {
        let count = s[0] as nat;
        let available = (s.len() - 1) as nat;
        if count > room && available > room {
            Err(LoadError::Rle)
        } else if available < count {
            Err(LoadError::Eof)
        } else {
            Ok((s.subrange(1, 1 + count as int), 1 + count))
        }
    }
}

/// The `need` bytes of one plane that `s` encodes: segment after segment,
/// until the plane lacks nothing.
pub open spec fn plane_spec(s: Seq<u8>, need: nat) -> Decoded<Seq<u8>>
    decreases s.len(),
{
    if need == 0 {
        Ok((Seq::empty(), 0))
    } else {
        match segment_spec(s, need) {
            Err(e) => Err(e),
            Ok((segment, used)) => prepend(
                segment,
                used,
                plane_spec(s.skip(used as int), (need - segment.len()) as nat),
            ),
        }
    }
}

/// The scanline `line` with the plane `channel` of its pixels replaced by
/// `vals`, pixel by pixel.
pub open spec fn planted(line: Seq<RGB>, channel: Channel, vals: Seq<u8>) -> Seq<RGB> {
    Seq::new(line.len(), |i: int| line[i].with_channel(channel, vals[i]))
}

/// The `width` pixels that `s` encodes plane by plane, once every pixel's
/// exponent has been applied to it.
pub open spec fn new_decrunch_spec(s: Seq<u8>, width: nat) -> Decoded<Seq<RGB>> {
    match plane_spec(s, width) {
        Err(e) => Err(e),
        Ok((r, nr)) => match plane_spec(s.skip(nr as int), width) {
            Err(e) => Err(e),
            Ok((g, ng)) => match plane_spec(s.skip((nr + ng) as int), width) {
                Err(e) => Err(e),
                Ok((b, nb)) => match plane_spec(s.skip((nr + ng + nb) as int), width) {
                    Err(e) => Err(e),
                    Ok((e, ne)) => Ok(
                        (
                            Seq::new(
                                width,
                                |i: int|
                                    RGB::from_rgbe(RGBE { r: r[i], g: g[i], b: b[i], e: e[i] }),
                            ),
                            nr + ng + nb + ne,
                        ),
                    ),
                },
            },
        },
    }
}

/// A plane that decodes has the length asked for and lies within the bytes
/// it was decoded from.
pub proof fn lemma_plane_spec_len(s: Seq<u8>, need: nat)
    ensures
        plane_spec(s, need) matches Ok((vals, used)) ==> vals.len() == need && used <= s.len(),
    decreases s.len(),
{
    if need != 0 {
        if let Ok((segment, used)) = segment_spec(s, need) {
            lemma_plane_spec_len(s.skip(used as int), (need - segment.len()) as nat);
        }
    }
}

/// A plane fails for no other reason than an early end of the stream or a
/// segment that does not fit.
pub proof fn lemma_plane_spec_errors(s: Seq<u8>, need: nat)
    ensures
        fails_in_encoding(plane_spec(s, need)),
    decreases s.len(),
{
    if need != 0 {
        if let Ok((segment, used)) = segment_spec(s, need) {
            lemma_plane_spec_errors(s.skip(used as int), (need - segment.len()) as nat);
        }
    }
}

/// A scanline stored plane by plane fails for no other reason than an early
/// end of the stream or a segment that does not fit.
pub proof fn lemma_new_decrunch_spec_errors(s: Seq<u8>, width: nat)
    ensures
        fails_in_encoding(new_decrunch_spec(s, width)),
{
    lemma_plane_spec_errors(s, width);
    if let Ok((r, nr)) = plane_spec(s, width) {
        lemma_plane_spec_errors(s.skip(nr as int), width);
        if let Ok((g, ng)) = plane_spec(s.skip(nr as int), width) {
            lemma_plane_spec_errors(s.skip((nr + ng) as int), width);
            if let Ok((b, nb)) = plane_spec(s.skip((nr + ng) as int), width) {
                lemma_plane_spec_errors(s.skip((nr + ng + nb) as int), width);
            }
        }
    }
}

/// A run that is longer than what its plane still lacks is an encoding
/// error, whatever follows its control byte.
pub proof fn lemma_run_past_plane(s: Seq<u8>, need: nat)
    requires
        s.len() >= 1,
        need > 0,
        s[0] > 128,
        s[0] - 128 > need,
    ensures
        segment_spec(s, need) == Err::<(Seq<u8>, nat), LoadError>(LoadError::Rle),
        plane_spec(s, need) == Err::<(Seq<u8>, nat), LoadError>(LoadError::Rle),
{
}

/// A scanline that decodes plane by plane has the width asked for and lies
/// within the bytes it was decoded from.
pub proof fn lemma_new_decrunch_spec_len(s: Seq<u8>, width: nat)
    ensures
        new_decrunch_spec(s, width) matches Ok((pixels, used)) ==> pixels.len() == width && used
            <= s.len(),
{
    lemma_plane_spec_len(s, width);
    if let Ok((r, nr)) = plane_spec(s, width) {
        lemma_plane_spec_len(s.skip(nr as int), width);
        if let Ok((g, ng)) = plane_spec(s.skip(nr as int), width) {
            lemma_plane_spec_len(s.skip((nr + ng) as int), width);
            if let Ok((b, nb)) = plane_spec(s.skip((nr + ng) as int), width) {
                lemma_plane_spec_len(s.skip((nr + ng + nb) as int), width);
            }
        }
    }
}

/// Stores `val` in the plane `channel` of the `count` pixels from `start` on.
fn fill_run(scanline: &mut [RGB], start: usize, count: usize, channel: Channel, val: u8)
    requires
        start + count <= old(scanline)@.len(),
    ensures
        final(scanline)@.len() == old(scanline)@.len(),
        forall|i: int|
            0 <= i < old(scanline)@.len() ==> #[trigger] final(scanline)@[i] == if start <= i
                < start + count {
                old(scanline)@[i].with_channel(channel, val)
            } else {
                old(scanline)@[i]
            },
{
    let len = scanline.len();
    let mut k: usize = 0;
    while k < count
        invariant
            k <= count,
            start + count <= len == scanline@.len(),
            scanline@.len() == old(scanline)@.len(),
            forall|i: int|
                0 <= i < scanline@.len() ==> #[trigger] scanline@[i] == if start <= i < start + k {
                    old(scanline)@[i].with_channel(channel, val)
                } else {
                    old(scanline)@[i]
                },
        decreases count - k,
    {
        scanline[start + k].set_channel(channel, val);
        k += 1;
    }
}

/// Stores the first `count` bytes of `buf` in the plane `channel` of the
/// `count` pixels from `start` on, one byte to a pixel.
fn fill_literal(scanline: &mut [RGB], start: usize, count: usize, channel: Channel, buf: &[u8])
    requires
        start + count <= old(scanline)@.len(),
        count <= buf@.len(),
    ensures
        final(scanline)@.len() == old(scanline)@.len(),
        forall|i: int|
            0 <= i < old(scanline)@.len() ==> #[trigger] final(scanline)@[i] == if start <= i
                < start + count {
                old(scanline)@[i].with_channel(channel, buf@[i - start])
            } else {
                old(scanline)@[i]
            },
{
    let len = scanline.len();
    let mut k: usize = 0;
    while k < count
        invariant
            k <= count,
            count <= buf@.len(),
            start + count <= len == scanline@.len(),
            scanline@.len() == old(scanline)@.len(),
            forall|i: int|
                0 <= i < scanline@.len() ==> #[trigger] scanline@[i] == if start <= i < start + k {
                    old(scanline)@[i].with_channel(channel, buf@[i - start])
                } else {
                    old(scanline)@[i]
                },
        decreases count - k,
    {
        scanline[start + k].set_channel(channel, buf[k]);
        k += 1;
    }
}

/// Takes `count` bytes from the stream as they come and stores them in the
/// plane `channel` of the `count` pixels from `start` on. The bytes are taken
/// in the chunks in which the reader offers them.
fn read_literal(
    reader: &mut ByteReader,
    scanline: &mut [RGB],
    start: usize,
    count: usize,
    channel: Channel,
) -> (result: Result<(), LoadError>)
    requires
        start <= old(scanline)@.len(),
    ensures
        final(scanline)@.len() == old(scanline)@.len(),
        advanced(old(reader)@, final(reader)@),
        result == Err::<(), LoadError>(LoadError::Eof) ==> final(reader)@.len() == 0,
        ({
            let room = old(scanline)@.len() - start;
            let available = old(reader)@.len();
            if count > room && available > room {
                result == Err::<(), LoadError>(LoadError::Rle)
            } else if available < count {
                result == Err::<(), LoadError>(LoadError::Eof)
            } else {
                &&& result is Ok
                &&& final(reader)@ == old(reader)@.skip(count as int)
                &&& forall|i: int|
                    0 <= i < old(scanline)@.len() ==> #[trigger] final(scanline)@[i] == if start
                        <= i < start + count {
                        old(scanline)@[i].with_channel(channel, old(reader)@[i - start])
                    } else {
                        old(scanline)@[i]
                    }
            }
        }),
{
    let len = scanline.len();
    let ghost r0 = reader@;
    let ghost s0 = scanline@;
    let mut at: usize = start;
    let mut bytes_left: usize = count;
    while bytes_left > 0
        invariant
            r0 == old(reader)@,
            s0 == old(scanline)@,
            start <= at <= len == s0.len() == scanline@.len(),
            at - start + bytes_left == count,
            at - start <= r0.len(),
            reader@ == r0.skip(at - start),
            forall|i: int|
                0 <= i < len ==> #[trigger] scanline@[i] == if start <= i < at {
                    s0[i].with_channel(channel, r0[i - start])
                } else {
                    s0[i]
                },
        decreases bytes_left,
    {
        let buf = reader.fill_buf();
        if buf.len() == 0 {
            return Err(LoadError::Eof);
        }
        let chunk = if buf.len() < bytes_left {
            buf.len()
        } else {
            bytes_left
        };
        if chunk > len - at {
            return Err(LoadError::Rle);
        }
        fill_literal(scanline, at, chunk, channel, buf);
        reader.consume(chunk);
        proof {
            lemma_skip_skip(r0, (at - start) as nat, chunk as nat);
        }
        at += chunk;
        bytes_left -= chunk;
    }
    Ok(())
}

/// Decodes the segment that comes next in the stream into the plane
/// `channel` of the pixels from `start` on, and returns the number of pixels
/// that it covers.
fn read_segment(
    reader: &mut ByteReader,
    scanline: &mut [RGB],
    start: usize,
    channel: Channel,
) -> (result: Result<usize, LoadError>)
    requires
        start <= old(scanline)@.len(),
    ensures
        final(scanline)@.len() == old(scanline)@.len(),
        advanced(old(reader)@, final(reader)@),
        result == Err::<usize, LoadError>(LoadError::Eof) ==> final(reader)@.len() == 0,
        match segment_spec(old(reader)@, (old(scanline)@.len() - start) as nat) {
            Ok((segment, used)) => {
                &&& result == Ok::<usize, LoadError>(segment.len() as usize)
                &&& start + segment.len() <= old(scanline)@.len()
                &&& 1 <= used <= old(reader)@.len()
                &&& final(reader)@ == old(reader)@.skip(used as int)
                &&& forall|i: int|
                    0 <= i < old(scanline)@.len() ==> #[trigger] final(scanline)@[i] == if start
                        <= i < start + segment.len() {
                        old(scanline)@[i].with_channel(channel, segment[i - start])
                    } else {
                        old(scanline)@[i]
                    }
            },
            Err(e) => result == Err::<usize, LoadError>(e),
        },
{
    let ghost r0 = reader@;
    let room = scanline.len() - start;
    let code = reader.read_byte()?;
    if code > 128 {
        let count = (code & 127) as usize;
        assert(code > 128 ==> code & 127 == code - 128) by (bit_vector);
        if count > room {
            return Err(LoadError::Rle);
        }
        let val = reader.read_byte()?;
        fill_run(scanline, start, count, channel, val);
        proof {
            lemma_skip_skip(r0, 1, 1);
        }
        Ok(count)
    } else {
        let count = code as usize;
        read_literal(reader, scanline, start, count, channel)?;
        proof {
            lemma_skip_skip(r0, 1, count as nat);
        }
        Ok(count)
    }
}

/// Decodes one plane of a scanline: reads segments until every pixel of
/// `scanline` has got its byte for the plane `channel`. The other planes of
/// the pixels stay as they are.
pub fn decrunch_channel(
    reader: &mut ByteReader,
    scanline: &mut [RGB],
    channel: Channel,
) -> (result: Result<(), LoadError>)
    ensures
        final(scanline)@.len() == old(scanline)@.len(),
        advanced(old(reader)@, final(reader)@),
        result == Err::<(), LoadError>(LoadError::Eof) ==> final(reader)@.len() == 0,
        match plane_spec(old(reader)@, old(scanline)@.len()) {
            Ok((vals, used)) => {
                &&& result is Ok
                &&& final(reader)@ == old(reader)@.skip(used as int)
                &&& final(scanline)@ == planted(old(scanline)@, channel, vals)
            },
            Err(e) => result == Err::<(), LoadError>(e),
        },
{
    let width = scanline.len();
    let ghost r0 = reader@;
    let ghost s0 = scanline@;
    let ghost mut vals: Seq<u8> = Seq::empty();
    let ghost mut used: nat = 0;
    let mut filled: usize = 0;
    while filled < width
        invariant
            r0 == old(reader)@,
            s0 == old(scanline)@,
            filled <= width == s0.len() == scanline@.len(),
            vals.len() == filled,
            used <= r0.len(),
            reader@ == r0.skip(used as int),
            plane_spec(r0, width as nat) == prepend(
                vals,
                used,
                plane_spec(reader@, (width - filled) as nat),
            ),
            forall|i: int|
                0 <= i < width ==> #[trigger] scanline@[i] == if i < filled {
                    s0[i].with_channel(channel, vals[i])
                } else {
                    s0[i]
                },
        decreases reader@.len(),
    {
        let ghost r1 = reader@;
        let ghost need = (width - filled) as nat;
        let count = read_segment(reader, scanline, filled, channel)?;
        proof {
            let (segment, taken) = segment_spec(r1, need)->Ok_0;
            lemma_prepend_twice(
                vals,
                used,
                segment,
                taken,
                plane_spec(r1.skip(taken as int), (need - segment.len()) as nat),
            );
            lemma_skip_skip(r0, used, taken);
            vals = vals + segment;
            used = used + taken;
        }
        filled += count;
    }
    proof {
        assert(scanline@ =~= planted(s0, channel, vals));
        assert(vals + Seq::<u8>::empty() =~= vals);
    }
    Ok(())
}

} // verus!
