//! One scanline: which of the two encodings it is in, and its pixels.
//!
//! Every scanline says for itself how it is encoded, by its first four bytes.
//! An image may hold scanlines of both kinds.

use crate::error::LoadError;
use crate::outcome::{advanced, fails_in_encoding, lemma_skip_skip, prepend, Decoded};
use crate::pixel::{Channel, RGB, RGBE};
use crate::planes::{decrunch_channel, lemma_plane_spec_len, new_decrunch_spec, plane_spec};
use crate::reader::ByteReader;
use crate::runs::{old_decrunch, old_decrunch_spec};
use vstd::prelude::*;

verus! {

/// The least width of a scanline that can be stored plane by plane.
pub const MIN_LEN: usize = 8;

/// The greatest width of a scanline that can be stored plane by plane.
pub const MAX_LEN: usize = 0x7fff;

/// Whether a scanline of `width` pixels that starts with `first` is stored
/// plane by plane: its width must allow it, and `first` must announce it.
pub open spec fn stored_by_planes(width: nat, first: RGBE) -> bool {
    MIN_LEN <= width <= MAX_LEN && first.new_decrunch_marker()
}

/// The scanline of `width` pixels that `s` encodes.
///
/// Where the scanline is stored plane by plane, its first four bytes only
/// say so, and the planes follow. Otherwise these four bytes are its first
/// pixel, whatever they hold, and the other pixels follow one by one.
pub open spec fn decrunch_spec(s: Seq<u8>, width: nat) -> Decoded<Seq<RGB>>
    recommends
        width > 0,
{
    if s.len() < 4 {
        Err(LoadError::Eof)
    } else if stored_by_planes(width, RGBE::from_seq(s)) {
        prepend(Seq::empty(), 4, new_decrunch_spec(s.skip(4), width))
    } else {
        let first = RGB::from_rgbe(RGBE::from_seq(s));
        prepend(seq![first], 4, old_decrunch_spec(s.skip(4), first, (width - 1) as nat, 0))
    }
}

/// A scanline that decodes has the width asked for and lies within the bytes
/// it was decoded from.
pub proof fn lemma_decrunch_spec_len(s: Seq<u8>, width: nat)
    requires
        width > 0,
    ensures
        decrunch_spec(s, width) matches Ok((line, used)) ==> line.len() == width && used
            <= s.len(),
{
    if s.len() >= 4 {
        let rest = s.skip(4);
        if stored_by_planes(width, RGBE::from_seq(s)) {
            crate::planes::lemma_new_decrunch_spec_len(rest, width);
        } else {
            crate::runs::lemma_old_decrunch_spec_len(
                rest,
                RGB::from_rgbe(RGBE::from_seq(s)),
                (width - 1) as nat,
                0,
            );
        }
    }
}

/// A scanline fails for no other reason than an early end of the stream or
/// a run or literal that does not fit.
pub proof fn lemma_decrunch_spec_errors(s: Seq<u8>, width: nat)
    ensures
        fails_in_encoding(decrunch_spec(s, width)),
{
    if s.len() >= 4 {
        crate::planes::lemma_new_decrunch_spec_errors(s.skip(4), width);
        crate::runs::lemma_old_decrunch_spec_errors(
            s.skip(4),
            RGB::from_rgbe(RGBE::from_seq(s)),
            (width - 1) as nat,
            0,
        );
    }
}

/// The first four bytes of a scanline select the planes only where the
/// width allows it: at any other width the bytes of the announcement are the
/// scanline's first pixel.
pub proof fn lemma_dispatch_by_width(s: Seq<u8>, width: nat)
    requires
        s.len() >= 4,
        RGBE::from_seq(s).new_decrunch_marker(),
    ensures
        MIN_LEN <= width <= MAX_LEN ==> decrunch_spec(s, width) == prepend(
            Seq::empty(),
            4,
            new_decrunch_spec(s.skip(4), width),
        ),
        width < MIN_LEN || width > MAX_LEN ==> decrunch_spec(s, width) == prepend(
            seq![RGB::from_rgbe(RGBE::from_seq(s))],
            4,
            old_decrunch_spec(
                s.skip(4),
                RGB::from_rgbe(RGBE::from_seq(s)),
                (width - 1) as nat,
                0,
            ),
        ),
{
}

/// Decodes one scanline from the stream into `scanline`, whose length is the
/// width of the image.
pub fn decrunch(reader: &mut ByteReader, scanline: &mut [RGB]) -> (result: Result<(), LoadError>)
    requires
        old(scanline)@.len() > 0,
    ensures
        final(scanline)@.len() == old(scanline)@.len(),
        advanced(old(reader)@, final(reader)@),
        result == Err::<(), LoadError>(LoadError::Eof) ==> final(reader)@.len() == 0,
        match decrunch_spec(old(reader)@, old(scanline)@.len()) {
            Ok((pixels, used)) => {
                &&& result is Ok
                &&& final(reader)@ == old(reader)@.skip(used as int)
                &&& final(scanline)@ == pixels
            },
            Err(e) => result == Err::<(), LoadError>(e),
        },
{
    let ghost r0 = reader@;
    let ghost s0 = scanline@;
    let ghost width = s0.len();
    let rgbe = reader.read_rgbe()?;
    let ghost r1 = reader@;

    let len = scanline.len();
    if len < MIN_LEN || len > MAX_LEN || !rgbe.is_new_decrunch_marker() {
        scanline[0] = RGB::from(rgbe);
        let ghost s1 = scanline@;
        let outcome = old_decrunch(reader, scanline);
        proof {
            if let Ok((pixels, used)) = old_decrunch_spec(r1, s1[0], (width - 1) as nat, 0) {
                crate::runs::lemma_old_decrunch_spec_len(r1, s1[0], (width - 1) as nat, 0);
                lemma_skip_skip(r0, 4, used);
            }
        }
        return outcome;
    }
    decrunch_channel(reader, scanline, Channel::Red)?;
    let ghost r2 = reader@;
    decrunch_channel(reader, scanline, Channel::Green)?;
    let ghost r3 = reader@;
    proof {
        lemma_plane_spec_len(r1, width);
        lemma_plane_spec_len(r2, width);
        lemma_skip_skip(r1, plane_spec(r1, width)->Ok_0.1, plane_spec(r2, width)->Ok_0.1);
    }
    decrunch_channel(reader, scanline, Channel::Blue)?;
    let ghost r4 = reader@;
    proof {
        lemma_plane_spec_len(r3, width);
        lemma_skip_skip(
            r1,
            plane_spec(r1, width)->Ok_0.1 + plane_spec(r2, width)->Ok_0.1,
            plane_spec(r3, width)->Ok_0.1,
        );
    }
    decrunch_channel(reader, scanline, Channel::Exponent)?;
    proof {
        lemma_plane_spec_len(r4, width);
        let (r, nr) = plane_spec(r1, width)->Ok_0;
        let (g, ng) = plane_spec(r2, width)->Ok_0;
        let (b, nb) = plane_spec(r3, width)->Ok_0;
        let (e, ne) = plane_spec(r4, width)->Ok_0;
        lemma_skip_skip(r1, nr + ng + nb, ne);
        lemma_skip_skip(r0, 4, nr + ng + nb + ne);
        let pixels = new_decrunch_spec(r1, width)->Ok_0.0;
        assert(scanline@ =~= pixels);
        assert(Seq::<RGB>::empty() + pixels =~= pixels);
    }
    Ok(())
}

} // verus!
