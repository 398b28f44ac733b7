//! The pixel-by-pixel run-length encoding of a scanline.
//!
//! A scanline in this form is a sequence of encoded pixels. One whose
//! mantissas are `(1, 1, 1)` is no pixel: it repeats the pixel before it, as
//! often as its fourth byte says. Of several such markers in a row, each
//! counts 256 times what the one before it counted, so that together they
//! spell a repeat count of any size, lowest byte first.

use crate::error::LoadError;
use crate::outcome::{
    advanced, fails_in_encoding, lemma_prepend_twice, lemma_skip_skip, prepend, Decoded,
};
use crate::pixel::{RGB, RGBE};
use crate::reader::ByteReader;
use vstd::arithmetic::power2::{lemma2_to64, lemma_pow2_adds, pow2};
use vstd::prelude::*;

verus! {

/// The number of repetitions that a marker with the count byte `e` asks for
/// when its count is shifted left by `shift` bits: `e * 2^shift`, where that
/// and `2^shift` fit the machine word.
pub open spec fn run_length(e: u8, shift: nat) -> Option<nat> {
    if pow2(shift) <= usize::MAX && e * pow2(shift) <= usize::MAX {
        Some((e * pow2(shift)) as nat)
    } else {
        None
    }
}

/// The `need` pixels that `s` encodes pixel by pixel, where the pixel before
/// them is `prev` and a marker that comes first has its count shifted by
/// `shift` bits.
pub open spec fn old_decrunch_spec(s: Seq<u8>, prev: RGB, need: nat, shift: nat) -> Decoded<
    Seq<RGB>,
>
    decreases s.len(),
{
    if need == 0 {
        Ok((Seq::empty(), 0))
    } else if s.len() < 4 {
        Err(LoadError::Eof)
    } else {
        let rgbe = RGBE::from_seq(s);
        if rgbe.rle_marker() {
            match run_length(rgbe.e, shift) {
                Some(count) => if count <= need {
                    prepend(
                        Seq::new(count, |i: int| prev),
                        4,
                        old_decrunch_spec(s.skip(4), prev, (need - count) as nat, shift + 8),
                    )
                } else {
                    Err(LoadError::Rle)
                },
                None => Err(LoadError::Rle),
            }
        } else {
            let rgb = RGB::from_rgbe(rgbe);
            prepend(seq![rgb], 4, old_decrunch_spec(s.skip(4), rgb, (need - 1) as nat, 0))
        }
    }
}

/// Pixels that decode are as many as were asked for and lie within the bytes
/// they were decoded from.
pub proof fn lemma_old_decrunch_spec_len(s: Seq<u8>, prev: RGB, need: nat, shift: nat)
    ensures
        old_decrunch_spec(s, prev, need, shift) matches Ok((pixels, used)) ==> pixels.len() == need
            && used <= s.len(),
    decreases s.len(),
{
    if need != 0 && s.len() >= 4 {
        let rgbe = RGBE::from_seq(s);
        if rgbe.rle_marker() {
            if let Some(count) = run_length(rgbe.e, shift) {
                if count <= need {
                    lemma_old_decrunch_spec_len(
                        s.skip(4),
                        prev,
                        (need - count) as nat,
                        shift + 8,
                    );
                }
            }
        } else {
            lemma_old_decrunch_spec_len(s.skip(4), RGB::from_rgbe(rgbe), (need - 1) as nat, 0);
        }
    }
}

/// Pixels stored one by one fail for no other reason than an early end of
/// the stream or a repeat count that does not fit.
pub proof fn lemma_old_decrunch_spec_errors(s: Seq<u8>, prev: RGB, need: nat, shift: nat)
    ensures
        fails_in_encoding(old_decrunch_spec(s, prev, need, shift)),
    decreases s.len(),
{
    if need != 0 && s.len() >= 4 {
        let rgbe = RGBE::from_seq(s);
        if rgbe.rle_marker() {
            if let Some(count) = run_length(rgbe.e, shift) {
                if count <= need {
                    lemma_old_decrunch_spec_errors(
                        s.skip(4),
                        prev,
                        (need - count) as nat,
                        shift + 8,
                    );
                }
            }
        } else {
            lemma_old_decrunch_spec_errors(s.skip(4), RGB::from_rgbe(rgbe), (need - 1) as nat, 0);
        }
    }
}

/// A marker that asks for more repetitions than the scanline has pixels
/// left, or for more than the machine word can count, is an encoding error.
pub proof fn lemma_run_past_row(s: Seq<u8>, prev: RGB, need: nat, shift: nat)
    requires
        s.len() >= 4,
        need > 0,
        RGBE::from_seq(s).rle_marker(),
        run_length(RGBE::from_seq(s).e, shift) matches Some(count) ==> count > need,
    ensures
        old_decrunch_spec(s, prev, need, shift) == Err::<(Seq<RGB>, nat), LoadError>(
            LoadError::Rle,
        ),
{
}

/// Copies `from` into the `count` pixels from `start` on.
fn repeat_pixel(scanline: &mut [RGB], start: usize, count: usize, from: RGB)
    requires
        start + count <= old(scanline)@.len(),
    ensures
        final(scanline)@.len() == old(scanline)@.len(),
        forall|i: int|
            0 <= i < old(scanline)@.len() ==> #[trigger] final(scanline)@[i] == if start <= i
                < start + count {
                from
            } else {
                old(scanline)@[i]
            },
{
    let len = scanline.len();
    let mut k: usize = 0;
    while k < count
        invariant
            k <= count,
            start + count <= len == scanline@.len(),
            scanline@.len() == old(scanline)@.len(),
            forall|i: int|
                0 <= i < scanline@.len() ==> #[trigger] scanline@[i] == if start <= i < start + k {
                    from
                } else {
                    old(scanline)@[i]
                },
        decreases count - k,
    {
        scanline[start + k] = from;
        k += 1;
    }
}

/// Decodes the rest of a scanline whose first pixel is decoded already: reads
/// encoded pixels and repeat markers until every pixel of `scanline` after
/// the first has its value. A scanline of one pixel, or of none, takes
/// nothing from the stream.
pub fn old_decrunch(reader: &mut ByteReader, scanline: &mut [RGB]) -> (result: Result<
    (),
    LoadError,
>)
    ensures
        final(scanline)@.len() == old(scanline)@.len(),
        advanced(old(reader)@, final(reader)@),
        result == Err::<(), LoadError>(LoadError::Eof) ==> final(reader)@.len() == 0,
        old(scanline)@.len() == 0 ==> result is Ok && final(reader)@ == old(reader)@,
        old(scanline)@.len() > 0 ==> match old_decrunch_spec(
            old(reader)@,
            old(scanline)@[0],
            (old(scanline)@.len() - 1) as nat,
            0,
        ) {
            Ok((pixels, used)) => {
                &&& result is Ok
                &&& final(reader)@ == old(reader)@.skip(used as int)
                &&& final(scanline)@ == seq![old(scanline)@[0]] + pixels
            },
            Err(e) => result == Err::<(), LoadError>(e),
        },
{
    let len = scanline.len();
    if len == 0 {
        return Ok(());
    }
    let ghost r0 = reader@;
    let ghost s0 = scanline@;
    let ghost mut used: nat = 0;
    let ghost mut shift: nat = 0;
    // The pixel decoded last, and the factor 2^shift where it fits.
    let mut at: usize = 0;
    let mut factor: Option<usize> = Some(1);
    proof {
        lemma2_to64();
        assert(scanline@.subrange(1, 1) =~= Seq::<RGB>::empty());
        assert(r0.skip(0) =~= r0);
    }
    while len - at > 1
        invariant
            r0 == old(reader)@,
            s0 == old(scanline)@,
            at < len == s0.len() == scanline@.len(),
            scanline@[0] == s0[0],
            used <= r0.len(),
            reader@ == r0.skip(used as int),
            match factor {
                Some(f) => f == pow2(shift),
                None => pow2(shift) > usize::MAX,
            },
            old_decrunch_spec(r0, s0[0], (len - 1) as nat, 0) == prepend(
                scanline@.subrange(1, at + 1),
                used,
                old_decrunch_spec(reader@, scanline@[at as int], (len - 1 - at) as nat, shift),
            ),
        decreases reader@.len(),
    {
        let ghost r1 = reader@;
        let ghost s1 = scanline@;
        let ghost need = (len - 1 - at) as nat;
        let rgbe = reader.read_rgbe()?;
        if rgbe.is_rle_marker() {
            let count = match factor {
                Some(f) => match (rgbe.e as usize).checked_mul(f) {
                    Some(count) => count,
                    None => {
                        return Err(LoadError::Rle);
                    },
                },
                None => {
                    return Err(LoadError::Rle);
                },
            };
            if count > len - 1 - at {
                return Err(LoadError::Rle);
            }
            let from = scanline[at];
            repeat_pixel(scanline, at + 1, count, from);
            proof {
                let run = Seq::new(count as nat, |i: int| from);
                assert(scanline@.subrange(1, at + count + 1) =~= s1.subrange(1, at + 1) + run);
                lemma_prepend_twice(
                    s1.subrange(1, at + 1),
                    used,
                    run,
                    4,
                    old_decrunch_spec(r1.skip(4), from, (need - count) as nat, shift + 8),
                );
                lemma_skip_skip(r0, used, 4);
                lemma2_to64();
                lemma_pow2_adds(shift, 8);
                assert(pow2(shift + 8) == pow2(shift) * 256);
                used = used + 4;
                shift = shift + 8;
            }
            at += count;
            factor = match factor {
                Some(f) => f.checked_mul(256),
                None => None,
            };
        } else {
            let rgb = RGB::from(rgbe);
            scanline[at + 1] = rgb;
            proof {
                assert(scanline@.subrange(1, at + 2) =~= s1.subrange(1, at + 1) + seq![rgb]);
                lemma_prepend_twice(
                    s1.subrange(1, at + 1),
                    used,
                    seq![rgb],
                    4,
                    old_decrunch_spec(r1.skip(4), rgb, (need - 1) as nat, 0),
                );
                lemma_skip_skip(r0, used, 4);
                lemma2_to64();
                used = used + 4;
                shift = 0;
            }
            at += 1;
            factor = Some(1);
        }
    }
    proof {
        assert(scanline@ =~= seq![s0[0]] + scanline@.subrange(1, len as int));
        assert(scanline@.subrange(1, len as int) + Seq::<RGB>::empty() =~= scanline@.subrange(
            1,
            len as int,
        ));
    }
    Ok(())
}

} // verus!
