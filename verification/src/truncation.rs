//! What cutting a stream short does to its decoding.
//!
//! Every decoder of this crate reads its bytes in order and decides on each
//! from those before it. So the outcome on a stream that was cut short is
//! the outcome on the whole stream, or it is [`LoadError::Eof`]: never
//! another image, and never another error.

use crate::error::LoadError;
use crate::header::{
    blank_line_end, digits_len, header_spec, height_word, is_digit, lemma_blank_line_end_first,
    lemma_decimal_grows, lemma_digits_are_digits, lemma_header_spec_len, number_spec,
    resolution_spec, width_word, word_spec, LINE_FEED, SPACE,
};
use crate::image::ImageView;
use crate::stream::{lemma_load_spec_len, load_spec, magic, pixels_spec, rows_spec};
use crate::outcome::Decoded;
use crate::pixel::{RGB, RGBE};
use crate::planes::{lemma_plane_spec_len, new_decrunch_spec, plane_spec, segment_spec};
use crate::runs::{old_decrunch_spec, run_length};
use crate::scanline::{decrunch_spec, lemma_decrunch_spec_len, stored_by_planes};
use vstd::prelude::*;

verus! {

/// `s` is a beginning of `t`.
pub open spec fn is_prefix(s: Seq<u8>, t: Seq<u8>) -> bool {
    s.len() <= t.len() && s =~= t.take(s.len() as int)
}

/// `short` is what a decoder may make of a stream cut short when it makes
/// `full` of the whole stream: the same, or the finding that the stream
/// ended early.
pub open spec fn cut_short<T>(short: Decoded<T>, full: Decoded<T>) -> bool {
    short == full || short == Err::<(T, nat), LoadError>(LoadError::Eof)
}

/// What is left of a beginning is a beginning of what is left.
pub proof fn lemma_prefix_skip(s: Seq<u8>, t: Seq<u8>, n: nat)
    requires
        is_prefix(s, t),
        n <= s.len(),
    ensures
        is_prefix(s.skip(n as int), t.skip(n as int)),
{
    assert(s.skip(n as int) =~= t.skip(n as int).take(s.len() - n));
}

/// A segment of a stream cut short.
pub proof fn lemma_segment_cut(s: Seq<u8>, t: Seq<u8>, room: nat)
    requires
        is_prefix(s, t),
    ensures
        cut_short(segment_spec(s, room), segment_spec(t, room)),
{
    if s.len() > 0 {
        assert(s[0] == t[0]);
        if s[0] > 128 {
            if s.len() >= 2 {
                assert(s[1] == t[1]);
                let count = (s[0] - 128) as nat;
                assert(Seq::new(count, |i: int| s[1]) =~= Seq::new(count, |i: int| t[1]));
            }
        } else {
            let count = s[0] as nat;
            if count <= s.len() - 1 {
                assert(s.subrange(1, 1 + count as int) =~= t.subrange(1, 1 + count as int));
            }
        }
    }
}

/// A plane of a stream cut short.
pub proof fn lemma_plane_cut(s: Seq<u8>, t: Seq<u8>, need: nat)
    requires
        is_prefix(s, t),
    ensures
        cut_short(plane_spec(s, need), plane_spec(t, need)),
    decreases s.len(),
{
    if need != 0 {
        lemma_segment_cut(s, t, need);
        if let Ok((segment, used)) = segment_spec(s, need) {
            lemma_prefix_skip(s, t, used);
            lemma_plane_cut(
                s.skip(used as int),
                t.skip(used as int),
                (need - segment.len()) as nat,
            );
        }
    }
}

/// A scanline stored plane by plane, of a stream cut short.
pub proof fn lemma_new_decrunch_cut(s: Seq<u8>, t: Seq<u8>, width: nat)
    requires
        is_prefix(s, t),
    ensures
        cut_short(new_decrunch_spec(s, width), new_decrunch_spec(t, width)),
{
    lemma_plane_cut(s, t, width);
    lemma_plane_spec_len(s, width);
    if let Ok((r, nr)) = plane_spec(s, width) {
        let (s1, t1) = (s.skip(nr as int), t.skip(nr as int));
        lemma_prefix_skip(s, t, nr);
        lemma_plane_cut(s1, t1, width);
        lemma_plane_spec_len(s1, width);
        if let Ok((g, ng)) = plane_spec(s1, width) {
            let (s2, t2) = (s.skip((nr + ng) as int), t.skip((nr + ng) as int));
            lemma_prefix_skip(s, t, nr + ng);
            lemma_plane_cut(s2, t2, width);
            lemma_plane_spec_len(s2, width);
            if let Ok((b, nb)) = plane_spec(s2, width) {
                let (s3, t3) = (s.skip((nr + ng + nb) as int), t.skip((nr + ng + nb) as int));
                lemma_prefix_skip(s, t, nr + ng + nb);
                lemma_plane_cut(s3, t3, width);
            }
        }
    }
}

/// Pixels stored one by one, of a stream cut short.
pub proof fn lemma_old_decrunch_cut(s: Seq<u8>, t: Seq<u8>, prev: RGB, need: nat, shift: nat)
    requires
        is_prefix(s, t),
    ensures
        cut_short(old_decrunch_spec(s, prev, need, shift), old_decrunch_spec(t, prev, need, shift)),
    decreases s.len(),
{
    if need != 0 && s.len() >= 4 {
        assert(RGBE::from_seq(s) == RGBE::from_seq(t)) by {
            assert(s[0] == t[0] && s[1] == t[1] && s[2] == t[2] && s[3] == t[3]);
        }
        lemma_prefix_skip(s, t, 4);
        let rgbe = RGBE::from_seq(s);
        if rgbe.rle_marker() {
            if let Some(count) = run_length(rgbe.e, shift) {
                if count <= need {
                    lemma_old_decrunch_cut(
                        s.skip(4),
                        t.skip(4),
                        prev,
                        (need - count) as nat,
                        shift + 8,
                    );
                }
            }
        } else {
            lemma_old_decrunch_cut(
                s.skip(4),
                t.skip(4),
                RGB::from_rgbe(rgbe),
                (need - 1) as nat,
                0,
            );
        }
    }
}

/// A scanline of a stream cut short.
pub proof fn lemma_decrunch_cut(s: Seq<u8>, t: Seq<u8>, width: nat)
    requires
        is_prefix(s, t),
    ensures
        cut_short(decrunch_spec(s, width), decrunch_spec(t, width)),
{
    if s.len() >= 4 {
        assert(RGBE::from_seq(s) == RGBE::from_seq(t)) by {
            assert(s[0] == t[0] && s[1] == t[1] && s[2] == t[2] && s[3] == t[3]);
        }
        lemma_prefix_skip(s, t, 4);
        let rgbe = RGBE::from_seq(s);
        if stored_by_planes(width, rgbe) {
            lemma_new_decrunch_cut(s.skip(4), t.skip(4), width);
        } else {
            lemma_old_decrunch_cut(
                s.skip(4),
                t.skip(4),
                RGB::from_rgbe(rgbe),
                (width - 1) as nat,
                0,
            );
        }
    }
}

/// The rows of a stream cut short.
pub proof fn lemma_rows_cut(s: Seq<u8>, t: Seq<u8>, width: nat, rows: nat)
    requires
        is_prefix(s, t),
        width > 0,
    ensures
        cut_short(rows_spec(s, width, rows), rows_spec(t, width, rows)),
    decreases rows,
{
    if rows != 0 {
        lemma_decrunch_cut(s, t, width);
        lemma_decrunch_spec_len(s, width);
        if let Ok((line, used)) = decrunch_spec(s, width) {
            lemma_prefix_skip(s, t, used);
            lemma_rows_cut(s.skip(used as int), t.skip(used as int), width, (rows - 1) as nat);
        }
    }
}

/// The pixels of a stream cut short.
pub proof fn lemma_pixels_cut(s: Seq<u8>, t: Seq<u8>, width: nat, height: nat)
    requires
        is_prefix(s, t),
    ensures
        cut_short(pixels_spec(s, width, height), pixels_spec(t, width, height)),
{
    if width * height != 0 {
        assert(width > 0) by (nonlinear_arith)
            requires
                width * height != 0,
        ;
        lemma_rows_cut(s, t, width, height);
    }
}

/// The end of the first empty line does not move when bytes are added after
/// it.
pub proof fn lemma_blank_line_cut(s: Seq<u8>, t: Seq<u8>, from: nat)
    requires
        is_prefix(s, t),
        from >= 1,
    ensures
        blank_line_end(s, from) is Some ==> blank_line_end(t, from) == blank_line_end(s, from),
    decreases s.len() - from,
{
    if from < s.len() {
        assert(s[from - 1] == t[from - 1] && s[from as int] == t[from as int]);
        if !(s[from - 1] == LINE_FEED && s[from as int] == LINE_FEED) {
            lemma_blank_line_cut(s, t, from + 1);
        }
    }
}

/// A word of a stream cut short.
pub proof fn lemma_word_cut(s: Seq<u8>, t: Seq<u8>, word: Seq<u8>)
    requires
        is_prefix(s, t),
    ensures
        cut_short(word_spec(s, word), word_spec(t, word)),
{
    let n = word.len() as int;
    if s.len() >= n {
        assert(s.take(n) =~= t.take(n));
    } else if s != word.take(s.len() as int) {
        if t.len() >= n {
            if t.take(n) == word {
                assert(s =~= word.take(s.len() as int));
            }
        } else if t == word.take(t.len() as int) {
            assert(s =~= word.take(s.len() as int));
        }
    }
}

/// Bytes added to a stream take no digit from its start.
pub proof fn lemma_digits_len_cut(s: Seq<u8>, t: Seq<u8>)
    requires
        is_prefix(s, t),
    ensures
        digits_len(s) <= digits_len(t),
        digits_len(s) < s.len() ==> digits_len(t) == digits_len(s),
    decreases s.len(),
{
    if s.len() > 0 {
        assert(s[0] == t[0]);
        if is_digit(s[0]) {
            lemma_prefix_skip(s, t, 1);
            lemma_digits_len_cut(s.skip(1), t.skip(1));
        }
    }
}

/// A number of a stream cut short.
pub proof fn lemma_number_cut(s: Seq<u8>, t: Seq<u8>, end: u8)
    requires
        is_prefix(s, t),
    ensures
        cut_short(number_spec(s, end), number_spec(t, end)),
{
    let (n, m) = (digits_len(s), digits_len(t));
    lemma_digits_len_cut(s, t);
    lemma_digits_are_digits(s);
    lemma_digits_are_digits(t);
    let digits = t.take(m as int);
    assert(digits.take(n as int) =~= s.take(n as int));
    lemma_decimal_grows(digits, n);
    if n < s.len() {
        assert(s[n as int] == t[n as int]);
        assert(t.take(m as int) =~= s.take(n as int));
    }
}

/// A resolution line of a stream cut short.
pub proof fn lemma_resolution_cut(s: Seq<u8>, t: Seq<u8>)
    requires
        is_prefix(s, t),
    ensures
        cut_short(resolution_spec(s), resolution_spec(t)),
{
    lemma_word_cut(s, t, height_word());
    if let Ok((_, n1)) = word_spec(s, height_word()) {
        lemma_prefix_skip(s, t, n1);
        let (s1, t1) = (s.skip(n1 as int), t.skip(n1 as int));
        lemma_number_cut(s1, t1, SPACE);
        lemma_digits_are_digits(s1);
        if let Ok((height, n2)) = number_spec(s1, SPACE) {
            lemma_prefix_skip(s, t, n1 + n2);
            let (s2, t2) = (s.skip((n1 + n2) as int), t.skip((n1 + n2) as int));
            lemma_word_cut(s2, t2, width_word());
            if let Ok((_, n3)) = word_spec(s2, width_word()) {
                lemma_prefix_skip(s, t, n1 + n2 + n3);
                let (s3, t3) = (
                    s.skip((n1 + n2 + n3) as int),
                    t.skip((n1 + n2 + n3) as int),
                );
                lemma_number_cut(s3, t3, LINE_FEED);
            }
        }
    }
}

/// A header of a stream cut short.
pub proof fn lemma_header_cut(s: Seq<u8>, t: Seq<u8>)
    requires
        is_prefix(s, t),
    ensures
        cut_short(header_spec(s), header_spec(t)),
{
    lemma_blank_line_cut(s, t, 1);
    lemma_blank_line_end_first(s, 1);
    if let Some(n) = blank_line_end(s, 1) {
        lemma_prefix_skip(s, t, n);
        lemma_resolution_cut(s.skip(n as int), t.skip(n as int));
    }
}

/// Cutting a stream short changes nothing or gives `Eof`.
///
/// Where `s` is a beginning of the stream `t`, decoding `s` gives what
/// decoding `t` gives, image or error, or it finds that the stream ended
/// early. It gives no image that `t` does not give, and no other error.
pub proof fn lemma_load_cut(s: Seq<u8>, t: Seq<u8>)
    requires
        is_prefix(s, t),
    ensures
        cut_short(load_spec(s), load_spec(t)),
{
    let k = magic().len();
    if s.len() >= k {
        assert(s.take(k as int) =~= t.take(k as int));
        lemma_prefix_skip(s, t, k);
        let (s1, t1) = (s.skip(k as int), t.skip(k as int));
        lemma_header_cut(s1, t1);
        lemma_header_spec_len(s1);
        if let Ok(((width, height), n)) = header_spec(s1) {
            lemma_prefix_skip(s, t, k + n);
            lemma_pixels_cut(s.skip((k + n) as int), t.skip((k + n) as int), width, height);
        }
    }
}

/// A stream cut within its image ends early.
///
/// Where decoding `t` gives an image from the first `used` bytes, decoding
/// any shorter beginning of `t` gives `Eof`.
pub proof fn lemma_load_truncated(t: Seq<u8>, k: nat)
    requires
        load_spec(t) matches Ok((_, used)) && k < used,
    ensures
        load_spec(t.take(k as int)) == Err::<(ImageView, nat), LoadError>(LoadError::Eof),
{
    lemma_load_spec_len(t);
    let s = t.take(k as int);
    assert(s.take(k as int) =~= s);
    lemma_load_cut(s, t);
    lemma_load_spec_len(s);
}

} // verus!
