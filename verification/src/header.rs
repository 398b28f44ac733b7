//! The text between the signature and the pixels.
//!
//! What follows the signature is text in lines, each ended by a line feed:
//! the rest of the signature's line, then any number of lines that describe
//! the image, then an empty line. After the empty line comes the resolution
//! line, `-Y`, a space, the height, a space, `+X`, a space, the width and a
//! line feed. Height and width are written in decimal digits, at least one
//! each. The pixels start right after that line feed.

use crate::error::LoadError;
use crate::outcome::{advanced, after, lemma_skip_skip, Decoded};
use crate::reader::ByteReader;
use vstd::prelude::*;

verus! {

/// The byte that ends a line.
pub const LINE_FEED: u8 = 0x0a;

/// The byte between the words of the resolution line.
pub const SPACE: u8 = 0x20;

/// Whether `byte` is one of the characters `0` to `9`.
pub open spec fn is_digit(byte: u8) -> bool {
    0x30 <= byte <= 0x39
}

/// The number of bytes of `s` up to the end of the first empty line that
/// ends at index `from` or later, if there is one: the least `i + 1` with
/// `from <= i` where `s[i - 1]` and `s[i]` are both line feeds.
pub open spec fn blank_line_end(s: Seq<u8>, from: nat) -> Option<nat>
    recommends
        from >= 1,
    decreases s.len() - from,
{
    if from >= s.len() {
        None
    } else if s[from - 1] == LINE_FEED && s[from as int] == LINE_FEED {
        Some(from + 1)
    } else {
        blank_line_end(s, from + 1)
    }
}

/// The number of digits that `s` starts with.
pub open spec fn digits_len(s: Seq<u8>) -> nat
    decreases s.len(),
{
    if s.len() > 0 && is_digit(s[0]) {
        1 + digits_len(s.skip(1))
    } else {
        0
    }
}

/// The number that the digits `digits` spell in base ten.
pub open spec fn decimal(digits: Seq<u8>) -> nat
    decreases digits.len(),
{
    if digits.len() == 0 {
        0
    } else {
        (decimal(digits.drop_last()) * 10 + (digits.last() - 0x30)) as nat
    }
}

/// What a reader makes of `s` where the bytes of `word` must come next: it
/// compares byte by byte, so a wrong byte is found before the end of the
/// stream is.
pub open spec fn word_spec(s: Seq<u8>, word: Seq<u8>) -> Decoded<()> {
    if s.len() >= word.len() {
        if s.take(word.len() as int) == word {
            Ok(((), word.len()))
        } else {
            Err(LoadError::FileFormat)
        }
    } else if s == word.take(s.len() as int) {
        Err(LoadError::Eof)
    } else {
        Err(LoadError::FileFormat)
    }
}

/// The number that `s` starts with, where the byte `end` must follow its
/// digits: the digits are read one by one, so a number too large for the
/// machine word is found before its last digit is, and a stream that ends
/// among the digits has ended early.
pub open spec fn number_spec(s: Seq<u8>, end: u8) -> Decoded<nat> {
    let n = digits_len(s);
    let value = decimal(s.take(n as int));
    if value > usize::MAX {
        Err(LoadError::FileFormat)
    } else if n == s.len() {
        Err(LoadError::Eof)
    } else if n == 0 || s[n as int] != end {
        Err(LoadError::FileFormat)
    } else {
        Ok((value, n + 1))
    }
}

/// The bytes `-Y `.
pub open spec fn height_word() -> Seq<u8> {
    seq![0x2d, 0x59, 0x20]
}

/// The bytes `+X `.
pub open spec fn width_word() -> Seq<u8> {
    seq![0x2b, 0x58, 0x20]
}

/// The width and the height, in this order, that the resolution line at the
/// start of `s` gives.
pub open spec fn resolution_spec(s: Seq<u8>) -> Decoded<(nat, nat)> {
    match word_spec(s, height_word()) {
        Err(e) => Err(e),
        Ok((_, n1)) => match number_spec(s.skip(n1 as int), SPACE) {
            Err(e) => Err(e),
            Ok((height, n2)) => match word_spec(s.skip((n1 + n2) as int), width_word()) {
                Err(e) => Err(e),
                Ok((_, n3)) => match number_spec(s.skip((n1 + n2 + n3) as int), LINE_FEED) {
                    Err(e) => Err(e),
                    Ok((width, n4)) => Ok(((width, height), n1 + n2 + n3 + n4)),
                },
            },
        },
    }
}

/// The width and the height, in this order, that the header at the start of
/// `s` gives, where `s` is what follows the signature. A stream that ends
/// before the header does has ended early; a resolution line of another form
/// is a format error.
pub open spec fn header_spec(s: Seq<u8>) -> Decoded<(nat, nat)> {
    match blank_line_end(s, 1) {
        None => Err(LoadError::Eof),
        Some(n) => after(n, resolution_spec(s.skip(n as int))),
    }
}

/// A header fails for no other reason than an early end of the stream or
/// text of another form than a header has.
pub proof fn lemma_header_spec_errors(s: Seq<u8>)
    ensures
        header_spec(s) matches Err(e) ==> e == LoadError::Eof || e == LoadError::FileFormat,
{
}

/// An empty line ends where [`blank_line_end`] says, and none ends before:
/// the two bytes before that place are line feeds, and from `from` up to
/// there no other byte follows a line feed as a line feed.
pub proof fn lemma_blank_line_end_first(s: Seq<u8>, from: nat)
    requires
        from >= 1,
    ensures
        match blank_line_end(s, from) {
            Some(n) => {
                &&& from < n <= s.len()
                &&& s[n - 2] == LINE_FEED
                &&& s[n - 1] == LINE_FEED
                &&& forall|i: int|
                    from <= i < n - 1 ==> !(s[i - 1] == LINE_FEED && #[trigger] s[i] == LINE_FEED)
            },
            None => forall|i: int|
                from <= i < s.len() ==> !(s[i - 1] == LINE_FEED && #[trigger] s[i] == LINE_FEED),
        },
    decreases s.len() - from,
{
    if from < s.len() && !(s[from - 1] == LINE_FEED && s[from as int] == LINE_FEED) {
        lemma_blank_line_end_first(s, from + 1);
    }
}

/// Where the first `k` bytes of `s` are digits and the next one is not, or
/// there is no next one, `s` starts with `k` digits.
pub proof fn lemma_digits_len(s: Seq<u8>, k: nat)
    requires
        k <= s.len(),
        forall|j: int| 0 <= j < k ==> is_digit(#[trigger] s[j]),
        k < s.len() ==> !is_digit(s[k as int]),
    ensures
        digits_len(s) == k,
    decreases k,
{
    if k > 0 {
        let rest = s.skip(1);
        assert forall|j: int| 0 <= j < k - 1 implies is_digit(#[trigger] rest[j]) by {
            assert(rest[j] == s[j + 1]);
        }
        lemma_digits_len(rest, (k - 1) as nat);
    }
}

/// Where the first `k` bytes of `s` are digits, `s` starts with at least `k`
/// digits.
pub proof fn lemma_digits_bound(s: Seq<u8>, k: nat)
    requires
        k <= s.len(),
        forall|j: int| 0 <= j < k ==> is_digit(#[trigger] s[j]),
    ensures
        k <= digits_len(s) <= s.len(),
    decreases s.len(),
{
    if s.len() > 0 && is_digit(s[0]) {
        let rest = s.skip(1);
        if k > 0 {
            assert forall|j: int| 0 <= j < k - 1 implies is_digit(#[trigger] rest[j]) by {
                assert(rest[j] == s[j + 1]);
            }
            lemma_digits_bound(rest, (k - 1) as nat);
        } else {
            lemma_digits_bound(rest, 0);
        }
    }
}

/// The digits that `s` starts with are digits.
pub proof fn lemma_digits_are_digits(s: Seq<u8>)
    ensures
        digits_len(s) <= s.len(),
        forall|j: int|
            0 <= j < digits_len(s) ==> is_digit(#[trigger] s.take(digits_len(s) as int)[j]),
    decreases s.len(),
{
    if s.len() > 0 && is_digit(s[0]) {
        let rest = s.skip(1);
        lemma_digits_are_digits(rest);
        let n = digits_len(s);
        assert forall|j: int| 0 <= j < n implies is_digit(#[trigger] s.take(n as int)[j]) by {
            if j > 0 {
                assert(s.take(n as int)[j] == rest.take(n - 1)[j - 1]);
            }
        }
    }
}

/// A string of digits spells at least what any of its beginnings spells.
pub proof fn lemma_decimal_grows(digits: Seq<u8>, k: nat)
    requires
        k <= digits.len(),
        forall|j: int| 0 <= j < digits.len() ==> is_digit(#[trigger] digits[j]),
    ensures
        decimal(digits.take(k as int)) <= decimal(digits),
    decreases digits.len(),
{
    if k < digits.len() {
        let shorter = digits.drop_last();
        assert(shorter.take(k as int) =~= digits.take(k as int));
        lemma_decimal_grows(shorter, k);
    } else {
        assert(digits.take(k as int) =~= digits);
    }
}

/// A header that decodes lies within the bytes it was decoded from, and its
/// numbers fit the machine word.
pub proof fn lemma_header_spec_len(s: Seq<u8>)
    ensures
        header_spec(s) matches Ok(((width, height), used)) ==> used <= s.len() && width
            <= usize::MAX && height <= usize::MAX,
{
    lemma_blank_line_end_first(s, 1);
    if let Some(n) = blank_line_end(s, 1) {
        let s0 = s.skip(n as int);
        if let Ok((_, n1)) = word_spec(s0, height_word()) {
            let s1 = s0.skip(n1 as int);
            lemma_digits_are_digits(s1);
            if let Ok((height, n2)) = number_spec(s1, SPACE) {
                let s2 = s0.skip((n1 + n2) as int);
                if let Ok((_, n3)) = word_spec(s2, width_word()) {
                    let s3 = s0.skip((n1 + n2 + n3) as int);
                    lemma_digits_are_digits(s3);
                }
            }
        }
    }
}

/// Reads the bytes of `word`, which must come next in the stream.
fn expect_word(reader: &mut ByteReader, word: &[u8]) -> (result: Result<(), LoadError>)
    ensures
        advanced(old(reader)@, final(reader)@),
        result == Err::<(), LoadError>(LoadError::Eof) ==> final(reader)@.len() == 0,
        match word_spec(old(reader)@, word@) {
            Ok((_, used)) => result is Ok && final(reader)@ == old(reader)@.skip(used as int),
            Err(e) => result == Err::<(), LoadError>(e),
        },
{
    let ghost r0 = reader@;
    let mut k: usize = 0;
    while k < word.len()
        invariant
            r0 == old(reader)@,
            k <= word@.len(),
            k <= r0.len(),
            reader@ == r0.skip(k as int),
            forall|j: int| 0 <= j < k ==> r0[j] == word@[j],
        decreases word@.len() - k,
    {
        let byte = match reader.read_byte() {
            Ok(byte) => byte,
            Err(e) => {
                assert(r0 =~= word@.take(r0.len() as int));
                return Err(e);
            },
        };
        if byte != word[k] {
            proof {
                if r0.len() >= word@.len() {
                    assert(r0.take(word@.len() as int)[k as int] != word@[k as int]);
                } else {
                    assert(word@.take(r0.len() as int)[k as int] != r0[k as int]);
                }
            }
            return Err(LoadError::FileFormat);
        }
        proof {
            lemma_skip_skip(r0, k as nat, 1);
        }
        k += 1;
    }
    assert(r0.take(word@.len() as int) =~= word@);
    Ok(())
}

/// Reads a number in decimal digits and the byte `end`, which must follow
/// it.
fn read_number(reader: &mut ByteReader, end: u8) -> (result: Result<usize, LoadError>)
    ensures
        advanced(old(reader)@, final(reader)@),
        result == Err::<usize, LoadError>(LoadError::Eof) ==> final(reader)@.len() == 0,
        match number_spec(old(reader)@, end) {
            Ok((value, used)) => {
                &&& result == Ok::<usize, LoadError>(value as usize)
                &&& value <= usize::MAX
                &&& used <= old(reader)@.len()
                &&& final(reader)@ == old(reader)@.skip(used as int)
            },
            Err(e) => result == Err::<usize, LoadError>(e),
        },
{
    let ghost r0 = reader@;
    let ghost mut k: nat = 0;
    let mut value: usize = 0;
    let mut any = false;
    loop
        invariant
            r0 == old(reader)@,
            k <= r0.len(),
            any == (k > 0),
            reader@ == r0.skip(k as int),
            forall|j: int| 0 <= j < k ==> is_digit(#[trigger] r0[j]),
            value == decimal(r0.take(k as int)),
        decreases r0.len() - k,
    {
        let byte = match reader.read_byte() {
            Ok(byte) => byte,
            Err(e) => {
                proof {
                    lemma_digits_len(r0, k);
                }
                return Err(e);
            },
        };
        if byte < 0x30 || byte > 0x39 {
            proof {
                lemma_digits_len(r0, k);
                lemma_skip_skip(r0, k, 1);
            }
            if !any || byte != end {
                return Err(LoadError::FileFormat);
            }
            return Ok(value);
        }
        proof {
            let longer = r0.take(k + 1 as int);
            assert(longer.drop_last() =~= r0.take(k as int));
            assert(longer.last() == byte);
            lemma_skip_skip(r0, k, 1);
        }
        let digit = (byte - 0x30) as usize;
        let next = match value.checked_mul(10) {
            Some(tens) => tens.checked_add(digit),
            None => None,
        };
        value = match next {
            Some(next) => next,
            None => {
                proof {
                    let n = digits_len(r0);
                    let digits = r0.take(n as int);
                    lemma_digits_bound(r0, k + 1);
                    assert(digits.take(k + 1 as int) =~= r0.take(k + 1 as int));
                    lemma_digits_are_digits(r0);
                    lemma_decimal_grows(digits, k + 1);
                }
                return Err(LoadError::FileFormat);
            },
        };
        any = true;
        proof {
            k = k + 1;
        }
    }
}

/// Reads up to the end of the first empty line.
fn skip_to_blank_line(reader: &mut ByteReader) -> (result: Result<(), LoadError>)
    ensures
        advanced(old(reader)@, final(reader)@),
        result == Err::<(), LoadError>(LoadError::Eof) ==> final(reader)@.len() == 0,
        match blank_line_end(old(reader)@, 1) {
            Some(used) => {
                &&& result is Ok
                &&& used <= old(reader)@.len()
                &&& final(reader)@ == old(reader)@.skip(used as int)
            },
            None => result == Err::<(), LoadError>(LoadError::Eof),
        },
{
    let ghost r0 = reader@;
    let ghost mut at: nat = 1;
    let mut previous = reader.read_byte()?;
    let mut found = false;
    while !found
        invariant
            r0 == old(reader)@,
            1 <= at <= r0.len(),
            reader@ == r0.skip(at as int),
            !found ==> previous == r0[at - 1] && blank_line_end(r0, 1) == blank_line_end(r0, at),
            found ==> blank_line_end(r0, 1) == Some(at),
        decreases r0.len() - at + (if found { 0nat } else { 1nat }),
    {
        let byte = reader.read_byte()?;
        proof {
            lemma_skip_skip(r0, at, 1);
            at = at + 1;
        }
        if previous == LINE_FEED && byte == LINE_FEED {
            found = true;
        }
        previous = byte;
    }
    Ok(())
}

/// Reads the resolution line and returns the width and the height, in this
/// order.
fn read_resolution(reader: &mut ByteReader) -> (result: Result<(usize, usize), LoadError>)
    ensures
        advanced(old(reader)@, final(reader)@),
        result == Err::<(usize, usize), LoadError>(LoadError::Eof) ==> final(reader)@.len() == 0,
        match resolution_spec(old(reader)@) {
            Ok(((width, height), used)) => {
                &&& result == Ok::<(usize, usize), LoadError>((width as usize, height as usize))
                &&& width <= usize::MAX
                &&& height <= usize::MAX
                &&& used <= old(reader)@.len()
                &&& final(reader)@ == old(reader)@.skip(used as int)
            },
            Err(e) => result == Err::<(usize, usize), LoadError>(e),
        },
{
    let ghost r0 = reader@;
    let minus_y: [u8; 3] = [0x2d, 0x59, 0x20];
    let plus_x: [u8; 3] = [0x2b, 0x58, 0x20];
    assert(minus_y@ =~= height_word());
    assert(plus_x@ =~= width_word());
    expect_word(reader, &minus_y)?;
    let ghost n1 = 3nat;
    let ghost r1 = reader@;
    let height = read_number(reader, SPACE)?;
    let ghost n2 = number_spec(r1, SPACE)->Ok_0.1;
    proof {
        lemma_skip_skip(r0, n1, n2);
    }
    expect_word(reader, &plus_x)?;
    let ghost n3 = 3nat;
    proof {
        lemma_skip_skip(r0, n1 + n2, n3);
    }
    let ghost r3 = reader@;
    let width = read_number(reader, LINE_FEED)?;
    proof {
        let n4 = number_spec(r3, LINE_FEED)->Ok_0.1;
        lemma_skip_skip(r0, n1 + n2 + n3, n4);
    }
    Ok((width, height))
}

/// Reads the header: skips the lines up to the first empty one, then reads
/// the resolution line. Returns the width and the height, in this order, and
/// leaves the reader at the first byte of the pixels.
pub fn parse_header(reader: &mut ByteReader) -> (result: Result<(usize, usize), LoadError>)
    ensures
        advanced(old(reader)@, final(reader)@),
        result == Err::<(usize, usize), LoadError>(LoadError::Eof) ==> final(reader)@.len() == 0,
        match header_spec(old(reader)@) {
            Ok(((width, height), used)) => {
                &&& result == Ok::<(usize, usize), LoadError>((width as usize, height as usize))
                &&& width <= usize::MAX
                &&& height <= usize::MAX
                &&& used <= old(reader)@.len()
                &&& final(reader)@ == old(reader)@.skip(used as int)
            },
            Err(e) => result == Err::<(usize, usize), LoadError>(e),
        },
{
    let ghost r0 = reader@;
    skip_to_blank_line(reader)?;
    let ghost r1 = reader@;
    let size = read_resolution(reader)?;
    proof {
        lemma_skip_skip(r0, blank_line_end(r0, 1)->Some_0, resolution_spec(r1)->Ok_0.1);
    }
    Ok(size)
}

} // verus!
