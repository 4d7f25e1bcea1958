//! Codec for the pitch-bend argument of a resampler call.
//!
//! The argument is a run-length-encoded stream: base64-alphabet characters
//! are read two at a time, each pair giving one signed 12-bit value, and
//! `#`-delimited decimal repeat counts replicate the last value of the
//! preceding block.

use vstd::prelude::*;

verus! {

use crate::digits::{all_digits, dec_nat, parse_digits};
use vstd::slice::slice_subrange;

/// Why decoding a pitch-bend argument failed.
#[derive(Clone, Copy, Debug, PartialEq, Eq, Structural)]
pub enum PitchCurveDecodeError {
    /// A character of a data block falls outside the base64 alphabet.
    InvalidCharacter,
    /// A data block holds an odd number of characters.
    OddBlockLength,
    /// A repeat count is not a decimal integer, or does not fit `usize`.
    InvalidRepeatCount,
    /// A data block followed by a repeat count decodes to no values.
    EmptyBlock,
    /// The whole argument decodes to no values.
    EmptyCurve,
}

/// The base64 alphabet: upper case, lower case, digits, `+` and `/`.
pub open spec fn is_b64_char(c: u8) -> bool {
    (97 <= c <= 122) || (65 <= c <= 90) || (48 <= c <= 57) || c == 43 || c == 47
}

/// Value of a base64 character, in the standard ordering
/// (`A`..`Z` to 0..25, `a`..`z` to 26..51, `0`..`9` to 52..61, `+` to 62,
/// `/` to 63). Meaningful only when `is_b64_char(c)` holds.
pub open spec fn uint6_val(c: u8) -> u8 {
    if 97 <= c <= 122 {
        (c - 71) as u8
    } else if 65 <= c <= 90 {
        (c - 65) as u8
    } else if 48 <= c <= 57 {
        (c + 4) as u8
    } else if c == 43 {
        62u8
    } else {
        63u8
    }
}

/// The signed 12-bit value of a pair of base64 characters: the two 6-bit
/// values are concatenated and read as two's complement.
pub open spec fn int12_val(a: u8, b: u8) -> i16 {
    let u = uint6_val(a) * 64 + uint6_val(b);
    if u >= 2048 {
        (u - 4096) as i16
    } else {
        u as i16
    }
}

/// Maps one base64 character to its 6-bit value.
pub fn to_uint6(b64: u8) -> (r: Result<u8, PitchCurveDecodeError>)
    ensures
        r == if is_b64_char(b64) {
            Ok::<u8, PitchCurveDecodeError>(uint6_val(b64))
        } else {
            Err::<u8, PitchCurveDecodeError>(PitchCurveDecodeError::InvalidCharacter)
        },
{
    let c = b64;
    if 97 <= c && c <= 122 {
        Ok(c - 71)
    } else if 65 <= c && c <= 90 {
        Ok(c - 65)
    } else if 48 <= c && c <= 57 {
        Ok(c + 4)
    } else if c == 43 {
        Ok(62)
    } else if c == 47 {
        Ok(63)
    } else {
        Err(PitchCurveDecodeError::InvalidCharacter)
    }
}

/// A data block decodes when it has an even number of characters, all of
/// them in the base64 alphabet.
pub open spec fn stream_ok(s: Seq<u8>) -> bool {
    s.len() % 2 == 0 && forall|i: int| 0 <= i < s.len() ==> is_b64_char(#[trigger] s[i])
}

/// The signed 12-bit values of a data block, one per character pair.
/// Meaningful only when `stream_ok(s)` holds.
pub open spec fn stream_val(s: Seq<u8>) -> Seq<i16> {
    Seq::new((s.len() / 2) as nat, |i: int| int12_val(s[2 * i], s[2 * i + 1]))
}

/// The error a data block fails with: an odd length is reported before any
/// out-of-alphabet character.
pub open spec fn stream_err(s: Seq<u8>) -> PitchCurveDecodeError {
    if s.len() % 2 != 0 {
        PitchCurveDecodeError::OddBlockLength
    } else {
        PitchCurveDecodeError::InvalidCharacter
    }
}

/// Reads two base64 characters as one signed 12-bit value.
pub fn to_int12(a: u8, b: u8) -> (r: Result<i16, PitchCurveDecodeError>)
    ensures
        r == if is_b64_char(a) && is_b64_char(b) {
            Ok::<i16, PitchCurveDecodeError>(int12_val(a, b))
        } else {
            Err::<i16, PitchCurveDecodeError>(PitchCurveDecodeError::InvalidCharacter)
        },
        r matches Ok(v) ==> in_bend_range(v),
{
    let hi = to_uint6(a)?;
    let lo = to_uint6(b)?;
    let uint12: u16 = (hi as u16) * 64 + (lo as u16);
    if uint12 >= 2048 {
        Ok(uint12 as i16 - 4096)
    } else {
        Ok(uint12 as i16)
    }
}

/// Decodes one data block: a string of base64 character pairs, each pair
/// one signed 12-bit value.
pub fn to_int12_stream(b64: &[u8]) -> (r: Result<Vec<i16>, PitchCurveDecodeError>)
    ensures
        match r {
            Ok(v) => stream_ok(b64@) && v@ == stream_val(b64@) && forall|i: int|
                0 <= i < v@.len() ==> in_bend_range(#[trigger] v@[i]),
            Err(e) => !stream_ok(b64@) && e == stream_err(b64@),
        },
{
    if b64.len() % 2 != 0 {
        return Err(PitchCurveDecodeError::OddBlockLength);
    }
    let stream_len = b64.len() / 2;
    let mut stream: Vec<i16> = Vec::with_capacity(stream_len);
    for i in 0..stream_len
        invariant
            2 * stream_len <= usize::MAX,
            b64@.len() == 2 * stream_len,
            stream@.len() == i,
            forall|k: int| 0 <= k < 2 * i ==> is_b64_char(#[trigger] b64@[k]),
            forall|k: int| 0 <= k < i ==> stream@[k] == int12_val(b64@[2 * k], b64@[2 * k + 1]),
    {
        let v = match to_int12(b64[2 * i], b64[2 * i + 1]) {
            Ok(v) => v,
            Err(e) => {
                return Err(e);
            },
        };
        stream.push(v);
    }
    proof {
        assert(stream@ =~= stream_val(b64@));
        lemma_stream_val_in_range(b64@);
    }
    Ok(stream)
}

/// Index of the first `#` in `s`, or `s.len()` when there is none.
pub open spec fn first_hash(s: Seq<u8>) -> int
    decreases s.len(),
{
    if s.len() == 0 {
        0
    } else if s[0] == 35 {
        0
    } else {
        1 + first_hash(s.skip(1))
    }
}

proof fn lemma_first_hash_bounds(s: Seq<u8>)
    ensures
        0 <= first_hash(s) <= s.len(),
    decreases s.len(),
{
    if s.len() > 0 && s[0] != 35 {
        lemma_first_hash_bounds(s.skip(1));
    }
}

/// How one delimiter search step decomposes the part list.
proof fn lemma_split_structure(s: Seq<u8>)
    ensures
        split_parts(s).len() >= 1,
        first_hash(s) >= s.len() ==> split_parts(s) == seq![s],
        first_hash(s) < s.len() ==> split_parts(s) == seq![s.take(first_hash(s))] + split_parts(
            s.skip(first_hash(s) + 1),
        ),
    decreases s.len(),
{
    lemma_first_hash_bounds(s);
    if first_hash(s) < s.len() {
        lemma_split_structure(s.skip(first_hash(s) + 1));
    }
}

proof fn lemma_first_hash_is(s: Seq<u8>, r: int)
    requires
        0 <= r <= s.len(),
        forall|i: int| 0 <= i < r ==> s[i] != 35,
        r < s.len() ==> s[r] == 35,
    ensures
        first_hash(s) == r,
    decreases s.len(),
{
    if r == 0 {
    } else {
        assert(forall|i: int| 0 <= i < r - 1 ==> s.skip(1)[i] == s[i + 1]);
        assert(r - 1 < s.skip(1).len() ==> s.skip(1)[r - 1] == s[r]);
        lemma_first_hash_is(s.skip(1), r - 1);
    }
}

/// The `#`-delimited parts of `s`, in order. An empty string is one empty
/// part; a delimiter at either end contributes an empty part beside it.
pub open spec fn split_parts(s: Seq<u8>) -> Seq<Seq<u8>>
    decreases s.len(),
{
    let i = first_hash(s);
    if i < 0 || i >= s.len() {
        seq![s]
    } else {
        seq![s.take(i)] + split_parts(s.skip(i + 1))
    }
}

/// The digits of a repeat count, allowing one leading `+` sign.
pub open spec fn repeat_digits(s: Seq<u8>) -> Seq<u8> {
    if s.len() >= 1 && s[0] == 43 {
        s.skip(1)
    } else {
        s
    }
}

/// A repeat count is a decimal integer that fits `usize`.
pub open spec fn is_valid_repeat(s: Seq<u8>) -> bool {
    repeat_digits(s).len() >= 1 && all_digits(repeat_digits(s)) && dec_nat(repeat_digits(s))
        <= usize::MAX
}

/// The value of a repeat count. Meaningful only when `is_valid_repeat(s)`
/// holds.
pub open spec fn repeat_val(s: Seq<u8>) -> nat {
    dec_nat(repeat_digits(s))
}

/// `n` copies of `x`.
pub open spec fn repeat_last(x: i16, n: nat) -> Seq<i16> {
    Seq::new(n, |i: int| x)
}

/// The values of one data block followed by a repeat count: the block's
/// values, then its last value another `count - 1` times (the block itself
/// already counts once; a count of zero adds nothing).
pub open spec fn pair_val(block: Seq<u8>, rep: Seq<u8>) -> Seq<i16> {
    let vals = stream_val(block);
    let extra: nat = if repeat_val(rep) == 0 {
        0
    } else {
        (repeat_val(rep) - 1) as nat
    };
    vals + repeat_last(vals.last(), extra)
}

/// Decodes a part list: alternating data blocks and repeat counts, with an
/// optional trailing data block that is taken once. The first failing part,
/// in reading order, decides the error.
pub open spec fn decode_parts(parts: Seq<Seq<u8>>) -> Result<Seq<i16>, PitchCurveDecodeError>
    decreases parts.len(),
{
    if parts.len() == 0 {
        Ok(Seq::empty())
    } else if parts.len() == 1 {
        if stream_ok(parts[0]) {
            Ok(stream_val(parts[0]))
        } else {
            Err(stream_err(parts[0]))
        }
    } else if !stream_ok(parts[0]) {
        Err(stream_err(parts[0]))
    } else if stream_val(parts[0]).len() == 0 {
        Err(PitchCurveDecodeError::EmptyBlock)
    } else if !is_valid_repeat(parts[1]) {
        Err(PitchCurveDecodeError::InvalidRepeatCount)
    } else {
        match decode_parts(parts.skip(2)) {
            Ok(rest) => Ok(pair_val(parts[0], parts[1]) + rest),
            Err(e) => Err(e),
        }
    }
}

/// Every value of `v` equals its first value.
pub open spec fn all_flat(v: Seq<i16>) -> bool {
    forall|i: int| 0 <= i < v.len() ==> #[trigger] v[i] == v[0]
}

/// What decoding a whole pitch-bend argument yields: the expanded value
/// stream, flattened to all-zero when every value is the same (a constant
/// offset means no bend), or the first decode error.
pub open spec fn decode_pitchbend_spec(s: Seq<u8>) -> Result<Seq<i16>, PitchCurveDecodeError> {
    match decode_parts(split_parts(s)) {
        Ok(vals) => if vals.len() == 0 {
            Err(PitchCurveDecodeError::EmptyCurve)
        } else if all_flat(vals) {
            Ok(repeat_last(0i16, vals.len()))
        } else {
            Ok(vals)
        },
        Err(e) => Err(e),
    }
}

/// Index of the first `#` in `s`, or `s.len()` when there is none.
fn find_delim(s: &[u8]) -> (r: usize)
    ensures
        r <= s@.len(),
        r == first_hash(s@),
{
    let n = s.len();
    let mut i: usize = 0;
    while i < n
        invariant
            i <= n,
            n == s@.len(),
            forall|k: int| 0 <= k < i ==> s@[k] != 35,
        decreases n - i,
    {
        if s[i] == 35 {
            proof {
                lemma_first_hash_is(s@, i as int);
            }
            return i;
        }
        i = i + 1;
    }
    proof {
        lemma_first_hash_is(s@, n as int);
    }
    n
}

/// Reads a repeat count as `usize::from_str` would: optional `+` sign, then
/// decimal digits.
fn parse_repeat(s: &[u8]) -> (r: Result<usize, PitchCurveDecodeError>)
    ensures
        match r {
            Ok(n) => is_valid_repeat(s@) && n == repeat_val(s@),
            Err(e) => !is_valid_repeat(s@) && e == PitchCurveDecodeError::InvalidRepeatCount,
        },
{
    let digits: &[u8] = if s.len() >= 1 && s[0] == 43 {
        slice_subrange(s, 1, s.len())
    } else {
        s
    };
    proof {
        assert(digits@ =~= repeat_digits(s@));
    }
    match parse_digits(digits) {
        Some(v) => {
            if v <= usize::MAX as u64 {
                Ok(v as usize)
            } else {
                Err(PitchCurveDecodeError::InvalidRepeatCount)
            }
        },
        None => Err(PitchCurveDecodeError::InvalidRepeatCount),
    }
}

/// Appends the last value of `vals` another `count - 1` times (a count of
/// zero adds nothing, as the block itself already counts once).
fn push_repeats(vals: &mut Vec<i16>, count: usize)
    requires
        old(vals)@.len() >= 1,
    ensures
        final(vals)@ == old(vals)@ + repeat_last(
            old(vals)@.last(),
            if count == 0 {
                0nat
            } else {
                (count - 1) as nat
            },
        ),
{
    let last = vals[vals.len() - 1];
    proof {
        assert(old(vals)@ + repeat_last(old(vals)@.last(), 0nat) =~= old(vals)@);
    }
    let mut k: usize = 1;
    while k < count
        invariant
            1 <= k,
            k <= count || k == 1,
            last == old(vals)@.last(),
            vals@ == old(vals)@ + repeat_last(old(vals)@.last(), (k - 1) as nat),
        decreases count - k,
    {
        vals.push(last);
        proof {
            assert(old(vals)@ + repeat_last(old(vals)@.last(), k as nat) =~= (old(vals)@
                + repeat_last(old(vals)@.last(), (k - 1) as nat)).push(last));
        }
        k = k + 1;
    }
}

/// Decodes the `#`-delimited block/repeat structure of a pitch-bend
/// argument into its raw value stream.
fn decode_blocks(s: &[u8]) -> (r: Result<Vec<i16>, PitchCurveDecodeError>)
    ensures
        match r {
            Ok(v) => decode_parts(split_parts(s@)) == Ok::<Seq<i16>, PitchCurveDecodeError>(v@),
            Err(e) => decode_parts(split_parts(s@)) == Err::<Seq<i16>, PitchCurveDecodeError>(e),
        },
    decreases s@.len(),
{
    let n = s.len();
    let i = find_delim(s);
    proof {
        lemma_split_structure(s@);
    }
    if i == n {
        // A single trailing data block, taken once.
        assert(split_parts(s@) == seq![s@]);
        return to_int12_stream(s);
    }
    let block = slice_subrange(s, 0, i);
    let rest1 = slice_subrange(s, i + 1, n);
    let ghost parts = split_parts(s@);
    proof {
        assert(block@ =~= s@.take(i as int));
        assert(rest1@ =~= s@.skip(i as int + 1));
        lemma_split_structure(rest1@);
        assert(parts == seq![block@] + split_parts(rest1@));
        assert(parts.len() >= 2);
        assert(parts[0] == block@);
    }
    let mut vals = match to_int12_stream(block) {
        Ok(v) => v,
        Err(e) => {
            return Err(e);
        },
    };
    if vals.len() == 0 {
        return Err(PitchCurveDecodeError::EmptyBlock);
    }
    let j = find_delim(rest1);
    if j == rest1.len() {
        // The repeat count is the final part; nothing follows the pair.
        proof {
            assert(split_parts(rest1@) == seq![rest1@]);
            assert(parts[1] == rest1@);
            assert(parts.skip(2) =~= Seq::<Seq<u8>>::empty());
            assert(decode_parts(parts.skip(2)) == Ok::<Seq<i16>, PitchCurveDecodeError>(
                Seq::<i16>::empty(),
            ));
        }
        let count = match parse_repeat(rest1) {
            Ok(c) => c,
            Err(e) => {
                return Err(e);
            },
        };
        push_repeats(&mut vals, count);
        proof {
            assert(vals@ =~= pair_val(block@, rest1@) + Seq::<i16>::empty());
        }
        return Ok(vals);
    }
    let rep = slice_subrange(rest1, 0, j);
    let rem = slice_subrange(rest1, j + 1, rest1.len());
    proof {
        assert(rep@ =~= rest1@.take(j as int));
        assert(rem@ =~= rest1@.skip(j as int + 1));
        assert(split_parts(rest1@) == seq![rep@] + split_parts(rem@));
        assert(parts[1] == rep@);
        assert(parts.skip(2) =~= split_parts(rem@));
    }
    let count = match parse_repeat(rep) {
        Ok(c) => c,
        Err(e) => {
            return Err(e);
        },
    };
    push_repeats(&mut vals, count);
    let mut rest = match decode_blocks(rem) {
        Ok(v) => v,
        Err(e) => {
            return Err(e);
        },
    };
    let ghost rest_view = rest@;
    vals.append(&mut rest);
    proof {
        assert(vals@ =~= pair_val(block@, rep@) + rest_view);
    }
    Ok(vals)
}

/// Law: every value of a data block lies in the signed 12-bit range.
pub proof fn lemma_stream_val_in_range(s: Seq<u8>)
    requires
        stream_ok(s),
    ensures
        forall|i: int| 0 <= i < stream_val(s).len() ==> in_bend_range(#[trigger] stream_val(s)[i]),
{
    assert forall|i: int|
        0 <= i < stream_val(s).len() implies in_bend_range(#[trigger] stream_val(s)[i]) by {
        assert(is_b64_char(s[2 * i]) && is_b64_char(s[2 * i + 1]));
        assert(uint6_val(s[2 * i]) <= 63 && uint6_val(s[2 * i + 1]) <= 63);
    }
}

/// Law: every value a pitch-bend part list decodes to lies in the signed
/// 12-bit range.
pub proof fn lemma_decoded_in_range(parts: Seq<Seq<u8>>)
    ensures
        match decode_parts(parts) {
            Ok(vals) => forall|i: int| 0 <= i < vals.len() ==> in_bend_range(#[trigger] vals[i]),
            Err(_) => true,
        },
    decreases parts.len(),
{
    if parts.len() == 0 {
    } else if parts.len() == 1 {
        if stream_ok(parts[0]) {
            lemma_stream_val_in_range(parts[0]);
        }
    } else if stream_ok(parts[0]) && stream_val(parts[0]).len() > 0 && is_valid_repeat(parts[1]) {
        lemma_stream_val_in_range(parts[0]);
        lemma_decoded_in_range(parts.skip(2));
    }
}

/// Decodes a whole pitch-bend argument to its stream of signed 12-bit
/// values: blocks of base64 character pairs, each optionally followed by a
/// `#`-delimited decimal repeat count that replicates the block's last
/// value. A stream whose values are all identical is flattened to all-zero,
/// since a constant offset means no bend.
pub fn decode_pitchbend(s: &[u8]) -> (r: Result<Vec<i16>, PitchCurveDecodeError>)
    ensures
        match r {
            Ok(v) => decode_pitchbend_spec(s@) == Ok::<Seq<i16>, PitchCurveDecodeError>(v@)
                && forall|i: int| 0 <= i < v@.len() ==> in_bend_range(#[trigger] v@[i]),
            Err(e) => decode_pitchbend_spec(s@) == Err::<Seq<i16>, PitchCurveDecodeError>(e),
        },
{
    proof {
        lemma_decoded_in_range(split_parts(s@));
    }
    let vals = match decode_blocks(s) {
        Ok(v) => v,
        Err(e) => {
            return Err(e);
        },
    };
    if vals.len() == 0 {
        return Err(PitchCurveDecodeError::EmptyCurve);
    }
    let first = vals[0];
    let mut flat = true;
    let n = vals.len();
    for i in 0..n
        invariant
            n == vals@.len(),
            n >= 1,
            first == vals@[0],
            flat <==> forall|k: int| 0 <= k < i ==> #[trigger] vals@[k] == vals@[0],
    {
        if vals[i] != first {
            flat = false;
        }
    }
    if flat {
        let zeros = vec![0i16; n];
        proof {
            assert(zeros@ =~= repeat_last(0i16, vals@.len()));
        }
        Ok(zeros)
    } else {
        Ok(vals)
    }
}


/// `x` fits the signed 12-bit range of a pitch-bend value.
pub open spec fn in_bend_range(x: i16) -> bool {
    -2048 <= x <= 2047
}

/// The unsigned 12-bit reading of a signed 12-bit value.
pub open spec fn int12_unsigned(x: i16) -> int {
    if x < 0 {
        x + 4096
    } else {
        x as int
    }
}

/// The base64 character of a 6-bit value, in the standard ordering.
/// Meaningful only when `v < 64`.
pub open spec fn b64_char_of(v: u8) -> u8 {
    if v < 26 {
        (v + 65) as u8
    } else if v < 52 {
        (v + 71) as u8
    } else if v < 62 {
        (v - 4) as u8
    } else if v == 62 {
        43u8
    } else {
        47u8
    }
}

/// The first character of a value's base64 pair.
pub open spec fn encode_hi(x: i16) -> u8 {
    b64_char_of((int12_unsigned(x) / 64) as u8)
}

/// The second character of a value's base64 pair.
pub open spec fn encode_lo(x: i16) -> u8 {
    b64_char_of((int12_unsigned(x) % 64) as u8)
}

/// The data block that encodes a value stream: one base64 pair per value.
pub open spec fn encode_stream(vals: Seq<i16>) -> Seq<u8> {
    Seq::new(
        2 * vals.len(),
        |i: int|
            if i % 2 == 0 {
                encode_hi(vals[i / 2])
            } else {
                encode_lo(vals[i / 2])
            },
    )
}

/// Law: `uint6_val` inverts `b64_char_of` on 6-bit values.
pub proof fn lemma_uint6_round_trip(v: u8)
    requires
        v < 64,
    ensures
        is_b64_char(b64_char_of(v)),
        uint6_val(b64_char_of(v)) == v,
{
}

/// Law: `int12_val` inverts the pair encoding on the signed 12-bit range.
pub proof fn lemma_int12_round_trip(x: i16)
    requires
        in_bend_range(x),
    ensures
        is_b64_char(encode_hi(x)),
        is_b64_char(encode_lo(x)),
        int12_val(encode_hi(x), encode_lo(x)) == x,
{
    let u = int12_unsigned(x);
    assert(0 <= u < 4096);
    lemma_uint6_round_trip((u / 64) as u8);
    lemma_uint6_round_trip((u % 64) as u8);
    assert(u == 64 * (u / 64) + u % 64);
}

/// Law: decoding inverts encoding. Any stream of signed 12-bit values,
/// encoded as base64 pairs, decodes back to exactly the same stream.
pub proof fn lemma_pitchbend_round_trip(vals: Seq<i16>)
    requires
        forall|i: int| 0 <= i < vals.len() ==> in_bend_range(#[trigger] vals[i]),
    ensures
        stream_ok(encode_stream(vals)),
        stream_val(encode_stream(vals)) == vals,
{
    let s = encode_stream(vals);
    assert forall|i: int| 0 <= i < s.len() implies is_b64_char(#[trigger] s[i]) by {
        lemma_int12_round_trip(vals[i / 2]);
    }
    assert forall|k: int| 0 <= k < vals.len() implies #[trigger] stream_val(s)[k] == vals[k] by {
        assert(s[2 * k] == encode_hi(vals[k]));
        assert(s[2 * k + 1] == encode_lo(vals[k]));
        lemma_int12_round_trip(vals[k]);
    }
    assert(stream_val(s) =~= vals);
}

/// Law: a decoded stream whose values are all identical yields the all-zero
/// curve, whatever the shared value.
pub proof fn lemma_flat_curve_is_zero(s: Seq<u8>, vals: Seq<i16>)
    requires
        decode_parts(split_parts(s)) == Ok::<Seq<i16>, PitchCurveDecodeError>(vals),
        vals.len() >= 1,
        all_flat(vals),
    ensures
        decode_pitchbend_spec(s) == Ok::<Seq<i16>, PitchCurveDecodeError>(
            repeat_last(0i16, vals.len()),
        ),
{
}

/// Maps one 6-bit value to its base64 character.
fn to_b64_char(v: u8) -> (r: u8)
    requires
        v < 64,
    ensures
        r == b64_char_of(v),
{
    if v < 26 {
        v + 65
    } else if v < 52 {
        v + 71
    } else if v < 62 {
        v - 4
    } else if v == 62 {
        43
    } else {
        47
    }
}

/// Encodes a stream of signed 12-bit values as one data block of base64
/// pairs; decoding the block gives the stream back.
pub fn encode_int12_stream(vals: &[i16]) -> (r: Vec<u8>)
    requires
        forall|i: int| 0 <= i < vals@.len() ==> in_bend_range(#[trigger] vals@[i]),
    ensures
        r@ == encode_stream(vals@),
        stream_ok(r@),
        stream_val(r@) == vals@,
{
    let n = vals.len();
    let mut out: Vec<u8> = Vec::new();
    for k in 0..n
        invariant
            n == vals@.len(),
            forall|i: int| 0 <= i < n ==> in_bend_range(#[trigger] vals@[i]),
            out@ =~= encode_stream(vals@.take(k as int)),
    {
        let x = vals[k];
        let u: u16 = if x < 0 {
            (x + 4096) as u16
        } else {
            x as u16
        };
        proof {
            assert(u == int12_unsigned(vals@[k as int]));
        }
        out.push(to_b64_char((u / 64) as u8));
        out.push(to_b64_char((u % 64) as u8));
        proof {
            assert(out@ =~= encode_stream(vals@.take(k as int + 1)));
        }
    }
    proof {
        assert(vals@.take(n as int) =~= vals@);
        lemma_pitchbend_round_trip(vals@);
    }
    out
}

} // verus!
