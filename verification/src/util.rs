//! Small container helpers and the note-name pitch parser.

use vstd::prelude::*;

verus! {

use crate::digits::{all_digits, dec_nat, parse_digits};
use vstd::slice::slice_subrange;

/// Swaps the two axes of a rectangular nested vector: element `(i, j)` of
/// the result is element `(j, i)` of the input. Rows longer than the first
/// row lose their tail, as the first row's length decides the result's
/// height.
pub fn transpose<T: Copy>(v: Vec<Vec<T>>) -> (r: Vec<Vec<T>>)
    requires
        v@.len() >= 1,
        forall|j: int| 0 <= j < v@.len() ==> (#[trigger] v@[j])@.len() >= v@[0]@.len(),
    ensures
        r@.len() == v@[0]@.len(),
        forall|i: int| 0 <= i < r@.len() ==> (#[trigger] r@[i])@.len() == v@.len(),
        forall|i: int, j: int|
            0 <= i < r@.len() && 0 <= j < v@.len() ==> #[trigger] r@[i]@[j] == v@[j]@[i],
{
    let cols = v[0].len();
    let rows = v.len();
    let mut r: Vec<Vec<T>> = Vec::with_capacity(cols);
    for i in 0..cols
        invariant
            cols == v@[0]@.len(),
            rows == v@.len(),
            rows >= 1,
            forall|j: int| 0 <= j < rows ==> (#[trigger] v@[j])@.len() >= cols,
            r@.len() == i,
            forall|k: int| 0 <= k < i ==> (#[trigger] r@[k])@.len() == rows,
            forall|k: int, j: int|
                0 <= k < i && 0 <= j < rows ==> #[trigger] r@[k]@[j] == v@[j]@[k],
    {
        let mut row: Vec<T> = Vec::with_capacity(rows);
        for j in 0..rows
            invariant
                cols == v@[0]@.len(),
                rows == v@.len(),
                i < cols,
                forall|k: int| 0 <= k < rows ==> (#[trigger] v@[k])@.len() >= cols,
                row@.len() == j,
                forall|k: int| 0 <= k < j ==> #[trigger] row@[k] == v@[k]@[i as int],
        {
            let x = v[j][i];
            row.push(x);
        }
        r.push(row);
    }
    r
}

/// Why a pitch argument could not be read.
#[derive(Clone, Copy, Debug, PartialEq, Eq, Structural)]
pub enum PitchParseError {
    /// The argument is neither an integer nor contains a note name.
    NoteNotFound,
    /// The octave number does not fit a 32-bit integer.
    OctaveOutOfRange,
    /// The note is so far out that its number does not fit a 32-bit integer.
    MidiOutOfRange,
}

/// `c` is an ASCII decimal digit.
pub open spec fn is_digit(c: u8) -> bool {
    48 <= c <= 57
}

/// `c` is a note letter, `A` through `G`.
pub open spec fn is_note_char(c: u8) -> bool {
    65 <= c <= 71
}

/// The digits of a signed integer literal, behind an optional sign.
pub open spec fn int_digits(s: Seq<u8>) -> Seq<u8> {
    if s.len() >= 1 && (s[0] == 43 || s[0] == 45) {
        s.skip(1)
    } else {
        s
    }
}

/// The literal carries a minus sign.
pub open spec fn int_negative(s: Seq<u8>) -> bool {
    s.len() >= 1 && s[0] == 45
}

/// `s` is a decimal integer literal whose value fits an `i32`, as
/// `i32::from_str` reads one.
pub open spec fn is_i32_literal(s: Seq<u8>) -> bool {
    int_digits(s).len() >= 1 && all_digits(int_digits(s)) && (if int_negative(s) {
        dec_nat(int_digits(s)) <= 2147483648
    } else {
        dec_nat(int_digits(s)) <= 2147483647
    })
}

/// The value of an `i32` literal. Meaningful only when `is_i32_literal(s)`
/// holds.
pub open spec fn i32_literal_val(s: Seq<u8>) -> int {
    if int_negative(s) {
        -(dec_nat(int_digits(s)) as int)
    } else {
        dec_nat(int_digits(s)) as int
    }
}

/// A number (an optional minus sign, then at least one digit) begins at
/// index `j`.
pub open spec fn num_at(s: Seq<u8>, j: int) -> bool {
    (0 <= j < s.len() && is_digit(s[j])) || (0 <= j && j + 1 < s.len() && s[j] == 45 && is_digit(
        s[j + 1],
    ))
}

/// The note pattern — a note letter, an optional `#`, then a number —
/// matches at index `i`. A `#` is taken exactly when a number follows it.
pub open spec fn note_match_at(s: Seq<u8>, i: int) -> bool {
    0 <= i < s.len() && is_note_char(s[i]) && (if i + 1 < s.len() && s[i + 1] == 35 {
        num_at(s, i + 2)
    } else {
        num_at(s, i + 1)
    })
}

/// The `#` of the match at `i` is part of the note name.
pub open spec fn sharp_at(s: Seq<u8>, i: int) -> bool {
    i + 1 < s.len() && s[i + 1] == 35 && num_at(s, i + 2)
}

/// The first index at or after `i` where the note pattern matches, or
/// `s.len()` when it matches nowhere at or after `i`.
pub open spec fn first_match_from(s: Seq<u8>, i: int) -> int
    decreases s.len() - i,
{
    if i < 0 || i >= s.len() {
        s.len() as int
    } else if note_match_at(s, i) {
        i
    } else {
        first_match_from(s, i + 1)
    }
}

/// The semitone of a note name within its octave. Names the engine does not
/// know (`E#`, `B#`) read zero.
pub open spec fn note_val(c: u8, sharp: bool) -> int {
    if c == 67 {
        if sharp {
            1
        } else {
            0
        }
    } else if c == 68 {
        if sharp {
            3
        } else {
            2
        }
    } else if c == 69 {
        if sharp {
            0
        } else {
            4
        }
    } else if c == 70 {
        if sharp {
            6
        } else {
            5
        }
    } else if c == 71 {
        if sharp {
            8
        } else {
            7
        }
    } else if c == 65 {
        if sharp {
            10
        } else {
            9
        }
    } else {
        if sharp {
            0
        } else {
            11
        }
    }
}

/// The end of the run of digits that starts at `q`.
pub open spec fn digits_end(s: Seq<u8>, q: int) -> int
    decreases s.len() - q,
{
    if 0 <= q < s.len() && is_digit(s[q]) {
        digits_end(s, q + 1)
    } else {
        q
    }
}

/// What the note match at `i` reads: the note number
/// `(octave + 1) * 12 + semitone`, or why it is out of range.
pub open spec fn midi_at(s: Seq<u8>, i: int) -> Result<i32, PitchParseError> {
    let sharp = sharp_at(s, i);
    let p: int = if sharp {
        i + 2
    } else {
        i + 1
    };
    let neg = s[p] == 45;
    let q: int = if neg {
        p + 1
    } else {
        p
    };
    let digits = s.subrange(q, digits_end(s, q));
    if dec_nat(digits) > (if neg {
        2147483648nat
    } else {
        2147483647nat
    }) {
        Err(PitchParseError::OctaveOutOfRange)
    } else {
        let oct: int = if neg {
            -(dec_nat(digits) as int)
        } else {
            dec_nat(digits) as int
        };
        let midi: int = (oct + 1) * 12 + note_val(s[i], sharp);
        if midi < -2147483648 || midi > 2147483647 {
            Err(PitchParseError::MidiOutOfRange)
        } else {
            Ok(midi as i32)
        }
    }
}

/// What reading a pitch argument yields: the argument itself when it is an
/// integer literal, else the note number of the first note name in it.
pub open spec fn pitch_spec(s: Seq<u8>) -> Result<i32, PitchParseError> {
    if is_i32_literal(s) {
        Ok(i32_literal_val(s) as i32)
    } else if first_match_from(s, 0) >= s.len() {
        Err(PitchParseError::NoteNotFound)
    } else {
        midi_at(s, first_match_from(s, 0))
    }
}

proof fn lemma_first_match_is(s: Seq<u8>, i: int, r: int)
    requires
        0 <= i <= r <= s.len(),
        forall|k: int| i <= k < r ==> !note_match_at(s, k),
        r < s.len() ==> note_match_at(s, r),
    ensures
        first_match_from(s, i) == r,
    decreases s.len() - i,
{
    if i < r {
        lemma_first_match_is(s, i + 1, r);
    }
}

proof fn lemma_digits_end_is(s: Seq<u8>, q: int, e: int)
    requires
        0 <= q <= e <= s.len(),
        forall|k: int| q <= k < e ==> is_digit(#[trigger] s[k]),
        e < s.len() ==> !is_digit(s[e]),
    ensures
        digits_end(s, q) == e,
    decreases s.len() - q,
{
    if q < e {
        lemma_digits_end_is(s, q + 1, e);
    }
}

/// Whether a number begins at index `j`.
fn num_at_x(s: &[u8], j: usize) -> (b: bool)
    requires
        j <= s@.len(),
    ensures
        b == num_at(s@, j as int),
{
    let n = s.len();
    if j < n && 48 <= s[j] && s[j] <= 57 {
        true
    } else {
        j < n && s[j] == 45 && j + 1 < n && 48 <= s[j + 1] && s[j + 1] <= 57
    }
}

/// Whether the note pattern matches at index `i`.
fn match_at_x(s: &[u8], i: usize) -> (b: bool)
    requires
        i < s@.len(),
    ensures
        b == note_match_at(s@, i as int),
{
    let n = s.len();
    if !(65 <= s[i] && s[i] <= 71) {
        return false;
    }
    if i + 1 < n && s[i + 1] == 35 {
        num_at_x(s, i + 2)
    } else {
        num_at_x(s, i + 1)
    }
}

/// Reads a signed decimal literal that fits an `i32`, as `i32::from_str`
/// does. Returns nothing when `s` is not such a literal.
fn parse_i32_literal(s: &[u8]) -> (r: Option<i32>)
    ensures
        match r {
            Some(v) => is_i32_literal(s@) && v == i32_literal_val(s@),
            None => !is_i32_literal(s@),
        },
{
    let neg = s.len() >= 1 && s[0] == 45;
    let digits: &[u8] = if s.len() >= 1 && (s[0] == 43 || s[0] == 45) {
        slice_subrange(s, 1, s.len())
    } else {
        s
    };
    proof {
        assert(digits@ =~= int_digits(s@));
    }
    match parse_digits(digits) {
        Some(v) => {
            if neg {
                if v <= 2147483648u64 {
                    Some((-(v as i64)) as i32)
                } else {
                    None
                }
            } else {
                if v <= 2147483647u64 {
                    Some(v as i32)
                } else {
                    None
                }
            }
        },
        None => None,
    }
}

/// Reads a pitch argument: either a plain note number, or the first note
/// name in the argument (a letter `A`..`G`, an optional `#`, and a signed
/// octave), as `(octave + 1) * 12 + semitone`.
pub fn pitch_parser(arg: &[u8]) -> (r: Result<i32, PitchParseError>)
    ensures
        r == pitch_spec(arg@),
{
    if let Some(v) = parse_i32_literal(arg) {
        return Ok(v);
    }
    let n = arg.len();
    let mut i: usize = 0;
    while i < n && !match_at_x(arg, i)
        invariant
            n == arg@.len(),
            i <= n,
            forall|k: int| 0 <= k < i ==> !note_match_at(arg@, k),
        decreases n - i,
    {
        i = i + 1;
    }
    proof {
        lemma_first_match_is(arg@, 0, i as int);
    }
    if i == n {
        return Err(PitchParseError::NoteNotFound);
    }
    // The match's shape: optional sharp, optional minus, then the digit run.
    let sharp = i + 1 < n && arg[i + 1] == 35 && num_at_x(arg, i + 2);
    let p: usize = if sharp {
        i + 2
    } else {
        i + 1
    };
    proof {
        assert(sharp == sharp_at(arg@, i as int));
        assert(num_at(arg@, p as int));
    }
    let neg = arg[p] == 45;
    let q: usize = if neg {
        p + 1
    } else {
        p
    };
    let mut e: usize = q;
    while e < n && 48 <= arg[e] && arg[e] <= 57
        invariant
            n == arg@.len(),
            q <= e <= n,
            forall|k: int| q <= k < e ==> is_digit(#[trigger] arg@[k]),
        decreases n - e,
    {
        e = e + 1;
    }
    proof {
        lemma_digits_end_is(arg@, q as int, e as int);
    }
    let digits = slice_subrange(arg, q, e);
    proof {
        assert(digits@ =~= arg@.subrange(q as int, e as int));
        assert(digits@.len() >= 1);
        assert(all_digits(digits@));
    }
    let bound: u64 = if neg {
        2147483648u64
    } else {
        2147483647u64
    };
    let v = match parse_digits(digits) {
        Some(v) => v,
        None => {
            return Err(PitchParseError::OctaveOutOfRange);
        },
    };
    if v > bound {
        return Err(PitchParseError::OctaveOutOfRange);
    }
    let oct: i64 = if neg {
        -(v as i64)
    } else {
        v as i64
    };
    // The note letter and the sharp decide the semitone within the octave.
    let c = arg[i];
    let note: i64 = if c == 67 {
        if sharp {
            1
        } else {
            0
        }
    } else if c == 68 {
        if sharp {
            3
        } else {
            2
        }
    } else if c == 69 {
        if sharp {
            0
        } else {
            4
        }
    } else if c == 70 {
        if sharp {
            6
        } else {
            5
        }
    } else if c == 71 {
        if sharp {
            8
        } else {
            7
        }
    } else if c == 65 {
        if sharp {
            10
        } else {
            9
        }
    } else {
        if sharp {
            0
        } else {
            11
        }
    };
    let midi: i64 = (oct + 1) * 12 + note;
    if midi < -2147483648i64 || midi > 2147483647i64 {
        Err(PitchParseError::MidiOutOfRange)
    } else {
        Ok(midi as i32)
    }
}

} // verus!
