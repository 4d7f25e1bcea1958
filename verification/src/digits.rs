//! Verified decimal parsing on byte strings.
//!
//! The engine's arguments carry decimal integers in several places (repeat
//! counts of the pitch-bend codec, octave numbers of note names). This
//! module gives them one exact parser: the value of a digit string, and an
//! executable reader that returns that value precisely when the string is a
//! well-formed decimal that fits the target width.

use vstd::prelude::*;

verus! {

/// Every byte of `s` is an ASCII decimal digit.
pub open spec fn all_digits(s: Seq<u8>) -> bool {
    forall|i: int| 0 <= i < s.len() ==> 48 <= #[trigger] s[i] <= 57
}

/// The value of a string of decimal digits (most significant first).
pub open spec fn dec_nat(s: Seq<u8>) -> nat
    decreases s.len(),
{
    if s.len() == 0 {
        0
    } else {
        (10 * dec_nat(s.drop_last()) + (s.last() - 48)) as nat
    }
}

/// Ten to the `n`-th power.
pub open spec fn pow10(n: nat) -> nat
    decreases n,
{
    if n == 0 {
        1
    } else {
        10 * pow10((n - 1) as nat)
    }
}

/// `s` is a decimal string whose value fits a `u64`: non-empty, digits
/// only, value at most `u64::MAX`.
pub open spec fn parse_u64_ok(s: Seq<u8>) -> bool {
    s.len() >= 1 && all_digits(s) && dec_nat(s) <= u64::MAX
}

/// Reading one more digit multiplies the prefix value by ten.
proof fn lemma_dec_step(s: Seq<u8>, k: int)
    requires
        0 <= k < s.len(),
        48 <= s[k] <= 57,
    ensures
        dec_nat(s.take(k + 1)) == 10 * dec_nat(s.take(k)) + (s[k] - 48),
{
    assert(s.take(k + 1).drop_last() =~= s.take(k));
    assert(s.take(k + 1).last() == s[k]);
}

/// A digit string's value is below ten to its length.
proof fn lemma_dec_upper(s: Seq<u8>)
    requires
        all_digits(s),
    ensures
        dec_nat(s) < pow10(s.len()),
    decreases s.len(),
{
    if s.len() > 0 {
        assert(all_digits(s.drop_last())) by {
            assert(forall|i: int|
                0 <= i < s.drop_last().len() ==> #[trigger] s.drop_last()[i] == s[i]);
        }
        lemma_dec_upper(s.drop_last());
    }
}

/// A digit string that does not start with `0` has a value of at least ten
/// to one less than its length.
proof fn lemma_dec_lower(s: Seq<u8>)
    requires
        all_digits(s),
        s.len() >= 1,
        s[0] != 48,
    ensures
        dec_nat(s) >= pow10((s.len() - 1) as nat),
    decreases s.len(),
{
    if s.len() > 1 {
        assert(all_digits(s.drop_last())) by {
            assert(forall|i: int|
                0 <= i < s.drop_last().len() ==> #[trigger] s.drop_last()[i] == s[i]);
        }
        lemma_dec_lower(s.drop_last());
    }
}

/// A leading zero does not change a digit string's value.
proof fn lemma_dec_skip_zero(s: Seq<u8>)
    requires
        s.len() >= 1,
        all_digits(s),
        s[0] == 48,
    ensures
        dec_nat(s) == dec_nat(s.skip(1)),
    decreases s.len(),
{
    if s.len() == 1 {
        assert(s.skip(1) =~= Seq::<u8>::empty());
    } else {
        assert(s.drop_last()[0] == s[0]);
        assert(all_digits(s.drop_last())) by {
            assert(forall|i: int|
                0 <= i < s.drop_last().len() ==> #[trigger] s.drop_last()[i] == s[i]);
        }
        lemma_dec_skip_zero(s.drop_last());
        assert(s.drop_last().skip(1) =~= s.skip(1).drop_last());
        assert(s.skip(1).last() == s.last());
    }
}

/// Reads a decimal digit string. Returns its value exactly when the string
/// is non-empty, all digits, and the value fits a `u64`.
pub fn parse_digits(s: &[u8]) -> (r: Option<u64>)
    ensures
        match r {
            Some(v) => parse_u64_ok(s@) && v == dec_nat(s@),
            None => !parse_u64_ok(s@),
        },
{
    let n = s.len();
    if n == 0 {
        return None;
    }
    for i in 0..n
        invariant
            n == s@.len(),
            forall|k: int| 0 <= k < i ==> 48 <= #[trigger] s@[k] <= 57,
    {
        if s[i] < 48 || s[i] > 57 {
            return None;
        }
    }
    // Skip leading zeros so that the length of what is left bounds the value.
    proof {
        assert(s@.skip(0) =~= s@);
    }
    let mut z: usize = 0;
    while z < n && s[z] == 48
        invariant
            n == s@.len(),
            all_digits(s@),
            z <= n,
            dec_nat(s@) == dec_nat(s@.skip(z as int)),
        decreases n - z,
    {
        proof {
            assert(s@.skip(z as int)[0] == s@[z as int]);
            lemma_dec_skip_zero(s@.skip(z as int));
            assert(s@.skip(z as int).skip(1) =~= s@.skip(z as int + 1));
        }
        z = z + 1;
    }
    let ghost core = s@.skip(z as int);
    proof {
        assert(all_digits(core)) by {
            assert(forall|i: int| 0 <= i < core.len() ==> #[trigger] core[i] == s@[i + z]);
        }
    }
    if n - z > 20 {
        // More than twenty significant digits: the value exceeds `u64::MAX`.
        proof {
            assert(core[0] == s@[z as int]);
            lemma_dec_lower(core);
            assert(pow10((core.len() - 1) as nat) >= pow10(20)) by {
                lemma_pow10_le(20, (core.len() - 1) as nat);
            }
            assert(pow10(20) > u64::MAX) by {
                reveal_with_fuel(pow10, 21);
            }
        }
        return None;
    }
    let mut val: u128 = 0;
    let mut i: usize = z;
    while i < n
        invariant
            n == s@.len(),
            all_digits(s@),
            z <= i <= n,
            n - z <= 20,
            core == s@.skip(z as int),
            val == dec_nat(core.take(i - z)),
            val < pow10((i - z) as nat),
        decreases n - i,
    {
        let d = s[i] - 48;
        proof {
            lemma_dec_step(core, i - z);
            assert(core[i - z] == s@[i as int]);
            assert(pow10(((i - z) + 1) as nat) == 10 * pow10((i - z) as nat));
            assert(pow10((i - z) as nat) <= pow10(20)) by {
                lemma_pow10_le((i - z) as nat, 20);
            }
            assert(10 * pow10(20) < u128::MAX) by {
                reveal_with_fuel(pow10, 21);
            }
        }
        val = val * 10 + (d as u128);
        i = i + 1;
    }
    proof {
        assert(core.take(n - z) =~= core);
        assert(dec_nat(s@) == dec_nat(core));
    }
    if val > u64::MAX as u128 {
        None
    } else {
        Some(val as u64)
    }
}

/// `pow10` is monotonic in the exponent.
proof fn lemma_pow10_le(a: nat, b: nat)
    requires
        a <= b,
    ensures
        pow10(a) <= pow10(b),
    decreases b,
{
    if a < b {
        lemma_pow10_le(a, (b - 1) as nat);
        assert(pow10(b) == 10 * pow10((b - 1) as nat));
        assert(pow10((b - 1) as nat) >= 1) by {
            lemma_pow10_pos((b - 1) as nat);
        }
    }
}

/// `pow10` is positive.
proof fn lemma_pow10_pos(n: nat)
    ensures
        pow10(n) >= 1,
    decreases n,
{
    if n > 0 {
        lemma_pow10_pos((n - 1) as nat);
    }
}

} // verus!
