//! Numeric text parsing with an exact character-level specification.

use vstd::prelude::*;

verus! {

/// `c` is one of the characters `'0'` through `'9'`.
pub open spec fn is_digit_char(c: char) -> bool {
    48 <= c as int <= 57
}

/// Numeric value of a digit character.
pub open spec fn digit_val(c: char) -> int {
    c as int - 48
}

/// Length of the run of digit characters starting at `from`.
pub open spec fn digit_run_len(s: Seq<char>, from: int) -> int
    decreases s.len() - from,
{
    if !(0 <= from < s.len()) || !is_digit_char(s[from]) {
        0
    } else {
        1 + digit_run_len(s, from + 1)
    }
}

/// Value of a sequence of digit characters read in base ten.
pub open spec fn dec_val(s: Seq<char>) -> int
    decreases s.len(),
{
    if s.len() == 0 {
        0
    } else {
        dec_val(s.drop_last()) * 10 + digit_val(s.last())
    }
}

/// The value of a run of digits is non-negative and grows (weakly) with
/// the run's length.
pub proof fn lemma_dec_val_grows(s: Seq<char>, j: int, m: int)
    requires
        0 <= j <= m <= s.len(),
        forall|t: int| 0 <= t < m ==> is_digit_char(#[trigger] s[t]),
    ensures
        0 <= dec_val(s.subrange(0, j)) <= dec_val(s.subrange(0, m)),
    decreases m - j,
{
    if j == m {
        lemma_dec_val_nonneg(s.subrange(0, j));
    } else {
        lemma_dec_val_grows(s, j, m - 1);
        assert(s.subrange(0, m).drop_last() =~= s.subrange(0, m - 1));
        assert(is_digit_char(s[m - 1]));
    }
}

/// A run of digits has a non-negative value.
pub proof fn lemma_dec_val_nonneg(s: Seq<char>)
    requires
        forall|t: int| 0 <= t < s.len() ==> is_digit_char(#[trigger] s[t]),
    ensures
        dec_val(s) >= 0,
    decreases s.len(),
{
    if s.len() > 0 {
        assert forall|t: int| 0 <= t < s.drop_last().len() implies is_digit_char(
            #[trigger] s.drop_last()[t],
        ) by {
            assert(s.drop_last()[t] == s[t]);
        }
        lemma_dec_val_nonneg(s.drop_last());
    }
}

/// Reads the run of digits starting at `from` and returns its value and
/// the position right after it.  Fails when no digit starts at `from` or
/// the run's value does not fit in a `usize`.
#[verifier::loop_isolation(false)]
pub fn parse_number_at(s: &str, from: usize) -> (r: Option<(usize, usize)>)
    requires
        from <= s@.len(),
    ensures
        ({
            let n = digit_run_len(s@, from as int);
            match r {
                Some((val, end)) => {
                    &&& n > 0
                    &&& end == from + n
                    &&& end <= s@.len()
                    &&& val == dec_val(s@.subrange(from as int, from + n))
                },
                None => n == 0 || dec_val(s@.subrange(from as int, from + n)) > usize::MAX,
            }
        }),
{
    let ghost tail = s@.subrange(from as int, s@.len() as int);
    let ghost n = digit_run_len(s@, from as int);
    proof {
        lemma_digit_run_len_bounds(s@, from as int);
    }
    let len = s.unicode_len();
    let mut j: usize = from;
    let mut val: usize = 0;
    while at_digit(s, j, len)
        invariant
            from <= j <= s@.len(),
            digit_run_len(s@, from as int) == j - from + digit_run_len(s@, j as int),
            forall|t: int| from <= t < j ==> is_digit_char(#[trigger] s@[t]),
            val == dec_val(s@.subrange(from as int, j as int)),
        decreases s@.len() - j,
    {
        let c = s.get_char(j);
        let d = (c as u32 - 48) as usize;
        if val > (usize::MAX - d) / 10 {
            proof {
                let full = s@.subrange(from as int, from as int + n);
                assert(is_digit_char(s@[j as int]));
                lemma_digit_run_len_bounds(s@, j as int + 1);
                assert(digit_run_len(s@, j as int) >= 1);
                assert(j - from + 1 <= n);
                assert(s@.subrange(from as int, j as int + 1).drop_last() =~= s@.subrange(
                    from as int,
                    j as int,
                ));
                assert(s@.subrange(from as int, j as int + 1).last() == s@[j as int]);
                assert(dec_val(s@.subrange(from as int, j as int + 1)) == val * 10 + d);
                assert(val * 10 + d > usize::MAX) by {
                    assert(val >= (usize::MAX - d) / 10 + 1);
                    assert(val * 10 >= ((usize::MAX - d) / 10 + 1) * 10) by (nonlinear_arith)
                        requires
                            val >= (usize::MAX - d) / 10 + 1,
                    ;
                    assert(((usize::MAX - d) / 10) * 10 + 10 > usize::MAX - d) by (nonlinear_arith)
                        requires
                            0 <= d <= 9,
                    ;
                }
                assert(full =~= s@.subrange(from as int, from as int + n));
                assert forall|t: int| 0 <= t < full.len() implies is_digit_char(
                    #[trigger] full[t],
                ) by {
                    lemma_digit_run_all_digits(s@, from as int, t + from);
                }
                assert(s@.subrange(from as int, j as int + 1) =~= full.subrange(
                    0,
                    j - from + 1,
                ));
                assert(full.subrange(0, full.len() as int) =~= full);
                lemma_dec_val_grows(full, j - from + 1, n);
            }
            return None;
        }
        proof {
            assert(val * 10 + d <= usize::MAX) by {
                assert(val <= (usize::MAX - d) / 10);
                assert(val * 10 <= ((usize::MAX - d) / 10) * 10) by (nonlinear_arith)
                    requires
                        val <= (usize::MAX - d) / 10,
                ;
                assert(((usize::MAX - d) / 10) * 10 <= usize::MAX - d);
            }
            assert(s@.subrange(from as int, j as int + 1).drop_last() =~= s@.subrange(
                from as int,
                j as int,
            ));
            assert(s@.subrange(from as int, j as int + 1).last() == s@[j as int]);
        }
        val = val * 10 + d;
        j = j + 1;
    }
    if j == from {
        proof {
            assert(digit_run_len(s@, from as int) == 0);
        }
        return None;
    }
    proof {
        assert(digit_run_len(s@, j as int) == 0);
        assert(n == j - from);
    }
    Some((val, j))
}

/// Whether the character at position `j` exists and is a decimal digit.
fn at_digit(s: &str, j: usize, len: usize) -> (b: bool)
    requires
        len == s@.len(),
        j <= s@.len(),
    ensures
        b == (j < s@.len() && is_digit_char(s@[j as int])),
{
    j < len && (s.get_char(j) as u32) >= 48 && (s.get_char(j) as u32) <= 57
}

/// A digit run starting inside the sequence ends inside it.
pub proof fn lemma_digit_run_len_bounds(s: Seq<char>, from: int)
    requires
        0 <= from <= s.len(),
    ensures
        0 <= digit_run_len(s, from),
        from + digit_run_len(s, from) <= s.len(),
    decreases s.len() - from,
{
    if 0 <= from < s.len() && is_digit_char(s[from]) {
        lemma_digit_run_len_bounds(s, from + 1);
    }
}

/// Every position of a digit run holds a digit.
pub proof fn lemma_digit_run_all_digits(s: Seq<char>, from: int, t: int)
    requires
        0 <= from <= t < from + digit_run_len(s, from),
    ensures
        is_digit_char(s[t]),
    decreases t - from,
{
    if t > from {
        lemma_digit_run_all_digits(s, from + 1, t);
    }
}

/// Reads the leading run of digits of `i` and returns the rest of the
/// string together with the run's value.  Fails when `i` does not start
/// with a digit or the value does not fit in a `usize`.
pub fn parse_number(i: &str) -> (r: Option<(&str, usize)>)
    ensures
        ({
            let n = digit_run_len(i@, 0);
            match r {
                Some((rest, val)) => {
                    &&& n > 0
                    &&& rest@ == i@.subrange(n, i@.len() as int)
                    &&& val == dec_val(i@.subrange(0, n))
                },
                None => n == 0 || dec_val(i@.subrange(0, n)) > usize::MAX,
            }
        }),
{
    match parse_number_at(i, 0) {
        None => None,
        Some((val, end)) => {
            let len = i.unicode_len();
            let rest = i.substring_char(end, len);
            Some((rest, val))
        },
    }
}

} // verus!
