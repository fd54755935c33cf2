//! Decimal rendering of unsigned integers, with an exact character-level
//! specification.

use vstd::prelude::*;

verus! {

/// The character for a single decimal digit.
pub open spec fn digit_char(d: int) -> char {
    if d == 0 {
        '0'
    } else if d == 1 {
        '1'
    } else if d == 2 {
        '2'
    } else if d == 3 {
        '3'
    } else if d == 4 {
        '4'
    } else if d == 5 {
        '5'
    } else if d == 6 {
        '6'
    } else if d == 7 {
        '7'
    } else if d == 8 {
        '8'
    } else {
        '9'
    }
}

/// The decimal digits of `n`, most significant first, without leading
/// zeros (except for `n == 0` itself).
pub open spec fn dec_chars(n: int) -> Seq<char>
    decreases n,
{
    if n < 10 {
        seq![digit_char(n)]
    } else {
        dec_chars(n / 10).push(digit_char(n % 10))
    }
}

/// The literal holding exactly one decimal digit.
fn digit_str(d: u8) -> (r: &'static str)
    requires
        d < 10,
    ensures
        r@ =~= seq![digit_char(d as int)],
{
    if d == 0 {
        proof {
            reveal_strlit("0");
        }
        "0"
    } else if d == 1 {
        proof {
            reveal_strlit("1");
        }
        "1"
    } else if d == 2 {
        proof {
            reveal_strlit("2");
        }
        "2"
    } else if d == 3 {
        proof {
            reveal_strlit("3");
        }
        "3"
    } else if d == 4 {
        proof {
            reveal_strlit("4");
        }
        "4"
    } else if d == 5 {
        proof {
            reveal_strlit("5");
        }
        "5"
    } else if d == 6 {
        proof {
            reveal_strlit("6");
        }
        "6"
    } else if d == 7 {
        proof {
            reveal_strlit("7");
        }
        "7"
    } else if d == 8 {
        proof {
            reveal_strlit("8");
        }
        "8"
    } else {
        proof {
            reveal_strlit("9");
        }
        "9"
    }
}

/// Renders `n` in decimal.
#[verifier::loop_isolation(false)]
pub fn usize_to_string(n: usize) -> (s: String)
    ensures
        s@ == dec_chars(n as int),
{
    let mut m: usize = n;
    let mut ds: Vec<u8> = Vec::new();
    while m >= 10
        invariant
            dec_chars(n as int) =~= dec_chars(m as int) + Seq::new(
                ds@.len(),
                |i: int| digit_char(ds@[ds@.len() - 1 - i] as int),
            ),
            forall|i: int| 0 <= i < ds@.len() ==> (#[trigger] ds@[i]) < 10,
        decreases m,
    {
        let ghost pre = ds@;
        ds.push((m % 10) as u8);
        proof {
            assert(Seq::new(ds@.len(), |i: int| digit_char(ds@[ds@.len() - 1 - i] as int)) =~= seq![
                digit_char(m as int % 10),
            ] + Seq::new(pre.len(), |i: int| digit_char(pre[pre.len() - 1 - i] as int)));
        }
        m = m / 10;
    }
    let ghost pre = ds@;
    ds.push(m as u8);
    proof {
        assert(dec_chars(m as int) =~= seq![digit_char(m as int)]);
        assert(Seq::new(ds@.len(), |i: int| digit_char(ds@[ds@.len() - 1 - i] as int)) =~= seq![
            digit_char(m as int),
        ] + Seq::new(pre.len(), |i: int| digit_char(pre[pre.len() - 1 - i] as int)));
        assert(dec_chars(n as int) =~= Seq::new(
            ds@.len(),
            |i: int| digit_char(ds@[ds@.len() - 1 - i] as int),
        ));
    }
    let mut out = String::new();
    let mut k: usize = ds.len();
    while k > 0
        invariant
            k <= ds@.len(),
            out@ =~= Seq::new(
                (ds@.len() - k) as nat,
                |i: int| digit_char(ds@[ds@.len() - 1 - i] as int),
            ),
        decreases k,
    {
        k = k - 1;
        let ghost pre_out = out@;
        out.append(digit_str(ds[k]));
        proof {
            assert(out@ =~= Seq::new(
                (ds@.len() - k) as nat,
                |i: int| digit_char(ds@[ds@.len() - 1 - i] as int),
            ));
        }
    }
    proof {
        assert(out@ =~= dec_chars(n as int));
    }
    out
}

/// Renders `n` in decimal.
#[verifier::loop_isolation(false)]
pub fn u64_to_string(n: u64) -> (s: String)
    ensures
        s@ == dec_chars(n as int),
{
    let mut m: u64 = n;
    let mut ds: Vec<u8> = Vec::new();
    while m >= 10
        invariant
            dec_chars(n as int) =~= dec_chars(m as int) + Seq::new(
                ds@.len(),
                |i: int| digit_char(ds@[ds@.len() - 1 - i] as int),
            ),
            forall|i: int| 0 <= i < ds@.len() ==> (#[trigger] ds@[i]) < 10,
        decreases m,
    {
        let ghost pre = ds@;
        ds.push((m % 10) as u8);
        proof {
            assert(Seq::new(ds@.len(), |i: int| digit_char(ds@[ds@.len() - 1 - i] as int)) =~= seq![
                digit_char(m as int % 10),
            ] + Seq::new(pre.len(), |i: int| digit_char(pre[pre.len() - 1 - i] as int)));
        }
        m = m / 10;
    }
    let ghost pre = ds@;
    ds.push(m as u8);
    proof {
        assert(dec_chars(m as int) =~= seq![digit_char(m as int)]);
        assert(Seq::new(ds@.len(), |i: int| digit_char(ds@[ds@.len() - 1 - i] as int)) =~= seq![
            digit_char(m as int),
        ] + Seq::new(pre.len(), |i: int| digit_char(pre[pre.len() - 1 - i] as int)));
        assert(dec_chars(n as int) =~= Seq::new(
            ds@.len(),
            |i: int| digit_char(ds@[ds@.len() - 1 - i] as int),
        ));
    }
    let mut out = String::new();
    let mut k: usize = ds.len();
    while k > 0
        invariant
            k <= ds@.len(),
            out@ =~= Seq::new(
                (ds@.len() - k) as nat,
                |i: int| digit_char(ds@[ds@.len() - 1 - i] as int),
            ),
        decreases k,
    {
        k = k - 1;
        let ghost pre_out = out@;
        out.append(digit_str(ds[k]));
        proof {
            assert(out@ =~= Seq::new(
                (ds@.len() - k) as nat,
                |i: int| digit_char(ds@[ds@.len() - 1 - i] as int),
            ));
        }
    }
    proof {
        assert(out@ =~= dec_chars(n as int));
    }
    out
}

} // verus!
