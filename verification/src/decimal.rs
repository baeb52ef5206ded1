//! Decimal rendering of unsigned integers into strings, with zero padding.

use vstd::prelude::*;

verus! {

/// The character of a decimal digit.
pub open spec fn digit_char(d: int) -> char {
    if d == 0 {
        '0'
    } else if d == 1 {
        '1'
    } else if d == 2 {
        '2'
    } else if d == 3 {
        '3'
    } else if d == 4 {
        '4'
    } else if d == 5 {
        '5'
    } else if d == 6 {
        '6'
    } else if d == 7 {
        '7'
    } else if d == 8 {
        '8'
    } else {
        '9'
    }
}

/// The decimal digits of `v`, most significant first, without leading zeros
/// (`"0"` for zero).
pub open spec fn dec_digits(v: nat) -> Seq<char>
    decreases v,
{
    if v < 10 {
        seq![digit_char(v as int)]
    } else {
        dec_digits(v / 10).push(digit_char((v % 10) as int))
    }
}

/// `s` left-padded with `'0'` to at least `width` characters.
pub open spec fn zero_pad(s: Seq<char>, width: nat) -> Seq<char> {
    if s.len() >= width {
        s
    } else {
        Seq::new((width - s.len()) as nat, |i: int| '0') + s
    }
}

/// `v` in decimal, zero-padded to at least `width` digits (as `{:0width$}` prints it).
pub open spec fn dec_padded(v: nat, width: nat) -> Seq<char> {
    zero_pad(dec_digits(v), width)
}

/// The one-character string of a decimal digit.
fn digit_str(d: u64) -> (s: &'static str)
    requires
        d < 10,
    ensures
        s@ == seq![digit_char(d as int)],
{
    if d == 0 {
        proof {
            reveal_strlit("0");
        }
        "0"
    } else if d == 1 {
        proof {
            reveal_strlit("1");
        }
        "1"
    } else if d == 2 {
        proof {
            reveal_strlit("2");
        }
        "2"
    } else if d == 3 {
        proof {
            reveal_strlit("3");
        }
        "3"
    } else if d == 4 {
        proof {
            reveal_strlit("4");
        }
        "4"
    } else if d == 5 {
        proof {
            reveal_strlit("5");
        }
        "5"
    } else if d == 6 {
        proof {
            reveal_strlit("6");
        }
        "6"
    } else if d == 7 {
        proof {
            reveal_strlit("7");
        }
        "7"
    } else if d == 8 {
        proof {
            reveal_strlit("8");
        }
        "8"
    } else {
        proof {
            reveal_strlit("9");
        }
        "9"
    }
}

/// The characters of the digits `ds` (least significant first) in reading order.
pub open spec fn rev_digits(ds: Seq<u64>) -> Seq<char> {
    Seq::new(ds.len(), |i: int| digit_char(ds[ds.len() - 1 - i] as int))
}

/// Appends `v` in decimal, zero-padded to at least `width` digits.
pub fn push_decimal(out: &mut String, v: u64, width: usize)
    ensures
        final(out)@ == old(out)@ + dec_padded(v as nat, width as nat),
{
    let mut ds: Vec<u64> = Vec::new();
    let mut r = v;
    loop
        invariant_except_break
            r > 0 || ds@.len() == 0,
            dec_digits(v as nat) == (if r == 0 && ds@.len() == 0 {
                dec_digits(0)
            } else {
                dec_digits(r as nat)
            }) + rev_digits(ds@),
            forall|i: int| 0 <= i < ds@.len() ==> ds@[i] < 10,
        ensures
            dec_digits(v as nat) == rev_digits(ds@),
            forall|i: int| 0 <= i < ds@.len() ==> ds@[i] < 10,
            ds@.len() >= 1,
        decreases r,
    {
        let d = r % 10;
        let ghost old_ds = ds@;
        let ghost old_r = r;
        ds.push(d);
        r = r / 10;
        proof {
            assert(rev_digits(ds@) =~= seq![digit_char(d as int)] + rev_digits(old_ds));
            if r == 0 {
                assert(old_r < 10);
                assert(dec_digits(old_r as nat) =~= seq![digit_char(d as int)]);
                assert(dec_digits(v as nat) =~= rev_digits(ds@));
            } else {
                assert(dec_digits(old_r as nat) == dec_digits(r as nat).push(digit_char(d as int)));
                assert(dec_digits(v as nat) =~= dec_digits(r as nat) + rev_digits(ds@));
            }
        }
        if r == 0 {
            break;
        }
    }
    let k = ds.len();
    let ghost start = out@;
    let mut p: usize = k;
    while p < width
        invariant
            k <= p <= width || (p == k && width < k),
            out@ == start + Seq::new((p - k) as nat, |i: int| '0'),
        decreases width - p,
    {
        proof {
            reveal_strlit("0");
        }
        out.append("0");
        proof {
            assert(Seq::new((p + 1 - k) as nat, |i: int| '0') =~= Seq::new((p - k) as nat, |i: int| '0').push('0'));
        }
        p += 1;
    }
    let ghost padded = out@;
    let mut t: usize = 0;
    while t < k
        invariant
            k == ds@.len(),
            t <= k,
            forall|i: int| 0 <= i < ds@.len() ==> ds@[i] < 10,
            out@ == padded + rev_digits(ds@).take(t as int),
        decreases k - t,
    {
        let s = digit_str(ds[k - 1 - t]);
        out.append(s);
        proof {
            assert(rev_digits(ds@).take(t + 1) =~= rev_digits(ds@).take(t as int).push(
                digit_char(ds@[k - 1 - t] as int),
            ));
        }
        t += 1;
    }
    proof {
        assert(rev_digits(ds@).take(k as int) =~= rev_digits(ds@));
        let dd = dec_digits(v as nat);
        if dd.len() >= width {
            assert(p == k);
            assert(Seq::new(0, |i: int| '0') + dd =~= dd);
        } else {
            assert(p == width);
        }
        assert(out@ =~= start + dec_padded(v as nat, width as nat));
    }
}

} // verus!
