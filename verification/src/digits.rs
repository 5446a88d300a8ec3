use vstd::prelude::*;
use vstd::string::StringExecFns;

verus! {

/// The decimal digit character for `d`, which must lie in `0 .. 10`.
pub open spec fn digit_char(d: int) -> char {
    if d == 0 {
        '0'
    } else if d == 1 {
        '1'
    } else if d == 2 {
        '2'
    } else if d == 3 {
        '3'
    } else if d == 4 {
        '4'
    } else if d == 5 {
        '5'
    } else if d == 6 {
        '6'
    } else if d == 7 {
        '7'
    } else if d == 8 {
        '8'
    } else {
        '9'
    }
}

/// Decimal digits of the non-negative integer `n`, most significant first,
/// without sign and without leading zeros (zero itself is the single
/// character `'0'`).
pub open spec fn spec_udec(n: nat) -> Seq<char>
    decreases n,
{
    if n < 10 {
        seq![digit_char(n as int)]
    } else {
        spec_udec(n / 10) + seq![digit_char((n % 10) as int)]
    }
}

/// Decimal rendering of an arbitrary integer: a leading `'-'` for a
/// negative value, plain digits otherwise.
pub open spec fn spec_dec(n: int) -> Seq<char> {
    if n < 0 {
        seq!['-'] + spec_udec((-n) as nat)
    } else {
        spec_udec(n as nat)
    }
}

/// The digit `d` as a one-character string slice.
fn digit_str(d: u64) -> (r: &'static str)
    requires
        d < 10,
    ensures
        r@ == seq![digit_char(d as int)],
{
    if d == 0 {
        proof {
            reveal_strlit("0");
            assert("0"@ =~= seq![digit_char(0int)]);
        }
        "0"
    } else if d == 1 {
        proof {
            reveal_strlit("1");
            assert("1"@ =~= seq![digit_char(1int)]);
        }
        "1"
    } else if d == 2 {
        proof {
            reveal_strlit("2");
            assert("2"@ =~= seq![digit_char(2int)]);
        }
        "2"
    } else if d == 3 {
        proof {
            reveal_strlit("3");
            assert("3"@ =~= seq![digit_char(3int)]);
        }
        "3"
    } else if d == 4 {
        proof {
            reveal_strlit("4");
            assert("4"@ =~= seq![digit_char(4int)]);
        }
        "4"
    } else if d == 5 {
        proof {
            reveal_strlit("5");
            assert("5"@ =~= seq![digit_char(5int)]);
        }
        "5"
    } else if d == 6 {
        proof {
            reveal_strlit("6");
            assert("6"@ =~= seq![digit_char(6int)]);
        }
        "6"
    } else if d == 7 {
        proof {
            reveal_strlit("7");
            assert("7"@ =~= seq![digit_char(7int)]);
        }
        "7"
    } else if d == 8 {
        proof {
            reveal_strlit("8");
            assert("8"@ =~= seq![digit_char(8int)]);
        }
        "8"
    } else {
        proof {
            reveal_strlit("9");
            assert("9"@ =~= seq![digit_char(9int)]);
        }
        "9"
    }
}

/// Appends the decimal digits of `n` to `out`.
fn append_udec(out: &mut String, n: u64)
    ensures
        final(out)@ == old(out)@ + spec_udec(n as nat),
    decreases n,
{
    if n < 10 {
        let d = digit_str(n);
        out.append(d);
        proof {
            assert(out@ =~= old(out)@ + spec_udec(n as nat));
        }
    } else {
        append_udec(out, n / 10);
        let d = digit_str(n % 10);
        out.append(d);
        proof {
            assert((n / 10) as nat == (n as nat) / 10);
            assert((n % 10) as int == (n as nat) % 10);
            assert(out@ =~= old(out)@ + spec_udec(n as nat));
        }
    }
}

/// The decimal string for a 32-bit signed integer.
pub fn decimal_string_i32(n: i32) -> (r: String)
    ensures
        r@ == spec_dec(n as int),
{
    let mut out = String::new();
    let wide: i64 = n as i64;
    if wide < 0 {
        out.append("-");
        append_udec(&mut out, (-wide) as u64);
        proof {
            reveal_strlit("-");
            assert("-"@ =~= seq!['-']);
            assert(out@ =~= spec_dec(n as int));
        }
    } else {
        append_udec(&mut out, wide as u64);
        proof {
            assert(out@ =~= spec_dec(n as int));
        }
    }
    out
}

/// The decimal string for a 64-bit unsigned integer.
pub fn decimal_string_u64(n: u64) -> (r: String)
    ensures
        r@ == spec_udec(n as nat),
{
    let mut out = String::new();
    append_udec(&mut out, n);
    proof {
        assert(out@ =~= spec_udec(n as nat));
    }
    out
}

} // verus!
