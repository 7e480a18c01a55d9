//! Decimal and hexadecimal text of numbers, for messages.

use vstd::prelude::*;

verus! {

/// The digit for `d` (0 to 15), lower-case past 9.
pub open spec fn digit_char(d: int) -> char {
    if d == 0 {
        '0'
    } else if d == 1 {
        '1'
    } else if d == 2 {
        '2'
    } else if d == 3 {
        '3'
    } else if d == 4 {
        '4'
    } else if d == 5 {
        '5'
    } else if d == 6 {
        '6'
    } else if d == 7 {
        '7'
    } else if d == 8 {
        '8'
    } else if d == 9 {
        '9'
    } else if d == 10 {
        'a'
    } else if d == 11 {
        'b'
    } else if d == 12 {
        'c'
    } else if d == 13 {
        'd'
    } else if d == 14 {
        'e'
    } else {
        'f'
    }
}

/// The decimal digits of `n`, without leading zeros.
pub open spec fn spec_dec(n: nat) -> Seq<char>
    decreases n,
{
    if n < 10 {
        seq![digit_char(n as int)]
    } else {
        spec_dec(n / 10).push(digit_char((n % 10) as int))
    }
}

/// The lower-case hexadecimal digits of `n`, without leading zeros.
pub open spec fn spec_hex(n: nat) -> Seq<char>
    decreases n,
{
    if n < 16 {
        seq![digit_char(n as int)]
    } else {
        spec_hex(n / 16).push(digit_char((n % 16) as int))
    }
}

/// The last four lower-case hexadecimal digits of `n`, zeros in front.
pub open spec fn spec_hex4(n: nat) -> Seq<char> {
    seq![
        digit_char(((n / 4096) % 16) as int),
        digit_char(((n / 256) % 16) as int),
        digit_char(((n / 16) % 16) as int),
        digit_char((n % 16) as int),
    ]
}

/// The text of one digit.
fn digit_str(d: u128) -> (r: &'static str)
    requires
        d < 16,
    ensures
        r@ == seq![digit_char(d as int)],
{
    match d {
        0 => {
            proof {
                reveal_strlit("0");
            }
            "0"
        },
        1 => {
            proof {
                reveal_strlit("1");
            }
            "1"
        },
        2 => {
            proof {
                reveal_strlit("2");
            }
            "2"
        },
        3 => {
            proof {
                reveal_strlit("3");
            }
            "3"
        },
        4 => {
            proof {
                reveal_strlit("4");
            }
            "4"
        },
        5 => {
            proof {
                reveal_strlit("5");
            }
            "5"
        },
        6 => {
            proof {
                reveal_strlit("6");
            }
            "6"
        },
        7 => {
            proof {
                reveal_strlit("7");
            }
            "7"
        },
        8 => {
            proof {
                reveal_strlit("8");
            }
            "8"
        },
        9 => {
            proof {
                reveal_strlit("9");
            }
            "9"
        },
        10 => {
            proof {
                reveal_strlit("a");
            }
            "a"
        },
        11 => {
            proof {
                reveal_strlit("b");
            }
            "b"
        },
        12 => {
            proof {
                reveal_strlit("c");
            }
            "c"
        },
        13 => {
            proof {
                reveal_strlit("d");
            }
            "d"
        },
        14 => {
            proof {
                reveal_strlit("e");
            }
            "e"
        },
        _ => {
            proof {
                reveal_strlit("f");
            }
            "f"
        },
    }
}

/// Appends the decimal digits of `n` to `s`.
pub fn push_dec(s: &mut String, n: u128)
    ensures
        final(s)@ == old(s)@ + spec_dec(n as nat),
    decreases n,
{
    let ghost s0 = s@;
    if n >= 10 {
        push_dec(s, n / 10);
    }
    let ghost s1 = s@;
    s.append(digit_str(n % 10));
    proof {
        if n >= 10 {
            assert(s@ =~= s0 + spec_dec((n / 10) as nat).push(digit_char((n % 10) as int)));
        } else {
            assert(s@ =~= s0 + spec_dec(n as nat));
        }
    }
}

/// Appends the hexadecimal digits of `n` to `s`.
pub fn push_hex(s: &mut String, n: u128)
    ensures
        final(s)@ == old(s)@ + spec_hex(n as nat),
    decreases n,
{
    let ghost s0 = s@;
    if n >= 16 {
        push_hex(s, n / 16);
    }
    s.append(digit_str(n % 16));
    proof {
        if n >= 16 {
            assert(s@ =~= s0 + spec_hex((n / 16) as nat).push(digit_char((n % 16) as int)));
        } else {
            assert(s@ =~= s0 + spec_hex(n as nat));
        }
    }
}

/// Appends the last four hexadecimal digits of `n` to `s`.
pub fn push_hex4(s: &mut String, n: u128)
    ensures
        final(s)@ == old(s)@ + spec_hex4(n as nat),
{
    let ghost s0 = s@;
    s.append(digit_str((n / 4096) % 16));
    s.append(digit_str((n / 256) % 16));
    s.append(digit_str((n / 16) % 16));
    s.append(digit_str(n % 16));
    assert(s@ =~= s0 + spec_hex4(n as nat));
}

} // verus!
