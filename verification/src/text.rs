//! Decimal numbers, and text escaped as a quoted Rust string shows it, for
//! the state dumps.
use vstd::prelude::*;

verus! {

/// The character of the digit `d`, below ten.
pub open spec fn digit_char(d: nat) -> char {
    (48 + d) as char
}

/// The decimal digits of `n`, most significant first, with no leading zero.
pub open spec fn decimal(n: nat) -> Seq<char>
    decreases n,
{
    if n < 10 {
        seq![digit_char(n)]
    } else {
        decimal(n / 10).push(digit_char(n % 10))
    }
}

/// The one-character string of the digit `d`.
fn digit_str(d: u8) -> (r: &'static str)
    requires
        d < 10,
    ensures
        r@ == seq![digit_char(d as nat)],
{
    match d {
        0 => {
            proof {
                reveal_strlit("0");
            }
            "0"
        },
        1 => {
            proof {
                reveal_strlit("1");
            }
            "1"
        },
        2 => {
            proof {
                reveal_strlit("2");
            }
            "2"
        },
        3 => {
            proof {
                reveal_strlit("3");
            }
            "3"
        },
        4 => {
            proof {
                reveal_strlit("4");
            }
            "4"
        },
        5 => {
            proof {
                reveal_strlit("5");
            }
            "5"
        },
        6 => {
            proof {
                reveal_strlit("6");
            }
            "6"
        },
        7 => {
            proof {
                reveal_strlit("7");
            }
            "7"
        },
        8 => {
            proof {
                reveal_strlit("8");
            }
            "8"
        },
        _ => {
            proof {
                reveal_strlit("9");
            }
            "9"
        },
    }
}

/// Appends the decimal digits of `n`.
pub fn push_decimal(output: &mut String, n: u128)
    ensures
        final(output)@ == old(output)@ + decimal(n as nat),
    decreases n,
{
    if n >= 10 {
        push_decimal(output, n / 10);
    }
    let d = (n % 10) as u8;
    output.append(digit_str(d));
    proof {
        if n >= 10 {
            assert(decimal(n as nat) == decimal((n / 10) as nat).push(digit_char((n % 10) as nat)));
        }
    }
}

/// The character of the hexadecimal digit `d`, below sixteen, in lower case.
pub open spec fn hex_char(d: nat) -> char {
    if d < 10 {
        (48 + d) as char
    } else {
        (87 + d) as char
    }
}

/// The hexadecimal digits of `n`, most significant first, with no leading
/// zero.
pub open spec fn hex(n: nat) -> Seq<char>
    decreases n,
{
    if n < 16 {
        seq![hex_char(n)]
    } else {
        hex(n / 16).push(hex_char(n % 16))
    }
}

/// The one-character string of the hexadecimal digit `d`.
fn hex_str(d: u8) -> (r: &'static str)
    requires
        d < 16,
    ensures
        r@ == seq![hex_char(d as nat)],
{
    if d < 10 {
        digit_str(d)
    } else if d == 10 {
        proof {
            reveal_strlit("a");
        }
        "a"
    } else if d == 11 {
        proof {
            reveal_strlit("b");
        }
        "b"
    } else if d == 12 {
        proof {
            reveal_strlit("c");
        }
        "c"
    } else if d == 13 {
        proof {
            reveal_strlit("d");
        }
        "d"
    } else if d == 14 {
        proof {
            reveal_strlit("e");
        }
        "e"
    } else {
        proof {
            reveal_strlit("f");
        }
        "f"
    }
}

/// Appends the hexadecimal digits of `n`.
pub fn push_hex(output: &mut String, n: u32)
    ensures
        final(output)@ == old(output)@ + hex(n as nat),
    decreases n,
{
    if n >= 16 {
        push_hex(output, n / 16);
    }
    let d = (n % 16) as u8;
    output.append(hex_str(d));
    proof {
        if n >= 16 {
            assert(hex(n as nat) == hex((n / 16) as nat).push(hex_char((n % 16) as nat)));
        }
    }
}

/// The `k` lowest hexadecimal digits of `n`, most significant first,
/// leading zeros included.
pub open spec fn hex_digits(n: nat, k: nat) -> Seq<char>
    decreases k,
{
    if k == 0 {
        Seq::empty()
    } else {
        hex_digits(n / 16, (k - 1) as nat).push(hex_char(n % 16))
    }
}

/// The identifier `n` as a UUID is written: its 32 hexadecimal digits in
/// lower case, in groups of 8, 4, 4, 4 and 12 joined by hyphens.
#[verifier::opaque]
pub open spec fn uuid_text(n: u128) -> Seq<char> {
    hex_digits(n as nat / 0x1_0000_0000_0000_0000_0000_0000, 8) + "-"@ + hex_digits(n as nat / 0x1_0000_0000_0000_0000_0000, 4) + "-"@
        + hex_digits(n as nat / 0x1_0000_0000_0000_0000, 4) + "-"@ + hex_digits(n as nat / 0x1_0000_0000_0000, 4) + "-"@
        + hex_digits(n as nat, 12)
}

/// Appends the `k` lowest hexadecimal digits of `n`, leading zeros
/// included.
fn push_hex_digits(output: &mut String, n: u128, k: usize)
    ensures
        final(output)@ == old(output)@ + hex_digits(n as nat, k as nat),
    decreases k,
{
    if k > 0 {
        push_hex_digits(output, n / 16, k - 1);
        let d = (n % 16) as u8;
        output.append(hex_str(d));
        proof {
            assert(hex_digits(n as nat, k as nat) == hex_digits((n / 16) as nat, (k - 1) as nat).push(hex_char((n % 16) as nat)));
        }
    } else {
        proof {
            assert(old(output)@ + hex_digits(n as nat, 0) =~= old(output)@);
        }
    }
}

/// Appends the identifier `n` as a UUID is written (see `uuid_text`).
pub fn push_uuid(output: &mut String, n: u128)
    ensures
        final(output)@ == old(output)@ + uuid_text(n),
{
    let ghost start = output@;
    push_hex_digits(output, n / 0x1_0000_0000_0000_0000_0000_0000, 8);
    output.append("-");
    push_hex_digits(output, n / 0x1_0000_0000_0000_0000_0000, 4);
    output.append("-");
    push_hex_digits(output, n / 0x1_0000_0000_0000_0000, 4);
    output.append("-");
    push_hex_digits(output, n / 0x1_0000_0000_0000, 4);
    output.append("-");
    push_hex_digits(output, n, 12);
    proof {
        reveal_strlit("-");
        reveal(uuid_text);
        assert(output@ =~= start + uuid_text(n));
    }
}

/// How a quoted Rust string shows the character `c`: a backslash before a
/// quote or a backslash, the short escapes of the null character, tab,
/// carriage return and line feed, `\u{..}` with the hexadecimal code of
/// any other control character of ASCII, and `c` itself otherwise.
pub open spec fn escape_char(c: char) -> Seq<char> {
    if c == '\0' {
        "\\0"@
    } else if c == '\t' {
        "\\t"@
    } else if c == '\r' {
        "\\r"@
    } else if c == '\n' {
        "\\n"@
    } else if c == '\\' {
        "\\\\"@
    } else if c == '"' {
        "\\\""@
    } else if (c as u32) < 32 || (c as u32) == 127 {
        "\\u{"@ + hex(c as u32 as nat) + "}"@
    } else {
        seq![c]
    }
}

/// The characters of `s`, each as a quoted Rust string shows it.
pub open spec fn escaped(s: Seq<char>) -> Seq<char>
    decreases s.len(),
{
    if s.len() == 0 {
        Seq::empty()
    } else {
        escaped(s.drop_last()) + escape_char(s.last())
    }
}

/// Appends the characters of `s`, each as a quoted Rust string shows it.
pub fn push_escaped(output: &mut String, s: &str)
    ensures
        final(output)@ == old(output)@ + escaped(s@),
{
    let n = s.unicode_len();
    let mut i: usize = 0;
    proof {
        assert(s@.take(0) =~= Seq::<char>::empty());
        assert(output@ =~= old(output)@ + escaped(s@.take(0)));
    }
    while i < n
        invariant
            n == s@.len(),
            i <= n,
            output@ == old(output)@ + escaped(s@.take(i as int)),
        decreases n - i,
    {
        let c = s.get_char(i);
        proof {
            assert(s@.take(i + 1).drop_last() =~= s@.take(i as int));
            assert(s@.take(i + 1).last() == c);
        }
        let ghost before = output@;
        if c == '\0' {
            output.append("\\0");
        } else if c == '\t' {
            output.append("\\t");
        } else if c == '\r' {
            output.append("\\r");
        } else if c == '\n' {
            output.append("\\n");
        } else if c == '\\' {
            output.append("\\\\");
        } else if c == '"' {
            output.append("\\\"");
        } else if (c as u32) < 32 || (c as u32) == 127 {
            output.append("\\u{");
            push_hex(output, c as u32);
            output.append("}");
        } else {
            output.append(s.substring_char(i, i + 1));
            proof {
                assert(s@.subrange(i as int, i + 1) =~= seq![c]);
            }
        }
        proof {
            assert(output@ =~= before + escape_char(c));
            assert(output@ =~= old(output)@ + escaped(s@.take(i + 1)));
        }
        i += 1;
    }
    proof {
        assert(s@.take(n as int) =~= s@);
    }
}

} // verus!
