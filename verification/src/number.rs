//! Port numbers as text: reading one, and writing one.

use crate::error::Error;
use vstd::prelude::*;

verus! {

/// The decimal digits.
pub open spec fn is_digit(c: char) -> bool {
    0x30 <= c as u32 <= 0x39
}

/// The value of a decimal digit.
pub open spec fn digit_value(c: char) -> nat {
    (c as u32 - 0x30) as nat
}

/// The digit that stands for a value below ten.
pub open spec fn digit_char(d: nat) -> char {
    ((0x30 + d) as u8) as char
}

/// The largest port number.
pub open spec fn max_port() -> nat {
    0xFFFF
}

/// Reads `s` as decimal digits onto `acc`, left to right. The first
/// character that is no digit, or with which the number leaves the range of
/// a port, ends the reading with its reason.
pub open spec fn read_digits(s: Seq<char>, acc: nat) -> Result<nat, Seq<char>>
    decreases s.len(),
{
    if s.len() == 0 {
        Ok(acc)
    } else if !is_digit(s[0]) {
        Err("invalid digit found in string"@)
    } else if acc * 10 + digit_value(s[0]) > max_port() {
        Err("number too large to fit in target type"@)
    } else {
        read_digits(s.drop_first(), acc * 10 + digit_value(s[0]))
    }
}

/// The port that `s` writes: an optional `+`, then one or more decimal
/// digits whose number is at most 65535.
pub open spec fn parse_port(s: Seq<char>) -> Result<nat, Seq<char>> {
    if s.len() == 0 {
        Err("cannot parse integer from empty string"@)
    } else {
        let digits = if s[0] == '+' {
            s.drop_first()
        } else {
            s
        };
        if digits.len() == 0 {
            Err("invalid digit found in string"@)
        } else {
            read_digits(digits, 0)
        }
    }
}

/// `n` in decimal digits, without leading zeros.
pub open spec fn decimal(n: nat) -> Seq<char>
    decreases n,
{
    if n < 10 {
        seq![digit_char(n)]
    } else {
        decimal(n / 10).push(digit_char(n % 10))
    }
}

/// Reading goes on where it stopped: digits read onto `acc` and then `c`.
proof fn lemma_read_digits_push(s: Seq<char>, c: char, acc: nat)
    requires
        is_digit(c),
    ensures
        read_digits(s.push(c), acc) == match read_digits(s, acc) {
            Ok(v) => if v * 10 + digit_value(c) > max_port() {
                Err("number too large to fit in target type"@)
            } else {
                Ok(v * 10 + digit_value(c))
            },
            Err(m) => Err(m),
        },
    decreases s.len(),
{
    let t = s.push(c);
    if s.len() == 0 {
        assert(t.drop_first() =~= s);
        assert(t[0] == c);
        assert(read_digits(s, acc) == Ok::<nat, Seq<char>>(acc));
        let v = acc * 10 + digit_value(c);
        assert(read_digits(t.drop_first(), v) == Ok::<nat, Seq<char>>(v));
    } else {
        assert(t.drop_first() =~= s.drop_first().push(c));
        assert(t[0] == s[0]);
        if is_digit(s[0]) && acc * 10 + digit_value(s[0]) <= max_port() {
            lemma_read_digits_push(s.drop_first(), c, acc * 10 + digit_value(s[0]));
        }
    }
}

/// A port that is written in decimal reads back as itself: what the bind
/// name of a listener says of its port is the port.
pub proof fn law_decimal_reads_back(n: nat)
    requires
        n <= max_port(),
    ensures
        read_digits(decimal(n), 0) == Ok::<nat, Seq<char>>(n),
        parse_port(decimal(n)) == Ok::<nat, Seq<char>>(n),
        decimal(n).len() > 0,
        forall|i: int| 0 <= i < decimal(n).len() ==> is_digit(#[trigger] decimal(n)[i]),
    decreases n,
{
    if n < 10 {
        let s = seq![digit_char(n)];
        assert(s.drop_first() =~= Seq::<char>::empty());
        assert(read_digits(s.drop_first(), n) == Ok::<nat, Seq<char>>(n));
        assert(digit_value(s[0]) == n);
    } else {
        law_decimal_reads_back(n / 10);
        lemma_read_digits_push(decimal(n / 10), digit_char(n % 10), 0);
        assert(digit_value(digit_char(n % 10)) == n % 10);
    }
    assert(decimal(n)[0] != '+');
}

/// Reads a port number.
pub fn port_of(s: &[char]) -> (r: Result<u16, Error>)
    ensures
        match parse_port(s@) {
            Ok(v) => v <= max_port() && r == Ok::<u16, Error>(v as u16),
            Err(m) => r matches Err(e) && e@ == m,
        },
{
    if s.len() == 0 {
        return Err(Error::new("cannot parse integer from empty string"));
    }
    let start: usize = if s[0] == '+' {
        1
    } else {
        0
    };
    if start == s.len() {
        return Err(Error::new("invalid digit found in string"));
    }
    let ghost digits = s@.skip(start as int);
    assert(digits =~= if s@[0] == '+' {
        s@.drop_first()
    } else {
        s@
    });
    let mut acc: u32 = 0;
    let mut i: usize = start;
    assert(digits.skip(0) =~= digits);
    while i < s.len()
        invariant
            start <= i <= s@.len(),
            digits == s@.skip(start as int),
            acc <= max_port(),
            parse_port(s@) == read_digits(digits, 0),
            read_digits(digits, 0) == read_digits(digits.skip(i - start), acc as nat),
        decreases s@.len() - i,
    {
        let c = s[i];
        let n: u32 = c as u32;
        assert(digits.skip(i - start)[0] == c);
        assert(digits.skip(i - start).drop_first() =~= digits.skip(i + 1 - start));
        if n < 0x30 || n > 0x39 {
            return Err(Error::new("invalid digit found in string"));
        }
        let next: u32 = acc * 10 + (n - 0x30);
        if next > 0xFFFF {
            return Err(Error::new("number too large to fit in target type"));
        }
        acc = next;
        i += 1;
    }
    Ok(acc as u16)
}

/// Appends `n` in decimal to `out`.
pub fn push_decimal(out: &mut Vec<char>, n: u16)
    ensures
        final(out)@ == old(out)@ + decimal(n as nat),
    decreases n,
{
    if n >= 10 {
        push_decimal(out, n / 10);
    }
    let d: u8 = (n % 10) as u8;
    out.push((0x30 + d) as char);
    proof {
        if n < 10 {
            assert(old(out)@.push(digit_char(n as nat)) =~= old(out)@ + decimal(n as nat));
        } else {
            assert((old(out)@ + decimal((n / 10) as nat)).push(digit_char((n % 10) as nat))
                =~= old(out)@ + decimal(n as nat));
        }
    }
}

} // verus!
