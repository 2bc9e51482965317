use vstd::prelude::*;

verus! {

pub const ONE_MINUTE: u64 = 60;

pub const ONE_HOUR: u64 = 3600;

pub const ONE_DAY: u64 = 86400;

/// The decimal digit `d` as a character.
pub open spec fn digit_char(d: nat) -> char {
    if d == 0 {
        '0'
    } else if d == 1 {
        '1'
    } else if d == 2 {
        '2'
    } else if d == 3 {
        '3'
    } else if d == 4 {
        '4'
    } else if d == 5 {
        '5'
    } else if d == 6 {
        '6'
    } else if d == 7 {
        '7'
    } else if d == 8 {
        '8'
    } else {
        '9'
    }
}

/// `n` in decimal, without leading zeros.
pub open spec fn decimal(n: nat) -> Seq<char>
    decreases n,
{
    if n < 10 {
        seq![digit_char(n)]
    } else {
        decimal(n / 10).push(digit_char(n % 10))
    }
}

/// `n` in decimal, padded with a leading zero to at least two digits.
pub open spec fn two_digits(n: nat) -> Seq<char> {
    if n < 10 {
        seq!['0'] + decimal(n)
    } else {
        decimal(n)
    }
}

/// `h:mm:ss`-style clock of a number of seconds below one day.
pub open spec fn clock(t: nat) -> Seq<char> {
    two_digits(t / 3600) + seq![':'] + two_digits((t / 60) % 60) + seq![':'] + two_digits(t % 60)
}

/// A duration in seconds as `HH:MM:SS`, prefixed by `Nd ` from one day on.
pub open spec fn time_text(t: nat) -> Seq<char> {
    if t < 86400 {
        clock(t)
    } else {
        decimal(t / 86400) + seq!['d', ' '] + clock(t % 86400)
    }
}

/// Relies on String::push: appends the character to the string.
#[verifier::external_body]
pub(crate) fn push_char(s: &mut String, c: char)
    ensures
        final(s)@ == old(s)@.push(c),
{
    s.push(c);
}

fn digit(d: u64) -> (c: char)
    requires
        d < 10,
    ensures
        c == digit_char(d as nat),
{
    if d == 0 {
        '0'
    } else if d == 1 {
        '1'
    } else if d == 2 {
        '2'
    } else if d == 3 {
        '3'
    } else if d == 4 {
        '4'
    } else if d == 5 {
        '5'
    } else if d == 6 {
        '6'
    } else if d == 7 {
        '7'
    } else if d == 8 {
        '8'
    } else {
        '9'
    }
}

pub(crate) fn push_decimal(s: &mut String, n: u64)
    ensures
        final(s)@ == old(s)@ + decimal(n as nat),
    decreases n,
{
    if n >= 10 {
        push_decimal(s, n / 10);
    }
    push_char(s, digit(n % 10));
    proof {
        if n >= 10 {
            assert(old(s)@ + decimal(n as nat) =~= old(s)@ + decimal((n / 10) as nat) + seq![
                digit_char((n % 10) as nat),
            ]);
        } else {
            assert(n % 10 == n);
        }
    }
}

fn push_two_digits(s: &mut String, n: u64)
    ensures
        final(s)@ == old(s)@ + two_digits(n as nat),
{
    if n < 10 {
        push_char(s, '0');
    }
    push_decimal(s, n);
    proof {
        if n < 10 {
            assert(old(s)@ + two_digits(n as nat) =~= old(s)@.push('0') + decimal(n as nat));
        }
    }
}

fn push_clock(s: &mut String, t: u64)
    ensures
        final(s)@ == old(s)@ + clock(t as nat),
{
    push_two_digits(s, t / ONE_HOUR);
    push_char(s, ':');
    push_two_digits(s, (t / ONE_MINUTE) % ONE_MINUTE);
    push_char(s, ':');
    push_two_digits(s, t % ONE_MINUTE);
    proof {
        assert(final(s)@ =~= old(s)@ + clock(t as nat));
    }
}

/// Formats a duration given in seconds: `HH:MM:SS` below one day, and
/// `Nd HH:MM:SS` from one day on.
pub fn format_time(time: u64) -> (r: String)
    ensures
        r@ == time_text(time as nat),
{
    let mut s = String::new();
    if time < ONE_DAY {
        push_clock(&mut s, time);
    } else {
        push_decimal(&mut s, time / ONE_DAY);
        push_char(&mut s, 'd');
        push_char(&mut s, ' ');
        push_clock(&mut s, time % ONE_DAY);
    }
    proof {
        assert(s@ =~= time_text(time as nat));
    }
    s
}

} // verus!
