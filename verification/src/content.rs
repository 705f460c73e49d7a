//! Rendering of stored payloads as text, used by the tree rendering when it
//! is asked to show contents.

use vstd::prelude::*;

use crate::chars::push_char;

verus! {

/// The character for a single decimal digit.
pub open spec fn digit_char(d: nat) -> char {
    if d == 0 {
        '0'
    } else if d == 1 {
        '1'
    } else if d == 2 {
        '2'
    } else if d == 3 {
        '3'
    } else if d == 4 {
        '4'
    } else if d == 5 {
        '5'
    } else if d == 6 {
        '6'
    } else if d == 7 {
        '7'
    } else if d == 8 {
        '8'
    } else {
        '9'
    }
}

/// The decimal digits of `n`, most significant first.
pub open spec fn dec_digits(n: nat) -> Seq<char>
    decreases n,
{
    if n < 10 {
        seq![digit_char(n)]
    } else {
        dec_digits(n / 10).push(digit_char(n % 10))
    }
}

/// A payload that can be rendered as text.
pub trait Content {
    /// The text this value renders to.
    spec fn render_spec(&self) -> Seq<char>;

    /// Renders the value.
    fn render(&self) -> (r: String)
        ensures
            r@ == self.render_spec(),
    ;
}

/// The character for a single decimal digit.
fn digit_char_exec(d: u8) -> (r: char)
    requires
        d < 10,
    ensures
        r == digit_char(d as nat),
{
    match d {
        0 => '0',
        1 => '1',
        2 => '2',
        3 => '3',
        4 => '4',
        5 => '5',
        6 => '6',
        7 => '7',
        8 => '8',
        _ => '9',
    }
}

/// Appends the decimal rendering of `n` to `s`.
fn push_decimal(s: &mut String, n: u64)
    ensures
        final(s)@ == old(s)@ + dec_digits(n as nat),
    decreases n,
{
    if n >= 10 {
        push_decimal(s, n / 10);
    }
    let d = (n % 10) as u8;
    push_char(s, digit_char_exec(d));
    proof {
        if n < 10 {
            assert(old(s)@.push(digit_char(n as nat)) =~= old(s)@ + seq![
                digit_char(n as nat),
            ]);
        } else {
            assert((old(s)@ + dec_digits(n as nat / 10)).push(digit_char(n as nat % 10)) =~= old(
                s,
            )@ + dec_digits(n as nat / 10).push(digit_char(n as nat % 10)));
        }
    }
}

/// The decimal rendering of `n`.
fn decimal_string(n: u64) -> (r: String)
    ensures
        r@ == dec_digits(n as nat),
{
    let mut r = String::new();
    push_decimal(&mut r, n);
    proof {
        assert(Seq::<char>::empty() + dec_digits(n as nat) =~= dec_digits(n as nat));
    }
    r
}

impl Content for u64 {
    open spec fn render_spec(&self) -> Seq<char> {
        dec_digits(*self as nat)
    }

    fn render(&self) -> (r: String) {
        decimal_string(*self)
    }
}

impl Content for u32 {
    open spec fn render_spec(&self) -> Seq<char> {
        dec_digits(*self as nat)
    }

    fn render(&self) -> (r: String) {
        decimal_string(*self as u64)
    }
}

impl Content for u8 {
    open spec fn render_spec(&self) -> Seq<char> {
        dec_digits(*self as nat)
    }

    fn render(&self) -> (r: String) {
        decimal_string(*self as u64)
    }
}

impl Content for i32 {
    open spec fn render_spec(&self) -> Seq<char> {
        if *self < 0 {
            seq!['-'] + dec_digits((0 - *self as int) as nat)
        } else {
            dec_digits(*self as nat)
        }
    }

    fn render(&self) -> (r: String) {
        if *self < 0 {
            let mut r = String::new();
            push_char(&mut r, '-');
            let magnitude = (0i64 - (*self as i64)) as u64;
            push_decimal(&mut r, magnitude);
            proof {
                assert(Seq::<char>::empty().push('-') + dec_digits(magnitude as nat) =~= seq!['-']
                    + dec_digits((0 - *self as int) as nat));
            }
            r
        } else {
            decimal_string(*self as u64)
        }
    }
}

} // verus!
