//! Errors answered to a single request.

use vstd::prelude::*;

use crate::lines::string_of;

verus! {

/// The server-defined error codes.
#[derive(Clone, Copy, Debug, PartialEq, Eq, Structural)]
pub enum Code {
    FileNotOpen,
    RustfmtFailed,
}

/// The number that stands for a code on the wire.
pub open spec fn code_number(c: Code) -> i64 {
    match c {
        Code::FileNotOpen => 1,
        Code::RustfmtFailed => 2,
    }
}

impl Code {
    /// The number that stands for this code on the wire.
    pub fn number(self) -> (n: i64)
        ensures
            n == code_number(self),
    {
        match self {
            Code::FileNotOpen => 1,
            Code::RustfmtFailed => 2,
        }
    }
}

/// A failure of one request; the server goes on.
#[derive(Clone, Copy, Debug, PartialEq, Eq, Structural)]
pub enum RequestError {
    /// The request names a document that is not open.
    FileNotOpen,
    /// The formatter exited with this status (`None`: killed by a signal).
    FormatterFailed(Option<i32>),
}

impl RequestError {
    /// The text this error is answered with.
    pub fn message(&self) -> (m: String)
        ensures
            m@ == error_message(*self),
    {
        match self {
            RequestError::FileNotOpen => String::from_str("file not open"),
            RequestError::FormatterFailed(Some(status)) => {
                let mut m = String::from_str("rustfmt failed with status ");
                m.append(decimal_string(*status).as_str());
                m
            },
            RequestError::FormatterFailed(None) => String::from_str(
                "rustfmt was terminated by a signal",
            ),
        }
    }

    /// The code this error is answered with.
    pub fn code(&self) -> (c: Code)
        ensures
            c == (match *self {
                RequestError::FileNotOpen => Code::FileNotOpen,
                RequestError::FormatterFailed(_) => Code::RustfmtFailed,
            }),
    {
        match self {
            RequestError::FileNotOpen => Code::FileNotOpen,
            RequestError::FormatterFailed(_) => Code::RustfmtFailed,
        }
    }
}

/// The decimal digit for `d`.
pub open spec fn digit_char(d: int) -> char {
    if d == 0 {
        '0'
    } else if d == 1 {
        '1'
    } else if d == 2 {
        '2'
    } else if d == 3 {
        '3'
    } else if d == 4 {
        '4'
    } else if d == 5 {
        '5'
    } else if d == 6 {
        '6'
    } else if d == 7 {
        '7'
    } else if d == 8 {
        '8'
    } else {
        '9'
    }
}

/// The decimal digits of `n`, without leading zeros.
pub open spec fn digits(n: nat) -> Seq<char>
    decreases n,
{
    if n < 10 {
        seq![digit_char(n as int)]
    } else {
        digits(n / 10).push(digit_char((n % 10) as int))
    }
}

/// `n` written in decimal, with a minus sign when negative.
pub open spec fn decimal(n: int) -> Seq<char> {
    if n < 0 {
        seq!['-'] + digits((-n) as nat)
    } else {
        digits(n as nat)
    }
}

/// The text an error is answered with.
pub open spec fn error_message(e: RequestError) -> Seq<char> {
    match e {
        RequestError::FileNotOpen => "file not open"@,
        RequestError::FormatterFailed(Some(status)) => "rustfmt failed with status "@ + decimal(
            status as int,
        ),
        RequestError::FormatterFailed(None) => "rustfmt was terminated by a signal"@,
    }
}

fn digit_of(d: u64) -> (c: char)
    requires
        d < 10,
    ensures
        c == digit_char(d as int),
{
    match d {
        0 => '0',
        1 => '1',
        2 => '2',
        3 => '3',
        4 => '4',
        5 => '5',
        6 => '6',
        7 => '7',
        8 => '8',
        _ => '9',
    }
}

/// Appends the digits of `n` to `out`.
fn push_digits(n: u64, out: &mut Vec<char>)
    ensures
        final(out)@ == old(out)@ + digits(n as nat),
    decreases n,
{
    if n < 10 {
        out.push(digit_of(n));
    } else {
        push_digits(n / 10, out);
        out.push(digit_of(n % 10));
        proof {
            assert(old(out)@ + digits((n / 10) as nat) + seq![digit_char((n % 10) as int)]
                =~= old(out)@ + digits(n as nat));
        }
    }
}

/// `n` written in decimal.
pub fn decimal_string(n: i32) -> (s: String)
    ensures
        s@ == decimal(n as int),
{
    let mut cs: Vec<char> = Vec::new();
    if n < 0 {
        cs.push('-');
        let m: i64 = -(n as i64);
        push_digits(m as u64, &mut cs);
    } else {
        push_digits(n as u64, &mut cs);
        assert(cs@ =~= decimal(n as int));
    }
    string_of(cs.as_slice())
}

/// The error for a formatter that exited with `status`.
pub fn rustfmt_failed(status: Option<i32>) -> (e: RequestError)
    ensures
        e == RequestError::FormatterFailed(status),
{
    RequestError::FormatterFailed(status)
}

} // verus!
