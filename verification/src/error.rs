use vstd::prelude::*;
use vstd::string::StringExecFns;

verus! {

/// The closed set of decode failure kinds.
///
/// `InvalidList` is reserved: list decoding propagates an inner failure
/// unchanged, so nothing reachable reports it today.
#[derive(Debug, Clone, Copy, PartialEq, Eq)]
pub enum ErrorCode {
    UnexpectedCharacter,
    IntegerParseError,
    StringParseError,
    InvalidList,
    InvalidDictionary,
    UnexpectedEnd,
    DepthLimitExceeded,
}

/// The human-readable name of each failure kind.
pub open spec fn spec_code_name(code: ErrorCode) -> Seq<char> {
    match code {
        ErrorCode::UnexpectedCharacter => "Unexpected character"@,
        ErrorCode::IntegerParseError => "Integer parsing error"@,
        ErrorCode::StringParseError => "String parsing error"@,
        ErrorCode::InvalidList => "Invalid list"@,
        ErrorCode::InvalidDictionary => "Invalid dictionary"@,
        ErrorCode::UnexpectedEnd => "Unexpected end of input"@,
        ErrorCode::DepthLimitExceeded => "Depth limit exceeded"@,
    }
}

impl ErrorCode {
    pub fn to_string(&self) -> (r: String)
        ensures
            r@ == spec_code_name(*self),
    {
        match self {
            ErrorCode::UnexpectedCharacter => "Unexpected character".to_owned(),
            ErrorCode::IntegerParseError => "Integer parsing error".to_owned(),
            ErrorCode::StringParseError => "String parsing error".to_owned(),
            ErrorCode::InvalidList => "Invalid list".to_owned(),
            ErrorCode::InvalidDictionary => "Invalid dictionary".to_owned(),
            ErrorCode::UnexpectedEnd => "Unexpected end of input".to_owned(),
            ErrorCode::DepthLimitExceeded => "Depth limit exceeded".to_owned(),
        }
    }
}

/// The decimal digits of `n`, most significant first.
pub open spec fn spec_decimal(n: nat) -> Seq<char>
    decreases n,
{
    if n < 10 {
        seq![spec_digit_char(n)]
    } else {
        spec_decimal(n / 10).push(spec_digit_char(n % 10))
    }
}

pub open spec fn spec_digit_char(d: nat) -> char {
    if d == 0 {
        '0'
    } else if d == 1 {
        '1'
    } else if d == 2 {
        '2'
    } else if d == 3 {
        '3'
    } else if d == 4 {
        '4'
    } else if d == 5 {
        '5'
    } else if d == 6 {
        '6'
    } else if d == 7 {
        '7'
    } else if d == 8 {
        '8'
    } else {
        '9'
    }
}

fn digit_str(d: usize) -> (r: &'static str)
    requires
        d < 10,
    ensures
        r@ == seq![spec_digit_char(d as nat)],
{
    proof {
        reveal_strlit("0");
        reveal_strlit("1");
        reveal_strlit("2");
        reveal_strlit("3");
        reveal_strlit("4");
        reveal_strlit("5");
        reveal_strlit("6");
        reveal_strlit("7");
        reveal_strlit("8");
        reveal_strlit("9");
    }
    let r: &'static str = match d {
        0 => "0",
        1 => "1",
        2 => "2",
        3 => "3",
        4 => "4",
        5 => "5",
        6 => "6",
        7 => "7",
        8 => "8",
        _ => "9",
    };
    proof {
        assert(r@ =~= seq![spec_digit_char(d as nat)]);
    }
    r
}

/// Renders `n` in decimal, most significant digit first.
pub fn decimal_string(n: usize) -> (r: String)
    ensures
        r@ == spec_decimal(n as nat),
    decreases n,
{
    if n < 10 {
        digit_str(n).to_owned()
    } else {
        let mut s = decimal_string(n / 10);
        s.append(digit_str(n % 10));
        proof {
            assert(s@ =~= spec_decimal(n as nat));
        }
        s
    }
}

/// A decode failure: the kind of problem, the byte offset at which it was
/// detected, and a free-text description.
#[derive(Debug, Clone)]
pub struct Error {
    code: ErrorCode,
    position: usize,
    message: String,
}

impl Error {
    pub closed spec fn spec_code(&self) -> ErrorCode {
        self.code
    }

    pub closed spec fn spec_position(&self) -> int {
        self.position as int
    }

    pub closed spec fn spec_message(&self) -> Seq<char> {
        self.message@
    }

    pub fn new(code: ErrorCode, position: usize, message: String) -> (e: Error)
        ensures
            e.spec_code() == code,
            e.spec_position() == position as int,
            e.spec_message() == message@,
    {
        Error { code, position, message }
    }

    /// The formatted form: kind, position and message in one line.
    pub fn to_string(&self) -> (r: String)
        ensures
            r@ == spec_code_name(self.spec_code()) + ". Position: "@ + spec_decimal(
                self.spec_position() as nat,
            ) + ". Message: "@ + self.spec_message(),
    {
        let mut s = self.code.to_string();
        s.append(". Position: ");
        s.append(decimal_string(self.position).as_str());
        s.append(". Message: ");
        s.append(self.message.as_str());
        s
    }

    pub fn code(&self) -> (r: ErrorCode)
        ensures
            r == self.spec_code(),
    {
        self.code
    }

    pub fn position(&self) -> (r: usize)
        ensures
            r as int == self.spec_position(),
    {
        self.position
    }

    /// The free-text description alone.
    pub fn message(&self) -> (r: &str)
        ensures
            r@ == self.spec_message(),
    {
        self.message.as_str()
    }
}

} // verus!
