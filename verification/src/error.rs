//! Why a document is rejected.

use vstd::prelude::*;
use vstd::string::*;

verus! {

/// The ways in which reading a document can fail.
#[derive(Debug, PartialEq, Eq)]
pub enum Error {
    /// The text does not follow the grammar; the offset, counted in characters,
    /// of the first character that cannot be accepted.
    Syntax(usize),
    /// An object holds the same key twice.
    DuplicateKey(String),
    /// A placeholder stands inside an object key.
    ReferenceInKey,
    /// The text of a boolean or a number is not a literal of that kind.
    Literal(String),
    /// The four digits of a `\u` escape name no Unicode scalar value.
    InvalidUnicode(String),
    /// A placeholder's target names a key that its object does not have.
    NotFound { target: String, missing_segment: String },
    /// A placeholder's target leads into an array.
    ArrayReference { target: String, segment: String },
    /// The path of a string that holds placeholders cannot be walked again.
    UnknownKey(String),
    /// The string that holds a placeholder, or the value that the placeholder
    /// stands for, is not a string.
    UnsupportedSubstitution,
}

/// An [`Error`] as contracts speak of it: its texts are sequences of characters.
pub enum Fault {
    Syntax(int),
    DuplicateKey(Seq<char>),
    ReferenceInKey,
    Literal(Seq<char>),
    InvalidUnicode(Seq<char>),
    NotFound { target: Seq<char>, missing_segment: Seq<char> },
    ArrayReference { target: Seq<char>, segment: Seq<char> },
    UnknownKey(Seq<char>),
    UnsupportedSubstitution,
}

impl View for Error {
    type V = Fault;

    open spec fn view(&self) -> Fault {
        match self {
            Error::Syntax(at) => Fault::Syntax(*at as int),
            Error::DuplicateKey(key) => Fault::DuplicateKey(key@),
            Error::ReferenceInKey => Fault::ReferenceInKey,
            Error::Literal(text) => Fault::Literal(text@),
            Error::InvalidUnicode(text) => Fault::InvalidUnicode(text@),
            Error::NotFound { target, missing_segment } => Fault::NotFound {
                target: target@,
                missing_segment: missing_segment@,
            },
            Error::ArrayReference { target, segment } => Fault::ArrayReference {
                target: target@,
                segment: segment@,
            },
            Error::UnknownKey(segment) => Fault::UnknownKey(segment@),
            Error::UnsupportedSubstitution => Fault::UnsupportedSubstitution,
        }
    }
}

/// The character of a decimal digit.
pub open spec fn digit_char(d: int) -> char {
    if d == 0 {
        '0'
    } else if d == 1 {
        '1'
    } else if d == 2 {
        '2'
    } else if d == 3 {
        '3'
    } else if d == 4 {
        '4'
    } else if d == 5 {
        '5'
    } else if d == 6 {
        '6'
    } else if d == 7 {
        '7'
    } else if d == 8 {
        '8'
    } else {
        '9'
    }
}

/// `n` written in decimal digits.
pub open spec fn decimal(n: int) -> Seq<char>
    decreases n,
{
    if n < 10 {
        seq![digit_char(n)]
    } else {
        decimal(n / 10).push(digit_char(n % 10))
    }
}

impl Fault {
    /// The fault in words.
    pub open spec fn message(self) -> Seq<char> {
        match self {
            Fault::Syntax(at) => "The text does not follow the grammar at offset "@ + decimal(at),
            Fault::DuplicateKey(key) => "Object already contains key: "@ + key,
            Fault::ReferenceInKey => "References are not allowed inside of keys"@,
            Fault::Literal(text) => "Not a literal: "@ + text,
            Fault::InvalidUnicode(text) => "unknown unicode "@ + text,
            Fault::NotFound { target, missing_segment } => "No data was found in: "@ + target
                + " at "@ + missing_segment,
            Fault::ArrayReference { target, segment } =>
                "Referencing arrays are not supported, failed at key: "@ + segment,
            Fault::UnknownKey(segment) => "unknown reference key "@ + segment,
            Fault::UnsupportedSubstitution => "only string references have been implemented"@,
        }
    }
}

/// Appends `n`, written in decimal digits, to `out`.
fn push_decimal(out: &mut String, n: usize)
    ensures
        final(out)@ == old(out)@ + decimal(n as int),
    decreases n,
{
    if n >= 10 {
        push_decimal(out, n / 10);
    }
    let d = n % 10;
    let c = if d == 0 {
        '0'
    } else if d == 1 {
        '1'
    } else if d == 2 {
        '2'
    } else if d == 3 {
        '3'
    } else if d == 4 {
        '4'
    } else if d == 5 {
        '5'
    } else if d == 6 {
        '6'
    } else if d == 7 {
        '7'
    } else if d == 8 {
        '8'
    } else {
        '9'
    };
    let ghost before = out@;
    out.push(c);
    proof {
        if n >= 10 {
            assert(before.push(c) == old(out)@ + decimal(n as int / 10).push(c));
        } else {
            assert(before.push(c) == old(out)@ + seq![c]);
        }
    }
}

impl Error {
    /// The error in words.
    pub fn message(&self) -> (r: String)
        ensures
            r@ == self@.message(),
    {
        match self {
            Error::Syntax(at) => {
                let mut out = String::from_str("The text does not follow the grammar at offset ");
                push_decimal(&mut out, *at);
                out
            },
            Error::DuplicateKey(key) => String::from_str("Object already contains key: ").concat(
                key.as_str(),
            ),
            Error::ReferenceInKey => String::from_str("References are not allowed inside of keys"),
            Error::Literal(text) => String::from_str("Not a literal: ").concat(text.as_str()),
            Error::InvalidUnicode(text) => String::from_str("unknown unicode ").concat(
                text.as_str(),
            ),
            Error::NotFound { target, missing_segment } => String::from_str(
                "No data was found in: ",
            ).concat(target.as_str()).concat(" at ").concat(missing_segment.as_str()),
            Error::ArrayReference { target, segment } => String::from_str(
                "Referencing arrays are not supported, failed at key: ",
            ).concat(segment.as_str()),
            Error::UnknownKey(segment) => String::from_str("unknown reference key ").concat(
                segment.as_str(),
            ),
            Error::UnsupportedSubstitution => String::from_str(
                "only string references have been implemented",
            ),
        }
    }
}

impl Clone for Error {
    fn clone(&self) -> (r: Error)
        ensures
            r@ == self@,
    {
        match self {
            Error::Syntax(at) => Error::Syntax(*at),
            Error::DuplicateKey(key) => Error::DuplicateKey(key.clone()),
            Error::ReferenceInKey => Error::ReferenceInKey,
            Error::Literal(text) => Error::Literal(text.clone()),
            Error::InvalidUnicode(text) => Error::InvalidUnicode(text.clone()),
            Error::NotFound { target, missing_segment } => Error::NotFound {
                target: target.clone(),
                missing_segment: missing_segment.clone(),
            },
            Error::ArrayReference { target, segment } => Error::ArrayReference {
                target: target.clone(),
                segment: segment.clone(),
            },
            Error::UnknownKey(segment) => Error::UnknownKey(segment.clone()),
            Error::UnsupportedSubstitution => Error::UnsupportedSubstitution,
        }
    }
}

} // verus!
