use vstd::prelude::*;
use vstd::string::StringExecFns;

verus! {

/// Errors of graph loading, building and routing.
///
/// Errors that come from outside libraries (file system, XML and PBF readers,
/// JSON, bincode) carry the outside error's message.
#[derive(Debug, Clone, PartialEq, Eq)]
pub enum GraphError {
    FileIO(String),
    XmlParsing(String),
    PbfParsing(String),
    DownloadError(String),
    JsonError(String),
    OverpassError(String),
    InvalidOsmData(String),
    GraphNotFound(i32),
    ProfileNotFound(String),
    RoutingError(String),
    Bincode(String),
}

/// An owned copy of a string slice.
pub fn owned(s: &str) -> (r: String)
    ensures
        r@ == s@,
{
    s.to_owned()
}

/// The decimal digit `d`.
pub open spec fn digit_char(d: int) -> char {
    ('0' as int + d) as char
}

/// The decimal digits of `n`, most significant first, without leading zeros.
pub open spec fn digits_text(n: nat) -> Seq<char>
    decreases n,
{
    if n < 10 {
        seq![digit_char(n as int)]
    } else {
        digits_text(n / 10) + seq![digit_char((n % 10) as int)]
    }
}

/// `x` in decimal, with a minus sign when it is negative, as `Display` writes
/// an integer.
pub open spec fn decimal_text(x: int) -> Seq<char> {
    if x < 0 {
        seq!['-'] + digits_text((-x) as nat)
    } else {
        digits_text(x as nat)
    }
}

/// A message with a number between two pieces of text.
pub open spec fn numbered_message(prefix: Seq<char>, id: i64, suffix: Seq<char>) -> Seq<char> {
    prefix + decimal_text(id as int) + suffix
}

/// Appends the decimal digit `d`.
fn push_digit(s: &mut String, d: u64)
    requires
        d < 10,
    ensures
        final(s)@ == old(s)@.push(digit_char(d as int)),
{
    proof {
        reveal_strlit("0");
        reveal_strlit("1");
        reveal_strlit("2");
        reveal_strlit("3");
        reveal_strlit("4");
        reveal_strlit("5");
        reveal_strlit("6");
        reveal_strlit("7");
        reveal_strlit("8");
        reveal_strlit("9");
    }
    let piece = if d == 0 {
        "0"
    } else if d == 1 {
        "1"
    } else if d == 2 {
        "2"
    } else if d == 3 {
        "3"
    } else if d == 4 {
        "4"
    } else if d == 5 {
        "5"
    } else if d == 6 {
        "6"
    } else if d == 7 {
        "7"
    } else if d == 8 {
        "8"
    } else {
        "9"
    };
    assert(piece@ == seq![digit_char(d as int)]);
    s.append(piece);
}

/// Appends the decimal digits of `n`.
fn push_digits(s: &mut String, n: u64)
    ensures
        final(s)@ == old(s)@ + digits_text(n as nat),
    decreases n,
{
    if n >= 10 {
        push_digits(s, n / 10);
    }
    push_digit(s, n % 10);
    proof {
        if n >= 10 {
            assert(old(s)@ + digits_text((n / 10) as nat) + seq![digit_char((n % 10) as int)] =~= old(s)@
                + digits_text(n as nat));
        } else {
            assert(old(s)@.push(digit_char((n % 10) as int)) =~= old(s)@ + digits_text(n as nat));
        }
    }
}

/// `prefix`, the decimal form of `id` and `suffix`, as `format!` writes them.
pub(crate) fn numbered(prefix: &str, id: i64, suffix: &str) -> (r: String)
    ensures
        r@ == numbered_message(prefix@, id, suffix@),
{
    let mut s = prefix.to_owned();
    if id < 0 {
        proof {
            reveal_strlit("-");
        }
        s.append("-");
        let magnitude: u64 = (-(id + 1)) as u64 + 1;
        assert(magnitude == -(id as int));
        push_digits(&mut s, magnitude);
    } else {
        push_digits(&mut s, id as u64);
    }
    s.append(suffix);
    proof {
        assert(s@ =~= numbered_message(prefix@, id, suffix@));
    }
    s
}

} // verus!
