//! Field-level text operations and their mathematical models.

use vstd::prelude::*;

verus! {

/// Lexicographic order on character sequences, comparing code points.
pub open spec fn seq_le(a: Seq<char>, b: Seq<char>) -> bool
    decreases a.len(),
{
    if a.len() == 0 {
        true
    } else if b.len() == 0 {
        false
    } else if (a[0] as u32) < (b[0] as u32) {
        true
    } else if (a[0] as u32) > (b[0] as u32) {
        false
    } else {
        seq_le(a.drop_first(), b.drop_first())
    }
}

/// Any two sequences are comparable.
pub proof fn lemma_seq_le_total(a: Seq<char>, b: Seq<char>)
    ensures
        seq_le(a, b) || seq_le(b, a),
    decreases a.len(),
{
    if a.len() > 0 && b.len() > 0 && a[0] as u32 == b[0] as u32 {
        lemma_seq_le_total(a.drop_first(), b.drop_first());
    }
}

/// The field with leading and trailing whitespace removed, as `str::trim` gives it.
pub uninterp spec fn trimmed(s: Seq<char>) -> Seq<char>;

/// The upper-case form of a text, as `str::to_uppercase` gives it.
pub uninterp spec fn upper_of(s: Seq<char>) -> Seq<char>;

/// Relies on `str::trim`: the text without leading and trailing whitespace,
/// which depends on the text alone.
#[verifier::external_body]
pub(crate) fn trim(s: &str) -> (r: &str)
    ensures
        r@ == trimmed(s@),
{
    s.trim()
}

/// Relies on `str::to_uppercase`: the Unicode upper-case mapping, which
/// depends on the text alone.
#[verifier::external_body]
pub(crate) fn to_upper(s: &str) -> (r: String)
    ensures
        r@ == upper_of(s@),
{
    s.to_uppercase()
}

/// Relies on the order of `str`: lexicographic by bytes, which orders the
/// characters by code point.
#[verifier::external_body]
pub(crate) fn str_le(a: &str, b: &str) -> (r: bool)
    ensures
        r == seq_le(a@, b@),
{
    a <= b
}

/// The value, low and high parts that the tooltip pattern
/// `([-.\d]+)\s*\[([-.\d]+)\s*-([-.\d]+)]` captures in the leftmost match
/// within a text, if it matches anywhere.
pub uninterp spec fn tooltip_match(s: Seq<char>) -> Option<(Seq<char>, Seq<char>, Seq<char>)>;

pub open spec fn captures_view(r: Option<(String, String, String)>) -> Option<
    (Seq<char>, Seq<char>, Seq<char>),
> {
    match r {
        Some((a, b, c)) => Some((a@, b@, c@)),
        None => None,
    }
}

/// Relies on `regex::Regex::new` for the tooltip pattern, which is valid, and
/// on `Regex::captures`, whose three groups take part in every match.
#[verifier::external_body]
pub(crate) fn tooltip_captures(s: &str) -> (r: Option<(String, String, String)>)
    ensures
        captures_view(r) == tooltip_match(s@),
{
    let re = regex::Regex::new(r"([-.\d]+)\s*\[([-.\d]+)\s*-([-.\d]+)]").ok()?;
    let caps = re.captures(s)?;
    Some((caps[1].to_string(), caps[2].to_string(), caps[3].to_string()))
}

pub open spec fn digit_char(d: int) -> char {
    ('0' as int + d) as char
}

/// Decimal digits of a natural number, most significant first.
pub open spec fn nat_digits(n: nat) -> Seq<char>
    decreases n,
{
    if n < 10 {
        seq![digit_char(n as int)]
    } else {
        nat_digits(n / 10).push(digit_char((n % 10) as int))
    }
}

/// Decimal text of an integer, with a leading `-` when it is negative.
pub open spec fn decimal(n: int) -> Seq<char> {
    if n < 0 {
        seq!['-'] + nat_digits((-n) as nat)
    } else {
        nat_digits(n as nat)
    }
}

/// Relies on `i32`'s `Display`, through `ToString`: plain decimal notation.
#[verifier::external_body]
pub(crate) fn year_text(y: i32) -> (r: String)
    ensures
        r@ == decimal(y as int),
{
    y.to_string()
}

} // verus!
