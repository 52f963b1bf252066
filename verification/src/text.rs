//! Pieces of text that generated code is made of.

use vstd::prelude::*;
use vstd::string::StringExecFns;
use regex::Regex;
use typename::TypeName;

verus! {

/// The character of digit `d`.
pub open spec fn digit_char(d: nat) -> char {
    if d == 0 {
        '0'
    } else if d == 1 {
        '1'
    } else if d == 2 {
        '2'
    } else if d == 3 {
        '3'
    } else if d == 4 {
        '4'
    } else if d == 5 {
        '5'
    } else if d == 6 {
        '6'
    } else if d == 7 {
        '7'
    } else if d == 8 {
        '8'
    } else {
        '9'
    }
}

/// The decimal numeral of `n`, without sign or leading zeros.
pub open spec fn decimal_text(n: nat) -> Seq<char>
    decreases n,
{
    if n < 10 {
        seq![digit_char(n)]
    } else {
        decimal_text(n / 10).push(digit_char(n % 10))
    }
}

/// The numeral of one digit.
fn digit_str(d: u32) -> (r: &'static str)
    requires
        d < 10,
    ensures
        r@ == seq![digit_char(d as nat)],
{
    proof {
        reveal_strlit("0");
        reveal_strlit("1");
        reveal_strlit("2");
        reveal_strlit("3");
        reveal_strlit("4");
        reveal_strlit("5");
        reveal_strlit("6");
        reveal_strlit("7");
        reveal_strlit("8");
        reveal_strlit("9");
    }
    let r = if d == 0 {
        "0"
    } else if d == 1 {
        "1"
    } else if d == 2 {
        "2"
    } else if d == 3 {
        "3"
    } else if d == 4 {
        "4"
    } else if d == 5 {
        "5"
    } else if d == 6 {
        "6"
    } else if d == 7 {
        "7"
    } else if d == 8 {
        "8"
    } else {
        "9"
    };
    assert(r@ =~= seq![digit_char(d as nat)]);
    r
}

/// The decimal numeral of `n`.
pub fn decimal(n: u32) -> (r: String)
    ensures
        r@ == decimal_text(n as nat),
    decreases n,
{
    if n < 10 {
        String::from_str(digit_str(n))
    } else {
        let mut r = decimal(n / 10);
        r.append(digit_str(n % 10));
        proof {
            assert(r@ =~= decimal_text((n / 10) as nat).push(digit_char((n % 10) as nat)));
        }
        r
    }
}

/// `c` in upper case where it is an ASCII lower-case letter, else `c`.
pub open spec fn upper_char(c: char) -> char {
    if 'a' <= c <= 'z' {
        ((c as u32) - 32) as char
    } else {
        c
    }
}

/// `s` with every ASCII lower-case letter in upper case.
pub open spec fn upper_text(s: Seq<char>) -> Seq<char> {
    Seq::new(s.len(), |i: int| upper_char(s[i]))
}

/// What `{:?}` prints for a string: the string between double quotes, with
/// its special characters escaped.
pub uninterp spec fn debug_quoted(s: Seq<char>) -> Seq<char>;

/// `s` with each occurrence of `from` replaced by `to`, found from left to
/// right without overlap.
pub uninterp spec fn replaced(s: Seq<char>, from: Seq<char>, to: Seq<char>) -> Seq<char>;

/// `s` with each occurrence of the character `c` replaced by `to`.
pub open spec fn replace_each(s: Seq<char>, c: char, to: Seq<char>) -> Seq<char>
    decreases s.len(),
{
    if s.len() == 0 {
        Seq::empty()
    } else {
        replace_each(s.drop_last(), c, to) + if s.last() == c {
            to
        } else {
            seq![s.last()]
        }
    }
}

/// The stem of the file name of `path`: the last component of the path
/// without its last extension; `None` where the path has no file name.
pub uninterp spec fn file_stem_of(path: Seq<char>) -> Option<Seq<char>>;

/// What a string holds, where there is one.
pub open spec fn opt_view(s: Option<String>) -> Option<Seq<char>> {
    match s {
        Some(x) => Some(x@),
        None => None,
    }
}

/// Whether the regular expression `pattern` matches somewhere in `text`;
/// `None` where `pattern` is no regular expression.
pub uninterp spec fn regex_match(pattern: Seq<char>, text: Seq<char>) -> Option<bool>;

/// `part` stands in `whole`, in one piece.
pub open spec fn part_of(part: Seq<char>, whole: Seq<char>) -> bool {
    exists|i: int| 0 <= i && i + part.len() <= whole.len() && #[trigger] whole.subrange(
        i,
        i + part.len(),
    ) == part
}

/// Calls `format!` with `{:?}` on a string. Its result is named: the
/// debug form of a string depends on the string alone.
#[verifier::external_body]
pub(crate) fn debug_string(s: &str) -> (r: String)
    ensures
        r@ == debug_quoted(s@),
{
    format!("{:?}", s)
}

/// Calls `str::replace`. Its result is named: it depends on the three
/// strings alone. Where `from` is one character, the result is `s` with
/// each occurrence of that character replaced by `to`.
#[verifier::external_body]
pub(crate) fn replace_all(s: &str, from: &str, to: &str) -> (r: String)
    ensures
        r@ == replaced(s@, from@, to@),
        from@.len() == 1 ==> r@ == replace_each(s@, from@[0], to@),
{
    s.replace(from, to)
}

/// Calls `str::to_ascii_uppercase`, which maps the ASCII letters `a` to
/// `z` to `A` to `Z` and leaves every other character as it is.
#[verifier::external_body]
pub(crate) fn ascii_uppercase(s: &str) -> (r: String)
    ensures
        r@ == upper_text(s@),
{
    s.to_ascii_uppercase()
}

/// Calls `regex::Regex::new` and, on the compiled expression,
/// `Regex::is_match`. The result is named: it depends on the pattern and
/// the text alone. No expression is compiled where the pattern is refused.
#[verifier::external_body]
pub(crate) fn regex_is_match(pattern: &str, text: &str) -> (r: Option<bool>)
    ensures
        r == regex_match(pattern@, text@),
{
    match Regex::new(pattern) {
        Ok(re) => Some(re.is_match(text)),
        Err(_) => None,
    }
}

/// Calls `typename::TypeName::type_name_of` on a `u32`, the type of the
/// indices; it gives the name of that type, the text `u32`.
#[verifier::external_body]
pub(crate) fn index_type_name() -> (r: String)
    ensures
        r@ == "u32"@,
{
    0u32.type_name_of()
}

/// Calls `std::path::Path::file_stem`. Its result is named: the stem
/// depends on the path alone. It is the file name of the path without its
/// last extension, a piece of the path; there is none where the path has
/// no file name.
#[verifier::external_body]
pub(crate) fn path_file_stem(path: &str) -> (r: Option<String>)
    ensures
        opt_view(r) == file_stem_of(path@),
        r matches Some(stem) ==> part_of(stem@, path@),
{
    match std::path::Path::new(path).file_stem() {
        Some(stem) => match stem.to_str() {
            Some(s) => Some(s.to_owned()),
            None => None,
        },
        None => None,
    }
}

} // verus!
