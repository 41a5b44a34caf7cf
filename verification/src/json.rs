//! The JSON text of strings, of integers and of arrays of strings.
//!
//! Strings and integers are encoded by `serde_json`. The spec functions of
//! this module say what it writes; the two private functions at the end of
//! the file make the calls, and their contracts are taken on trust. Arrays
//! are put together here.

use crate::text::{join, joined, scalar};
use vstd::prelude::*;
use vstd::string::*;

verus! {

/// The lower-case hexadecimal digit for `n`, `0 <= n < 16`.
pub open spec fn hex_digit(n: int) -> char {
    seq!['0', '1', '2', '3', '4', '5', '6', '7', '8', '9', 'a', 'b', 'c', 'd', 'e', 'f'][n]
}

/// The decimal digit for `n`, `0 <= n < 10`.
pub open spec fn decimal_digit(n: int) -> char {
    seq!['0', '1', '2', '3', '4', '5', '6', '7', '8', '9'][n]
}

/// What stands for the character `c` inside a JSON string: a quotation mark
/// and a backslash get a backslash in front, a control character becomes its
/// short escape if it has one and `\u00` with two hexadecimal digits if not,
/// and every other character stands for itself.
pub open spec fn escaped_char(c: char) -> Seq<char> {
    if c == '"' {
        seq!['\\', '"']
    } else if c == '\\' {
        seq!['\\', '\\']
    } else if c == '\u{08}' {
        seq!['\\', 'b']
    } else if c == '\u{0c}' {
        seq!['\\', 'f']
    } else if c == '\n' {
        seq!['\\', 'n']
    } else if c == '\r' {
        seq!['\\', 'r']
    } else if c == '\t' {
        seq!['\\', 't']
    } else if scalar(c) < 0x20 {
        seq!['\\', 'u', '0', '0', hex_digit(scalar(c) / 16), hex_digit(scalar(c) % 16)]
    } else {
        seq![c]
    }
}

/// The characters of `text`, each as `escaped_char` writes it.
pub open spec fn escaped_text(text: Seq<char>) -> Seq<char>
    decreases text.len(),
{
    if text.len() == 0 {
        Seq::empty()
    } else {
        escaped_char(text[0]) + escaped_text(text.drop_first())
    }
}

/// The JSON string that holds `text`: the escaped text between quotation
/// marks.
pub open spec fn json_string(text: Seq<char>) -> Seq<char> {
    seq!['"'] + escaped_text(text) + seq!['"']
}

/// The decimal digits of `n`, without leading zeros.
pub open spec fn decimal_digits(n: nat) -> Seq<char>
    decreases n,
{
    if n < 10 {
        seq![decimal_digit(n as int)]
    } else {
        decimal_digits(n / 10).push(decimal_digit((n % 10) as int))
    }
}

/// The JSON number that holds the integer `n`.
pub open spec fn json_integer(n: int) -> Seq<char> {
    if n < 0 {
        seq!['-'] + decimal_digits((-n) as nat)
    } else {
        decimal_digits(n as nat)
    }
}

/// The strings of `items`, each as a JSON string.
pub open spec fn json_strings(items: Seq<Seq<char>>) -> Seq<Seq<char>> {
    items.map_values(|item: Seq<char>| json_string(item))
}

/// The JSON array of the strings that hold `items`, without white space.
pub open spec fn json_string_array(items: Seq<Seq<char>>) -> Seq<char> {
    seq!['['] + joined(json_strings(items), seq![',']) + seq![']']
}

/// Writes `text` as a JSON string.
pub fn encode_string(text: &str) -> (json: String)
    ensures
        json@ == json_string(text@),
{
    string_to_json(text).unwrap()
}

/// Writes `n` as a JSON number.
pub fn encode_integer(n: i64) -> (json: String)
    ensures
        json@ == json_integer(n as int),
{
    integer_to_json(n).unwrap()
}

/// Writes the strings as a JSON array.
pub fn encode_string_array(items: &Vec<String>) -> (json: String)
    ensures
        json@ == json_string_array(items.deep_view()),
{
    let ghost all = items.deep_view();
    let mut encoded: Vec<String> = Vec::new();
    let mut i: usize = 0;
    while i < items.len()
        invariant
            i <= items.len(),
            all == items.deep_view(),
            encoded.deep_view() == json_strings(all.take(i as int)),
        decreases items.len() - i,
    {
        let ghost before = encoded.deep_view();
        encoded.push(encode_string(items[i].as_str()));
        proof {
            assert(all[i as int] == items[i as int]@);
            assert(encoded.deep_view() =~= before.push(json_string(all[i as int])));
            assert(all.take(i + 1) =~= all.take(i as int).push(all[i as int]));
            assert(encoded.deep_view() =~= json_strings(all.take(i + 1)));
        }
        i += 1;
    }
    let mut json = String::from_str("[");
    let items_text = join(&encoded, ",");
    json.append(items_text.as_str());
    json.append("]");
    proof {
        reveal_strlit("[");
        reveal_strlit(",");
        reveal_strlit("]");
        assert(all.take(items.len() as int) =~= all);
        assert("["@ =~= seq!['[']);
        assert(","@ =~= seq![',']);
        assert("]"@ =~= seq![']']);
    }
    json
}

/// `serde_json::Error`. Nothing is said of what it holds.
#[verifier::external_type_specification]
#[verifier::external_body]
pub struct ExJsonError(serde_json::Error);

/// `serde_json::to_string` on a string slice. It writes a quotation mark,
/// then the text with `"` and `\` behind a backslash, the control characters
/// below U+0020 as `\b`, `\t`, `\n`, `\f`, `\r` or as `\u00` and two
/// lower-case hexadecimal digits, and everything else unchanged, then a
/// quotation mark. It writes into a byte vector, which takes every write, so
/// the call does not fail.
#[verifier::external_body]
fn string_to_json(text: &str) -> (r: Result<String, serde_json::Error>)
    ensures
        r is Ok,
        r->Ok_0@ == json_string(text@),
{
    serde_json::to_string(text)
}

/// `serde_json::to_string` on an `i64`. It writes the decimal digits of the
/// number without leading zeros, behind a minus sign if the number is
/// negative. It writes into a byte vector, which takes every write, so the
/// call does not fail.
#[verifier::external_body]
fn integer_to_json(n: i64) -> (r: Result<String, serde_json::Error>)
    ensures
        r is Ok,
        r->Ok_0@ == json_integer(n as int),
{
    serde_json::to_string(&n)
}

} // verus!
