//! The line parser: maps one raw configuration line, a delimiter and a
//! 1-based line number to a key, a primary value and an attribute list,
//! or to the skip sentinel for blank and comment lines.

use vstd::prelude::*;
use crate::text::count_char;
use crate::text::dec_str;
use crate::text::find_char;
use crate::text::find_in_str;
use crate::text::has_space;
use crate::text::is_space;
use crate::text::is_space_char;
use crate::text::lemma_find_char_props;
use crate::text::lemma_split_trimmed_count;
use crate::text::split_trimmed;
use crate::text::split_trimmed_str;
use crate::text::trim;
use crate::text::trim_str;
use crate::text::usize_to_string;

verus! {

/// The mathematical model of one parsed line: the key, the trimmed primary
/// value, and the trimmed attribute tokens in source order.  An empty
/// `option` models the skip sentinel of blank and comment lines.
#[verifier::ext_equal]
pub struct ParsedLine {
    pub option: Seq<char>,
    pub primary: Seq<char>,
    pub attributes: Seq<Seq<char>>,
}

/// Whether a trimmed line produces no record: it is empty or a comment.
pub open spec fn skip_line(t: Seq<char>) -> bool {
    t.len() == 0 || t[0] == '#'
}

/// The key and raw value of a trimmed line: the parts before and after the
/// first `=`, each trimmed; without an `=`, the whole line is the key and
/// the value is empty.
pub open spec fn key_value_split(t: Seq<char>) -> (Seq<char>, Seq<char>) {
    match find_char(t, '=') {
        Some(i) => (trim(t.subrange(0, i)), trim(t.subrange(i + 1, t.len() as int))),
        None => (t, Seq::<char>::empty()),
    }
}

/// The primary value and attribute list of a trimmed value: the part
/// before the first delimiter, trimmed, and the remainder split on the
/// delimiter into trimmed tokens; without a delimiter, the whole value is
/// primary and there are no attributes.
pub open spec fn value_split(v: Seq<char>, d: char) -> (Seq<char>, Seq<Seq<char>>) {
    match find_char(v, d) {
        Some(i) => (trim(v.subrange(0, i)), split_trimmed(v.subrange(i + 1, v.len() as int), d)),
        None => (v, Seq::<Seq<char>>::empty()),
    }
}

/// The sentinel key of a line whose key holds embedded whitespace.
pub open spec fn invalid_option_name(ln: nat) -> Seq<char> {
    "InvalidOption_on_Line"@ + dec_str(ln)
}

/// What parsing one line yields, in order: a blank or comment line is the
/// skip sentinel; a line whose key holds whitespace is the invalid-option
/// record for its line number; any other line carries its key, primary
/// value and attributes.
pub open spec fn parse_line_spec(l: Seq<char>, d: char, ln: nat) -> ParsedLine {
    let t = trim(l);
    if skip_line(t) {
        ParsedLine {
            option: Seq::<char>::empty(),
            primary: Seq::<char>::empty(),
            attributes: Seq::<Seq<char>>::empty(),
        }
    } else {
        let kv = key_value_split(t);
        if has_space(kv.0) {
            ParsedLine {
                option: invalid_option_name(ln),
                primary: Seq::<char>::empty(),
                attributes: Seq::<Seq<char>>::empty(),
            }
        } else {
            let pa = value_split(kv.1, d);
            ParsedLine { option: kv.0, primary: pa.0, attributes: pa.1 }
        }
    }
}

/// Law: a line that is empty after trimming, or whose first character
/// after trimming is `#`, parses to the skip sentinel — empty key, empty
/// primary value, no attributes — whatever the delimiter and line number.
pub proof fn lemma_parse_line_skips(l: Seq<char>, d: char, ln: nat)
    requires
        skip_line(trim(l)),
    ensures
        parse_line_spec(l, d, ln) == (ParsedLine {
            option: Seq::<char>::empty(),
            primary: Seq::<char>::empty(),
            attributes: Seq::<Seq<char>>::empty(),
        }),
{
}

/// Law: a line whose key holds embedded whitespace parses to the
/// invalid-option record for its line number — the sentinel key, an empty
/// primary value and no attributes — whatever the delimiter.
pub proof fn lemma_parse_line_invalid_key(l: Seq<char>, d: char, ln: nat)
    requires
        !skip_line(trim(l)),
        has_space(key_value_split(trim(l)).0),
    ensures
        parse_line_spec(l, d, ln) == (ParsedLine {
            option: invalid_option_name(ln),
            primary: Seq::<char>::empty(),
            attributes: Seq::<Seq<char>>::empty(),
        }),
{
}

/// Law: a line with a whitespace-free key whose value holds no delimiter
/// parses to that key, the whole trimmed value, and no attributes.
pub proof fn lemma_parse_line_no_delimiter(l: Seq<char>, d: char, ln: nat)
    requires
        !skip_line(trim(l)),
        !has_space(key_value_split(trim(l)).0),
        find_char(key_value_split(trim(l)).1, d) is None,
    ensures
        parse_line_spec(l, d, ln) == (ParsedLine {
            option: key_value_split(trim(l)).0,
            primary: key_value_split(trim(l)).1,
            attributes: Seq::<Seq<char>>::empty(),
        }),
{
}

/// Law: a line with a whitespace-free key whose value holds a delimiter at
/// position `i` parses to that key, the trimmed value part before `i`, and
/// the tail after `i` split on the delimiter into trimmed tokens — one
/// token more than the tail has delimiters, adjacent delimiters
/// contributing empty tokens.
pub proof fn lemma_parse_line_attributes(l: Seq<char>, d: char, ln: nat, i: int)
    requires
        !skip_line(trim(l)),
        !has_space(key_value_split(trim(l)).0),
        find_char(key_value_split(trim(l)).1, d) == Some(i),
    ensures
        ({
            let v = key_value_split(trim(l)).1;
            let tail = v.subrange(i + 1, v.len() as int);
            parse_line_spec(l, d, ln) == (ParsedLine {
                option: key_value_split(trim(l)).0,
                primary: trim(v.subrange(0, i)),
                attributes: split_trimmed(tail, d),
            }) && split_trimmed(tail, d).len() == count_char(tail, d) + 1
        }),
{
    let v = key_value_split(trim(l)).1;
    lemma_split_trimmed_count(v.subrange(i + 1, v.len() as int), d);
}

/// Parses one configuration line.  The result is the key, the primary
/// value and the attribute list of the line, exactly as `parse_line_spec`
/// describes them; an empty key signals a line that produces no record.
pub fn parse_line(l: &str, attr_delimit_char: char, line_number: usize) -> (r: (
    String,
    String,
    Vec<String>,
))
    ensures
        ({
            let p = parse_line_spec(l@, attr_delimit_char, line_number as nat);
            r.0@ == p.option && r.1@ == p.primary && r.2.deep_view() == p.attributes
        }),
{
    let line = trim_str(l);
    let n = line.as_str().unicode_len();
    if n == 0 {
        let v: Vec<String> = Vec::new();
        proof {
            assert(v.deep_view() =~= Seq::<Seq<char>>::empty());
        }
        return (String::new(), String::new(), v);
    }
    if line.as_str().get_char(0) == '#' {
        let v: Vec<String> = Vec::new();
        proof {
            assert(v.deep_view() =~= Seq::<Seq<char>>::empty());
        }
        return (String::new(), String::new(), v);
    }
    proof {
        lemma_find_char_props(line@, '=');
    }
    let (option, value): (String, String) = match find_in_str(line.as_str(), '=') {
        Some(i) => {
            let before = trim_str(line.as_str().substring_char(0, i));
            let after = trim_str(line.as_str().substring_char(i + 1, n));
            (before, after)
        },
        None => (line, String::new()),
    };
    let m = option.as_str().unicode_len();
    let mut k: usize = 0;
    while k < m
        invariant
            !skip_line(trim(l@)),
            option@ == key_value_split(trim(l@)).0,
            m == option@.len(),
            0 <= k <= m,
            forall|j: int| 0 <= j < k ==> !is_space(option@[j]),
        decreases m - k,
    {
        if is_space_char(option.as_str().get_char(k)) {
            let mut name = String::from_str("InvalidOption_on_Line");
            let number = usize_to_string(line_number);
            name.append(number.as_str());
            let v: Vec<String> = Vec::new();
            proof {
                assert(has_space(option@));
                assert(v.deep_view() =~= Seq::<Seq<char>>::empty());
            }
            return (name, String::new(), v);
        }
        k = k + 1;
    }
    proof {
        assert(!has_space(option@));
        lemma_find_char_props(value@, attr_delimit_char);
    }
    match find_in_str(value.as_str(), attr_delimit_char) {
        Some(i) => {
            let vn = value.as_str().unicode_len();
            let primary = trim_str(value.as_str().substring_char(0, i));
            let attributes = split_trimmed_str(
                value.as_str().substring_char(i + 1, vn),
                attr_delimit_char,
            );
            (option, primary, attributes)
        },
        None => {
            let v: Vec<String> = Vec::new();
            proof {
                assert(v.deep_view() =~= Seq::<Seq<char>>::empty());
            }
            (option, value, v)
        },
    }
}

} // verus!
