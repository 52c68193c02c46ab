//! The record types and the aggregator that turns a sequence of
//! configuration lines into an ordered list of parsed records.

use vstd::prelude::*;
use crate::line::parse_line;
use crate::line::parse_line_spec;
use crate::line::ParsedLine;

verus! {

/// The value portion of a parsed configuration line: the primary value and
/// the attribute list that followed it.
#[derive(Debug, PartialEq)]
pub struct Value {
    /// The text after the `=` sign and before any attribute delimiter,
    /// trimmed.
    pub primary: String,
    /// The trimmed attribute tokens, in their order on the line.
    pub attributes: Vec<String>,
}

/// One parsed configuration entry: the key and its value.
#[derive(Debug, PartialEq)]
pub struct OptionProperties {
    /// The key before the `=` sign, never empty for an emitted record.
    pub option: String,
    /// The primary value and attributes of the entry.
    pub value: Value,
}

impl View for Value {
    type V = (Seq<char>, Seq<Seq<char>>);

    open spec fn view(&self) -> (Seq<char>, Seq<Seq<char>>) {
        (self.primary@, self.attributes.deep_view())
    }
}

impl View for OptionProperties {
    type V = ParsedLine;

    open spec fn view(&self) -> ParsedLine {
        ParsedLine {
            option: self.option@,
            primary: self.value.primary@,
            attributes: self.value.attributes.deep_view(),
        }
    }
}

impl DeepView for OptionProperties {
    type V = ParsedLine;

    open spec fn deep_view(&self) -> ParsedLine {
        self@
    }
}

impl OptionProperties {
    /// Builds a record from a key, a primary value and an attribute list.
    pub fn new(option: String, primary: String, attributes: Vec<String>) -> (r: Self)
        ensures
            r@ == (ParsedLine {
                option: option@,
                primary: primary@,
                attributes: attributes.deep_view(),
            }),
    {
        Self { option, value: Value { primary, attributes } }
    }
}

/// The records produced by the given lines when the first of them carries
/// line number `first_ln`: each line is parsed, lines whose parse yields
/// an empty key contribute nothing, and every other parse contributes one
/// record, in line order.
pub open spec fn records_from(lines: Seq<Seq<char>>, d: char, first_ln: nat) -> Seq<ParsedLine>
    decreases lines.len(),
{
    if lines.len() == 0 {
        Seq::<ParsedLine>::empty()
    } else {
        let p = parse_line_spec(lines[0], d, first_ln);
        let rest = records_from(lines.drop_first(), d, first_ln + 1);
        if p.option.len() == 0 {
            rest
        } else {
            seq![p] + rest
        }
    }
}

/// The records of a whole file, its first line numbered 1.
pub open spec fn records_of(lines: Seq<Seq<char>>, d: char) -> Seq<ParsedLine> {
    records_from(lines, d, 1)
}

/// Law: every emitted record has a non-empty key; lines that parse to the
/// skip sentinel never reach the output.
pub proof fn lemma_records_options_nonempty(lines: Seq<Seq<char>>, d: char, first_ln: nat)
    ensures
        forall|k: int|
            0 <= k < records_from(lines, d, first_ln).len() ==> records_from(
                lines,
                d,
                first_ln,
            )[k].option.len() > 0,
    decreases lines.len(),
{
    if lines.len() > 0 {
        let p = parse_line_spec(lines[0], d, first_ln);
        let rest = records_from(lines.drop_first(), d, first_ln + 1);
        lemma_records_options_nonempty(lines.drop_first(), d, first_ln + 1);
        if p.option.len() > 0 {
            assert(forall|k: int|
                1 <= k < (seq![p] + rest).len() ==> (seq![p] + rest)[k] == rest[k - 1]);
        }
    }
}

/// Law: records keep the order of their source lines.  Splitting the lines
/// at any position splits the output in the same place: all records of
/// earlier lines stand before all records of later lines.
pub proof fn lemma_records_order(lines: Seq<Seq<char>>, d: char, first_ln: nat, i: int)
    requires
        0 <= i <= lines.len(),
    ensures
        records_from(lines, d, first_ln) == records_from(lines.subrange(0, i), d, first_ln)
            + records_from(
            lines.subrange(i, lines.len() as int),
            d,
            (first_ln + i) as nat,
        ),
    decreases i,
{
    let n = lines.len() as int;
    if i == 0 {
        assert(lines.subrange(0, n) =~= lines);
        assert(records_from(lines.subrange(0, 0), d, first_ln) + records_from(lines, d, first_ln)
            =~= records_from(lines, d, first_ln));
    } else {
        let s2 = lines.drop_first();
        lemma_records_order(s2, d, first_ln + 1, i - 1);
        assert(s2.subrange(0, i - 1) =~= lines.subrange(0, i).drop_first());
        assert(s2.subrange(i - 1, s2.len() as int) =~= lines.subrange(i, n));
        assert(lines.subrange(0, i)[0] == lines[0]);
        assert(lines.subrange(0, i).len() > 0);
        let p = parse_line_spec(lines[0], d, first_ln);
        if p.option.len() == 0 {
        } else {
            assert(seq![p] + (records_from(s2.subrange(0, i - 1), d, first_ln + 1) + records_from(
                s2.subrange(i - 1, s2.len() as int),
                d,
                (first_ln + i) as nat,
            )) =~= (seq![p] + records_from(s2.subrange(0, i - 1), d, first_ln + 1))
                + records_from(s2.subrange(i - 1, s2.len() as int), d, (first_ln + i) as nat));
        }
    }
}

/// Law: the records of a sequence of lines are a function of those lines
/// and the delimiter alone, so parsing the same lines twice yields
/// structurally equal results.
pub proof fn lemma_records_deterministic(
    r1: Seq<ParsedLine>,
    r2: Seq<ParsedLine>,
    lines: Seq<Seq<char>>,
    d: char,
)
    requires
        r1 == records_of(lines, d),
        r2 == records_of(lines, d),
    ensures
        r1 == r2,
{
}

/// Parses a sequence of configuration lines, the first of them numbered 1,
/// into the ordered list of records that `records_of` describes.  Every
/// emitted record has a non-empty key.
pub fn parse_lines(lines: &Vec<String>, attr_delimit_char: char) -> (r: Vec<OptionProperties>)
    ensures
        r.deep_view() == records_of(lines.deep_view(), attr_delimit_char),
        forall|k: int| 0 <= k < r.deep_view().len() ==> r.deep_view()[k].option.len() > 0,
{
    let n = lines.len();
    let mut r: Vec<OptionProperties> = Vec::new();
    proof {
        assert(lines.deep_view().subrange(0, n as int) =~= lines.deep_view());
        assert(r.deep_view() + records_from(lines.deep_view(), attr_delimit_char, 1)
            =~= records_from(lines.deep_view(), attr_delimit_char, 1));
    }
    let mut i: usize = 0;
    while i < n
        invariant
            n == lines@.len(),
            0 <= i <= n,
            records_of(lines.deep_view(), attr_delimit_char) == r.deep_view() + records_from(
                lines.deep_view().subrange(i as int, n as int),
                attr_delimit_char,
                (i + 1) as nat,
            ),
        decreases n - i,
    {
        let (option, primary, attributes) = parse_line(lines[i].as_str(), attr_delimit_char, i + 1);
        let ghost full = lines.deep_view();
        let ghost rem = full.subrange(i as int, n as int);
        let ghost p = parse_line_spec(full[i as int], attr_delimit_char, (i + 1) as nat);
        proof {
            assert(full[i as int] == lines@[i as int]@);
            assert(rem[0] == full[i as int]);
            assert(rem.drop_first() =~= full.subrange(i as int + 1, n as int));
        }
        if !option.as_str().is_empty() {
            let ghost r0 = r.deep_view();
            let record = OptionProperties::new(option, primary, attributes);
            proof {
                assert(record@ =~= p);
            }
            r.push(record);
            proof {
                assert(r.deep_view() =~= r0.push(p));
                assert(r0.push(p) =~= r0 + seq![p]);
                assert((r0 + seq![p]) + records_from(
                    rem.drop_first(),
                    attr_delimit_char,
                    (i + 2) as nat,
                ) =~= r0 + (seq![p] + records_from(
                    rem.drop_first(),
                    attr_delimit_char,
                    (i + 2) as nat,
                )));
            }
        }
        i = i + 1;
    }
    proof {
        assert(lines.deep_view().subrange(n as int, n as int) =~= Seq::<Seq<char>>::empty());
        assert(r.deep_view() + Seq::<ParsedLine>::empty() =~= r.deep_view());
        lemma_records_options_nonempty(lines.deep_view(), attr_delimit_char, 1);
    }
    r
}

/// Returns the library version.
pub fn get_ver() -> (r: String)
    ensures
        r@ == "0.1.0"@,
{
    String::from_str("0.1.0")
}

} // verus!
