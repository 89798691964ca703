//! The lines of the report.
//!
//! A language's part of the report begins with a line that names it. One line
//! for each of its words follows: the word's written form and transcription,
//! a tab, and the word's row of the confusion table, a space after each
//! value. The values come as text; how a number is written is the caller's
//! matter.

use crate::records::Group;
use vstd::prelude::*;
use vstd::string::StringExecFns;

verus! {

/// The line that opens the part of `language`: `# ` and the name.
pub open spec fn heading(language: Seq<char>) -> Seq<char> {
    seq!['#', ' '] + language
}

/// The values one after the other, a space after each.
pub open spec fn spaced(values: Seq<Seq<char>>) -> Seq<char>
    decreases values.len(),
{
    if values.len() == 0 {
        Seq::empty()
    } else {
        spaced(values.drop_last()) + values.last() + seq![' ']
    }
}

/// The line of one word: `form=transcription`, a tab, then its values.
pub open spec fn item(form: Seq<char>, ipa: Seq<char>, values: Seq<Seq<char>>) -> Seq<char> {
    form + seq!['='] + ipa + seq!['\t'] + spaced(values)
}

/// The values of one row as plain sequences of characters.
pub open spec fn value_texts(values: Seq<String>) -> Seq<Seq<char>> {
    Seq::new(values.len(), |k: int| values[k]@)
}

/// The line that opens the part of `language`.
pub fn language_line(language: &str) -> (line: String)
    ensures
        line@ == heading(language@),
{
    let mut line = String::from_str("# ");
    proof {
        reveal_strlit("# ");
    }
    line.append(language);
    line
}

/// The line of one word with the values of its row.
pub fn item_line(form: &str, ipa: &str, values: &Vec<String>) -> (line: String)
    ensures
        line@ == item(form@, ipa@, value_texts(values@)),
{
    let mut line = String::from_str(form);
    proof {
        reveal_strlit("=");
        reveal_strlit("\t");
        reveal_strlit(" ");
    }
    line.append("=");
    line.append(ipa);
    line.append("\t");
    let ghost label = line@;
    let ghost texts = value_texts(values@);
    let mut k: usize = 0;
    while k < values.len()
        invariant
            k <= values@.len(),
            texts == value_texts(values@),
            label == form@ + seq!['='] + ipa@ + seq!['\t'],
            line@ == label + spaced(texts.take(k as int)),
            " "@ == seq![' '],
        decreases values@.len() - k,
    {
        proof {
            assert(texts.take(k + 1).drop_last() =~= texts.take(k as int));
        }
        line.append(values[k].as_str());
        line.append(" ");
        k += 1;
    }
    assert(texts.take(k as int) =~= texts);
    line
}

/// The part of the report for one group: its opening line, then the line of
/// each word in the order of the group, with the values of the word's row.
/// There is no such part where `rows` does not hold one row for each word.
pub fn section(group: &Group, rows: &Vec<Vec<String>>) -> (lines: Option<Vec<String>>)
    ensures
        lines is Some <==> rows@.len() == group.words@.len(),
        lines matches Some(l) ==> {
            &&& l@.len() == group.words@.len() + 1
            &&& l@[0]@ == heading(group.language@)
            &&& forall|k: int|
                0 <= k < group.words@.len() ==> (#[trigger] l@[k + 1])@ == item(
                    group.words@[k].0@,
                    group.words@[k].1@,
                    value_texts(rows@[k]@),
                )
        },
{
    let n: usize = group.words.len();
    if rows.len() != n {
        return None;
    }
    let mut lines: Vec<String> = Vec::new();
    lines.push(language_line(group.language.as_str()));
    let mut k: usize = 0;
    while k < n
        invariant
            n == group.words@.len(),
            n == rows@.len(),
            k <= n,
            lines@.len() == k + 1,
            lines@[0]@ == heading(group.language@),
            forall|m: int|
                0 <= m < k ==> (#[trigger] lines@[m + 1])@ == item(
                    group.words@[m].0@,
                    group.words@[m].1@,
                    value_texts(rows@[m]@),
                ),
        decreases n - k,
    {
        let line = item_line(group.words[k].0.as_str(), group.words[k].1.as_str(), &rows[k]);
        lines.push(line);
        k += 1;
    }
    Some(lines)
}

} // verus!
