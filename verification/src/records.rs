//! Reading the lines of the word list into groups, one per language.
//!
//! A line is a run of fields with a comma between each two. The second field
//! names the language, the third is the written form of a word and the fourth
//! its transcription; the first and whatever follows the fourth are not read.
//! A line that lacks one of the three is no record and is passed over as a
//! whole.

use crate::levenshtein::chars_of;
use vstd::prelude::*;
use vstd::string::StrSliceExecFns;

verus! {

/// Position of the first comma of `s` at or after `from`, and the length of
/// `s` where there is none.
pub open spec fn next_comma(s: Seq<char>, from: int) -> int
    decreases s.len() - from,
{
    if from < 0 || from >= s.len() {
        s.len() as int
    } else if s[from] == ',' {
        from
    } else {
        next_comma(s, from + 1)
    }
}

/// The fields of a line: the text before its first comma, then the fields of
/// what follows that comma. A line without a comma is one field.
pub open spec fn fields(s: Seq<char>) -> Seq<Seq<char>>
    decreases s.len(),
{
    let p = next_comma(s, 0);
    if p < 0 || p >= s.len() {
        seq![s]
    } else {
        seq![s.take(p)] + fields(s.skip(p + 1))
    }
}

/// The fields put together again, with a comma between each two.
pub open spec fn joined(parts: Seq<Seq<char>>) -> Seq<char>
    decreases parts.len(),
{
    if parts.len() == 0 {
        Seq::empty()
    } else if parts.len() == 1 {
        parts[0]
    } else {
        parts[0] + seq![','] + joined(parts.drop_first())
    }
}

/// Whether `s` holds no comma.
pub open spec fn comma_free(s: Seq<char>) -> bool {
    forall|k: int| 0 <= k < s.len() ==> s[k] != ','
}

/// `next_comma` finds the first comma from `from` on: nothing before the
/// place it names is a comma, and the place itself is one unless it is the
/// end of the line.
pub proof fn lemma_next_comma(s: Seq<char>, from: int)
    requires
        0 <= from <= s.len(),
    ensures
        from <= next_comma(s, from) <= s.len(),
        forall|k: int| from <= k < next_comma(s, from) ==> s[k] != ',',
        next_comma(s, from) < s.len() ==> s[next_comma(s, from)] == ',',
    decreases s.len() - from,
{
    if from < s.len() && s[from] != ',' {
        lemma_next_comma(s, from + 1);
    }
}

/// Looking for a comma in the rest of a line is looking for it in the whole
/// line from where the rest begins.
pub proof fn lemma_next_comma_skip(s: Seq<char>, start: int, from: int)
    requires
        0 <= start <= s.len(),
        0 <= from <= s.len() - start,
    ensures
        next_comma(s.skip(start), from) + start == next_comma(s, start + from),
    decreases s.len() - start - from,
{
    if from < s.len() - start && s[start + from] != ',' {
        lemma_next_comma_skip(s, start, from + 1);
    }
}

/// A line has at least one field, and none of its fields holds a comma.
pub proof fn lemma_fields_comma_free(s: Seq<char>)
    ensures
        fields(s).len() >= 1,
        forall|k: int| 0 <= k < fields(s).len() ==> comma_free(#[trigger] fields(s)[k]),
    decreases s.len(),
{
    lemma_next_comma(s, 0);
    let p = next_comma(s, 0);
    if p < s.len() {
        lemma_fields_comma_free(s.skip(p + 1));
    }
}

/// The fields of a line, joined by commas, give the line back.
pub proof fn lemma_fields_joined(s: Seq<char>)
    ensures
        joined(fields(s)) == s,
    decreases s.len(),
{
    lemma_next_comma(s, 0);
    let p = next_comma(s, 0);
    if p < s.len() {
        let rest = s.skip(p + 1);
        lemma_fields_joined(rest);
        lemma_fields_comma_free(rest);
        assert(fields(s).drop_first() =~= fields(rest));
    }
}

/// Fields without commas are the fields of the line they join to: a line
/// splits into fields in one way only.
pub proof fn lemma_fields_unique(parts: Seq<Seq<char>>)
    requires
        parts.len() >= 1,
        forall|k: int| 0 <= k < parts.len() ==> comma_free(#[trigger] parts[k]),
    ensures
        fields(joined(parts)) == parts,
    decreases parts.len(),
{
    let s = joined(parts);
    let head = parts[0];
    if parts.len() == 1 {
        lemma_next_comma(s, 0);
    } else {
        let rest = parts.drop_first();
        assert forall|k: int| 0 <= k < rest.len() implies comma_free(#[trigger] rest[k]) by {
            assert(rest[k] == parts[k + 1]);
        }
        lemma_fields_unique(rest);
        // The line is the first field, a comma, and the other fields joined,
        // and the first field holds no comma: so its end is the first comma.
        lemma_next_comma(s, 0);
        assert(s[head.len() as int] == ',');
        assert(s.take(head.len() as int) =~= head);
        assert(s.skip(head.len() as int + 1) =~= joined(rest));
    }
}

/// The language that a line names: its second field, where it has one.
pub open spec fn language_of(line: Seq<char>) -> Option<Seq<char>> {
    if fields(line).len() >= 2 {
        Some(fields(line)[1])
    } else {
        None
    }
}

/// The word that a line gives: its third and fourth field, written form and
/// transcription, where it has both.
pub open spec fn entry_of(line: Seq<char>) -> Option<(Seq<char>, Seq<char>)> {
    if fields(line).len() >= 4 {
        Some((fields(line)[2], fields(line)[3]))
    } else {
        None
    }
}

/// The fields of what is left of a line from `start` on: the text up to the
/// next comma, then the fields of what follows that comma.
pub proof fn lemma_fields_from(s: Seq<char>, start: int)
    requires
        0 <= start <= s.len(),
    ensures
        fields(s.skip(start)) == if next_comma(s, start) < s.len() {
            seq![s.subrange(start, next_comma(s, start))] + fields(
                s.skip(next_comma(s, start) + 1),
            )
        } else {
            seq![s.subrange(start, s.len() as int)]
        },
{
    let rest = s.skip(start);
    let end = next_comma(s, start);
    lemma_next_comma(s, start);
    lemma_next_comma_skip(s, start, 0);
    if end < s.len() {
        assert(rest.take(end - start) =~= s.subrange(start, end));
        assert(rest.skip(end - start + 1) =~= s.skip(end + 1));
    }
}

/// Position of the first comma of `chars` at or after `from`; the length of
/// `chars` where there is none.
fn find_comma(chars: &[char], from: usize) -> (p: usize)
    requires
        from <= chars@.len(),
    ensures
        p == next_comma(chars@, from as int),
        from <= p <= chars@.len(),
{
    let mut p: usize = from;
    while p < chars.len() && chars[p] != ','
        invariant
            from <= p <= chars@.len(),
            next_comma(chars@, from as int) == next_comma(chars@, p as int),
        decreases chars@.len() - p,
    {
        p += 1;
    }
    p
}

/// The field of `line` that begins at `start`, and where it ends: at the
/// next comma, or at the end of the line. `chars` are the characters of
/// `line`.
fn read_field(line: &str, chars: &[char], start: usize) -> (field: (String, usize))
    requires
        chars@ == line@,
        start <= line@.len(),
    ensures
        field.1 == next_comma(line@, start as int),
        start <= field.1 <= line@.len(),
        field.0@ == line@.subrange(start as int, field.1 as int),
{
    let end: usize = find_comma(chars, start);
    (line.substring_char(start, end).to_owned(), end)
}

/// Reads one line: the language it names, and the word it gives for that
/// language.
///
/// A line of one field names no language. A line of two or three fields
/// names its language and gives no word: it is no record, and
/// [`read_records`] passes it over.
pub fn parse_line(line: &str) -> (parsed: Option<(String, Option<(String, String)>)>)
    ensures
        match parsed {
            None => language_of(line@) is None,
            Some((language, entry)) => {
                &&& language_of(line@) == Some(language@)
                &&& match entry {
                    None => entry_of(line@) is None,
                    Some((word, ipa)) => entry_of(line@) == Some((word@, ipa@)),
                }
            },
        },
{
    let chars = chars_of(line);
    let text = chars.as_slice();
    let n: usize = text.len();
    proof {
        lemma_fields_from(line@, 0);
    }
    let id_end: usize = find_comma(text, 0);
    if id_end == n {
        return None;
    }
    proof {
        lemma_fields_from(line@, id_end + 1);
    }
    let (language, language_end) = read_field(line, text, id_end + 1);
    if language_end == n {
        return Some((language, None));
    }
    proof {
        lemma_fields_from(line@, language_end + 1);
    }
    let (word, word_end) = read_field(line, text, language_end + 1);
    if word_end == n {
        return Some((language, None));
    }
    proof {
        lemma_fields_from(line@, word_end + 1);
    }
    let (ipa, _) = read_field(line, text, word_end + 1);
    Some((language, Some((word, ipa))))
}

/// The words of one language, in the order in which the lines gave them.
#[derive(Debug, PartialEq, Eq)]
pub struct Group {
    /// The language's name.
    pub language: String,
    /// Written form and transcription of each word.
    pub words: Vec<(String, String)>,
}

/// The words of a group as plain sequences of characters.
pub open spec fn word_views(words: Seq<(String, String)>) -> Seq<(Seq<char>, Seq<char>)> {
    Seq::new(words.len(), |k: int| (words[k].0@, words[k].1@))
}

/// The lines as plain sequences of characters.
pub open spec fn texts(lines: Seq<String>) -> Seq<Seq<char>> {
    Seq::new(lines.len(), |k: int| lines[k]@)
}

/// The lines after the heading, which is the first line and is not read.
pub open spec fn body(lines: Seq<Seq<char>>) -> Seq<Seq<char>> {
    if lines.len() == 0 {
        lines
    } else {
        lines.skip(1)
    }
}

/// The record that a line gives: a language and a word of it. A line that
/// lacks the word's written form or its transcription gives none.
pub open spec fn record_of(line: Seq<char>) -> Option<(Seq<char>, (Seq<char>, Seq<char>))> {
    match (language_of(line), entry_of(line)) {
        (Some(language), Some(entry)) => Some((language, entry)),
        _ => None,
    }
}

/// Whether `line` gives a word for `language`.
pub open spec fn gives_word_for(line: Seq<char>, language: Seq<char>) -> bool {
    match record_of(line) {
        Some((named, _)) => named == language,
        None => false,
    }
}

/// The languages for which `lines` give a word, each once, in the order in
/// which they are first given one.
pub open spec fn languages(lines: Seq<Seq<char>>) -> Seq<Seq<char>>
    decreases lines.len(),
{
    if lines.len() == 0 {
        Seq::empty()
    } else {
        let before = languages(lines.drop_last());
        match record_of(lines.last()) {
            Some((language, _)) => if before.contains(language) {
                before
            } else {
                before.push(language)
            },
            None => before,
        }
    }
}

/// The words that `lines` give for `language`, in the order of the lines.
pub open spec fn entries_of(lines: Seq<Seq<char>>, language: Seq<char>) -> Seq<
    (Seq<char>, Seq<char>),
>
    decreases lines.len(),
{
    if lines.len() == 0 {
        Seq::empty()
    } else {
        let before = entries_of(lines.drop_last(), language);
        match record_of(lines.last()) {
            Some((named, entry)) => if named == language {
                before.push(entry)
            } else {
                before
            },
            None => before,
        }
    }
}

/// Whether `groups` are the languages of `lines`, in the order in which they
/// are first given a word, each with the words that `lines` give for it.
pub open spec fn grouped(groups: Seq<Group>, lines: Seq<Seq<char>>) -> bool {
    &&& groups.len() == languages(lines).len()
    &&& forall|k: int|
        0 <= k < groups.len() ==> {
            &&& (#[trigger] groups[k]).language@ == languages(lines)[k]
            &&& word_views(groups[k].words@) == entries_of(lines, languages(lines)[k])
        }
}

/// No language is listed twice.
pub proof fn lemma_languages_distinct(lines: Seq<Seq<char>>)
    ensures
        forall|a: int, b: int|
            0 <= a < b < languages(lines).len() ==> languages(lines)[a] != languages(lines)[b],
    decreases lines.len(),
{
    if lines.len() > 0 {
        let before = languages(lines.drop_last());
        let after = languages(lines);
        lemma_languages_distinct(lines.drop_last());
        assert forall|a: int, b: int| 0 <= a < b < after.len() implies after[a] != after[b] by {
            if b >= before.len() {
                // The last language is listed because `before` lacks it.
                assert(!before.contains(after[b]));
                assert(before[a] == after[a]);
            }
        }
    }
}

/// A language is listed if and only if some line gives a word for it. A line
/// that names a language without giving a word leaves no trace.
pub proof fn lemma_languages_complete(lines: Seq<Seq<char>>, language: Seq<char>)
    ensures
        languages(lines).contains(language) <==> exists|k: int|
            0 <= k < lines.len() && gives_word_for(#[trigger] lines[k], language),
    decreases lines.len(),
{
    if lines.len() > 0 {
        let shorter = lines.drop_last();
        let before = languages(shorter);
        let after = languages(lines);
        lemma_languages_complete(shorter, language);
        if after.contains(language) {
            if before.contains(language) {
                let k = choose|k: int|
                    0 <= k < shorter.len() && gives_word_for(#[trigger] shorter[k], language);
                assert(gives_word_for(lines[k], language));
            } else {
                assert(gives_word_for(lines[lines.len() - 1], language));
            }
        }
        if exists|k: int| 0 <= k < lines.len() && gives_word_for(#[trigger] lines[k], language) {
            let k = choose|k: int|
                0 <= k < lines.len() && gives_word_for(#[trigger] lines[k], language);
            if k < shorter.len() {
                assert(gives_word_for(shorter[k], language));
            }
            if before.contains(language) {
                let at = choose|at: int| 0 <= at < before.len() && before[at] == language;
                assert(after[at] == language);
            } else {
                assert(after[before.len() as int] == language);
            }
        }
    }
}

/// A language is listed if and only if it has a word: no group is empty.
pub proof fn lemma_listed_has_words(lines: Seq<Seq<char>>, language: Seq<char>)
    ensures
        languages(lines).contains(language) <==> entries_of(lines, language).len() > 0,
    decreases lines.len(),
{
    if lines.len() > 0 {
        let before = languages(lines.drop_last());
        let after = languages(lines);
        lemma_listed_has_words(lines.drop_last(), language);
        if before.contains(language) {
            let at = choose|at: int| 0 <= at < before.len() && before[at] == language;
            assert(after[at] == language);
        }
        if after.contains(language) && !before.contains(language) {
            let at = choose|at: int| 0 <= at < after.len() && after[at] == language;
            assert(at == before.len());
        }
        if gives_word_for(lines.last(), language) {
            assert(after[after.len() - 1] == language || before.contains(language));
        }
    }
}

/// Where `groups` holds the language `name`.
fn find_group(groups: &Vec<Group>, name: &String) -> (found: Option<usize>)
    ensures
        match found {
            Some(k) => k < groups@.len() && groups@[k as int].language@ == name@,
            None => forall|k: int| 0 <= k < groups@.len() ==> groups@[k].language@ != name@,
        },
{
    let mut k: usize = 0;
    while k < groups.len()
        invariant
            k <= groups@.len(),
            forall|m: int| 0 <= m < k ==> groups@[m].language@ != name@,
        decreases groups@.len() - k,
    {
        if groups[k].language == *name {
            return Some(k);
        }
        k += 1;
    }
    None
}

/// Reads the lines of a word list into its groups.
///
/// The first line is a heading and is passed over. Of the others, each that
/// gives a word adds it to the group of its language, which it opens if
/// there is none yet. A line that lacks a field of its record is passed over
/// as a whole: it opens no group, so no group is without words.
pub fn read_records(lines: &Vec<String>) -> (groups: Vec<Group>)
    ensures
        grouped(groups@, body(texts(lines@))),
{
    let ghost text: Seq<Seq<char>> = texts(lines@);
    let mut groups: Vec<Group> = Vec::new();
    if lines.len() == 0 {
        return groups;
    }
    let ghost rows = text.skip(1);
    let mut i: usize = 1;
    while i < lines.len()
        invariant
            1 <= i <= lines@.len(),
            text == texts(lines@),
            rows == text.skip(1),
            grouped(groups@, rows.take(i - 1)),
        decreases lines@.len() - i,
    {
        let ghost seen = rows.take(i - 1);
        let ghost now = rows.take(i as int);
        proof {
            assert(now.drop_last() =~= seen);
            lemma_languages_distinct(now);
        }
        match parse_line(lines[i].as_str()) {
            None => {},
            Some((language, entry)) => {
                match entry {
                    None => {},
                    Some(pair) => {
                        let ghost name = language@;
                        let slot: usize = match find_group(&groups, &language) {
                            Some(k) => k,
                            None => {
                                proof {
                                    // No group bears the name, so no line so
                                    // far has given a word for it.
                                    if languages(seen).contains(name) {
                                        let at = choose|at: int|
                                            0 <= at < languages(seen).len() && languages(
                                                seen,
                                            )[at] == name;
                                        assert(groups@[at].language@ == name);
                                    }
                                    lemma_listed_has_words(seen, name);
                                }
                                groups.push(Group { language, words: Vec::new() });
                                proof {
                                    assert(word_views(groups@[groups@.len() - 1].words@) =~= Seq::<
                                        (Seq<char>, Seq<char>),
                                    >::empty());
                                }
                                groups.len() - 1
                            },
                        };
                        // The groups are now those of the lines up to this
                        // one, with the words of the lines before it.
                        let ghost opened = groups@;
                        assert forall|k: int| 0 <= k < opened.len() implies {
                            &&& (#[trigger] opened[k]).language@ == languages(now)[k]
                            &&& word_views(opened[k].words@) == entries_of(seen, languages(now)[k])
                        } by {}
                        let ghost before = groups@[slot as int].words@;
                        groups[slot].words.push(pair);
                        proof {
                            assert(word_views(before.push(pair)) =~= word_views(before).push(
                                (pair.0@, pair.1@),
                            ));
                            assert forall|k: int| 0 <= k < groups@.len() implies {
                                &&& (#[trigger] groups@[k]).language@ == languages(now)[k]
                                &&& word_views(groups@[k].words@) == entries_of(
                                    now,
                                    languages(now)[k],
                                )
                            } by {
                                // Only the group at `slot` bears the name.
                                assert(opened[k].language@ == languages(now)[k]);
                            }
                        }
                    },
                }
            },
        }
        i += 1;
    }
    proof {
        assert(rows.take(lines@.len() - 1) =~= rows);
    }
    groups
}

} // verus!
