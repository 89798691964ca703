//! Edit scripts: what the edit distance counts.
//!
//! A script is a run of single-character edits. The distance between two
//! sequences is the length of the shortest script that turns the one into the
//! other: no script is shorter, and one of exactly that length exists.

use crate::levenshtein::{distance, lemma_distance_identity, lemma_distance_triangle};
use vstd::prelude::*;

verus! {

/// One edit of a sequence of characters.
pub enum Edit {
    /// Put `c` in before position `at`; at the very end where `at` is the length.
    Insert { at: nat, c: char },
    /// Take out the character at position `at`.
    Delete { at: nat },
    /// Put `c` in place of the character at position `at`.
    Substitute { at: nat, c: char },
}

impl Edit {
    /// Whether the edit names a position that `s` has.
    pub open spec fn fits(self, s: Seq<char>) -> bool {
        match self {
            Edit::Insert { at, c } => at <= s.len(),
            Edit::Delete { at } => at < s.len(),
            Edit::Substitute { at, c } => at < s.len(),
        }
    }

    /// The sequence after the edit.
    pub open spec fn apply(self, s: Seq<char>) -> Seq<char> {
        match self {
            Edit::Insert { at, c } => s.insert(at as int, c),
            Edit::Delete { at } => s.remove(at as int),
            Edit::Substitute { at, c } => s.update(at as int, c),
        }
    }
}

/// Whether `script`, its edits made one after the other from the first on,
/// turns `a` into `b`.
pub open spec fn leads(script: Seq<Edit>, a: Seq<char>, b: Seq<char>) -> bool
    decreases script.len(),
{
    if script.len() == 0 {
        a == b
    } else {
        script[0].fits(a) && leads(script.drop_first(), script[0].apply(a), b)
    }
}

/// One edit moves a sequence by a distance of at most one.
pub proof fn lemma_edit_moves_by_one(e: Edit, s: Seq<char>)
    requires
        e.fits(s),
    ensures
        distance(s, e.apply(s)) <= 1,
    decreases s.len(),
{
    let t = e.apply(s);
    match e {
        Edit::Insert { at, c } => {
            if at == s.len() {
                assert(t.drop_last() =~= s);
                lemma_distance_identity(s);
            } else {
                assert(t.drop_last() =~= s.drop_last().insert(at as int, c));
                lemma_edit_moves_by_one(e, s.drop_last());
            }
        },
        Edit::Delete { at } => {
            if at == s.len() - 1 {
                assert(t =~= s.drop_last());
                lemma_distance_identity(t);
            } else {
                assert(t.drop_last() =~= s.drop_last().remove(at as int));
                lemma_edit_moves_by_one(e, s.drop_last());
            }
        },
        Edit::Substitute { at, c } => {
            if at == s.len() - 1 {
                assert(t.drop_last() =~= s.drop_last());
                lemma_distance_identity(s.drop_last());
            } else {
                assert(t.drop_last() =~= s.drop_last().update(at as int, c));
                lemma_edit_moves_by_one(e, s.drop_last());
            }
        },
    }
}

/// No script that turns `a` into `b` is shorter than their distance.
pub proof fn lemma_no_shorter_script(script: Seq<Edit>, a: Seq<char>, b: Seq<char>)
    requires
        leads(script, a, b),
    ensures
        distance(a, b) <= script.len(),
    decreases script.len(),
{
    if script.len() == 0 {
        lemma_distance_identity(a);
    } else {
        let next = script[0].apply(a);
        lemma_edit_moves_by_one(script[0], a);
        lemma_no_shorter_script(script.drop_first(), next, b);
        lemma_distance_triangle(a, next, b);
    }
}

/// One script after another leads from the start of the first to the end of
/// the second.
proof fn lemma_leads_concat(
    first: Seq<Edit>,
    second: Seq<Edit>,
    a: Seq<char>,
    m: Seq<char>,
    b: Seq<char>,
)
    requires
        leads(first, a, m),
        leads(second, m, b),
    ensures
        leads(first + second, a, b),
    decreases first.len(),
{
    if first.len() > 0 {
        assert((first + second).drop_first() =~= first.drop_first() + second);
        lemma_leads_concat(first.drop_first(), second, first[0].apply(a), m, b);
    }
}

/// A script still works when the same character is put at the end of where
/// it starts and of where it leads.
proof fn lemma_leads_push(script: Seq<Edit>, a: Seq<char>, b: Seq<char>, c: char)
    requires
        leads(script, a, b),
    ensures
        leads(script, a.push(c), b.push(c)),
    decreases script.len(),
{
    if script.len() > 0 {
        let e = script[0];
        assert(e.apply(a.push(c)) =~= e.apply(a).push(c));
        lemma_leads_push(script.drop_first(), e.apply(a), b, c);
    }
}

/// A script of one edit leads to what the edit makes.
proof fn lemma_leads_single(e: Edit, a: Seq<char>) -> (single: Seq<Edit>)
    requires
        e.fits(a),
    ensures
        single.len() == 1,
        leads(single, a, e.apply(a)),
{
    let single = seq![e];
    assert(leads(single.drop_first(), e.apply(a), e.apply(a)));
    single
}

/// There is a script that turns `a` into `b` with as many edits as their
/// distance.
pub proof fn lemma_shortest_script(a: Seq<char>, b: Seq<char>) -> (script: Seq<Edit>)
    ensures
        leads(script, a, b),
        script.len() == distance(a, b),
    decreases a.len() + b.len(),
{
    if a.len() == 0 && b.len() == 0 {
        assert(a =~= b);
        Seq::empty()
    } else if a.len() == 0 {
        let shorter = b.drop_last();
        let before = lemma_shortest_script(a, shorter);
        let e = Edit::Insert { at: shorter.len(), c: b.last() };
        assert(e.apply(shorter) =~= b);
        let single = lemma_leads_single(e, shorter);
        lemma_leads_concat(before, single, a, shorter, b);
        before + single
    } else if b.len() == 0 {
        let shorter = a.drop_last();
        let after = lemma_shortest_script(shorter, b);
        let e = Edit::Delete { at: shorter.len() };
        assert(e.apply(a) =~= shorter);
        let single = lemma_leads_single(e, a);
        lemma_leads_concat(single, after, a, shorter, b);
        single + after
    } else {
        let a1 = a.drop_last();
        let b1 = b.drop_last();
        if distance(a, b) == distance(a1, b) + 1 {
            let after = lemma_shortest_script(a1, b);
            let e = Edit::Delete { at: a1.len() };
            assert(e.apply(a) =~= a1);
            let single = lemma_leads_single(e, a);
            lemma_leads_concat(single, after, a, a1, b);
            single + after
        } else if distance(a, b) == distance(a, b1) + 1 {
            let before = lemma_shortest_script(a, b1);
            let e = Edit::Insert { at: b1.len(), c: b.last() };
            assert(e.apply(b1) =~= b);
            let single = lemma_leads_single(e, b1);
            lemma_leads_concat(before, single, a, b1, b);
            before + single
        } else {
            let inner = lemma_shortest_script(a1, b1);
            lemma_leads_push(inner, a1, b1, b.last());
            assert(b1.push(b.last()) =~= b);
            if a.last() == b.last() {
                assert(a1.push(b.last()) =~= a);
                inner
            } else {
                let e = Edit::Substitute { at: a1.len(), c: b.last() };
                assert(e.apply(a) =~= a1.push(b.last()));
                let single = lemma_leads_single(e, a);
                lemma_leads_concat(single, inner, a, a1.push(b.last()), b);
                single + inner
            }
        }
    }
}

} // verus!
