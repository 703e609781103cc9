//! What a loaded dictionary holds, stated over the lines of its texts.

use vstd::prelude::*;
use crate::unicode::str_lowercase;
use crate::parser::spec_parse_line;
use crate::strings::spec_abbreviation;
use crate::engine::{
    abbreviation_add, abbreviations_add_all, abbreviations_in_dictionary, spec_abbreviations,
    spec_dictionary, spec_parse_typing_line, spec_typing_keys,
};

verus! {

/// The line is an entry whose lower-cased key and value are these.
pub open spec fn entry_gives(line: Seq<char>, key: Seq<char>, value: Seq<char>) -> bool {
    spec_parse_line(line) matches Some(e) && str_lowercase(e.0) == key && e.1 == value
}

/// The line is a typing-key line for this key.
pub open spec fn typing_line_for(line: Seq<char>, key: Seq<char>) -> bool {
    spec_parse_typing_line(line) matches Some(kv) && kv.0 == key
}

proof fn lemma_add_all_members(
    a: Map<Seq<char>, Set<Seq<char>>>,
    abbrs: Seq<Seq<char>>,
    key: Seq<char>,
)
    ensures
        forall|x: Seq<char>, k: Seq<char>|
            abbreviations_add_all(a, abbrs, key).contains_key(x) && #[trigger] abbreviations_add_all(a, abbrs, key)[x].contains(k)
                ==> (a.contains_key(x) && a[x].contains(k)) || k == key,
        forall|x: Seq<char>, k: Seq<char>|
            a.contains_key(x) && #[trigger] a[x].contains(k)
                ==> abbreviations_add_all(a, abbrs, key).contains_key(x) && abbreviations_add_all(a, abbrs, key)[x].contains(k),
        forall|j: int| 0 <= j < abbrs.len() ==> abbreviations_add_all(a, abbrs, key).contains_key(#[trigger] abbrs[j])
            && abbreviations_add_all(a, abbrs, key)[abbrs[j]].contains(key),
    decreases abbrs.len(),
{
    if abbrs.len() > 0 {
        let prev = abbrs.drop_last();
        lemma_add_all_members(a, prev, key);
        let b = abbreviations_add_all(a, prev, key);
        let x0 = abbrs.last();
        assert(abbreviations_add_all(a, abbrs, key) == abbreviation_add(b, x0, key));
        assert forall|j: int| 0 <= j < abbrs.len() implies abbreviations_add_all(a, abbrs, key).contains_key(#[trigger] abbrs[j])
            && abbreviations_add_all(a, abbrs, key)[abbrs[j]].contains(key) by {
            if j < abbrs.len() - 1 {
                assert(prev[j] == abbrs[j]);
            }
        }
    }
}

/// Every key that an abbreviation stands for is a key of the dictionary.
pub proof fn lemma_abbreviations_in_dictionary(lines: Seq<Seq<char>>)
    ensures
        abbreviations_in_dictionary(spec_abbreviations(lines), spec_dictionary(lines)),
    decreases lines.len(),
{
    if lines.len() > 0 {
        let prev = lines.drop_last();
        lemma_abbreviations_in_dictionary(prev);
        match spec_parse_line(lines.last()) {
            None => {},
            Some(e) => {
                let lk = str_lowercase(e.0);
                lemma_add_all_members(spec_abbreviations(prev), spec_abbreviation(lk), lk);
            },
        }
    }
}

/// Each entry line leaves its lower-cased key with its value in the dictionary.
pub proof fn lemma_entry_in_dictionary(lines: Seq<Seq<char>>, i: int)
    requires
        0 <= i < lines.len(),
        spec_parse_line(lines[i]) is Some,
    ensures
        ({
            let e = spec_parse_line(lines[i])->0;
            let d = spec_dictionary(lines);
            d.contains_key(str_lowercase(e.0)) && d[str_lowercase(e.0)].contains_key(e.1)
        }),
    decreases lines.len(),
{
    let prev = lines.drop_last();
    if i < lines.len() - 1 {
        assert(prev[i] == lines[i]);
        lemma_entry_in_dictionary(prev, i);
    }
}

/// A value under a key comes from an entry line with that lower-cased key
/// and value.
pub proof fn lemma_dictionary_source(lines: Seq<Seq<char>>, key: Seq<char>, value: Seq<char>)
    requires
        spec_dictionary(lines).contains_key(key),
        spec_dictionary(lines)[key].contains_key(value),
    ensures
        exists|j: int| 0 <= j < lines.len() && #[trigger] entry_gives(lines[j], key, value),
    decreases lines.len(),
{
    let prev = lines.drop_last();
    let d = spec_dictionary(prev);
    let n = lines.len() - 1;
    match spec_parse_line(lines.last()) {
        None => {
            lemma_dictionary_source(prev, key, value);
            let j = choose|j: int| 0 <= j < prev.len() && #[trigger] entry_gives(prev[j], key, value);
            assert(lines[j] == prev[j]);
        },
        Some(e) => {
            if str_lowercase(e.0) == key && e.1 == value {
                assert(lines[n] == lines.last());
                assert(entry_gives(lines[n], key, value));
            } else {
                assert(d.contains_key(key) && d[key].contains_key(value));
                lemma_dictionary_source(prev, key, value);
                let j = choose|j: int| 0 <= j < prev.len() && #[trigger] entry_gives(prev[j], key, value);
                assert(lines[j] == prev[j]);
            }
        },
    }
}

/// The first entry line that gives a value under a key sets its priority;
/// later lines with the same key and value do not change it.
pub proof fn lemma_first_priority_stays(lines: Seq<Seq<char>>, i: int)
    requires
        0 <= i < lines.len(),
        spec_parse_line(lines[i]) is Some,
        forall|j: int| 0 <= j < i ==> !#[trigger] entry_gives(
            lines[j],
            str_lowercase(spec_parse_line(lines[i]).unwrap().0),
            spec_parse_line(lines[i]).unwrap().1,
        ),
    ensures
        ({
            let e = spec_parse_line(lines[i])->0;
            spec_dictionary(lines)[str_lowercase(e.0)][e.1] == e.2
        }),
    decreases lines.len(),
{
    let e = spec_parse_line(lines[i])->0;
    let lk = str_lowercase(e.0);
    let prev = lines.drop_last();
    if i == lines.len() - 1 {
        let d = spec_dictionary(prev);
        if d.contains_key(lk) && d[lk].contains_key(e.1) {
            lemma_dictionary_source(prev, lk, e.1);
            let j = choose|j: int| 0 <= j < prev.len() && #[trigger] entry_gives(prev[j], lk, e.1);
            assert(lines[j] == prev[j]);
        }
    } else {
        assert(prev[i] == lines[i]);
        assert forall|j: int| 0 <= j < i implies !#[trigger] entry_gives(prev[j], lk, e.1) by {
            assert(prev[j] == lines[j]);
        }
        lemma_first_priority_stays(prev, i);
        lemma_entry_in_dictionary(prev, i);
    }
}

/// Each entry line's lower-cased key is recorded under each of its abbreviations.
pub proof fn lemma_key_under_its_abbreviations(lines: Seq<Seq<char>>, i: int, j: int)
    requires
        0 <= i < lines.len(),
        spec_parse_line(lines[i]) is Some,
        0 <= j < spec_abbreviation(str_lowercase(spec_parse_line(lines[i]).unwrap().0)).len(),
    ensures
        ({
            let lk = str_lowercase(spec_parse_line(lines[i]).unwrap().0);
            let x = spec_abbreviation(lk)[j];
            spec_abbreviations(lines).contains_key(x) && spec_abbreviations(lines)[x].contains(lk)
        }),
    decreases lines.len(),
{
    let lk = str_lowercase(spec_parse_line(lines[i]).unwrap().0);
    let x = spec_abbreviation(lk)[j];
    let prev = lines.drop_last();
    if i == lines.len() - 1 {
        lemma_add_all_members(spec_abbreviations(prev), spec_abbreviation(lk), lk);
    } else {
        assert(prev[i] == lines[i]);
        lemma_key_under_its_abbreviations(prev, i, j);
        match spec_parse_line(lines.last()) {
            None => {},
            Some(e) => {
                let k2 = str_lowercase(e.0);
                lemma_add_all_members(spec_abbreviations(prev), spec_abbreviation(k2), k2);
            },
        }
    }
}

/// The last typing-key line for a key sets its replacement.
pub proof fn lemma_last_typing_key_wins(lines: Seq<Seq<char>>, i: int)
    requires
        0 <= i < lines.len(),
        spec_parse_typing_line(lines[i]) is Some,
        forall|j: int| i < j < lines.len() ==> !#[trigger] typing_line_for(lines[j], spec_parse_typing_line(lines[i]).unwrap().0),
    ensures
        ({
            let kv = spec_parse_typing_line(lines[i])->0;
            spec_typing_keys(lines).contains_key(kv.0) && spec_typing_keys(lines)[kv.0] == kv.1
        }),
    decreases lines.len(),
{
    let prev = lines.drop_last();
    if i < lines.len() - 1 {
        assert(prev[i] == lines[i]);
        assert forall|j: int| i < j < prev.len() implies !#[trigger] typing_line_for(prev[j], spec_parse_typing_line(lines[i]).unwrap().0) by {
            assert(prev[j] == lines[j]);
        }
        lemma_last_typing_key_wins(prev, i);
        assert(lines[lines.len() - 1] == lines.last());
        assert(!typing_line_for(lines[lines.len() - 1], spec_parse_typing_line(lines[i]).unwrap().0));
    }
}

} // verus!
