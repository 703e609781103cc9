//! Searching a dictionary text: one entry per line, `key<TAB>value<TAB>priority`.

use vstd::prelude::*;
use vstd::string::StrSliceExecFns;
use crate::unicode::chars_of;
use crate::text::{
    chars_eq_ignore_ascii_case, count_char, decimal_text, eq_ignore_ascii_case, is_digit, join_with,
    lemma_decimal_text, lemma_parse_decimal_u8, lemma_split_after_sep, lemma_split_count, lemma_split_join,
    lemma_split_without_sep, lines_of, parse_u8, spec_lines, spec_parse_u8, split_chars, split_on,
};

verus! {

/// A dictionary line with exactly two tabs is an entry: key, value and
/// priority.
pub open spec fn spec_parse_line(line: Seq<char>) -> Option<(Seq<char>, Seq<char>, u8)> {
    let fields = split_on(line, '\t');
    if fields.len() == 3 {
        Some((fields[0], fields[1], spec_parse_u8(fields[2])->0))
    } else {
        None
    }
}

/// An entry line's priority is a valid `u8` (on other lines reading it
/// would fail).
pub open spec fn line_well_formed(line: Seq<char>) -> bool {
    let fields = split_on(line, '\t');
    fields.len() == 3 ==> spec_parse_u8(fields[2]) is Some
}

/// A string splits at the separator into three pieces as the pieces and
/// two separators.
pub proof fn lemma_three_pieces(s: Seq<char>, sep: char)
    requires
        split_on(s, sep).len() == 3,
    ensures
        s == split_on(s, sep)[0].push(sep) + split_on(s, sep)[1].push(sep) + split_on(s, sep)[2],
{
    let p = split_on(s, sep);
    lemma_split_join(s, sep);
    let q = p.drop_last();
    assert(q.drop_last() =~= seq![p[0]]);
    assert(join_with(q.drop_last(), sep) == p[0]);
    assert(q.last() == p[1]);
    assert(join_with(q, sep) == p[0].push(sep) + p[1]);
    assert(join_with(p, sep) == (p[0].push(sep) + p[1]).push(sep) + p[2]);
    assert((p[0].push(sep) + p[1]).push(sep) + p[2] =~= p[0].push(sep) + p[1].push(sep) + p[2]);
}

/// The dictionary line of an entry: key, tab, value, tab, and the
/// priority in decimal.
pub open spec fn entry_line(key: Seq<char>, value: Seq<char>, priority: u8) -> Seq<char> {
    key.push('\t') + value.push('\t') + decimal_text(priority as nat)
}

/// The line written for an entry whose key and value hold no tab reads
/// back as that entry.
pub proof fn lemma_entry_line_round_trip(key: Seq<char>, value: Seq<char>, priority: u8)
    requires
        !key.contains('\t'),
        !value.contains('\t'),
    ensures
        line_well_formed(entry_line(key, value, priority)),
        spec_parse_line(entry_line(key, value, priority)) == Some((key, value, priority)),
{
    let d = decimal_text(priority as nat);
    lemma_decimal_text(priority as nat);
    lemma_parse_decimal_u8(priority);
    assert(!d.contains('\t')) by {
        if d.contains('\t') {
            let k = choose|k: int| 0 <= k < d.len() && d[k] == '\t';
            assert(is_digit(d[k]));
        }
    }
    lemma_split_without_sep(key, '\t');
    lemma_split_after_sep(key, '\t', value);
    let kv = key.push('\t') + value;
    lemma_split_after_sep(kv, '\t', d);
    assert(entry_line(key, value, priority) =~= kv.push('\t') + d);
    assert(split_on(entry_line(key, value, priority), '\t') =~= seq![key, value, d]);
}

/// A line is an entry exactly when it holds two tabs.
pub proof fn lemma_entry_line_tabs(line: Seq<char>)
    ensures
        (spec_parse_line(line) is Some) == (count_char(line, '\t') == 2),
{
    lemma_split_count(line, '\t');
}

fn entry_fields(line: &str) -> (r: Option<(&str, &str, &str)>)
    ensures
        match r {
            None => split_on(line@, '\t').len() != 3,
            Some(t) => split_on(line@, '\t') == seq![t.0@, t.1@, t.2@],
        },
{
    let cs = chars_of(line);
    let fields = split_chars(&cs, '\t');
    if fields.len() != 3 {
        return None;
    }
    let ghost f = fields@.map_values(|v: Vec<char>| v@);
    proof {
        lemma_three_pieces(cs@, '\t');
    }
    assert(f[0] == fields[0]@ && f[1] == fields[1]@ && f[2] == fields[2]@);
    let n: usize = cs.len();
    assert(fields[0].len() + 1 + fields[1].len() + 1 + fields[2].len() == n);
    let t1: usize = fields[0].len();
    let t2: usize = t1 + 1 + fields[1].len();
    let key = line.substring_char(0, t1);
    let value = line.substring_char(t1 + 1, t2);
    let priority_text = line.substring_char(t2 + 1, n);
    assert(key@ =~= f[0]);
    assert(value@ =~= f[1]);
    assert(priority_text@ =~= f[2]);
    assert(f =~= seq![key@, value@, priority_text@]);
    Some((key, value, priority_text))
}

pub(crate) fn parse_line(line: &str) -> (r: Option<(&str, &str, u8)>)
    requires
        line_well_formed(line@),
    ensures
        match r {
            None => spec_parse_line(line@) is None,
            Some(t) => spec_parse_line(line@) == Some((t.0@, t.1@, t.2)),
        },
{
    match entry_fields(line) {
        None => None,
        Some((key, value, priority_text)) => {
            let priority: u8 = parse_u8(priority_text).unwrap();
            Some((key, value, priority))
        },
    }
}

/// Whether every entry line of a dictionary text (a line with exactly two
/// tabs) has a priority that is a valid `u8`.
pub fn dictionary_well_formed(content: &str) -> (r: bool)
    ensures
        r == forall|i: int| 0 <= i < spec_lines(content@).len() ==> line_well_formed(#[trigger] spec_lines(content@)[i]),
{
    let lines = lines_of(content);
    let ghost ls = spec_lines(content@);
    let mut i: usize = 0;
    while i < lines.len()
        invariant
            i <= lines.len(),
            lines@.len() == ls.len(),
            ls == spec_lines(content@),
            forall|j: int| 0 <= j < lines@.len() ==> lines@[j]@ == ls[j],
            forall|j: int| 0 <= j < i ==> line_well_formed(#[trigger] ls[j]),
        decreases lines.len() - i,
    {
        match entry_fields(lines[i]) {
            None => {},
            Some((_, _, priority_text)) => {
                if parse_u8(priority_text).is_none() {
                    assert(!line_well_formed(ls[i as int]));
                    return false;
                }
            },
        }
        i = i + 1;
    }
    true
}

/// Whether the wildcard comparison `f` accepts the search key against the
/// target: some call with strings of these characters returned `true`.
pub open spec fn wildcard_accepts<F: Fn(&str, &str) -> bool>(f: F, key: Seq<char>, target: Seq<char>) -> bool {
    exists|a: &str, b: &str| a@ == key && b@ == target && #[trigger] call_ensures(f, (a, b), true)
}

/// `f` may be called on any strings, and its answer depends on their
/// characters alone.
pub open spec fn wildcard_deterministic<F: Fn(&str, &str) -> bool>(f: F) -> bool {
    &&& forall|a: &str, b: &str| call_requires(f, (a, b))
    &&& forall|a1: &str, b1: &str, a2: &str, b2: &str, r1: bool, r2: bool|
        a1@ == a2@ && b1@ == b2@ && #[trigger] call_ensures(f, (a1, b1), r1) && #[trigger] call_ensures(f, (a2, b2), r2)
        ==> r1 == r2
}

/// Whether an entry matches the search: its value (text search) or key
/// compared with the search key, by the wildcard comparison or equal up to
/// ASCII case.
pub open spec fn entry_matches<F: Fn(&str, &str) -> bool>(
    f: F,
    search_key: Seq<char>,
    is_text_search: bool,
    is_wildcard_search: bool,
    entry: (Seq<char>, Seq<char>, u8),
) -> bool {
    let target = if is_text_search { entry.1 } else { entry.0 };
    if is_wildcard_search {
        wildcard_accepts(f, search_key, target)
    } else {
        eq_ignore_ascii_case(search_key, target)
    }
}

/// The matching entries of the given lines, in order.
pub open spec fn spec_found_items<F: Fn(&str, &str) -> bool>(
    lines: Seq<Seq<char>>,
    f: F,
    search_key: Seq<char>,
    is_text_search: bool,
    is_wildcard_search: bool,
) -> Seq<(Seq<char>, Seq<char>, u8)>
    decreases lines.len(),
{
    if lines.len() == 0 {
        Seq::empty()
    } else {
        let rest = spec_found_items(lines.drop_last(), f, search_key, is_text_search, is_wildcard_search);
        match spec_parse_line(lines.last()) {
            Some(entry) => if entry_matches(f, search_key, is_text_search, is_wildcard_search, entry) {
                rest.push(entry)
            } else {
                rest
            },
            None => rest,
        }
    }
}

/// The line is an entry whose key (its value, for a text search) matches
/// the search key: accepted by the wildcard comparison for a wildcard
/// search, equal up to ASCII case otherwise.
pub open spec fn line_selected<F: Fn(&str, &str) -> bool>(
    f: F,
    search_key: Seq<char>,
    is_text_search: bool,
    is_wildcard_search: bool,
    line: Seq<char>,
) -> bool {
    match spec_parse_line(line) {
        None => false,
        Some(e) => {
            let target = if is_text_search { e.1 } else { e.0 };
            if is_wildcard_search {
                wildcard_accepts(f, search_key, target)
            } else {
                eq_ignore_ascii_case(search_key, target)
            }
        },
    }
}

/// `idx` lists, in increasing order, exactly the selected lines, and the
/// found entries are those lines read as entries.
pub open spec fn selects_lines<F: Fn(&str, &str) -> bool>(
    idx: Seq<int>,
    lines: Seq<Seq<char>>,
    found: Seq<(Seq<char>, Seq<char>, u8)>,
    f: F,
    search_key: Seq<char>,
    is_text_search: bool,
    is_wildcard_search: bool,
) -> bool {
    &&& idx.len() == found.len()
    &&& forall|k: int| 0 <= k < idx.len() ==> {
        &&& 0 <= #[trigger] idx[k] < lines.len()
        &&& line_selected(f, search_key, is_text_search, is_wildcard_search, lines[idx[k]])
        &&& spec_parse_line(lines[idx[k]]) == Some(found[k])
    }
    &&& forall|k1: int, k2: int| 0 <= k1 < k2 < idx.len() ==> #[trigger] idx[k1] < #[trigger] idx[k2]
    &&& forall|i: int| 0 <= i < lines.len() && line_selected(f, search_key, is_text_search, is_wildcard_search, #[trigger] lines[i])
        ==> exists|k: int| 0 <= k < idx.len() && idx[k] == i
}

proof fn found_items_index<F: Fn(&str, &str) -> bool>(
    lines: Seq<Seq<char>>,
    f: F,
    search_key: Seq<char>,
    is_text_search: bool,
    is_wildcard_search: bool,
) -> (idx: Seq<int>)
    ensures
        selects_lines(idx, lines, spec_found_items(lines, f, search_key, is_text_search, is_wildcard_search),
            f, search_key, is_text_search, is_wildcard_search),
    decreases lines.len(),
{
    if lines.len() == 0 {
        Seq::empty()
    } else {
        let l1 = lines.drop_last();
        let i1 = found_items_index(l1, f, search_key, is_text_search, is_wildcard_search);
        let r1 = spec_found_items(l1, f, search_key, is_text_search, is_wildcard_search);
        let r = spec_found_items(lines, f, search_key, is_text_search, is_wildcard_search);
        let n = l1.len() as int;
        assert(lines[n] == lines.last());
        assert forall|i: int| 0 <= i < n implies #[trigger] lines[i] == l1[i] by {}
        if line_selected(f, search_key, is_text_search, is_wildcard_search, lines.last()) {
            let idx = i1.push(n);
            assert(r == r1.push(spec_parse_line(lines.last())->0));
            assert forall|i: int| 0 <= i < lines.len()
                && line_selected(f, search_key, is_text_search, is_wildcard_search, #[trigger] lines[i])
                implies exists|k: int| 0 <= k < idx.len() && idx[k] == i by {
                if i < n {
                    assert(line_selected(f, search_key, is_text_search, is_wildcard_search, l1[i]));
                    let k = choose|k: int| 0 <= k < i1.len() && i1[k] == i;
                    assert(idx[k] == i);
                } else {
                    assert(idx[idx.len() - 1] == i);
                }
            }
            assert(selects_lines(idx, lines, r, f, search_key, is_text_search, is_wildcard_search));
            idx
        } else {
            assert(r == r1);
            assert forall|i: int| 0 <= i < lines.len()
                && line_selected(f, search_key, is_text_search, is_wildcard_search, #[trigger] lines[i])
                implies exists|k: int| 0 <= k < i1.len() && i1[k] == i by {
                assert(i < n);
                assert(line_selected(f, search_key, is_text_search, is_wildcard_search, l1[i]));
            }
            i1
        }
    }
}

/// A search finds exactly the selected lines, each once, in the order of
/// the lines: every entry line whose key (value, for a text search) matches
/// the search key is found, and nothing else is.
pub proof fn lemma_found_items_are_selected_lines<F: Fn(&str, &str) -> bool>(
    lines: Seq<Seq<char>>,
    f: F,
    search_key: Seq<char>,
    is_text_search: bool,
    is_wildcard_search: bool,
)
    ensures
        exists|idx: Seq<int>| selects_lines(idx, lines,
            spec_found_items(lines, f, search_key, is_text_search, is_wildcard_search),
            f, search_key, is_text_search, is_wildcard_search),
{
    let idx = found_items_index(lines, f, search_key, is_text_search, is_wildcard_search);
}

/// How many of the lines are selected.
pub open spec fn selected_count<F: Fn(&str, &str) -> bool>(
    lines: Seq<Seq<char>>,
    f: F,
    search_key: Seq<char>,
    is_text_search: bool,
    is_wildcard_search: bool,
) -> nat
    decreases lines.len(),
{
    if lines.len() == 0 {
        0
    } else {
        selected_count(lines.drop_last(), f, search_key, is_text_search, is_wildcard_search)
            + if line_selected(f, search_key, is_text_search, is_wildcard_search, lines.last()) { 1nat } else { 0nat }
    }
}

/// A search finds one entry per selected line.
pub proof fn lemma_found_items_count<F: Fn(&str, &str) -> bool>(
    lines: Seq<Seq<char>>,
    f: F,
    search_key: Seq<char>,
    is_text_search: bool,
    is_wildcard_search: bool,
)
    ensures
        spec_found_items(lines, f, search_key, is_text_search, is_wildcard_search).len()
            == selected_count(lines, f, search_key, is_text_search, is_wildcard_search),
    decreases lines.len(),
{
    if lines.len() > 0 {
        lemma_found_items_count(lines.drop_last(), f, search_key, is_text_search, is_wildcard_search);
    }
}

/// The characters of each found entry.
pub open spec fn item_views<'a>(items: Seq<(&'a str, &'a str, u8)>) -> Seq<(Seq<char>, Seq<char>, u8)> {
    items.map_values(|t: (&'a str, &'a str, u8)| (t.0@, t.1@, t.2))
}

/// The entries of `content` whose key (or value, for a text search) matches
/// `search_key`: equal up to ASCII case, or accepted by
/// `compare_with_wildcard` for a wildcard search. Lines that are not entries
/// are skipped.
pub fn find_items<'a, F: Fn(&str, &str) -> bool>(
    content: &'a str,
    search_key: &str,
    is_text_search: bool,
    is_wildcard_search: bool,
    compare_with_wildcard: F,
) -> (r: Vec<(&'a str, &'a str, u8)>)
    requires
        forall|i: int| 0 <= i < spec_lines(content@).len() ==> line_well_formed(#[trigger] spec_lines(content@)[i]),
        wildcard_deterministic(compare_with_wildcard),
    ensures
        item_views(r@) == spec_found_items(
            spec_lines(content@),
            compare_with_wildcard,
            search_key@,
            is_text_search,
            is_wildcard_search,
        ),
{
    let lines = lines_of(content);
    let ghost ls = spec_lines(content@);
    let key_chars = chars_of(search_key);
    let mut vec: Vec<(&'a str, &'a str, u8)> = Vec::new();
    let mut i: usize = 0;
    assert(ls.take(0) =~= Seq::<Seq<char>>::empty());
    while i < lines.len()
        invariant
            i <= lines.len(),
            lines@.len() == ls.len(),
            ls == spec_lines(content@),
            forall|j: int| 0 <= j < lines@.len() ==> lines@[j]@ == ls[j],
            forall|j: int| 0 <= j < ls.len() ==> line_well_formed(#[trigger] ls[j]),
            wildcard_deterministic(compare_with_wildcard),
            key_chars@ == search_key@,
            item_views(vec@) == spec_found_items(
                ls.take(i as int),
                compare_with_wildcard,
                search_key@,
                is_text_search,
                is_wildcard_search,
            ),
        decreases lines.len() - i,
    {
        let line = lines[i];
        assert(ls.take(i as int + 1).drop_last() =~= ls.take(i as int));
        assert(ls.take(i as int + 1).last() == line@);
        assert(line_well_formed(ls[i as int]));
        match parse_line(line) {
            None => {},
            Some((key, value, priority)) => {
                let target = if is_text_search { value } else { key };
                let matches = if is_wildcard_search {
                    let accepted = compare_with_wildcard(search_key, target);
                    proof {
                        if !accepted {
                            if wildcard_accepts(compare_with_wildcard, search_key@, target@) {
                                let (a, b) = choose|a: &str, b: &str| a@ == search_key@ && b@ == target@
                                    && #[trigger] call_ensures(compare_with_wildcard, (a, b), true);
                                assert(call_ensures(compare_with_wildcard, (search_key, target), false));
                            }
                        }
                    }
                    accepted
                } else {
                    let target_chars = chars_of(target);
                    chars_eq_ignore_ascii_case(&key_chars, &target_chars)
                };
                if matches {
                    vec.push((key, value, priority));
                }
            },
        }
        assert(item_views(vec@) =~= spec_found_items(
            ls.take(i as int + 1),
            compare_with_wildcard,
            search_key@,
            is_text_search,
            is_wildcard_search,
        ));
        i = i + 1;
    }
    assert(ls.take(lines.len() as int) =~= ls);
    vec
}

} // verus!
