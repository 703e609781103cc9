//! The table dictionary engine: loads a dictionary of Vietnamese keys and
//! typing-key replacements, converts typed input into keys, and collects
//! the candidate words for a search.

use vstd::prelude::*;
use vstd::string::StrSliceExecFns;
use crate::unicode::{
    char_is_alphabetic, char_is_numeric, char_is_uppercase, char_is_whitespace, chars_of, is_alphabetic,
    is_numeric, is_uppercase, is_whitespace, str_lowercase, str_uppercase, string_from_chars, to_lowercase,
    to_uppercase,
};
use crate::text::{
    compare_chars, copy_range, count_char, join_with, lemma_lex_asym, lemma_split_after_sep, lemma_split_count,
    lemma_split_join, lemma_split_without_sep, lines_of, spec_lines, split_chars, split_on, strictly_sorted,
    string_views,
};
use crate::sorted_map::{
    find_key, keys_of, lemma_insert_sorted, lemma_map_of, lemma_map_of_absent, lemma_map_of_insert,
    lemma_map_of_update,
    map_of, string_keys,
};
use crate::strings::{
    capitalize_first_letter, get_abbreviation, get_bracket_bit, get_word_forms, sorted_word_forms, insert_sorted_unique, space_after, space_before,
    has_spacing_rule, is_sentence_mark, lemma_punctuation_spacing, quote_closed, spec_abbreviation, spec_bracket_bit, spec_capitalize, spec_space_after, spec_space_before,
};
use crate::parser::{line_well_formed, parse_line, spec_parse_line};
use crate::candidates::{
    Candidate, CandidateEntry, candidate_views, forms_tagged, into_key_values, lookup_entries, prefix_group,
    continuation_group, push_abbreviation_group, push_candidate, push_continuation_group, push_forms,
    push_prefix_group, push_tagged, sort_candidates, spec_candidates, spec_collect_words, tagged,
};

verus! {

/// The characters of the values of one dictionary key, with their priorities.
pub open spec fn inner_view(v: Seq<(String, u8)>) -> Seq<(Seq<char>, u8)> {
    v.map_values(|x: (String, u8)| (x.0@, x.1))
}

/// The characters of the dictionary entries.
pub open spec fn dict_view(d: Seq<(String, Vec<(String, u8)>)>) -> Seq<(Seq<char>, Seq<(Seq<char>, u8)>)> {
    d.map_values(|e: (String, Vec<(String, u8)>)| (e.0@, inner_view(e.1@)))
}

/// The characters of the abbreviation entries.
pub open spec fn abbr_view(a: Seq<(String, Vec<String>)>) -> Seq<(Seq<char>, Seq<Seq<char>>)> {
    a.map_values(|e: (String, Vec<String>)| (e.0@, string_views(e.1@)))
}

/// The characters of string pairs.
pub open spec fn pairs_view(t: Seq<(String, String)>) -> Seq<(Seq<char>, Seq<char>)> {
    t.map_values(|e: (String, String)| (e.0@, e.1@))
}

/// A map of maps from the dictionary entries.
pub open spec fn nested_map(dv: Seq<(Seq<char>, Seq<(Seq<char>, u8)>)>) -> Map<Seq<char>, Map<Seq<char>, u8>> {
    map_of(dv).map_values(|inner: Seq<(Seq<char>, u8)>| map_of(inner))
}

/// A map of sets from the abbreviation entries.
pub open spec fn set_map(av: Seq<(Seq<char>, Seq<Seq<char>>)>) -> Map<Seq<char>, Set<Seq<char>>> {
    map_of(av).map_values(|s: Seq<Seq<char>>| s.to_set())
}

/// Dictionary entries sorted by key, each key's values sorted.
pub open spec fn dict_sorted(dv: Seq<(Seq<char>, Seq<(Seq<char>, u8)>)>) -> bool {
    &&& strictly_sorted(keys_of(dv))
    &&& forall|i: int| 0 <= i < dv.len() ==> strictly_sorted(keys_of(#[trigger] dv[i].1))
}

pub proof fn lemma_dict_keys(d: Seq<(String, Vec<(String, u8)>)>)
    ensures
        string_keys(d) == keys_of(dict_view(d)),
        forall|i: int| 0 <= i < d.len() ==> string_keys(#[trigger] d[i].1@) == keys_of(inner_view(d[i].1@)),
{
    assert(string_keys(d) =~= keys_of(dict_view(d)));
    assert forall|i: int| 0 <= i < d.len() implies string_keys(#[trigger] d[i].1@) == keys_of(inner_view(d[i].1@)) by {
        assert(string_keys(d[i].1@) =~= keys_of(inner_view(d[i].1@)));
    }
}

/// Adds a value with its priority under a key, unless the key already has
/// that value.
fn add_entry(dict: &mut Vec<(String, Vec<(String, u8)>)>, key: String, value: String, priority: u8)
    requires
        dict_sorted(dict_view(old(dict)@)),
    ensures
        dict_sorted(dict_view(final(dict)@)),
        nested_map(dict_view(final(dict)@)) == dictionary_add(nested_map(dict_view(old(dict)@)), key@, value@, priority),
{
    let ghost old_d = dict@;
    let ghost old_dv = dict_view(old_d);
    proof {
        lemma_dict_keys(old_d);
        lemma_map_of(old_dv);
    }
    let key_chars = chars_of(key.as_str());
    let value_chars = chars_of(value.as_str());
    match find_key(dict, &key_chars) {
        Ok(i) => {
            let (k, mut inner) = dict.remove(i);
            let ghost old_inner = inner@;
            let ghost iv = inner_view(old_inner);
            assert(old_dv[i as int].1 == iv);
            assert(old_dv[i as int].0 == key@);
            assert(strictly_sorted(string_keys(inner@)));
            assert(string_keys(old_inner) =~= keys_of(iv));
            proof {
                lemma_map_of(iv);
            }
            match find_key(&inner, &value_chars) {
                Ok(j) => {
                    assert(iv[j as int].0 == value@);
                    assert(map_of(iv).contains_key(value@));
                },
                Err(j) => {
                    inner.insert(j, (value, priority));
                    proof {
                        assert(inner_view(inner@) =~= iv.insert(j as int, (value@, priority)));
                        assert(keys_of(iv.insert(j as int, (value@, priority))) =~= keys_of(iv).insert(j as int, value@));
                        lemma_insert_sorted(keys_of(iv), j as int, value@);
                        lemma_map_of_insert(iv, j as int, value@, priority);
                        assert(!map_of(iv).contains_key(value@)) by {
                            if map_of(iv).contains_key(value@) {
                                let m = choose|m: int| 0 <= m < iv.len() && #[trigger] iv[m].0 == value@;
                                assert(keys_of(iv)[m] == value@);
                                lemma_lex_asym(value@, value@);
                            }
                        }
                    }
                },
            }
            let ghost new_iv = inner_view(inner@);
            assert(map_of(new_iv) == if map_of(iv).contains_key(value@) { map_of(iv) } else { map_of(iv).insert(value@, priority) });
            assert(strictly_sorted(keys_of(new_iv)));
            dict.insert(i, (k, inner));
            proof {
                let nv = dict_view(dict@);
                assert(nv =~= old_dv.update(i as int, (key@, new_iv)));
                lemma_map_of_update(old_dv, i as int, new_iv);
                let d = nested_map(old_dv);
                assert(map_of(old_dv).contains_key(key@));
                assert(d.contains_key(key@));
                assert(map_of(old_dv)[key@] == iv);
                assert(d[key@] == map_of(iv));
                assert(nested_map(nv) =~= d.insert(key@, map_of(new_iv)));
                assert forall|m: int| 0 <= m < nv.len() implies strictly_sorted(keys_of(#[trigger] nv[m].1)) by {
                    if m != i {
                        assert(nv[m] == old_dv[m]);
                    }
                }
            }
        },
        Err(i) => {
            let mut inner: Vec<(String, u8)> = Vec::new();
            inner.push((value, priority));
            dict.insert(i, (key, inner));
            proof {
                let iv = seq![(value@, priority)];
                assert(inner_view(inner@) =~= iv);
                assert(map_of(iv) =~= Map::<Seq<char>, u8>::empty().insert(value@, priority)) by {
                    assert(iv.drop_last() =~= Seq::<(Seq<char>, u8)>::empty());
                    assert(map_of(iv.drop_last()) == Map::<Seq<char>, u8>::empty());
                    assert(iv.last() == (value@, priority));
                }
                let nv = dict_view(dict@);
                assert(nv =~= old_dv.insert(i as int, (key@, iv)));
                assert(keys_of(nv) =~= keys_of(old_dv).insert(i as int, key@));
                lemma_insert_sorted(keys_of(old_dv), i as int, key@);
                lemma_map_of_insert(old_dv, i as int, key@, iv);
                let d = nested_map(old_dv);
                assert(!d.contains_key(key@)) by {
                    if d.contains_key(key@) {
                        let m = choose|m: int| 0 <= m < old_dv.len() && #[trigger] old_dv[m].0 == key@;
                        assert(keys_of(old_dv)[m] == key@);
                        lemma_lex_asym(key@, key@);
                        if m < i {
                        } else {
                        }
                    }
                }
                assert(nested_map(nv) =~= d.insert(key@, Map::<Seq<char>, u8>::empty().insert(value@, priority)));
                assert(keys_of(iv) =~= seq![value@]);
                assert forall|m: int| 0 <= m < nv.len() implies strictly_sorted(keys_of(#[trigger] nv[m].1)) by {
                    if m < i {
                        assert(nv[m] == old_dv[m]);
                    } else if m > i {
                        assert(nv[m] == old_dv[m - 1]);
                    }
                }
            }
        },
    }
}

/// Abbreviation entries sorted by abbreviation, each key set sorted.
pub open spec fn abbr_sorted(av: Seq<(Seq<char>, Seq<Seq<char>>)>) -> bool {
    &&& strictly_sorted(keys_of(av))
    &&& forall|i: int| 0 <= i < av.len() ==> strictly_sorted(#[trigger] av[i].1)
}

/// Records `key` under `abbr`.
fn add_abbreviation(abbrs: &mut Vec<(String, Vec<String>)>, abbr: String, key: String)
    requires
        abbr_sorted(abbr_view(old(abbrs)@)),
    ensures
        abbr_sorted(abbr_view(final(abbrs)@)),
        set_map(abbr_view(final(abbrs)@)) == abbreviation_add(set_map(abbr_view(old(abbrs)@)), abbr@, key@),
{
    let ghost old_a = abbrs@;
    let ghost old_av = abbr_view(old_a);
    proof {
        assert(string_keys(old_a) =~= keys_of(old_av));
        lemma_map_of(old_av);
    }
    let abbr_chars = chars_of(abbr.as_str());
    match find_key(abbrs, &abbr_chars) {
        Ok(i) => {
            let (a, mut set) = abbrs.remove(i);
            let ghost old_set = string_views(set@);
            assert(old_av[i as int] == (abbr@, old_set));
            assert(strictly_sorted(old_av[i as int].1));
            let ghost key_view = key@;
            insert_sorted_unique(&mut set, key);
            let ghost new_set = string_views(set@);
            assert(new_set.to_set() =~= old_set.to_set().insert(key_view));
            abbrs.insert(i, (a, set));
            proof {
                let nv = abbr_view(abbrs@);
                assert(nv =~= old_av.update(i as int, (abbr@, new_set)));
                lemma_map_of_update(old_av, i as int, new_set);
                let m = set_map(old_av);
                assert(map_of(old_av).contains_key(abbr@));
                assert(map_of(old_av)[abbr@] == old_set);
                assert(set_map(nv) =~= m.insert(abbr@, m[abbr@].insert(key_view)));
                assert forall|j: int| 0 <= j < nv.len() implies strictly_sorted(#[trigger] nv[j].1) by {
                    if j != i {
                        assert(nv[j] == old_av[j]);
                    }
                }
            }
        },
        Err(i) => {
            let ghost key_view = key@;
            let mut set: Vec<String> = Vec::new();
            set.push(key);
            abbrs.insert(i, (abbr, set));
            proof {
                let sv = seq![key_view];
                assert(string_views(set@) =~= sv);
                let nv = abbr_view(abbrs@);
                assert(nv =~= old_av.insert(i as int, (abbr@, sv)));
                assert(keys_of(nv) =~= keys_of(old_av).insert(i as int, abbr@));
                lemma_insert_sorted(keys_of(old_av), i as int, abbr@);
                lemma_map_of_insert(old_av, i as int, abbr@, sv);
                let m = set_map(old_av);
                assert(!m.contains_key(abbr@)) by {
                    if m.contains_key(abbr@) {
                        let j = choose|j: int| 0 <= j < old_av.len() && #[trigger] old_av[j].0 == abbr@;
                        assert(keys_of(old_av)[j] == abbr@);
                        lemma_lex_asym(abbr@, abbr@);
                    }
                }
                assert(sv[0] == key_view);
                assert(sv.contains(key_view));
                assert(sv.to_set() =~= Set::<Seq<char>>::empty().insert(key_view));
                assert(set_map(nv) =~= m.insert(abbr@, Set::<Seq<char>>::empty().insert(key_view)));
                assert forall|j: int| 0 <= j < nv.len() implies strictly_sorted(#[trigger] nv[j].1) by {
                    if j < i {
                        assert(nv[j] == old_av[j]);
                    } else if j > i {
                        assert(nv[j] == old_av[j - 1]);
                    }
                }
            }
        },
    }
}

/// Sets the replacement of a typing key.
fn set_typing_key(keys: &mut Vec<(String, String)>, key: String, value: String)
    requires
        strictly_sorted(keys_of(pairs_view(old(keys)@))),
    ensures
        strictly_sorted(keys_of(pairs_view(final(keys)@))),
        map_of(pairs_view(final(keys)@)) == map_of(pairs_view(old(keys)@)).insert(key@, value@),
{
    let ghost old_t = pairs_view(keys@);
    proof {
        assert(string_keys(keys@) =~= keys_of(old_t));
    }
    let key_chars = chars_of(key.as_str());
    match find_key(keys, &key_chars) {
        Ok(i) => {
            let _ = keys.remove(i);
            keys.insert(i, (key, value));
            proof {
                let nv = pairs_view(keys@);
                assert(nv =~= old_t.update(i as int, (old_t[i as int].0, value@)));
                lemma_map_of_update(old_t, i as int, value@);
            }
        },
        Err(i) => {
            keys.insert(i, (key, value));
            proof {
                let nv = pairs_view(keys@);
                assert(nv =~= old_t.insert(i as int, (key@, value@)));
                assert(keys_of(nv) =~= keys_of(old_t).insert(i as int, key@));
                lemma_insert_sorted(keys_of(old_t), i as int, key@);
                lemma_map_of_insert(old_t, i as int, key@, value@);
            }
        },
    }
}

/// A dictionary line adds its value with its priority under its key,
/// unless the key already has that value.
pub open spec fn dictionary_add(
    d: Map<Seq<char>, Map<Seq<char>, u8>>,
    key: Seq<char>,
    value: Seq<char>,
    priority: u8,
) -> Map<Seq<char>, Map<Seq<char>, u8>> {
    let inner = if d.contains_key(key) { d[key] } else { Map::empty() };
    d.insert(key, if inner.contains_key(value) { inner } else { inner.insert(value, priority) })
}

/// The key is recorded under the abbreviation.
pub open spec fn abbreviation_add(
    m: Map<Seq<char>, Set<Seq<char>>>,
    abbr: Seq<char>,
    key: Seq<char>,
) -> Map<Seq<char>, Set<Seq<char>>> {
    m.insert(abbr, (if m.contains_key(abbr) { m[abbr] } else { Set::empty() }).insert(key))
}

/// The key is recorded under each of the abbreviations.
pub open spec fn abbreviations_add_all(
    m: Map<Seq<char>, Set<Seq<char>>>,
    abbrs: Seq<Seq<char>>,
    key: Seq<char>,
) -> Map<Seq<char>, Set<Seq<char>>>
    decreases abbrs.len(),
{
    if abbrs.len() == 0 {
        m
    } else {
        abbreviation_add(abbreviations_add_all(m, abbrs.drop_last(), key), abbrs.last(), key)
    }
}

/// The dictionary that the lines of a dictionary text describe: keys are
/// lower-cased, and the first priority given to a value under a key stays.
pub open spec fn spec_dictionary(lines: Seq<Seq<char>>) -> Map<Seq<char>, Map<Seq<char>, u8>>
    decreases lines.len(),
{
    if lines.len() == 0 {
        Map::empty()
    } else {
        let d = spec_dictionary(lines.drop_last());
        match spec_parse_line(lines.last()) {
            None => d,
            Some(e) => dictionary_add(d, str_lowercase(e.0), e.1, e.2),
        }
    }
}

/// The abbreviations that the lines of a dictionary text describe: each
/// lower-cased key is recorded under each of its abbreviations.
pub open spec fn spec_abbreviations(lines: Seq<Seq<char>>) -> Map<Seq<char>, Set<Seq<char>>>
    decreases lines.len(),
{
    if lines.len() == 0 {
        Map::empty()
    } else {
        let a = spec_abbreviations(lines.drop_last());
        match spec_parse_line(lines.last()) {
            None => a,
            Some(e) => abbreviations_add_all(a, spec_abbreviation(str_lowercase(e.0)), str_lowercase(e.0)),
        }
    }
}

/// A typing-key line, `value<TAB>key`, with exactly one tab.
pub open spec fn spec_parse_typing_line(line: Seq<char>) -> Option<(Seq<char>, Seq<char>)> {
    let fields = split_on(line, '\t');
    if fields.len() == 2 {
        Some((fields[1], fields[0]))
    } else {
        None
    }
}

/// A typing-key line written as value, tab, key, with no tab in either,
/// reads back as the key and its value.
pub proof fn lemma_typing_line_round_trip(key: Seq<char>, value: Seq<char>)
    requires
        !key.contains('\t'),
        !value.contains('\t'),
    ensures
        spec_parse_typing_line(value.push('\t') + key) == Some((key, value)),
{
    lemma_split_without_sep(value, '\t');
    lemma_split_after_sep(value, '\t', key);
    assert(split_on(value.push('\t') + key, '\t') =~= seq![value, key]);
}

/// A line is a typing-key line exactly when it holds one tab.
pub proof fn lemma_typing_line_tabs(line: Seq<char>)
    ensures
        (spec_parse_typing_line(line) is Some) == (count_char(line, '\t') == 1),
{
    lemma_split_count(line, '\t');
}

/// The typing-key replacements that the lines of a style text describe (a
/// later line for a key wins).
pub open spec fn spec_typing_keys(lines: Seq<Seq<char>>) -> Map<Seq<char>, Seq<char>>
    decreases lines.len(),
{
    if lines.len() == 0 {
        Map::empty()
    } else {
        let t = spec_typing_keys(lines.drop_last());
        match spec_parse_typing_line(lines.last()) {
            None => t,
            Some(kv) => t.insert(kv.0, kv.1),
        }
    }
}

/// Every key recorded under an abbreviation is a dictionary key.
pub open spec fn abbreviations_in_dictionary(
    a: Map<Seq<char>, Set<Seq<char>>>,
    d: Map<Seq<char>, Map<Seq<char>, u8>>,
) -> bool {
    forall|x: Seq<char>, k: Seq<char>| a.contains_key(x) && #[trigger] a[x].contains(k) ==> d.contains_key(k)
}

/// A vowel letter: one of `aeiouy`.
pub open spec fn is_vowel(c: char) -> bool {
    c == 'a' || c == 'e' || c == 'i' || c == 'o' || c == 'u' || c == 'y'
}

/// A tone key of the typing scheme: one of `zfrxsj`.
pub open spec fn is_tone_key(c: char) -> bool {
    c == 'z' || c == 'f' || c == 'r' || c == 'x' || c == 's' || c == 'j'
}

/// A diacritic key of the typing scheme: one of `aeow`.
pub open spec fn is_diacritic_key(c: char) -> bool {
    c == 'a' || c == 'e' || c == 'o' || c == 'w'
}

/// The state after a lower-cased character, in the syllable automaton
/// `(C) V [VD] (C) T | N | S`: 1 initial consonants, 2 vowels and
/// diacritic keys, 3 final consonants, 4 a tone key that ends the syllable,
/// 5 a number, 6 any other character (0 is the start).
pub open spec fn next_state(state: u8, c: char) -> u8 {
    let other: u8 = if char_is_numeric(c) { 5 } else { 6 };
    if state == 2 {
        if is_tone_key(c) {
            4
        } else if is_vowel(c) || is_diacritic_key(c) {
            2
        } else if char_is_alphabetic(c) {
            3
        } else {
            other
        }
    } else if state == 3 {
        if is_tone_key(c) {
            4
        } else if char_is_alphabetic(c) {
            if is_vowel(c) { 2 } else { 3 }
        } else {
            other
        }
    } else if char_is_alphabetic(c) {
        if is_vowel(c) { 2 } else { 1 }
    } else {
        other
    }
}

/// How a typed word is written: its typing-key replacement (looked up by
/// its lower-cased form) or the word itself, upper-cased when the word is
/// all upper case, capitalised when the word starts with a capital, lower
/// case otherwise. `None` when the word is empty but differs from its upper
/// case (there is no first character to look at).
pub open spec fn spec_convert_word(typing: Map<Seq<char>, Seq<char>>, word: Seq<char>) -> Option<Seq<char>> {
    let lowered = str_lowercase(word);
    let p = if typing.contains_key(lowered) { typing[lowered] } else { word };
    if str_uppercase(word) == word {
        Some(str_uppercase(p))
    } else if word.len() == 0 {
        None
    } else if char_is_uppercase(word[0]) {
        Some(spec_capitalize(p))
    } else {
        Some(str_lowercase(p))
    }
}

/// A space when the pending-space flags ask for one before text.
pub open spec fn pending_space(add_space: u8) -> Seq<char> {
    if add_space % 2 == 1 { seq![' '] } else { Seq::empty() }
}

/// The conversion state: output so far, automaton state, start of the
/// current word, pending-space flags, open quotes.
pub type ConvertState = (Seq<char>, u8, int, u8, u8);

/// The new open-quote state after `c`: a quote-like character toggles its bit.
pub open spec fn toggle_bracket(brackets: u8, c: char) -> u8 {
    match spec_bracket_bit(c) {
        Some(b) => brackets ^ b,
        None => brackets,
    }
}

/// A quote-like character seen twice leaves the open-quote state as it was.
pub proof fn lemma_quote_toggles_back(brackets: u8, c: char)
    ensures
        toggle_bracket(toggle_bracket(brackets, c), c) == brackets,
{
    if let Some(b) = spec_bracket_bit(c) {
        assert((brackets ^ b) ^ b == brackets) by (bit_vector);
    }
}

/// Each quote-like character keeps its own open-quote state: another
/// character does not change it.
pub proof fn lemma_quotes_independent(brackets: u8, c: char, d: char)
    requires
        spec_bracket_bit(d) is Some,
        c != d,
    ensures
        quote_closed(d, toggle_bracket(brackets, c)) == quote_closed(d, brackets),
{
    if let Some(b) = spec_bracket_bit(c) {
        let x = spec_bracket_bit(d)->0;
        assert(b != x);
        assert((b == 1u8 || b == 2u8 || b == 4u8 || b == 8u8) && (x == 1u8 || x == 2u8 || x == 4u8 || x == 8u8) && b != x
            ==> (((brackets ^ b) & x == 0) == (brackets & x == 0))) by (bit_vector);
    }
}

/// One step of the conversion at position `i`, on the typed characters
/// `istr` and their lower-cased form `low`. `None` when the step would read
/// past the typed characters or convert a word that cannot be converted.
pub open spec fn convert_step(
    typing: Map<Seq<char>, Seq<char>>,
    istr: Seq<char>,
    low: Seq<char>,
    st: Option<ConvertState>,
    i: int,
) -> Option<ConvertState> {
    match st {
        None => None,
        Some(t) => {
            let (result, pv, cws, add_space, brackets) = t;
            let c = low[i];
            let s = next_state(pv, c);
            if s > 3 {
                if i >= istr.len() {
                    None
                } else if s > 4 {
                    let word = if pv < 4 { spec_convert_word(typing, istr.subrange(cws, i)) } else { Some(Seq::empty()) };
                    match word {
                        None => None,
                        Some(w) => {
                            let before = if pv < 4 { pending_space(add_space) + w } else { Seq::empty() };
                            let space = i != 0 && !char_is_whitespace(c) && pv != s
                                && spec_space_before(c, brackets, pv == 5) && (s == 5 ==> add_space > 1);
                            let out = result + before + (if space { seq![' '] } else { Seq::empty() }) + seq![c];
                            let b2 = toggle_bracket(brackets, c);
                            Some((out, s, i + 1, spec_space_after(c, b2), b2))
                        },
                    }
                } else {
                    match spec_convert_word(typing, istr.subrange(cws, i + 1)) {
                        None => None,
                        Some(w) => Some((result + pending_space(add_space) + w, s, i + 1, 3u8, brackets)),
                    }
                }
            } else if i + 1 == istr.len() {
                match spec_convert_word(typing, istr.subrange(cws, istr.len() as int)) {
                    None => None,
                    Some(w) => Some((result + pending_space(add_space) + w, s, cws, add_space, brackets)),
                }
            } else {
                Some((result, s, cws, add_space, brackets))
            }
        },
    }
}

/// The conversion state after the first `k` lower-cased characters.
pub open spec fn convert_run(
    typing: Map<Seq<char>, Seq<char>>,
    istr: Seq<char>,
    low: Seq<char>,
    k: int,
) -> Option<ConvertState>
    decreases k,
{
    if k <= 0 {
        Some((Seq::empty(), 0u8, 0int, 0u8, 0u8))
    } else {
        convert_step(typing, istr, low, convert_run(typing, istr, low, k - 1), k - 1)
    }
}

/// Once the conversion fails it stays failed.
proof fn lemma_run_failed(typing: Map<Seq<char>, Seq<char>>, istr: Seq<char>, low: Seq<char>, k: int, k2: int)
    requires
        0 <= k <= k2,
        convert_run(typing, istr, low, k) is None,
    ensures
        convert_run(typing, istr, low, k2) is None,
    decreases k2 - k,
{
    if k < k2 {
        lemma_run_failed(typing, istr, low, k, k2 - 1);
    }
}

/// The start of the current word never lies beyond the characters read.
proof fn lemma_run_word_start(typing: Map<Seq<char>, Seq<char>>, istr: Seq<char>, low: Seq<char>, k: int)
    requires
        k >= 0,
        convert_run(typing, istr, low, k) is Some,
    ensures
        0 <= (convert_run(typing, istr, low, k)->0).2 <= k,
    decreases k,
{
    if k > 0 {
        if convert_run(typing, istr, low, k - 1) is None {
            lemma_run_failed(typing, istr, low, k - 1, k);
        }
        lemma_run_word_start(typing, istr, low, k - 1);
    }
}

/// Typing more after a text does not change how the text's characters
/// before its last one are read.
proof fn lemma_run_prefix(
    typing: Map<Seq<char>, Seq<char>>,
    t: Seq<char>,
    lt: Seq<char>,
    w: Seq<char>,
    lw: Seq<char>,
    k: int,
)
    requires
        t.len() == lt.len(),
        0 <= k < t.len(),
    ensures
        convert_run(typing, t + w, lt + lw, k) == convert_run(typing, t, lt, k),
    decreases k,
{
    if k > 0 {
        lemma_run_prefix(typing, t, lt, w, lw, k - 1);
        let i = k - 1;
        assert((lt + lw)[i] == lt[i]);
        if let Some(st) = convert_run(typing, t, lt, k - 1) {
            lemma_run_word_start(typing, t, lt, k - 1);
            let cws = st.2;
            assert((t + w).subrange(cws, i) =~= t.subrange(cws, i));
            assert((t + w).subrange(cws, i + 1) =~= t.subrange(cws, i + 1));
        }
    }
}

/// Letters that are not tone keys, read after a syllable boundary, keep
/// the output and the pending spaces as they were until the input ends.
proof fn lemma_letter_run(
    typing: Map<Seq<char>, Seq<char>>,
    x: Seq<char>,
    lx: Seq<char>,
    start: int,
    out: Seq<char>,
    s0: u8,
    a: u8,
    b: u8,
    j: int,
) -> (s: u8)
    requires
        x.len() == lx.len(),
        0 <= start,
        0 <= j,
        start + j < x.len(),
        convert_run(typing, x, lx, start) == Some((out, s0, start, a, b)),
        forall|i: int| start <= i < x.len() ==> char_is_alphabetic(#[trigger] lx[i]) && !is_tone_key(lx[i]),
    ensures
        j == 0 ==> s == s0,
        j > 0 ==> 1 <= s <= 3,
        convert_run(typing, x, lx, start + j) == Some((out, s, start, a, b)),
    decreases j,
{
    if j == 0 {
        s0
    } else {
        let p = lemma_letter_run(typing, x, lx, start, out, s0, a, b, j - 1);
        let c = lx[start + j - 1];
        assert(char_is_alphabetic(c) && !is_tone_key(c));
        let s = next_state(p, c);
        assert(1 <= s <= 3);
        s
    }
}

/// Letters that are not tone keys up to the end of the input form one
/// word, written after the pending space.
proof fn lemma_letter_run_end(
    typing: Map<Seq<char>, Seq<char>>,
    x: Seq<char>,
    lx: Seq<char>,
    start: int,
    out: Seq<char>,
    s0: u8,
    a: u8,
    b: u8,
)
    requires
        x.len() == lx.len(),
        0 <= start < x.len(),
        convert_run(typing, x, lx, start) == Some((out, s0, start, a, b)),
        forall|i: int| start <= i < x.len() ==> char_is_alphabetic(#[trigger] lx[i]) && !is_tone_key(lx[i]),
    ensures
        spec_convert_word(typing, x.subrange(start, x.len() as int)) is Some,
        convert_run(typing, x, lx, x.len() as int) is Some,
        (convert_run(typing, x, lx, x.len() as int)->0).0
            == out + pending_space(a) + spec_convert_word(typing, x.subrange(start, x.len() as int))->0,
{
    let n = x.len() as int;
    let p = lemma_letter_run(typing, x, lx, start, out, s0, a, b, n - 1 - start);
    let c = lx[n - 1];
    assert(char_is_alphabetic(c) && !is_tone_key(c));
    assert(x.subrange(start, n).len() > 0);
}

/// A syllable ended by a tone key is followed by exactly one space before
/// the next word: when `t` ends in a vowel and a tone key, and `w` is
/// letters with no tone key, converting `t` then `w` gives the conversion
/// of `t`, a space, and the conversion of `w`. (Lower-casing is taken to
/// keep the length and to work character by character on these inputs,
/// and the vowel and letters to be alphabetic.)
pub proof fn lemma_space_after_tone_syllable(typing: Map<Seq<char>, Seq<char>>, t: Seq<char>, w: Seq<char>)
    requires
        str_lowercase(t + w) == str_lowercase(t) + str_lowercase(w),
        str_lowercase(t).len() == t.len(),
        str_lowercase(w).len() == w.len(),
        t.len() >= 2,
        w.len() >= 1,
        is_vowel(str_lowercase(t)[t.len() - 2]),
        char_is_alphabetic(str_lowercase(t)[t.len() - 2]),
        is_tone_key(str_lowercase(t)[t.len() - 1]),
        forall|i: int| 0 <= i < w.len()
            ==> char_is_alphabetic(#[trigger] str_lowercase(w)[i]) && !is_tone_key(str_lowercase(w)[i]),
        spec_convert_input(typing, t) is Some,
    ensures
        spec_convert_input(typing, w) is Some,
        spec_convert_input(typing, t + w)
            == Some(spec_convert_input(typing, t)->0 + seq![' '] + spec_convert_input(typing, w)->0),
{
    let lt = str_lowercase(t);
    let lw = str_lowercase(w);
    let n = t.len() as int;
    let x = t + w;
    let lx = lt + lw;
    // the text alone
    if convert_run(typing, t, lt, n - 1) is None {
        lemma_run_failed(typing, t, lt, n - 1, n);
    }
    if convert_run(typing, t, lt, n - 2) is None {
        lemma_run_failed(typing, t, lt, n - 2, n);
    }
    let st = convert_run(typing, t, lt, n - 1)->0;
    assert(st.1 == 2);
    assert(next_state(2, lt[n - 1]) == 4);
    lemma_run_word_start(typing, t, lt, n - 1);
    let out = (convert_run(typing, t, lt, n)->0).0;
    let b = (convert_run(typing, t, lt, n)->0).4;
    assert(convert_run(typing, t, lt, n) == Some((out, 4u8, n, 3u8, b)));
    // the text followed by the letters
    lemma_run_prefix(typing, t, lt, w, lw, n - 1);
    assert(lx[n - 1] == lt[n - 1]);
    assert(x.subrange(st.2, n) =~= t.subrange(st.2, n));
    assert(convert_run(typing, x, lx, n) == Some((out, 4u8, n, 3u8, b)));
    assert forall|i: int| n <= i < x.len() implies char_is_alphabetic(#[trigger] lx[i]) && !is_tone_key(lx[i]) by {
        assert(lx[i] == lw[i - n]);
    }
    lemma_letter_run_end(typing, x, lx, n, out, 4, 3, b);
    assert(x.subrange(n, x.len() as int) =~= w);
    // the letters alone
    lemma_letter_run_end(typing, w, lw, 0, Seq::empty(), 0, 0, 0);
    assert(w.subrange(0, w.len() as int) =~= w);
    assert(Seq::<char>::empty() + pending_space(0) + spec_convert_word(typing, w)->0 =~= spec_convert_word(typing, w)->0);
}

/// A sentence mark right after a word sticks to it, and the next word
/// follows after one space: when `w` and `v` are letters with no tone key
/// and `m` is `.`, `,`, `?`, `!`, `;` or `:`, converting `w`, `m`, `v`
/// gives the conversion of `w`, `m`, a space and the conversion of `v`.
/// (Lower-casing is taken to keep the length and to work character by
/// character on these inputs, the letters to be alphabetic, and the mark to
/// be neither alphabetic nor numeric.)
pub proof fn lemma_sentence_mark_between_words(
    typing: Map<Seq<char>, Seq<char>>,
    w: Seq<char>,
    m: char,
    v: Seq<char>,
)
    requires
        is_sentence_mark(m),
        !char_is_alphabetic(m),
        !char_is_numeric(m),
        str_lowercase(w + seq![m] + v) == str_lowercase(w) + seq![m] + str_lowercase(v),
        str_lowercase(w).len() == w.len(),
        str_lowercase(v).len() == v.len(),
        w.len() >= 1,
        v.len() >= 1,
        forall|i: int| 0 <= i < w.len()
            ==> char_is_alphabetic(#[trigger] str_lowercase(w)[i]) && !is_tone_key(str_lowercase(w)[i]),
        forall|i: int| 0 <= i < v.len()
            ==> char_is_alphabetic(#[trigger] str_lowercase(v)[i]) && !is_tone_key(str_lowercase(v)[i]),
    ensures
        spec_convert_input(typing, w) is Some,
        spec_convert_input(typing, v) is Some,
        spec_convert_input(typing, w + seq![m] + v)
            == Some(spec_convert_input(typing, w)->0 + seq![m, ' '] + spec_convert_input(typing, v)->0),
{
    let lw = str_lowercase(w);
    let lv = str_lowercase(v);
    let n = w.len() as int;
    let x = w + seq![m] + v;
    let lx = lw + seq![m] + lv;
    // each word alone
    lemma_letter_run_end(typing, w, lw, 0, Seq::empty(), 0, 0, 0);
    assert(w.subrange(0, n) =~= w);
    let cw = spec_convert_word(typing, w)->0;
    assert(Seq::<char>::empty() + pending_space(0) + cw =~= cw);
    lemma_letter_run_end(typing, v, lv, 0, Seq::empty(), 0, 0, 0);
    assert(v.subrange(0, v.len() as int) =~= v);
    let cv = spec_convert_word(typing, v)->0;
    assert(Seq::<char>::empty() + pending_space(0) + cv =~= cv);
    // the first word inside the whole input
    assert forall|i: int| 0 <= i < x.len() && i != n implies char_is_alphabetic(#[trigger] lx[i]) && !is_tone_key(lx[i]) by {
        if i < n {
            assert(lx[i] == lw[i]);
        } else {
            assert(lx[i] == lv[i - n - 1]);
        }
    }
    assert(forall|i: int| 0 <= i < n ==> char_is_alphabetic(#[trigger] lx[i]) && !is_tone_key(lx[i]));
    let p = lemma_letter_run_prefix(typing, x, lx, n);
    // the mark
    assert(lx[n] == m);
    assert(next_state(p, m) == 6);
    assert(x.subrange(0, n) =~= w);
    lemma_punctuation_spacing(m, 0, false);
    assert(spec_bracket_bit(m) is None);
    assert(toggle_bracket(0, m) == 0);
    let a = spec_space_after(m, 0);
    assert(a % 2 == 1);
    assert(Seq::<char>::empty() + (pending_space(0) + cw) + Seq::<char>::empty() + seq![m] =~= cw.push(m));
    assert(convert_run(typing, x, lx, n + 1) == Some((cw.push(m), 6u8, n + 1, a, 0u8)));
    // the second word
    assert forall|i: int| n + 1 <= i < x.len() implies char_is_alphabetic(#[trigger] lx[i]) && !is_tone_key(lx[i]) by {
        assert(lx[i] == lv[i - n - 1]);
    }
    lemma_letter_run_end(typing, x, lx, n + 1, cw.push(m), 6, a, 0);
    assert(x.subrange(n + 1, x.len() as int) =~= v);
    assert(pending_space(a) == seq![' ']);
    assert(cw.push(m) + seq![' '] + cv =~= cw + seq![m, ' '] + cv);
}

/// A typed word of letters with no tone key is written through its
/// typing-key replacement (looked up by its lower case; the word itself
/// when it has none), in the word's case: all upper case when the word is,
/// capitalised when the word starts with a capital, lower case otherwise.
/// (Lower-casing is taken to keep the length, and the letters to be
/// alphabetic.)
pub proof fn lemma_word_written_in_its_case(typing: Map<Seq<char>, Seq<char>>, w: Seq<char>)
    requires
        w.len() >= 1,
        str_lowercase(w).len() == w.len(),
        forall|i: int| 0 <= i < w.len()
            ==> char_is_alphabetic(#[trigger] str_lowercase(w)[i]) && !is_tone_key(str_lowercase(w)[i]),
    ensures
        ({
            let rep = if typing.contains_key(str_lowercase(w)) { typing[str_lowercase(w)] } else { w };
            &&& spec_convert_input(typing, w) is Some
            &&& str_uppercase(w) == w ==> spec_convert_input(typing, w)->0 == str_uppercase(rep)
            &&& (str_uppercase(w) != w && char_is_uppercase(w[0]))
                ==> spec_convert_input(typing, w)->0 == spec_capitalize(rep)
            &&& (str_uppercase(w) != w && !char_is_uppercase(w[0]))
                ==> spec_convert_input(typing, w)->0 == str_lowercase(rep)
        }),
{
    let lw = str_lowercase(w);
    lemma_letter_run_end(typing, w, lw, 0, Seq::empty(), 0, 0, 0);
    assert(w.subrange(0, w.len() as int) =~= w);
    let cw = spec_convert_word(typing, w)->0;
    assert(Seq::<char>::empty() + pending_space(0) + cw =~= cw);
}

/// A character of a number as the conversion reads it: a digit (numeric,
/// not alphabetic, with no spacing rule of its own), or a decimal point or
/// comma.
pub open spec fn number_char(c: char) -> bool {
    c == '.' || c == ',' || (char_is_numeric(c) && !char_is_alphabetic(c) && !has_spacing_rule(c))
}

proof fn lemma_number_run(typing: Map<Seq<char>, Seq<char>>, x: Seq<char>, k: int) -> (s: u8)
    requires
        0 <= k <= x.len(),
        forall|i: int| 0 <= i < x.len() ==> number_char(#[trigger] x[i]),
        !char_is_alphabetic('.') && !char_is_numeric('.'),
        !char_is_alphabetic(',') && !char_is_numeric(','),
        spec_convert_word(typing, Seq::empty()) == Some(Seq::<char>::empty()),
    ensures
        k == 0 ==> s == 0,
        k > 0 ==> s == 5 || s == 6,
        convert_run(typing, x, x, k) == Some((x.take(k), s, k, if k == 0 { 0u8 } else { 1u8 }, 0u8)),
    decreases k,
{
    if k == 0 {
        assert(x.take(0) =~= Seq::<char>::empty());
        0
    } else {
        let i = k - 1;
        let pv = lemma_number_run(typing, x, i);
        let c = x[i];
        assert(number_char(c));
        let s = next_state(pv, c);
        assert(s == 5 || s == 6);
        lemma_punctuation_spacing(c, 0, pv == 5);
        if i == 0 {
            assert(x.subrange(0, 0) =~= Seq::<char>::empty());
        }
        assert(spec_bracket_bit(c) is None);
        assert(toggle_bracket(0, c) == 0);
        assert(spec_space_after(c, 0) == 1);
        assert(x.take(i) + pending_space(0) + Seq::<char>::empty() + Seq::<char>::empty() + seq![c] =~= x.take(k));
        assert(x.take(i) + Seq::<char>::empty() + Seq::<char>::empty() + seq![c] =~= x.take(k));
        s
    }
}

/// Numbers are written as typed: digits with decimal points and commas get
/// no spaces (`1.5` stays `1.5`). (Taken: the digits are numeric and not
/// alphabetic, `.` and `,` are neither, lower-casing keeps the text, and
/// converting an empty word writes nothing.)
pub proof fn lemma_numbers_written_as_typed(typing: Map<Seq<char>, Seq<char>>, x: Seq<char>)
    requires
        forall|i: int| 0 <= i < x.len() ==> number_char(#[trigger] x[i]),
        !char_is_alphabetic('.') && !char_is_numeric('.'),
        !char_is_alphabetic(',') && !char_is_numeric(','),
        str_lowercase(x) == x,
        spec_convert_word(typing, Seq::empty()) == Some(Seq::<char>::empty()),
    ensures
        spec_convert_input(typing, x) == Some(x),
{
    lemma_number_run(typing, x, x.len() as int);
    assert(x.take(x.len() as int) =~= x);
}

/// Letters without tone keys at the start of the input are read without
/// writing anything, ending in a letter state.
proof fn lemma_letter_run_prefix(typing: Map<Seq<char>, Seq<char>>, x: Seq<char>, lx: Seq<char>, n: int) -> (p: u8)
    requires
        x.len() == lx.len(),
        1 <= n < x.len(),
        forall|i: int| 0 <= i < n ==> char_is_alphabetic(#[trigger] lx[i]) && !is_tone_key(lx[i]),
    ensures
        1 <= p <= 3,
        convert_run(typing, x, lx, n) == Some((Seq::<char>::empty(), p, 0int, 0u8, 0u8)),
    decreases n,
{
    let p0: u8 = if n == 1 {
        0
    } else {
        lemma_letter_run_prefix(typing, x, lx, n - 1)
    };
    assert(convert_run(typing, x, lx, n - 1) == Some((Seq::<char>::empty(), p0, 0int, 0u8, 0u8)));
    let c = lx[n - 1];
    assert(char_is_alphabetic(c) && !is_tone_key(c));
    next_state(p0, c)
}

/// The typed input turned into text: syllables end at tone keys, numbers
/// and other characters; each word is written through its typing-key
/// replacement with its case; spaces go around punctuation as its rules
/// say. `None` where the conversion reads past the input (its lower case
/// has more characters) or meets an empty word that differs from its
/// upper case.
pub open spec fn spec_convert_input(typing: Map<Seq<char>, Seq<char>>, istr: Seq<char>) -> Option<Seq<char>> {
    let low = str_lowercase(istr);
    match convert_run(typing, istr, low, low.len() as int) {
        Some(t) => Some(t.0),
        None => None,
    }
}

/// The dictionary of Vietnamese keys with their values and priorities,
/// the abbreviations of the keys, and the typing-key replacements. Entries
/// are kept in key order, as an ordered map keeps them.
pub struct TableDictionaryEngine {
    dictionary: Vec<(String, Vec<(String, u8)>)>,
    abbreviations: Vec<(String, Vec<String>)>,
    typing_keys: Vec<(String, String)>,
}

/// Appends a converted word to the output, after a space when one is pending.
fn push_word(result: &mut Vec<char>, add_space: u8, word: &Vec<char>)
    ensures
        final(result)@ == old(result)@ + pending_space(add_space) + word@,
{
    let ghost start = result@;
    if add_space % 2 == 1 {
        result.push(' ');
    }
    let mut k: usize = 0;
    let ghost mid = result@;
    assert(mid =~= start + pending_space(add_space));
    while k < word.len()
        invariant
            k <= word.len(),
            mid == start + pending_space(add_space),
            result@ =~= mid + word@.take(k as int),
        decreases word.len() - k,
    {
        result.push(word[k]);
        k = k + 1;
    }
    assert(word@.take(word.len() as int) =~= word@);
}

impl TableDictionaryEngine {
    #[verifier::type_invariant]
    spec fn well_formed(self) -> bool {
        &&& dict_sorted(dict_view(self.dictionary@))
        &&& abbr_sorted(abbr_view(self.abbreviations@))
        &&& strictly_sorted(keys_of(pairs_view(self.typing_keys@)))
        &&& abbreviations_in_dictionary(set_map(abbr_view(self.abbreviations@)), nested_map(dict_view(self.dictionary@)))
    }

    /// The dictionary entries in key order, each key's values in order.
    pub closed spec fn dictionary_entries(self) -> Seq<(Seq<char>, Seq<(Seq<char>, u8)>)> {
        dict_view(self.dictionary@)
    }

    /// The abbreviation entries in order, each with its keys in order.
    pub closed spec fn abbreviation_entries(self) -> Seq<(Seq<char>, Seq<Seq<char>>)> {
        abbr_view(self.abbreviations@)
    }

    /// The typing-key entries in key order.
    pub closed spec fn typing_key_entries(self) -> Seq<(Seq<char>, Seq<char>)> {
        pairs_view(self.typing_keys@)
    }

    /// The dictionary: key to value to priority.
    pub open spec fn dictionary_map(self) -> Map<Seq<char>, Map<Seq<char>, u8>> {
        nested_map(self.dictionary_entries())
    }

    /// The abbreviations: abbreviation to the keys it stands for.
    pub open spec fn abbreviation_map(self) -> Map<Seq<char>, Set<Seq<char>>> {
        set_map(self.abbreviation_entries())
    }

    /// The typing-key replacements: key to what it is written as.
    pub open spec fn typing_key_map(self) -> Map<Seq<char>, Seq<char>> {
        map_of(self.typing_key_entries())
    }

    fn parse_typing_keys(line: &str) -> (r: Option<(&str, &str)>)
        ensures
            match r {
                None => spec_parse_typing_line(line@) is None,
                Some(kv) => spec_parse_typing_line(line@) == Some((kv.0@, kv.1@)),
            },
    {
        let cs = chars_of(line);
        let fields = split_chars(&cs, '\t');
        if fields.len() != 2 {
            return None;
        }
        let ghost f = fields@.map_values(|v: Vec<char>| v@);
        proof {
            let p = split_on(cs@, '\t');
            lemma_split_join(cs@, '\t');
            assert(p.drop_last() =~= seq![p[0]]);
            assert(join_with(p.drop_last(), '\t') == p[0]);
            assert(cs@ == p[0].push('\t') + p[1]);
        }
        assert(f[0] == fields[0]@ && f[1] == fields[1]@);
        let n: usize = cs.len();
        assert(fields[0].len() + 1 + fields[1].len() == n);
        let t: usize = fields[0].len();
        let value = line.substring_char(0, t);
        let key = line.substring_char(t + 1, n);
        assert(value@ =~= f[0]);
        assert(key@ =~= f[1]);
        Some((key, value))
    }

    fn convert_word(&self, word: &str) -> (r: Option<String>)
        ensures
            match r {
                None => spec_convert_word(self.typing_key_map(), word@) is None,
                Some(w) => spec_convert_word(self.typing_key_map(), word@) == Some(w@),
            },
    {
        proof {
            use_type_invariant(self);
        }
        let ghost pv = pairs_view(self.typing_keys@);
        let lowered = to_lowercase(word);
        let lowered_chars = chars_of(lowered.as_str());
        assert(string_keys(self.typing_keys@) =~= keys_of(pv));
        let p: String = match find_key(&self.typing_keys, &lowered_chars) {
            Ok(i) => {
                proof {
                    lemma_map_of(pv);
                    assert(pv[i as int].0 == lowered@);
                }
                self.typing_keys[i].1.clone()
            },
            Err(_) => {
                proof {
                    lemma_map_of_absent(pv, lowered@);
                }
                word.to_owned()
            },
        };
        let upper = to_uppercase(word);
        let upper_chars = chars_of(upper.as_str());
        let word_chars = chars_of(word);
        if compare_chars(&upper_chars, &word_chars) == 0 {
            Some(to_uppercase(p.as_str()))
        } else if word_chars.len() == 0 {
            None
        } else if is_uppercase(word_chars[0]) {
            Some(capitalize_first_letter(p))
        } else {
            Some(to_lowercase(p.as_str()))
        }
    }

    fn next_state(state: u8, c: char) -> (r: u8)
        ensures
            r == next_state(state, c),
    {
        let tone = c == 'z' || c == 'f' || c == 'r' || c == 'x' || c == 's' || c == 'j';
        let vowel = c == 'a' || c == 'e' || c == 'i' || c == 'o' || c == 'u' || c == 'y';
        let diacritic = c == 'a' || c == 'e' || c == 'o' || c == 'w';
        let other: u8 = if is_numeric(c) { 5 } else { 6 };
        if state == 2 {
            if tone {
                4
            } else if vowel || diacritic {
                2
            } else if is_alphabetic(c) {
                3
            } else {
                other
            }
        } else if state == 3 {
            if tone {
                4
            } else if is_alphabetic(c) {
                if vowel { 2 } else { 3 }
            } else {
                other
            }
        } else if is_alphabetic(c) {
            if vowel { 2 } else { 1 }
        } else {
            other
        }
    }

    fn convert_range(&self, istr: &Vec<char>, from: usize, to: usize) -> (r: Option<Vec<char>>)
        requires
            from <= to <= istr.len(),
        ensures
            match r {
                None => spec_convert_word(self.typing_key_map(), istr@.subrange(from as int, to as int)) is None,
                Some(w) => spec_convert_word(self.typing_key_map(), istr@.subrange(from as int, to as int)) == Some(w@),
            },
    {
        let word_chars = copy_range(istr, from, to);
        let word = string_from_chars(&word_chars);
        match self.convert_word(word.as_str()) {
            None => None,
            Some(w) => Some(chars_of(w.as_str())),
        }
    }

    /// Converts typed input into text, or `None` where the conversion cannot
    /// be carried out (see `spec_convert_input`).
    pub fn try_convert_input_string(&self, istr: String) -> (r: Option<String>)
        ensures
            match r {
                None => spec_convert_input(self.typing_key_map(), istr@) is None,
                Some(s) => spec_convert_input(self.typing_key_map(), istr@) == Some(s@),
            },
    {
        let ghost typing = self.typing_key_map();
        let chars = chars_of(istr.as_str());
        let lowered = to_lowercase(istr.as_str());
        let low = chars_of(lowered.as_str());
        let mut cws: usize = 0;
        let mut state: u8 = 0;
        let mut add_space: u8 = 0;
        let mut brackets: u8 = 0;
        let mut result: Vec<char> = Vec::new();
        let mut i: usize = 0;
        while i < low.len()
            invariant
                i <= low.len(),
                chars@ == istr@,
                low@ == str_lowercase(istr@),
                typing == self.typing_key_map(),
                cws <= i,
                convert_run(typing, chars@, low@, i as int) == Some((result@, state, cws as int, add_space, brackets)),
            decreases low.len() - i,
        {
            let c = low[i];
            let pv_state: u8 = state;
            state = Self::next_state(state, c);
            if state > 3 {
                if i >= chars.len() {
                    proof {
                        lemma_run_failed(typing, chars@, low@, i as int + 1, low.len() as int);
                    }
                    return None;
                }
                if state > 4 {
                    if pv_state < 4 {
                        let word = match self.convert_range(&chars, cws, i) {
                            None => {
                                proof {
                                    lemma_run_failed(typing, chars@, low@, i as int + 1, low.len() as int);
                                }
                                return None;
                            },
                            Some(w) => w,
                        };
                        push_word(&mut result, add_space, &word);
                    }
                    if i != 0 && !is_whitespace(c) && pv_state != state && space_before(c, brackets, pv_state == 5)
                        && (if state == 5 { add_space > 1 } else { true }) {
                        result.push(' ');
                    }
                    result.push(c);
                    match get_bracket_bit(c) {
                        Some(b) => { brackets = brackets ^ b; },
                        None => {},
                    }
                    add_space = space_after(c, brackets);
                    cws = i + 1;
                } else {
                    let word = match self.convert_range(&chars, cws, i + 1) {
                        None => {
                            proof {
                                lemma_run_failed(typing, chars@, low@, i as int + 1, low.len() as int);
                            }
                            return None;
                        },
                        Some(w) => w,
                    };
                    push_word(&mut result, add_space, &word);
                    add_space = 3;
                    cws = i + 1;
                }
            } else if i + 1 == chars.len() {
                let word = match self.convert_range(&chars, cws, chars.len()) {
                    None => {
                        proof {
                            lemma_run_failed(typing, chars@, low@, i as int + 1, low.len() as int);
                        }
                        return None;
                    },
                    Some(w) => w,
                };
                push_word(&mut result, add_space, &word);
            }
            assert(convert_run(typing, chars@, low@, i as int + 1) == Some((result@, state, cws as int, add_space, brackets)));
            i = i + 1;
        }
        Some(string_from_chars(&result))
    }

    /// Converts typed input into text: syllables end at tone keys, numbers
    /// and other characters; each word is written through its typing-key
    /// replacement with its case; spaces go around punctuation as its rules
    /// say.
    pub fn convert_input_string(&self, istr: String) -> (r: String)
        requires
            spec_convert_input(self.typing_key_map(), istr@) is Some,
        ensures
            spec_convert_input(self.typing_key_map(), istr@) == Some(r@),
    {
        match self.try_convert_input_string(istr) {
            Some(s) => s,
            None => String::new(),
        }
    }

    /// Collects the words a search offers, or `None` where converting the
    /// typed key cannot be carried out (see `spec_collect_words`).
    pub fn try_collect_words(&self, search_key: &str, is_incremental_search: bool) -> (r: Option<Vec<(String, String)>>)
        ensures
            match r {
                None => spec_collect_words(
                    self.dictionary_entries(),
                    self.abbreviation_entries(),
                    self.typing_key_map(),
                    search_key@,
                    is_incremental_search,
                ) is None,
                Some(v) => spec_collect_words(
                    self.dictionary_entries(),
                    self.abbreviation_entries(),
                    self.typing_key_map(),
                    search_key@,
                    is_incremental_search,
                ) == Some(v@.map_values(|p: (String, String)| (p.0@, p.1@))),
            },
    {
        proof {
            use_type_invariant(self);
        }
        let ghost dv = dict_view(self.dictionary@);
        let ghost av = abbr_view(self.abbreviations@);
        proof {
            lemma_dict_keys(self.dictionary@);
            lemma_map_of(dv);
            lemma_map_of(av);
            assert(string_keys(self.abbreviations@) =~= keys_of(av));
        }
        let lc = to_lowercase(search_key);
        let ck = match self.try_convert_input_string(lc.clone()) {
            None => { return None; },
            Some(c) => c,
        };
        let lc_chars = chars_of(lc.as_str());
        let ck_chars = chars_of(ck.as_str());
        let mut cands: Vec<CandidateEntry> = Vec::new();
        assert(candidate_views(cands@) =~= Seq::<Candidate>::empty());

        match find_key(&self.dictionary, &ck_chars) {
            Ok(i) => {
                assert(dv[i as int].0 == ck@);
                push_tagged(&mut cands, &ck, &self.dictionary[i].1, 0, false);
            },
            Err(_) => {
                proof {
                    lemma_map_of_absent(dv, ck@);
                    assert(inner_view(Seq::<(String, u8)>::empty()) =~= Seq::<(Seq<char>, u8)>::empty());
                }
            },
        }
        assert(candidate_views(cands@) == tagged(ck@, lookup_entries(dv, ck@), 0, false));
        let forms = get_word_forms(ck.clone());
        push_forms(&mut cands, &ck, &forms, 10);
        let ghost base = candidate_views(cands@);

        if compare_chars(&lc_chars, &ck_chars) != 0 {
            match find_key(&self.dictionary, &lc_chars) {
                Ok(i) => {
                    assert(dv[i as int].0 == lc@);
                    push_tagged(&mut cands, &lc, &self.dictionary[i].1, 3, false);
                },
                Err(_) => {
                    proof {
                        lemma_map_of_absent(dv, lc@);
                    }
                },
            }
            assert(candidate_views(cands@) =~= base + tagged(lc@, lookup_entries(dv, lc@), 3, false));
            let own_forms = get_word_forms(lc.clone());
            let mut found = false;
            let mut j: usize = 0;
            let key_chars = chars_of(search_key);
            let ghost fv = string_views(own_forms@);
            while j < own_forms.len()
                invariant
                    j <= own_forms.len(),
                    fv == string_views(own_forms@),
                    key_chars@ == search_key@,
                    found == exists|m: int| 0 <= m < j && #[trigger] fv[m] == search_key@,
                decreases own_forms.len() - j,
            {
                let form_chars = chars_of(own_forms[j].as_str());
                if compare_chars(&form_chars, &key_chars) == 0 {
                    found = true;
                    assert(fv[j as int] == search_key@);
                }
                j = j + 1;
            }
            assert(found == fv.contains(search_key@));
            if !found {
                push_candidate(&mut cands, &lc, search_key.to_owned(), 0, 12);
            }
            push_forms(&mut cands, &lc, &own_forms, 11);
            assert(candidate_views(cands@) =~= base + (tagged(lc@, lookup_entries(dv, lc@), 3, false) + (if !sorted_word_forms(lc@).contains(search_key@) {
                seq![(lc@, search_key@, 0u8, 12u8)]
            } else {
                Seq::empty()
            }) + forms_tagged(lc@, sorted_word_forms(lc@), 11)));
        } else {
            assert(candidate_views(cands@) =~= base + Seq::<Candidate>::empty());
        }
        let ghost with_own = candidate_views(cands@);

        if lc_chars.len() > 1 {
            match find_key(&self.abbreviations, &lc_chars) {
                Ok(i) => {
                    assert(av[i as int].0 == lc@);
                    assert(map_of(av)[lc@] == string_views(self.abbreviations@[i as int].1@));
                    proof {
                        let keys = string_views(self.abbreviations@[i as int].1@);
                        assert forall|m: int| 0 <= m < keys.len() implies map_of(dv).contains_key(#[trigger] keys[m]) by {
                            assert(keys.contains(keys[m]));
                            assert(set_map(av).contains_key(lc@));
                            assert(set_map(av)[lc@] == keys.to_set());
                            assert(set_map(av)[lc@].contains(keys[m]));
                            assert(nested_map(dv).contains_key(keys[m]));
                        }
                    }
                    push_abbreviation_group(&mut cands, &self.dictionary, &self.abbreviations[i].1);
                },
                Err(_) => {
                    proof {
                        lemma_map_of_absent(av, lc@);
                    }
                    assert(candidate_views(cands@) =~= with_own + Seq::<Candidate>::empty());
                },
            }
        } else {
            assert(candidate_views(cands@) =~= with_own + Seq::<Candidate>::empty());
        }
        let ghost with_abbr = candidate_views(cands@);

        if is_incremental_search {
            let mut prefix = ck_chars.clone();
            prefix.push(' ');
            assert(prefix@ =~= ck@.push(' '));
            push_prefix_group(&mut cands, &self.dictionary, &prefix);
            push_continuation_group(&mut cands, &self.dictionary, &lc_chars);
            assert(candidate_views(cands@) =~= with_abbr + (prefix_group(dv, ck@.push(' ')) + continuation_group(dv, lc@)));
        } else {
            assert(candidate_views(cands@) =~= with_abbr + Seq::<Candidate>::empty());
        }
        assert(candidate_views(cands@) =~= spec_candidates(dv, av, search_key@, lc@, ck@, is_incremental_search));
        let sorted = sort_candidates(cands);
        Some(into_key_values(sorted))
    }

    /// Collects the words a search offers for a typed key, in offering
    /// order: the converted key's values and word forms, the typed key's
    /// own values and forms, the keys it abbreviates, and for an
    /// incremental search the keys that extend it (see `spec_candidates`).
    pub fn collect_words(&self, search_key: &str, is_incremental_search: bool) -> (r: Vec<(String, String)>)
        requires
            spec_collect_words(
                self.dictionary_entries(),
                self.abbreviation_entries(),
                self.typing_key_map(),
                search_key@,
                is_incremental_search,
            ) is Some,
        ensures
            spec_collect_words(
                self.dictionary_entries(),
                self.abbreviation_entries(),
                self.typing_key_map(),
                search_key@,
                is_incremental_search,
            ) == Some(r@.map_values(|p: (String, String)| (p.0@, p.1@))),
    {
        match self.try_collect_words(search_key, is_incremental_search) {
            Some(v) => v,
            None => Vec::new(),
        }
    }

    /// Builds the engine from a dictionary text (`key<TAB>value<TAB>priority`
    /// lines) and a style text (`value<TAB>key` lines); other lines are skipped.
    pub fn load_resources(ds: &str, tss: &str) -> (e: TableDictionaryEngine)
        requires
            forall|i: int| 0 <= i < spec_lines(ds@).len() ==> line_well_formed(#[trigger] spec_lines(ds@)[i]),
        ensures
            e.dictionary_map() == spec_dictionary(spec_lines(ds@)),
            e.abbreviation_map() == spec_abbreviations(spec_lines(ds@)),
            e.typing_key_map() == spec_typing_keys(spec_lines(tss@)),
            dict_sorted(e.dictionary_entries()),
            abbr_sorted(e.abbreviation_entries()),
            strictly_sorted(keys_of(e.typing_key_entries())),
    {
        let mut dictionary: Vec<(String, Vec<(String, u8)>)> = Vec::new();
        let mut abbreviations: Vec<(String, Vec<String>)> = Vec::new();
        let mut typing_keys: Vec<(String, String)> = Vec::new();
        let lines = lines_of(ds);
        let ghost ls = spec_lines(ds@);
        let mut i: usize = 0;
        assert(ls.take(0) =~= Seq::<Seq<char>>::empty());
        assert(nested_map(dict_view(dictionary@)) =~= Map::<Seq<char>, Map<Seq<char>, u8>>::empty());
        assert(set_map(abbr_view(abbreviations@)) =~= Map::<Seq<char>, Set<Seq<char>>>::empty());
        while i < lines.len()
            invariant
                i <= lines.len(),
                lines@.len() == ls.len(),
                ls == spec_lines(ds@),
                forall|j: int| 0 <= j < lines@.len() ==> lines@[j]@ == ls[j],
                forall|j: int| 0 <= j < ls.len() ==> line_well_formed(#[trigger] ls[j]),
                dict_sorted(dict_view(dictionary@)),
                abbr_sorted(abbr_view(abbreviations@)),
                nested_map(dict_view(dictionary@)) == spec_dictionary(ls.take(i as int)),
                set_map(abbr_view(abbreviations@)) == spec_abbreviations(ls.take(i as int)),
                abbreviations_in_dictionary(set_map(abbr_view(abbreviations@)), nested_map(dict_view(dictionary@))),
            decreases lines.len() - i,
        {
            let line = lines[i];
            assert(ls.take(i as int + 1).drop_last() =~= ls.take(i as int));
            assert(ls.take(i as int + 1).last() == line@);
            assert(line_well_formed(ls[i as int]));
            match parse_line(line) {
                None => {},
                Some((key, value, priority)) => {
                    let key = to_lowercase(key);
                    let ghost k = key@;
                    add_entry(&mut dictionary, key.clone(), value.to_owned(), priority);
                    assert(nested_map(dict_view(dictionary@)).contains_key(k));
                    let abbrs = get_abbreviation(key.clone());
                    let ghost avs = string_views(abbrs@);
                    let ghost a0 = set_map(abbr_view(abbreviations@));
                    let mut j: usize = 0;
                    assert(avs.take(0) =~= Seq::<Seq<char>>::empty());
                    while j < abbrs.len()
                        invariant
                            j <= abbrs.len(),
                            avs == string_views(abbrs@),
                            key@ == k,
                            abbr_sorted(abbr_view(abbreviations@)),
                            set_map(abbr_view(abbreviations@)) == abbreviations_add_all(a0, avs.take(j as int), k),
                            nested_map(dict_view(dictionary@)).contains_key(k),
                            abbreviations_in_dictionary(set_map(abbr_view(abbreviations@)), nested_map(dict_view(dictionary@))),
                        decreases abbrs.len() - j,
                    {
                        assert(avs.take(j as int + 1).drop_last() =~= avs.take(j as int));
                        add_abbreviation(&mut abbreviations, abbrs[j].clone(), key.clone());
                        j = j + 1;
                    }
                    assert(avs.take(abbrs.len() as int) =~= avs);
                },
            }
            i = i + 1;
        }
        assert(ls.take(lines.len() as int) =~= ls);

        let style_lines = lines_of(tss);
        let ghost ts = spec_lines(tss@);
        let mut i: usize = 0;
        assert(ts.take(0) =~= Seq::<Seq<char>>::empty());
        assert(map_of(pairs_view(typing_keys@)) =~= Map::<Seq<char>, Seq<char>>::empty());
        while i < style_lines.len()
            invariant
                i <= style_lines.len(),
                style_lines@.len() == ts.len(),
                ts == spec_lines(tss@),
                forall|j: int| 0 <= j < style_lines@.len() ==> style_lines@[j]@ == ts[j],
                strictly_sorted(keys_of(pairs_view(typing_keys@))),
                map_of(pairs_view(typing_keys@)) == spec_typing_keys(ts.take(i as int)),
            decreases style_lines.len() - i,
        {
            let line = style_lines[i];
            assert(ts.take(i as int + 1).drop_last() =~= ts.take(i as int));
            assert(ts.take(i as int + 1).last() == line@);
            match Self::parse_typing_keys(line) {
                None => {},
                Some((k, v)) => {
                    set_typing_key(&mut typing_keys, k.to_owned(), v.to_owned());
                },
            }
            i = i + 1;
        }
        assert(ts.take(style_lines.len() as int) =~= ts);
        TableDictionaryEngine { dictionary, abbreviations, typing_keys }
    }
}

} // verus!
