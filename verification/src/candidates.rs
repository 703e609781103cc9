//! Candidate words of a dictionary search: how they are gathered from the
//! dictionary and in which order they are offered.

use vstd::prelude::*;
use crate::unicode::{str_lowercase, to_lowercase, chars_of};
use crate::text::{
    chars_start_with, compare_chars, contains_char, lemma_lex_asym, lemma_lex_trans, lex_lt, starts_with,
    string_views,
};
use vstd::multiset::Multiset;
use vstd::seq_lib::{to_multiset_build, to_multiset_contains, to_multiset_insert};
use crate::sorted_map::{find_key, keys_of, lemma_map_of, lemma_map_of_absent, map_of, string_keys};
use crate::engine::{dict_sorted, dict_view, inner_view, lemma_dict_keys, spec_convert_input};
use crate::strings::sorted_word_forms;

verus! {

/// A candidate: key, value, priority, and the group it was found in.
pub type Candidate = (Seq<char>, Seq<char>, u8, u8);

/// A gathered candidate: key, value, priority, group, and the lower-cased key.
pub type CandidateEntry = (String, String, u8, u8, Vec<char>);

/// The characters of a gathered candidate.
pub open spec fn candidate_view(e: CandidateEntry) -> Candidate {
    (e.0@, e.1@, e.2, e.3)
}

/// The characters of gathered candidates.
pub open spec fn candidate_views(s: Seq<CandidateEntry>) -> Seq<Candidate> {
    s.map_values(|e: CandidateEntry| candidate_view(e))
}

/// Each gathered candidate carries its key lower-cased.
pub open spec fn lowered_keys(s: Seq<CandidateEntry>) -> bool {
    forall|i: int| 0 <= i < s.len() ==> (#[trigger] s[i]).4@ == str_lowercase(s[i].0@)
}

/// The values of a key as candidates of a group, in order; with
/// `positive_only`, only those with a priority above zero.
pub open spec fn tagged(key: Seq<char>, es: Seq<(Seq<char>, u8)>, group: u8, positive_only: bool) -> Seq<Candidate>
    decreases es.len(),
{
    if es.len() == 0 {
        Seq::empty()
    } else {
        let rest = tagged(key, es.drop_last(), group, positive_only);
        let e = es.last();
        if !positive_only || e.1 > 0 {
            rest.push((key, e.0, e.1, group))
        } else {
            rest
        }
    }
}

/// Word forms of a key as candidates of a group, with priority zero.
pub open spec fn forms_tagged(key: Seq<char>, forms: Seq<Seq<char>>, group: u8) -> Seq<Candidate> {
    forms.map_values(|w: Seq<char>| (key, w, 0u8, group))
}

/// The values of a key in the dictionary entries (none if it is absent).
pub open spec fn lookup_entries(
    dv: Seq<(Seq<char>, Seq<(Seq<char>, u8)>)>,
    key: Seq<char>,
) -> Seq<(Seq<char>, u8)> {
    if map_of(dv).contains_key(key) { map_of(dv)[key] } else { Seq::empty() }
}

/// The positive-priority values of the given keys, key after key, in group 8.
pub open spec fn abbreviation_group(
    dv: Seq<(Seq<char>, Seq<(Seq<char>, u8)>)>,
    keys: Seq<Seq<char>>,
) -> Seq<Candidate>
    decreases keys.len(),
{
    if keys.len() == 0 {
        Seq::empty()
    } else {
        abbreviation_group(dv, keys.drop_last()) + tagged(keys.last(), lookup_entries(dv, keys.last()), 8, true)
    }
}

/// The positive-priority values of the dictionary keys that start with
/// `prefix`, in key order, in group 6.
pub open spec fn prefix_group(dv: Seq<(Seq<char>, Seq<(Seq<char>, u8)>)>, prefix: Seq<char>) -> Seq<Candidate>
    decreases dv.len(),
{
    if dv.len() == 0 {
        Seq::empty()
    } else {
        let rest = prefix_group(dv.drop_last(), prefix);
        if starts_with(dv.last().0, prefix) {
            rest + tagged(dv.last().0, dv.last().1, 6, true)
        } else {
            rest
        }
    }
}

/// A key continues the typed text as one word: it is longer, starts with
/// it, and has no space.
pub open spec fn continues(key: Seq<char>, typed: Seq<char>) -> bool {
    starts_with(key, typed) && !key.contains(' ') && key.len() > typed.len()
}

/// The positive-priority values of the dictionary keys that continue the
/// typed text, in key order, in group 6.
pub open spec fn continuation_group(dv: Seq<(Seq<char>, Seq<(Seq<char>, u8)>)>, typed: Seq<char>) -> Seq<Candidate>
    decreases dv.len(),
{
    if dv.len() == 0 {
        Seq::empty()
    } else {
        let rest = continuation_group(dv.drop_last(), typed);
        if continues(dv.last().0, typed) {
            rest + tagged(dv.last().0, dv.last().1, 6, true)
        } else {
            rest
        }
    }
}

/// `a` is offered strictly before `b`: a lower group, then a higher
/// priority, then its lower-cased key first.
pub open spec fn comes_before(a: Candidate, b: Candidate) -> bool {
    ||| a.3 < b.3
    ||| a.3 == b.3 && a.2 > b.2
    ||| a.3 == b.3 && a.2 == b.2 && lex_lt(str_lowercase(a.0), str_lowercase(b.0))
}

/// `x` inserted after the leading elements that do not come after it.
pub open spec fn insert_stable(s: Seq<Candidate>, x: Candidate) -> Seq<Candidate>
    decreases s.len(),
{
    if s.len() == 0 {
        seq![x]
    } else if comes_before(x, s[0]) {
        seq![x] + s
    } else {
        seq![s[0]] + insert_stable(s.drop_first(), x)
    }
}

/// The candidates in offering order; candidates that tie keep their order
/// (a stable sort).
pub open spec fn stable_sort(s: Seq<Candidate>) -> Seq<Candidate>
    decreases s.len(),
{
    if s.len() == 0 {
        Seq::empty()
    } else {
        insert_stable(stable_sort(s.drop_last()), s.last())
    }
}

proof fn lemma_insert_stable(s: Seq<Candidate>, x: Candidate, p: int)
    requires
        0 <= p <= s.len(),
        forall|j: int| 0 <= j < p ==> !comes_before(x, #[trigger] s[j]),
        p == s.len() || comes_before(x, s[p]),
    ensures
        insert_stable(s, x) == s.insert(p, x),
    decreases p,
{
    if p == 0 {
        if s.len() == 0 {
            assert(seq![x] =~= s.insert(0, x));
        } else {
            assert(seq![x] + s =~= s.insert(0, x));
        }
    } else {
        assert(!comes_before(x, s[0]));
        let t = s.drop_first();
        assert forall|j: int| 0 <= j < p - 1 implies !comes_before(x, #[trigger] t[j]) by {
            assert(t[j] == s[j + 1]);
        }
        lemma_insert_stable(t, x, p - 1);
        assert(seq![s[0]] + t.insert(p - 1, x) =~= s.insert(p, x));
    }
}

fn key_lowered(key: &String) -> (r: Vec<char>)
    ensures
        r@ == str_lowercase(key@),
{
    let l = to_lowercase(key.as_str());
    chars_of(l.as_str())
}

/// Whether `a` comes strictly before `b`.
fn comes_before_exec(a: &CandidateEntry, b: &CandidateEntry) -> (r: bool)
    requires
        a.4@ == str_lowercase(a.0@),
        b.4@ == str_lowercase(b.0@),
    ensures
        r == comes_before(candidate_view(*a), candidate_view(*b)),
{
    if a.3 != b.3 {
        a.3 < b.3
    } else if a.2 != b.2 {
        a.2 > b.2
    } else {
        compare_chars(&a.4, &b.4) < 0
    }
}

fn insert_candidate(v: &mut Vec<CandidateEntry>, x: CandidateEntry)
    requires
        lowered_keys(old(v)@),
        x.4@ == str_lowercase(x.0@),
    ensures
        lowered_keys(final(v)@),
        candidate_views(final(v)@) == insert_stable(candidate_views(old(v)@), candidate_view(x)),
{
    let ghost s = candidate_views(v@);
    let mut p: usize = 0;
    while p < v.len() && !comes_before_exec(&x, &v[p])
        invariant
            p <= v.len(),
            v@ == old(v)@,
            s == candidate_views(v@),
            lowered_keys(v@),
            x.4@ == str_lowercase(x.0@),
            forall|j: int| 0 <= j < p ==> !comes_before(candidate_view(x), #[trigger] s[j]),
        decreases v.len() - p,
    {
        p = p + 1;
    }
    proof {
        lemma_insert_stable(s, candidate_view(x), p as int);
    }
    v.insert(p, x);
    assert(candidate_views(v@) =~= s.insert(p as int, candidate_view(x)));
    assert forall|i: int| 0 <= i < v@.len() implies (#[trigger] v@[i]).4@ == str_lowercase(v@[i].0@) by {
        if i < p {
            assert(v@[i] == old(v)@[i]);
        } else if i > p {
            assert(v@[i] == old(v)@[i - 1]);
        }
    }
}

/// Sorts gathered candidates into offering order, keeping ties in order.
pub(crate) fn sort_candidates(cands: Vec<CandidateEntry>) -> (r: Vec<CandidateEntry>)
    requires
        lowered_keys(cands@),
    ensures
        candidate_views(r@) == stable_sort(candidate_views(cands@)),
{
    let ghost orig = cands@;
    let ghost cv = candidate_views(orig);
    let mut sorted: Vec<CandidateEntry> = Vec::new();
    let mut rest = cands;
    let mut i: usize = 0;
    let n: usize = rest.len();
    assert(cv.take(0) =~= Seq::<Candidate>::empty());
    assert(rest@ =~= orig.skip(0));
    while i < n
        invariant
            i <= n,
            n == orig.len(),
            cv == candidate_views(orig),
            lowered_keys(orig),
            rest@ == orig.skip(i as int),
            lowered_keys(sorted@),
            candidate_views(sorted@) == stable_sort(cv.take(i as int)),
        decreases n - i,
    {
        let x = rest.remove(0);
        assert(x == orig[i as int]);
        assert(rest@ =~= orig.skip(i as int + 1));
        assert(cv.take(i as int + 1).drop_last() =~= cv.take(i as int));
        assert(cv.take(i as int + 1).last() == candidate_view(x));
        insert_candidate(&mut sorted, x);
        i = i + 1;
    }
    assert(cv.take(n as int) =~= cv);
    sorted
}

pub(crate) fn push_candidate(out: &mut Vec<CandidateEntry>, key: &String, value: String, priority: u8, group: u8)
    requires
        lowered_keys(old(out)@),
    ensures
        lowered_keys(final(out)@),
        candidate_views(final(out)@) == candidate_views(old(out)@).push((key@, value@, priority, group)),
{
    let lowered = key_lowered(key);
    out.push((key.clone(), value, priority, group, lowered));
    assert(candidate_views(out@) =~= candidate_views(old(out)@).push((key@, value@, priority, group)));
    assert forall|i: int| 0 <= i < out@.len() implies (#[trigger] out@[i]).4@ == str_lowercase(out@[i].0@) by {
        if i < old(out)@.len() {
            assert(out@[i] == old(out)@[i]);
        }
    }
}

/// Appends the values of a key as candidates of a group.
pub(crate) fn push_tagged(
    out: &mut Vec<CandidateEntry>,
    key: &String,
    es: &Vec<(String, u8)>,
    group: u8,
    positive_only: bool,
)
    requires
        lowered_keys(old(out)@),
    ensures
        lowered_keys(final(out)@),
        candidate_views(final(out)@) == candidate_views(old(out)@) + tagged(key@, inner_view(es@), group, positive_only),
{
    let ghost iv = inner_view(es@);
    let ghost start = candidate_views(out@);
    let mut j: usize = 0;
    assert(iv.take(0) =~= Seq::<(Seq<char>, u8)>::empty());
    assert(start + tagged(key@, iv.take(0), group, positive_only) =~= start);
    while j < es.len()
        invariant
            j <= es.len(),
            iv == inner_view(es@),
            lowered_keys(out@),
            candidate_views(out@) == start + tagged(key@, iv.take(j as int), group, positive_only),
        decreases es.len() - j,
    {
        assert(iv.take(j as int + 1).drop_last() =~= iv.take(j as int));
        assert(iv.take(j as int + 1).last() == (es@[j as int].0@, es@[j as int].1));
        if !positive_only || es[j].1 > 0 {
            push_candidate(out, key, es[j].0.clone(), es[j].1, group);
            assert(candidate_views(out@) =~= start + tagged(key@, iv.take(j as int + 1), group, positive_only));
        }
        j = j + 1;
    }
    assert(iv.take(es.len() as int) =~= iv);
}

/// Appends word forms of a key as candidates of a group.
pub(crate) fn push_forms(out: &mut Vec<CandidateEntry>, key: &String, forms: &Vec<String>, group: u8)
    requires
        lowered_keys(old(out)@),
    ensures
        lowered_keys(final(out)@),
        candidate_views(final(out)@) == candidate_views(old(out)@) + forms_tagged(key@, string_views(forms@), group),
{
    let ghost fv = string_views(forms@);
    let ghost start = candidate_views(out@);
    let mut j: usize = 0;
    while j < forms.len()
        invariant
            j <= forms.len(),
            fv == string_views(forms@),
            lowered_keys(out@),
            candidate_views(out@) == start + forms_tagged(key@, fv.take(j as int), group),
        decreases forms.len() - j,
    {
        push_candidate(out, key, forms[j].clone(), 0, group);
        assert(forms_tagged(key@, fv.take(j as int + 1), group) =~= forms_tagged(key@, fv.take(j as int), group).push((key@, fv[j as int], 0u8, group)));
        assert(candidate_views(out@) =~= start + forms_tagged(key@, fv.take(j as int + 1), group));
        j = j + 1;
    }
    assert(fv.take(forms.len() as int) =~= fv);
}

/// Appends the positive-priority values of dictionary keys that satisfy a
/// prefix condition, in key order: starting with `typed` (`continuation`
/// false), or continuing `typed` as one word (`continuation` true).
fn push_matching_keys(
    out: &mut Vec<CandidateEntry>,
    dict: &Vec<(String, Vec<(String, u8)>)>,
    typed: &Vec<char>,
    continuation: bool,
)
    requires
        lowered_keys(old(out)@),
    ensures
        lowered_keys(final(out)@),
        candidate_views(final(out)@) == candidate_views(old(out)@) + if continuation {
            continuation_group(dict_view(dict@), typed@)
        } else {
            prefix_group(dict_view(dict@), typed@)
        },
{
    let ghost dv = dict_view(dict@);
    let ghost start = candidate_views(out@);
    let mut j: usize = 0;
    assert(dv.take(0) =~= Seq::<(Seq<char>, Seq<(Seq<char>, u8)>)>::empty());
    assert(start + continuation_group(dv.take(0), typed@) =~= start);
    assert(start + prefix_group(dv.take(0), typed@) =~= start);
    while j < dict.len()
        invariant
            j <= dict.len(),
            dv == dict_view(dict@),
            lowered_keys(out@),
            candidate_views(out@) == start + if continuation {
                continuation_group(dv.take(j as int), typed@)
            } else {
                prefix_group(dv.take(j as int), typed@)
            },
        decreases dict.len() - j,
    {
        let key = &dict[j].0;
        let key_chars = chars_of(key.as_str());
        assert(dv.take(j as int + 1).drop_last() =~= dv.take(j as int));
        assert(dv.take(j as int + 1).last() == (key@, inner_view(dict@[j as int].1@)));
        let selected = if continuation {
            chars_start_with(&key_chars, typed) && !contains_char(&key_chars, ' ') && key_chars.len() > typed.len()
        } else {
            chars_start_with(&key_chars, typed)
        };
        if selected {
            push_tagged(out, key, &dict[j].1, 6, true);
        }
        assert(candidate_views(out@) =~= start + if continuation {
            continuation_group(dv.take(j as int + 1), typed@)
        } else {
            prefix_group(dv.take(j as int + 1), typed@)
        });
        j = j + 1;
    }
    assert(dv.take(dict.len() as int) =~= dv);
}

/// Appends the dictionary keys that start with `prefix`, in group 6.
pub(crate) fn push_prefix_group(out: &mut Vec<CandidateEntry>, dict: &Vec<(String, Vec<(String, u8)>)>, prefix: &Vec<char>)
    requires
        lowered_keys(old(out)@),
    ensures
        lowered_keys(final(out)@),
        candidate_views(final(out)@) == candidate_views(old(out)@) + prefix_group(dict_view(dict@), prefix@),
{
    push_matching_keys(out, dict, prefix, false);
}

/// Appends the dictionary keys that continue `typed` as one word, in group 6.
pub(crate) fn push_continuation_group(out: &mut Vec<CandidateEntry>, dict: &Vec<(String, Vec<(String, u8)>)>, typed: &Vec<char>)
    requires
        lowered_keys(old(out)@),
    ensures
        lowered_keys(final(out)@),
        candidate_views(final(out)@) == candidate_views(old(out)@) + continuation_group(dict_view(dict@), typed@),
{
    push_matching_keys(out, dict, typed, true);
}

/// Appends the positive-priority values of the given dictionary keys, key
/// after key, in group 8.
pub(crate) fn push_abbreviation_group(
    out: &mut Vec<CandidateEntry>,
    dict: &Vec<(String, Vec<(String, u8)>)>,
    keys: &Vec<String>,
)
    requires
        lowered_keys(old(out)@),
        dict_sorted(dict_view(dict@)),
        forall|i: int| 0 <= i < keys@.len() ==> map_of(dict_view(dict@)).contains_key(#[trigger] string_views(keys@)[i]),
    ensures
        lowered_keys(final(out)@),
        candidate_views(final(out)@) == candidate_views(old(out)@) + abbreviation_group(dict_view(dict@), string_views(keys@)),
{
    let ghost dv = dict_view(dict@);
    let ghost kv = string_views(keys@);
    let ghost start = candidate_views(out@);
    proof {
        lemma_dict_keys(dict@);
        lemma_map_of(dv);
    }
    let mut j: usize = 0;
    assert(kv.take(0) =~= Seq::<Seq<char>>::empty());
    assert(start + abbreviation_group(dv, kv.take(0)) =~= start);
    while j < keys.len()
        invariant
            j <= keys.len(),
            dv == dict_view(dict@),
            kv == string_views(keys@),
            dict_sorted(dv),
            string_keys(dict@) == keys_of(dv),
            forall|i: int| 0 <= i < keys@.len() ==> map_of(dv).contains_key(#[trigger] kv[i]),
            forall|i: int| 0 <= i < dv.len() ==> #[trigger] map_of(dv)[dv[i].0] == dv[i].1,
            lowered_keys(out@),
            candidate_views(out@) == start + abbreviation_group(dv, kv.take(j as int)),
        decreases keys.len() - j,
    {
        let key = &keys[j];
        let key_chars = chars_of(key.as_str());
        assert(kv.take(j as int + 1).drop_last() =~= kv.take(j as int));
        assert(kv.take(j as int + 1).last() == key@);
        assert(map_of(dv).contains_key(kv[j as int]));
        match find_key(dict, &key_chars) {
            Ok(i) => {
                assert(dv[i as int].0 == key@);
                assert(lookup_entries(dv, key@) == inner_view(dict@[i as int].1@));
                push_tagged(out, key, &dict[i].1, 8, true);
                assert(candidate_views(out@) =~= start + abbreviation_group(dv, kv.take(j as int + 1)));
            },
            Err(_) => {
                proof {
                    lemma_map_of_absent(dv, key@);
                }
            },
        }
        j = j + 1;
    }
    assert(kv.take(keys.len() as int) =~= kv);
}

/// What an incremental search gathers besides a plain one: the
/// positive-priority values of the keys that extend the converted key `ck`
/// by further words, then of those that continue the typed key `lc` as one
/// word.
pub open spec fn search_extension(
    dv: Seq<(Seq<char>, Seq<(Seq<char>, u8)>)>,
    ck: Seq<char>,
    lc: Seq<char>,
) -> Seq<Candidate> {
    prefix_group(dv, ck.push(' ')) + continuation_group(dv, lc)
}

/// The candidates of a search, in the order they are gathered: the values
/// of the converted key (group 0) and its word forms (10); when the typed
/// key converts to something else, the typed key's values (3), the typed
/// text itself unless it is one of the typed key's forms (12), and those
/// forms (11); for a typed key of more than one character that is an
/// abbreviation, the positive-priority values of the keys it abbreviates
/// (8); for an incremental search, the positive-priority values of the keys
/// that extend the converted key by further words, and of those that
/// continue the typed key as one word (6).
pub open spec fn spec_candidates(
    dv: Seq<(Seq<char>, Seq<(Seq<char>, u8)>)>,
    av: Seq<(Seq<char>, Seq<Seq<char>>)>,
    search_key: Seq<char>,
    lc: Seq<char>,
    ck: Seq<char>,
    incremental: bool,
) -> Seq<Candidate> {
    let base = tagged(ck, lookup_entries(dv, ck), 0, false) + forms_tagged(ck, sorted_word_forms(ck), 10);
    let own = if lc != ck {
        tagged(lc, lookup_entries(dv, lc), 3, false) + (if !sorted_word_forms(lc).contains(search_key) {
            seq![(lc, search_key, 0u8, 12u8)]
        } else {
            Seq::empty()
        }) + forms_tagged(lc, sorted_word_forms(lc), 11)
    } else {
        Seq::empty()
    };
    let abbreviated = if lc.len() > 1 && map_of(av).contains_key(lc) {
        abbreviation_group(dv, map_of(av)[lc])
    } else {
        Seq::empty()
    };
    let extended = if incremental { search_extension(dv, ck, lc) } else { Seq::empty() };
    base + own + abbreviated + extended
}

/// The key and value of each candidate.
pub open spec fn key_values(s: Seq<Candidate>) -> Seq<(Seq<char>, Seq<char>)> {
    s.map_values(|c: Candidate| (c.0, c.1))
}

/// The words a search offers: the typed key lower-cased and converted, its
/// candidates gathered and put in offering order. `None` where the
/// conversion cannot be carried out.
pub open spec fn spec_collect_words(
    dv: Seq<(Seq<char>, Seq<(Seq<char>, u8)>)>,
    av: Seq<(Seq<char>, Seq<Seq<char>>)>,
    typing: Map<Seq<char>, Seq<char>>,
    search_key: Seq<char>,
    incremental: bool,
) -> Option<Seq<(Seq<char>, Seq<char>)>> {
    let lc = str_lowercase(search_key);
    match spec_convert_input(typing, lc) {
        None => None,
        Some(ck) => Some(key_values(stable_sort(spec_candidates(dv, av, search_key, lc, ck, incremental)))),
    }
}

/// The key and value of each sorted candidate.
pub(crate) fn into_key_values(cands: Vec<CandidateEntry>) -> (r: Vec<(String, String)>)
    ensures
        r@.map_values(|p: (String, String)| (p.0@, p.1@)) == key_values(candidate_views(cands@)),
{
    let ghost cv = candidate_views(cands@);
    let mut r: Vec<(String, String)> = Vec::new();
    let mut rest = cands;
    let ghost orig = rest@;
    let n: usize = rest.len();
    let mut i: usize = 0;
    assert(rest@ =~= orig.skip(0));
    while i < n
        invariant
            i <= n,
            n == orig.len(),
            cv == candidate_views(orig),
            rest@ == orig.skip(i as int),
            r@.map_values(|p: (String, String)| (p.0@, p.1@)) == key_values(cv.take(i as int)),
        decreases n - i,
    {
        let e = rest.remove(0);
        assert(e == orig[i as int]);
        assert(rest@ =~= orig.skip(i as int + 1));
        let ghost ev = (e.0@, e.1@);
        let ghost before = r@;
        assert(cv[i as int] == candidate_view(e));
        assert(cv.take(i as int + 1) =~= cv.take(i as int).push(cv[i as int]));
        assert(key_values(cv.take(i as int + 1)) =~= key_values(cv.take(i as int)).push(ev));
        r.push((e.0, e.1));
        assert(r@ == before.push(r@.last()));
        assert(r@.map_values(|p: (String, String)| (p.0@, p.1@)) =~= before.map_values(|p: (String, String)| (p.0@, p.1@)).push(ev));
        i = i + 1;
    }
    assert(cv.take(n as int) =~= cv);
    r
}

/// No candidate comes strictly before one that precedes it.
pub open spec fn offered_in_order(r: Seq<Candidate>) -> bool {
    forall|i: int, j: int| 0 <= i < j < r.len() ==> !comes_before(r[j], r[i])
}

/// `comes_before` is a strict order: asymmetric and transitive.
pub proof fn lemma_comes_before_order(a: Candidate, b: Candidate, c: Candidate)
    ensures
        !(comes_before(a, b) && comes_before(b, a)),
        comes_before(a, b) && comes_before(b, c) ==> comes_before(a, c),
{
    lemma_lex_asym(str_lowercase(a.0), str_lowercase(b.0));
    if comes_before(a, b) && comes_before(b, c) && a.3 == b.3 && b.3 == c.3 && a.2 == b.2 && b.2 == c.2 {
        lemma_lex_trans(str_lowercase(a.0), str_lowercase(b.0), str_lowercase(c.0));
    }
}

proof fn lemma_insert_stable_multiset(t: Seq<Candidate>, x: Candidate)
    ensures
        insert_stable(t, x).to_multiset() == t.to_multiset().insert(x),
    decreases t.len(),
{
    if t.len() == 0 {
        assert(insert_stable(t, x) =~= t.insert(0, x));
        to_multiset_insert(t, 0, x);
    } else if comes_before(x, t[0]) {
        assert(insert_stable(t, x) =~= t.insert(0, x));
        to_multiset_insert(t, 0, x);
    } else {
        let t1 = t.drop_first();
        lemma_insert_stable_multiset(t1, x);
        let r1 = insert_stable(t1, x);
        assert(insert_stable(t, x) =~= r1.insert(0, t[0]));
        to_multiset_insert(r1, 0, t[0]);
        assert(t =~= t1.insert(0, t[0]));
        to_multiset_insert(t1, 0, t[0]);
        assert(r1.to_multiset().insert(t[0]) =~= t1.to_multiset().insert(t[0]).insert(x));
    }
}

proof fn lemma_insert_stable_in_order(t: Seq<Candidate>, x: Candidate)
    requires
        offered_in_order(t),
    ensures
        offered_in_order(insert_stable(t, x)),
    decreases t.len(),
{
    if t.len() == 0 {
    } else if comes_before(x, t[0]) {
        let r = insert_stable(t, x);
        assert forall|i: int, j: int| 0 <= i < j < r.len() implies !comes_before(r[j], r[i]) by {
            if i == 0 {
                assert(r[j] == t[j - 1]);
                lemma_comes_before_order(t[j - 1], x, t[0]);
                if j - 1 > 0 {
                    assert(!comes_before(t[j - 1], t[0]));
                }
            } else {
                assert(r[i] == t[i - 1] && r[j] == t[j - 1]);
            }
        }
    } else {
        let t1 = t.drop_first();
        assert forall|i: int, j: int| 0 <= i < j < t1.len() implies !comes_before(t1[j], t1[i]) by {
            assert(t1[i] == t[i + 1] && t1[j] == t[j + 1]);
        }
        lemma_insert_stable_in_order(t1, x);
        lemma_insert_stable_multiset(t1, x);
        let r1 = insert_stable(t1, x);
        let r = insert_stable(t, x);
        assert(r =~= seq![t[0]] + r1);
        assert forall|i: int, j: int| 0 <= i < j < r.len() implies !comes_before(r[j], r[i]) by {
            if i == 0 {
                let y = r1[j - 1];
                assert(r[j] == y);
                assert(r1.to_multiset().count(y) > 0) by {
                    to_multiset_contains(r1, y);
                    assert(r1.contains(y));
                }
                assert(t1.to_multiset().insert(x).count(y) > 0);
                if y != x {
                    assert(t1.to_multiset().count(y) > 0);
                    to_multiset_contains(t1, y);
                    let k = choose|k: int| 0 <= k < t1.len() && t1[k] == y;
                    assert(t[k + 1] == y);
                }
            } else {
                assert(r[i] == r1[i - 1] && r[j] == r1[j - 1]);
            }
        }
    }
}

/// The offering order is a stable sort: it holds the gathered candidates,
/// each as often as it was gathered, and no candidate is offered after one
/// that it comes strictly before.
pub proof fn lemma_stable_sort(s: Seq<Candidate>)
    ensures
        stable_sort(s).to_multiset() == s.to_multiset(),
        offered_in_order(stable_sort(s)),
    decreases s.len(),
{
    if s.len() > 0 {
        lemma_stable_sort(s.drop_last());
        lemma_insert_stable_multiset(stable_sort(s.drop_last()), s.last());
        lemma_insert_stable_in_order(stable_sort(s.drop_last()), s.last());
        assert(s =~= s.drop_last().push(s.last()));
        to_multiset_build(s.drop_last(), s.last());
    } else {
        assert(stable_sort(s) =~= s);
    }
}

/// `idx` places each element of `a`, in order, at a position of `b` that
/// holds it.
pub open spec fn embeds<A>(idx: Seq<int>, a: Seq<A>, b: Seq<A>) -> bool {
    &&& idx.len() == a.len()
    &&& forall|i: int| 0 <= i < idx.len() ==> 0 <= #[trigger] idx[i] < b.len() && b[idx[i]] == a[i]
    &&& forall|i: int, j: int| 0 <= i < j < idx.len() ==> #[trigger] idx[i] < #[trigger] idx[j]
}

/// `a` is a subsequence of `b`: `b` holds the elements of `a` in the same
/// order, possibly with others between them.
pub open spec fn is_subsequence<A>(a: Seq<A>, b: Seq<A>) -> bool {
    exists|idx: Seq<int>| embeds(idx, a, b)
}

proof fn lemma_subsequence_refl<A>(a: Seq<A>)
    ensures
        is_subsequence(a, a),
{
    let idx = Seq::new(a.len(), |i: int| i);
    assert(embeds(idx, a, a));
}

proof fn lemma_subsequence_trans<A>(a: Seq<A>, b: Seq<A>, c: Seq<A>)
    requires
        is_subsequence(a, b),
        is_subsequence(b, c),
    ensures
        is_subsequence(a, c),
{
    let i1 = choose|idx: Seq<int>| embeds(idx, a, b);
    let i2 = choose|idx: Seq<int>| embeds(idx, b, c);
    let idx = Seq::new(a.len(), |i: int| i2[i1[i]]);
    assert forall|i: int, j: int| 0 <= i < j < idx.len() implies #[trigger] idx[i] < #[trigger] idx[j] by {
        assert(i1[i] < i1[j]);
    }
    assert forall|i: int| 0 <= i < idx.len() implies 0 <= #[trigger] idx[i] < c.len() && c[idx[i]] == a[i] by {
        assert(0 <= i1[i] < b.len());
    }
    assert(embeds(idx, a, c));
}

proof fn lemma_subsequence_insert<A>(t: Seq<A>, p: int, x: A)
    requires
        0 <= p <= t.len(),
    ensures
        is_subsequence(t, t.insert(p, x)),
{
    let idx = Seq::new(t.len(), |i: int| if i < p { i } else { i + 1 });
    assert(embeds(idx, t, t.insert(p, x)));
}

proof fn lemma_subsequence_key_values(a: Seq<Candidate>, b: Seq<Candidate>)
    requires
        is_subsequence(a, b),
    ensures
        is_subsequence(key_values(a), key_values(b)),
{
    let idx = choose|idx: Seq<int>| embeds(idx, a, b);
    assert(embeds(idx, key_values(a), key_values(b)));
}

/// Inserting in offering order places the candidate at one position.
proof fn lemma_insert_stable_position(t: Seq<Candidate>, x: Candidate) -> (p: int)
    ensures
        0 <= p <= t.len(),
        insert_stable(t, x) == t.insert(p, x),
    decreases t.len(),
{
    if t.len() == 0 {
        assert(seq![x] =~= t.insert(0, x));
        0
    } else if comes_before(x, t[0]) {
        assert(seq![x] + t =~= t.insert(0, x));
        0
    } else {
        let p1 = lemma_insert_stable_position(t.drop_first(), x);
        assert(seq![t[0]] + t.drop_first().insert(p1, x) =~= t.insert(p1 + 1, x));
        p1 + 1
    }
}

/// Sorting more candidates keeps the order of the first ones and places
/// each added one among them.
proof fn lemma_sort_extended(p: Seq<Candidate>, e: Seq<Candidate>)
    ensures
        is_subsequence(key_values(stable_sort(p)), key_values(stable_sort(p + e))),
        stable_sort(p + e).len() == stable_sort(p).len() + e.len(),
        key_values(stable_sort(p + e)).to_multiset()
            == key_values(stable_sort(p)).to_multiset().add(key_values(e).to_multiset()),
    decreases e.len(),
{
    broadcast use vstd::multiset::group_multiset_axioms;
    if e.len() == 0 {
        assert(p + e =~= p);
        lemma_subsequence_refl(key_values(stable_sort(p)));
        assert(key_values(e) =~= Seq::<(Seq<char>, Seq<char>)>::empty());
        vstd::seq_lib::to_multiset_len(key_values(e));
        vstd::multiset::lemma_multiset_empty_len(key_values(e).to_multiset());
        assert(key_values(e).to_multiset() =~= Multiset::empty());
        assert(key_values(stable_sort(p)).to_multiset().add(Multiset::empty())
            =~= key_values(stable_sort(p)).to_multiset());
    } else {
        let e1 = e.drop_last();
        let x = e.last();
        lemma_sort_extended(p, e1);
        assert((p + e).drop_last() =~= p + e1);
        assert((p + e).last() == x);
        let t = stable_sort(p + e1);
        assert(stable_sort(p + e) == insert_stable(t, x));
        let q = lemma_insert_stable_position(t, x);
        assert(key_values(t.insert(q, x)) =~= key_values(t).insert(q, (x.0, x.1)));
        lemma_subsequence_insert(key_values(t), q, (x.0, x.1));
        lemma_subsequence_trans(key_values(stable_sort(p)), key_values(t), key_values(stable_sort(p + e)));
        to_multiset_insert(key_values(t), q, (x.0, x.1));
        assert(key_values(e) =~= key_values(e1).push((x.0, x.1)));
        to_multiset_build(key_values(e1), (x.0, x.1));
        assert(key_values(stable_sort(p)).to_multiset().add(key_values(e1).to_multiset()).insert((x.0, x.1))
            =~= key_values(stable_sort(p)).to_multiset().add(key_values(e1).to_multiset().insert((x.0, x.1))));
    }
}

/// How many of the values have a priority above zero.
pub open spec fn positive_count(es: Seq<(Seq<char>, u8)>) -> nat
    decreases es.len(),
{
    if es.len() == 0 {
        0
    } else {
        positive_count(es.drop_last()) + if es.last().1 > 0 { 1nat } else { 0nat }
    }
}

/// A key that an incremental search adds: it extends the converted key
/// `ck` by further words, or continues the typed key `lc` as one word.
pub open spec fn extends_search(key: Seq<char>, ck: Seq<char>, lc: Seq<char>) -> bool {
    starts_with(key, ck.push(' ')) || continues(key, lc)
}

/// The number of dictionary values with a priority above zero whose key
/// an incremental search adds.
pub open spec fn extension_count(dv: Seq<(Seq<char>, Seq<(Seq<char>, u8)>)>, ck: Seq<char>, lc: Seq<char>) -> nat
    decreases dv.len(),
{
    if dv.len() == 0 {
        0
    } else {
        extension_count(dv.drop_last(), ck, lc) + if extends_search(dv.last().0, ck, lc) {
            positive_count(dv.last().1)
        } else {
            0nat
        }
    }
}

proof fn lemma_tagged_positive_len(key: Seq<char>, es: Seq<(Seq<char>, u8)>, group: u8)
    ensures
        tagged(key, es, group, true).len() == positive_count(es),
    decreases es.len(),
{
    if es.len() > 0 {
        lemma_tagged_positive_len(key, es.drop_last(), group);
    }
}

proof fn lemma_search_extension_len(dv: Seq<(Seq<char>, Seq<(Seq<char>, u8)>)>, ck: Seq<char>, lc: Seq<char>)
    ensures
        search_extension(dv, ck, lc).len() == extension_count(dv, ck, lc),
    decreases dv.len(),
{
    if dv.len() > 0 {
        lemma_search_extension_len(dv.drop_last(), ck, lc);
        let k = dv.last().0;
        lemma_tagged_positive_len(k, dv.last().1, 6);
        if starts_with(k, ck.push(' ')) {
            assert(k[ck.len() as int] == ' ') by {
                assert(k.take(ck.len() as int + 1)[ck.len() as int] == ck.push(' ')[ck.len() as int]);
            }
            assert(k.contains(' '));
        }
    }
}

/// An incremental search offers every word a plain search offers, in the
/// same order, and besides them exactly the positive-priority values of the
/// dictionary keys that extend the converted key by further words or
/// continue the typed key as one word: one more word for each such value.
pub proof fn lemma_incremental_search_extends(
    dv: Seq<(Seq<char>, Seq<(Seq<char>, u8)>)>,
    av: Seq<(Seq<char>, Seq<Seq<char>>)>,
    typing: Map<Seq<char>, Seq<char>>,
    search_key: Seq<char>,
)
    ensures
        (spec_collect_words(dv, av, typing, search_key, false) is Some)
            == (spec_collect_words(dv, av, typing, search_key, true) is Some),
        spec_collect_words(dv, av, typing, search_key, false) is Some ==> ({
            let plain = spec_collect_words(dv, av, typing, search_key, false)->0;
            let incremental = spec_collect_words(dv, av, typing, search_key, true)->0;
            let lc = str_lowercase(search_key);
            let ck = spec_convert_input(typing, lc)->0;
            &&& is_subsequence(plain, incremental)
            &&& incremental.len() == plain.len() + extension_count(dv, ck, lc)
            &&& incremental.to_multiset()
                == plain.to_multiset().add(key_values(search_extension(dv, ck, lc)).to_multiset())
        }),
{
    let lc = str_lowercase(search_key);
    if let Some(ck) = spec_convert_input(typing, lc) {
        let p = spec_candidates(dv, av, search_key, lc, ck, false);
        let e = search_extension(dv, ck, lc);
        assert(spec_candidates(dv, av, search_key, lc, ck, true) =~= p + e);
        assert(p + Seq::<Candidate>::empty() =~= p);
        lemma_sort_extended(p, e);
        lemma_search_extension_len(dv, ck, lc);
    }
}

/// A search whose lower-cased key has at most one character does not look
/// the key up as an abbreviation: what it offers does not depend on the
/// abbreviation table.
pub proof fn lemma_short_key_ignores_abbreviations(
    dv: Seq<(Seq<char>, Seq<(Seq<char>, u8)>)>,
    av1: Seq<(Seq<char>, Seq<Seq<char>>)>,
    av2: Seq<(Seq<char>, Seq<Seq<char>>)>,
    typing: Map<Seq<char>, Seq<char>>,
    search_key: Seq<char>,
    incremental: bool,
)
    requires
        str_lowercase(search_key).len() <= 1,
    ensures
        spec_collect_words(dv, av1, typing, search_key, incremental)
            == spec_collect_words(dv, av2, typing, search_key, incremental),
{
    let lc = str_lowercase(search_key);
    if let Some(ck) = spec_convert_input(typing, lc) {
        assert(spec_candidates(dv, av1, search_key, lc, ck, incremental)
            == spec_candidates(dv, av2, search_key, lc, ck, incremental));
    }
}

proof fn lemma_tagged_contains(key: Seq<char>, es: Seq<(Seq<char>, u8)>, group: u8, positive_only: bool, j: int)
    requires
        0 <= j < es.len(),
        !positive_only || es[j].1 > 0,
    ensures
        tagged(key, es, group, positive_only).contains((key, es[j].0, es[j].1, group)),
    decreases es.len(),
{
    let t = tagged(key, es, group, positive_only);
    if j == es.len() - 1 {
        assert(t[t.len() - 1] == (key, es[j].0, es[j].1, group));
    } else {
        lemma_tagged_contains(key, es.drop_last(), group, positive_only, j);
        let rest = tagged(key, es.drop_last(), group, positive_only);
        let k = choose|k: int| 0 <= k < rest.len() && rest[k] == (key, es[j].0, es[j].1, group);
        assert(t[k] == rest[k]);
    }
}

proof fn lemma_abbreviation_group_contains(
    dv: Seq<(Seq<char>, Seq<(Seq<char>, u8)>)>,
    keys: Seq<Seq<char>>,
    m: int,
    j: int,
)
    requires
        0 <= m < keys.len(),
        0 <= j < lookup_entries(dv, keys[m]).len(),
        lookup_entries(dv, keys[m])[j].1 > 0,
    ensures
        abbreviation_group(dv, keys).contains(
            (keys[m], lookup_entries(dv, keys[m])[j].0, lookup_entries(dv, keys[m])[j].1, 8u8),
        ),
    decreases keys.len(),
{
    let x = (keys[m], lookup_entries(dv, keys[m])[j].0, lookup_entries(dv, keys[m])[j].1, 8u8);
    let g = abbreviation_group(dv, keys);
    let rest = abbreviation_group(dv, keys.drop_last());
    if m == keys.len() - 1 {
        lemma_tagged_contains(keys[m], lookup_entries(dv, keys[m]), 8, true, j);
        let t = tagged(keys[m], lookup_entries(dv, keys[m]), 8, true);
        let k = choose|k: int| 0 <= k < t.len() && t[k] == x;
        assert(g[rest.len() + k] == x);
    } else {
        assert(keys.drop_last()[m] == keys[m]);
        lemma_abbreviation_group_contains(dv, keys.drop_last(), m, j);
        let k = choose|k: int| 0 <= k < rest.len() && rest[k] == x;
        assert(g[k] == x);
    }
}

/// A search whose lower-cased key has more than one character and is an
/// abbreviation offers every value with a priority above zero of every
/// dictionary key that it abbreviates.
pub proof fn lemma_abbreviation_offers_keys(
    dv: Seq<(Seq<char>, Seq<(Seq<char>, u8)>)>,
    av: Seq<(Seq<char>, Seq<Seq<char>>)>,
    typing: Map<Seq<char>, Seq<char>>,
    search_key: Seq<char>,
    incremental: bool,
    m: int,
    j: int,
)
    requires
        str_lowercase(search_key).len() > 1,
        map_of(av).contains_key(str_lowercase(search_key)),
        0 <= m < map_of(av)[str_lowercase(search_key)].len(),
        map_of(dv).contains_key(map_of(av)[str_lowercase(search_key)][m]),
        0 <= j < map_of(dv)[map_of(av)[str_lowercase(search_key)][m]].len(),
        map_of(dv)[map_of(av)[str_lowercase(search_key)][m]][j].1 > 0,
        spec_collect_words(dv, av, typing, search_key, incremental) is Some,
    ensures
        ({
            let key = map_of(av)[str_lowercase(search_key)][m];
            spec_collect_words(dv, av, typing, search_key, incremental)->0.contains((key, map_of(dv)[key][j].0))
        }),
{
    let lc = str_lowercase(search_key);
    let ck = spec_convert_input(typing, lc)->0;
    let keys = map_of(av)[lc];
    let key = keys[m];
    let e = map_of(dv)[key][j];
    let x = (key, e.0, e.1, 8u8);
    lemma_abbreviation_group_contains(dv, keys, m, j);
    let c = spec_candidates(dv, av, search_key, lc, ck, incremental);
    let g = abbreviation_group(dv, keys);
    let k = choose|k: int| 0 <= k < g.len() && g[k] == x;
    let base = tagged(ck, lookup_entries(dv, ck), 0, false) + forms_tagged(ck, sorted_word_forms(ck), 10);
    let own = if lc != ck {
        tagged(lc, lookup_entries(dv, lc), 3, false) + (if !sorted_word_forms(lc).contains(search_key) {
            seq![(lc, search_key, 0u8, 12u8)]
        } else {
            Seq::empty()
        }) + forms_tagged(lc, sorted_word_forms(lc), 11)
    } else {
        Seq::empty()
    };
    assert(c[base.len() + own.len() + k] == x);
    assert(c.contains(x));
    let sorted = stable_sort(c);
    lemma_stable_sort(c);
    to_multiset_contains(c, x);
    to_multiset_contains(sorted, x);
    let q = choose|q: int| 0 <= q < sorted.len() && sorted[q] == x;
    assert(key_values(sorted)[q] == (key, e.0));
}

/// Candidates are offered by group, lowest first; within a group by
/// priority, highest first; and then by lower-cased key in code-point
/// order. Sorting neither adds nor drops a candidate.
pub proof fn lemma_offering_order(s: Seq<Candidate>)
    ensures
        stable_sort(s).to_multiset() == s.to_multiset(),
        forall|i: int, j: int| 0 <= i < j < stable_sort(s).len() ==> {
            let a = #[trigger] stable_sort(s)[i];
            let b = #[trigger] stable_sort(s)[j];
            &&& a.3 <= b.3
            &&& a.3 == b.3 ==> a.2 >= b.2
            &&& (a.3 == b.3 && a.2 == b.2) ==> !lex_lt(str_lowercase(b.0), str_lowercase(a.0))
        },
{
    lemma_stable_sort(s);
    let r = stable_sort(s);
    assert forall|i: int, j: int| 0 <= i < j < r.len() implies !comes_before(#[trigger] r[j], #[trigger] r[i]) by {}
}

/// A gathered candidate is offered: its key and value are in the result.
proof fn lemma_gathered_is_offered(c: Seq<Candidate>, x: Candidate)
    requires
        c.contains(x),
    ensures
        key_values(stable_sort(c)).contains((x.0, x.1)),
{
    let sorted = stable_sort(c);
    lemma_stable_sort(c);
    to_multiset_contains(c, x);
    to_multiset_contains(sorted, x);
    let q = choose|q: int| 0 <= q < sorted.len() && sorted[q] == x;
    assert(key_values(sorted)[q] == (x.0, x.1));
}

/// Every value of the converted key is offered, whatever its priority.
pub proof fn lemma_converted_key_values_offered(
    dv: Seq<(Seq<char>, Seq<(Seq<char>, u8)>)>,
    av: Seq<(Seq<char>, Seq<Seq<char>>)>,
    typing: Map<Seq<char>, Seq<char>>,
    search_key: Seq<char>,
    incremental: bool,
    j: int,
)
    requires
        spec_convert_input(typing, str_lowercase(search_key)) is Some,
        map_of(dv).contains_key(spec_convert_input(typing, str_lowercase(search_key))->0),
        0 <= j < map_of(dv)[spec_convert_input(typing, str_lowercase(search_key))->0].len(),
    ensures
        ({
            let ck = spec_convert_input(typing, str_lowercase(search_key))->0;
            &&& spec_collect_words(dv, av, typing, search_key, incremental) is Some
            &&& spec_collect_words(dv, av, typing, search_key, incremental)->0.contains((ck, map_of(dv)[ck][j].0))
        }),
{
    let lc = str_lowercase(search_key);
    let ck = spec_convert_input(typing, lc)->0;
    let es = lookup_entries(dv, ck);
    let x = (ck, es[j].0, es[j].1, 0u8);
    lemma_tagged_contains(ck, es, 0, false, j);
    let t = tagged(ck, es, 0, false);
    let k = choose|k: int| 0 <= k < t.len() && t[k] == x;
    let c = spec_candidates(dv, av, search_key, lc, ck, incremental);
    assert(c[k] == x);
    assert(c.contains(x));
    lemma_gathered_is_offered(c, x);
}

/// When the typed key converts to something else, every value of the
/// typed key itself is offered too.
pub proof fn lemma_typed_key_values_offered(
    dv: Seq<(Seq<char>, Seq<(Seq<char>, u8)>)>,
    av: Seq<(Seq<char>, Seq<Seq<char>>)>,
    typing: Map<Seq<char>, Seq<char>>,
    search_key: Seq<char>,
    incremental: bool,
    j: int,
)
    requires
        spec_convert_input(typing, str_lowercase(search_key)) is Some,
        spec_convert_input(typing, str_lowercase(search_key))->0 != str_lowercase(search_key),
        map_of(dv).contains_key(str_lowercase(search_key)),
        0 <= j < map_of(dv)[str_lowercase(search_key)].len(),
    ensures
        ({
            let lc = str_lowercase(search_key);
            &&& spec_collect_words(dv, av, typing, search_key, incremental) is Some
            &&& spec_collect_words(dv, av, typing, search_key, incremental)->0.contains((lc, map_of(dv)[lc][j].0))
        }),
{
    let lc = str_lowercase(search_key);
    let ck = spec_convert_input(typing, lc)->0;
    let es = lookup_entries(dv, lc);
    let x = (lc, es[j].0, es[j].1, 3u8);
    lemma_tagged_contains(lc, es, 3, false, j);
    let t = tagged(lc, es, 3, false);
    let k = choose|k: int| 0 <= k < t.len() && t[k] == x;
    let base = tagged(ck, lookup_entries(dv, ck), 0, false) + forms_tagged(ck, sorted_word_forms(ck), 10);
    let c = spec_candidates(dv, av, search_key, lc, ck, incremental);
    assert(c[base.len() + k] == x);
    assert(c.contains(x));
    lemma_gathered_is_offered(c, x);
}

} // verus!
