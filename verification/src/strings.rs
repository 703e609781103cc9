//! Word shapes and spacing rules: capitalisation, abbreviations of
//! Vietnamese keys, the forms a word is offered in, and where spaces go
//! around punctuation.

use vstd::prelude::*;
use crate::unicode::{
    char_is_numeric, char_uppercase, str_lowercase, str_uppercase, char_to_uppercase, chars_of,
    is_numeric, string_from_chars, to_lowercase, to_uppercase,
};
use crate::text::{
    lemma_split_after_sep, lemma_split_without_sep, compare_chars, lemma_lex_trans, lex_lt, spec_trim, split_chars,
    lemma_sorted_unique, split_on, strictly_sorted, string_views, trim_chars,
};

verus! {

/// The letter without its Vietnamese diacritics, for the small letters that
/// have a base letter (đ has d).
pub open spec fn spec_reference_letter(c: char) -> Option<char> {
    match c {
        'a' | 'à' | 'ả' | 'ã' | 'á' | 'ạ' | 'ă' | 'ằ' | 'ẳ' | 'ẵ' | 'ắ' | 'ặ' | 'â' | 'ầ' | 'ẩ' | 'ẫ' | 'ấ' | 'ậ' => Some('a'),
        'e' | 'è' | 'ẻ' | 'ẽ' | 'é' | 'ẹ' | 'ê' | 'ề' | 'ể' | 'ễ' | 'ế' | 'ệ' => Some('e'),
        'i' | 'ì' | 'ỉ' | 'ĩ' | 'í' | 'ị' => Some('i'),
        'o' | 'ò' | 'ỏ' | 'õ' | 'ó' | 'ọ' | 'ô' | 'ồ' | 'ổ' | 'ỗ' | 'ố' | 'ộ' | 'ơ' | 'ờ' | 'ở' | 'ỡ' | 'ớ' | 'ợ' => Some('o'),
        'u' | 'ù' | 'ủ' | 'ũ' | 'ú' | 'ụ' | 'ư' | 'ừ' | 'ử' | 'ữ' | 'ứ' | 'ự' => Some('u'),
        'y' | 'ỳ' | 'ỷ' | 'ỹ' | 'ý' | 'ỵ' => Some('y'),
        'đ' => Some('d'),
        _ => None,
    }
}

/// `c` without its diacritics where it has a base letter, `c` otherwise.
pub open spec fn base_letter(c: char) -> char {
    match spec_reference_letter(c) {
        Some(b) => b,
        None => c,
    }
}

fn reference_letter(c: char) -> (r: Option<char>)
    ensures
        r == spec_reference_letter(c),
{
    match c {
        'a' | 'à' | 'ả' | 'ã' | 'á' | 'ạ' | 'ă' | 'ằ' | 'ẳ' | 'ẵ' | 'ắ' | 'ặ' | 'â' | 'ầ' | 'ẩ' | 'ẫ' | 'ấ' | 'ậ' => Some('a'),
        'e' | 'è' | 'ẻ' | 'ẽ' | 'é' | 'ẹ' | 'ê' | 'ề' | 'ể' | 'ễ' | 'ế' | 'ệ' => Some('e'),
        'i' | 'ì' | 'ỉ' | 'ĩ' | 'í' | 'ị' => Some('i'),
        'o' | 'ò' | 'ỏ' | 'õ' | 'ó' | 'ọ' | 'ô' | 'ồ' | 'ổ' | 'ỗ' | 'ố' | 'ộ' | 'ơ' | 'ờ' | 'ở' | 'ỡ' | 'ớ' | 'ợ' => Some('o'),
        'u' | 'ù' | 'ủ' | 'ũ' | 'ú' | 'ụ' | 'ư' | 'ừ' | 'ử' | 'ữ' | 'ứ' | 'ự' => Some('u'),
        'y' | 'ỳ' | 'ỷ' | 'ỹ' | 'ý' | 'ỵ' => Some('y'),
        'đ' => Some('d'),
        _ => None,
    }
}

fn to_base_letter(c: char) -> (r: char)
    ensures
        r == base_letter(c),
{
    match reference_letter(c) {
        Some(b) => b,
        None => c,
    }
}

/// The bit that tracks whether a quote-like character is open.
pub open spec fn spec_bracket_bit(b: char) -> Option<u8> {
    if b == '"' {
        Some(1)
    } else if b == '\'' {
        Some(2)
    } else if b == '`' {
        Some(4)
    } else if b == '|' {
        Some(8)
    } else {
        None
    }
}

/// The bit in the open-quote state that belongs to a quote-like character:
/// `"`, `'`, `` ` `` and `|` each have their own.
pub fn get_bracket_bit(b: char) -> (r: Option<u8>)
    ensures
        r == spec_bracket_bit(b),
{
    match b {
        '"' => Some(0b0001),
        '\'' => Some(0b0010),
        '`' => Some(0b0100),
        '|' => Some(0b1000),
        _ => None,
    }
}

/// The first character upper-cased (it may become several), the rest kept.
pub open spec fn spec_capitalize(s: Seq<char>) -> Seq<char> {
    if s.len() == 0 {
        Seq::empty()
    } else {
        char_uppercase(s[0]) + s.drop_first()
    }
}

fn capitalize_chars(w: &Vec<char>) -> (r: Vec<char>)
    ensures
        r@ == spec_capitalize(w@),
{
    if w.len() == 0 {
        return Vec::new();
    }
    let upper = char_to_uppercase(w[0]);
    let mut r = chars_of(upper.as_str());
    let mut k: usize = 1;
    while k < w.len()
        invariant
            1 <= k <= w.len(),
            r@ =~= char_uppercase(w@[0]) + w@.subrange(1, k as int),
        decreases w.len() - k,
    {
        r.push(w[k]);
        k = k + 1;
    }
    assert(w@.subrange(1, w.len() as int) =~= w@.drop_first());
    r
}

/// Upper-cases the first character of `s`.
pub fn capitalize_first_letter(s: String) -> (r: String)
    ensures
        r@ == spec_capitalize(s@),
{
    let cs = chars_of(s.as_str());
    let r = capitalize_chars(&cs);
    string_from_chars(&r)
}

/// Each word capitalised and followed by one space.
pub open spec fn capitalized_words(words: Seq<Seq<char>>) -> Seq<char>
    decreases words.len(),
{
    if words.len() == 0 {
        Seq::empty()
    } else {
        capitalized_words(words.drop_last()) + spec_capitalize(words.last()).push(' ')
    }
}

/// The words of `s` (split at each space) capitalised, joined by spaces,
/// with surrounding whitespace trimmed.
pub open spec fn spec_capitalize_words(s: Seq<char>) -> Seq<char> {
    spec_trim(capitalized_words(split_on(s, ' ')))
}

/// Upper-cases the first character of every space-separated word.
pub fn capitalize_first_letter_of_words(s: String) -> (r: String)
    ensures
        r@ == spec_capitalize_words(s@),
{
    let cs = chars_of(s.as_str());
    let words = split_chars(&cs, ' ');
    let ghost ws = words@.map_values(|v: Vec<char>| v@);
    let mut out: Vec<char> = Vec::new();
    let mut i: usize = 0;
    assert(ws.take(0) =~= Seq::<Seq<char>>::empty());
    while i < words.len()
        invariant
            i <= words.len(),
            ws == words@.map_values(|v: Vec<char>| v@),
            out@ == capitalized_words(ws.take(i as int)),
        decreases words.len() - i,
    {
        let cap = capitalize_chars(&words[i]);
        let mut k: usize = 0;
        let ghost before = out@;
        while k < cap.len()
            invariant
                k <= cap.len(),
                out@ =~= before + cap@.take(k as int),
            decreases cap.len() - k,
        {
            out.push(cap[k]);
            k = k + 1;
        }
        out.push(' ');
        assert(ws.take(i as int + 1).drop_last() =~= ws.take(i as int));
        assert(cap@.take(cap.len() as int) =~= cap@);
        i = i + 1;
    }
    assert(ws.take(words.len() as int) =~= ws);
    let trimmed = trim_chars(&out);
    string_from_chars(&trimmed)
}

/// The base letters of the first characters of the non-empty words.
pub open spec fn initials(words: Seq<Seq<char>>) -> Seq<char>
    decreases words.len(),
{
    if words.len() == 0 {
        Seq::empty()
    } else {
        let w = words.last();
        initials(words.drop_last()) + if w.len() > 0 { seq![base_letter(w[0])] } else { Seq::empty() }
    }
}

/// For each non-empty word the base letter of its first character, and of
/// its last one when it has more than one character.
pub open spec fn initials_and_finals(words: Seq<Seq<char>>) -> Seq<char>
    decreases words.len(),
{
    if words.len() == 0 {
        Seq::empty()
    } else {
        let w = words.last();
        initials_and_finals(words.drop_last()) + if w.len() > 1 {
            seq![base_letter(w[0]), base_letter(w.last())]
        } else if w.len() == 1 {
            seq![base_letter(w[0])]
        } else {
            Seq::empty()
        }
    }
}

/// The abbreviations of a key: its initials, and for two or three words
/// also the initials with final letters when that differs.
pub open spec fn spec_abbreviation(s: Seq<char>) -> Seq<Seq<char>> {
    let words = split_on(s, ' ');
    let first = initials(words);
    let both = initials_and_finals(words);
    if both != first && 2 <= words.len() <= 3 {
        seq![first, both]
    } else {
        seq![first]
    }
}

/// A key of one word is typed by the base letter of its first character
/// alone.
pub proof fn lemma_abbreviation_one_word(a: Seq<char>)
    requires
        a.len() > 0,
        !a.contains(' '),
    ensures
        spec_abbreviation(a) == seq![seq![base_letter(a[0])]],
{
    lemma_split_without_sep(a, ' ');
    let e = Seq::<Seq<char>>::empty();
    assert(seq![a].drop_last() =~= e);
    assert(seq![a].last() == a);
    assert(initials(e) == Seq::<char>::empty());
    assert(initials(seq![a]) == initials(e) + seq![base_letter(a[0])]);
    assert(Seq::<char>::empty() + seq![base_letter(a[0])] =~= seq![base_letter(a[0])]);
}

/// A key of two words is typed by the base letters of their first
/// characters, and, when a word has more than one character, also by the
/// base letters of each word's first and (for a longer word) last
/// characters.
pub proof fn lemma_abbreviation_two_words(a: Seq<char>, b: Seq<char>)
    requires
        a.len() > 0,
        b.len() > 0,
        !a.contains(' '),
        !b.contains(' '),
    ensures
        ({
            let first = seq![base_letter(a[0]), base_letter(b[0])];
            let both = seq![base_letter(a[0])] + (if a.len() > 1 { seq![base_letter(a.last())] } else { Seq::empty() })
                + seq![base_letter(b[0])] + (if b.len() > 1 { seq![base_letter(b.last())] } else { Seq::empty() });
            spec_abbreviation(a.push(' ') + b) == if a.len() > 1 || b.len() > 1 {
                seq![first, both]
            } else {
                seq![first]
            }
        }),
{
    lemma_split_without_sep(a, ' ');
    lemma_split_after_sep(a, ' ', b);
    let ws = seq![a, b];
    assert(split_on(a.push(' ') + b, ' ') == ws);
    assert(ws.drop_last() =~= seq![a]);
    assert(seq![a].drop_last() =~= Seq::<Seq<char>>::empty());
    let first = seq![base_letter(a[0]), base_letter(b[0])];
    let e = Seq::<Seq<char>>::empty();
    assert(seq![a].last() == a);
    assert(ws.last() == b);
    assert(initials(e) == Seq::<char>::empty());
    assert(initials_and_finals(e) == Seq::<char>::empty());
    assert(initials(seq![a]) =~= seq![base_letter(a[0])]);
    assert(initials(ws) == initials(seq![a]) + seq![base_letter(b[0])]);
    assert(initials(ws) =~= first);
    let fa = if a.len() > 1 { seq![base_letter(a[0]), base_letter(a.last())] } else { seq![base_letter(a[0])] };
    let fb = if b.len() > 1 { seq![base_letter(b[0]), base_letter(b.last())] } else { seq![base_letter(b[0])] };
    assert(initials_and_finals(seq![a]) =~= fa);
    assert(initials_and_finals(ws) == initials_and_finals(seq![a]) + fb);
    assert(initials_and_finals(ws) =~= fa + fb);
    let both = seq![base_letter(a[0])] + (if a.len() > 1 { seq![base_letter(a.last())] } else { Seq::empty() })
        + seq![base_letter(b[0])] + (if b.len() > 1 { seq![base_letter(b.last())] } else { Seq::empty() });
    assert(fa + fb =~= both);
    if a.len() > 1 || b.len() > 1 {
        assert(both.len() > first.len());
    } else {
        assert(both =~= first);
    }
}

/// A key of one word, or of four words or more, has a single abbreviation.
pub proof fn lemma_abbreviation_count(s: Seq<char>)
    ensures
        (split_on(s, ' ').len() == 1 || split_on(s, ' ').len() >= 4) ==> spec_abbreviation(s).len() == 1,
        spec_abbreviation(s).len() <= 2,
{
}

/// The abbreviations under which a key can be typed.
pub fn get_abbreviation(s: String) -> (r: Vec<String>)
    ensures
        string_views(r@) == spec_abbreviation(s@),
{
    let cs = chars_of(s.as_str());
    let words = split_chars(&cs, ' ');
    let ghost ws = words@.map_values(|v: Vec<char>| v@);
    let mut first: Vec<char> = Vec::new();
    let mut both: Vec<char> = Vec::new();
    let mut i: usize = 0;
    assert(ws.take(0) =~= Seq::<Seq<char>>::empty());
    while i < words.len()
        invariant
            i <= words.len(),
            ws == words@.map_values(|v: Vec<char>| v@),
            first@ == initials(ws.take(i as int)),
            both@ == initials_and_finals(ws.take(i as int)),
        decreases words.len() - i,
    {
        let w = &words[i];
        assert(ws.take(i as int + 1).drop_last() =~= ws.take(i as int));
        assert(ws.take(i as int + 1).last() == w@);
        if w.len() > 0 {
            let f = to_base_letter(w[0]);
            first.push(f);
            both.push(f);
        }
        if w.len() > 1 {
            let l = to_base_letter(w[w.len() - 1]);
            both.push(l);
        }
        i = i + 1;
    }
    assert(ws.take(words.len() as int) =~= ws);
    let mut r: Vec<String> = Vec::new();
    r.push(string_from_chars(&first));
    if compare_chars(&both, &first) != 0 && 2 <= words.len() && words.len() <= 3 {
        r.push(string_from_chars(&both));
    }
    assert(string_views(r@) =~= spec_abbreviation(s@));
    r
}

/// The forms a word is offered in: upper case, lower case, first letter
/// capitalised, and each word capitalised.
pub open spec fn word_forms(s: Seq<char>) -> Seq<Seq<char>> {
    seq![str_uppercase(s), str_lowercase(s), spec_capitalize(s), spec_capitalize_words(s)]
}

/// A word is offered in exactly four shapes: all upper case, all lower
/// case, first letter capitalised, and every word capitalised.
pub proof fn lemma_word_form_shapes(s: Seq<char>, y: Seq<char>)
    ensures
        word_forms(s).contains(y) <==> (y == str_uppercase(s) || y == str_lowercase(s) || y == spec_capitalize(s)
            || y == spec_capitalize_words(s)),
{
    let f = word_forms(s);
    if y == f[0] || y == f[1] || y == f[2] || y == f[3] {
        assert(f.contains(y));
    }
}

pub(crate) fn insert_sorted_unique(v: &mut Vec<String>, x: String)
    requires
        strictly_sorted(string_views(old(v)@)),
    ensures
        strictly_sorted(string_views(final(v)@)),
        forall|y: Seq<char>| string_views(final(v)@).contains(y) <==> (string_views(old(v)@).contains(y) || y == x@),
{
    let xs = chars_of(x.as_str());
    let mut i: usize = 0;
    let ghost old_views = string_views(v@);
    while i < v.len()
        invariant
            i <= v.len(),
            v@ == old(v)@,
            old_views == string_views(v@),
            xs@ == x@,
            strictly_sorted(old_views),
            forall|j: int| 0 <= j < i ==> lex_lt(old_views[j], x@),
        ensures
            i <= v.len(),
            v@ == old(v)@,
            old_views == string_views(v@),
            strictly_sorted(old_views),
            forall|j: int| 0 <= j < i ==> lex_lt(old_views[j], x@),
            i < v.len() ==> lex_lt(x@, old_views[i as int]),
        decreases v.len() - i,
    {
        let vs = chars_of(v[i].as_str());
        let c: i8 = compare_chars(&vs, &xs);
        if c == 0 {
            assert(old_views[i as int] == x@);
            return;
        }
        if c > 0 {
            break;
        }
        i = i + 1;
    }
    proof {
        assert forall|k: int| i <= k < old_views.len() implies lex_lt(x@, old_views[k]) by {
            if k > i {
                lemma_lex_trans(x@, old_views[i as int], old_views[k]);
            }
        }
    }
    v.insert(i, x);
    proof {
        let nv = string_views(v@);
        assert(nv =~= old_views.insert(i as int, x@));
        assert forall|y: Seq<char>| nv.contains(y) <==> (old_views.contains(y) || y == x@) by {
            if nv.contains(y) {
                let k = choose|k: int| 0 <= k < nv.len() && nv[k] == y;
                if k < i {
                    assert(old_views[k] == y);
                } else if k > i {
                    assert(old_views[k - 1] == y);
                }
            }
            if old_views.contains(y) {
                let k = choose|k: int| 0 <= k < old_views.len() && old_views[k] == y;
                if k < i {
                    assert(nv[k] == y);
                } else {
                    assert(nv[k + 1] == y);
                }
            }
            if y == x@ {
                assert(nv[i as int] == y);
            }
        }
    }
}

/// The word forms in sorted order without repeats.
pub open spec fn sorted_word_forms(s: Seq<char>) -> Seq<Seq<char>> {
    choose|r: Seq<Seq<char>>| strictly_sorted(r) && forall|y: Seq<char>| r.contains(y) <==> word_forms(s).contains(y)
}

/// The forms of a word, sorted and without repeats.
pub fn get_word_forms(s: String) -> (r: Vec<String>)
    ensures
        strictly_sorted(string_views(r@)),
        forall|y: Seq<char>| string_views(r@).contains(y) <==> word_forms(s@).contains(y),
        string_views(r@) == sorted_word_forms(s@),
{
    let mut v: Vec<String> = Vec::new();
    let upper = to_uppercase(s.as_str());
    let lower = to_lowercase(s.as_str());
    let cap = capitalize_first_letter(s.clone());
    let caps = capitalize_first_letter_of_words(s);
    assert(string_views(v@) =~= Seq::<Seq<char>>::empty());
    insert_sorted_unique(&mut v, upper);
    insert_sorted_unique(&mut v, lower);
    insert_sorted_unique(&mut v, cap);
    insert_sorted_unique(&mut v, caps);
    proof {
        let f = word_forms(s@);
        assert forall|y: Seq<char>| string_views(v@).contains(y) <==> f.contains(y) by {
            if y == f[0] || y == f[1] || y == f[2] || y == f[3] {
            }
            if f.contains(y) {
                let k = choose|k: int| 0 <= k < 4 && f[k] == y;
            }
        }
        let w = sorted_word_forms(s@);
        assert(strictly_sorted(w) && forall|y: Seq<char>| w.contains(y) <==> f.contains(y));
        lemma_sorted_unique(string_views(v@), w);
    }
    v
}

/// The spacing rule of a punctuation mark. The low three bits apply when
/// the mark follows text, the high three when it follows a number; in each
/// half, `0b100` means the spacing depends on whether the quote is open,
/// otherwise `0b010` asks for a space before the mark and `0b001` for a
/// space after it.
pub open spec fn spec_punctuation_rule(c: char) -> Option<u8> {
    match c {
        '.' | ',' => Some(0b000001),
        '?' | '!' | ';' => Some(0b001001),
        ':' => Some(0b011001),
        '(' | '[' | '{' => Some(0b110110),
        ')' | ']' | '}' => Some(0b101101),
        '"' | '\'' | '`' => Some(0b100100),
        '|' => Some(0b100011),
        '-' | '_' | '/' | '\\' | '@' => Some(0b000000),
        '<' | '>' | '=' | '&' => Some(0b011011),
        '*' | '+' | '^' | '~' => Some(0b000011),
        '%' | '$' => Some(0b001011),
        '#' => Some(0b010010),
        _ => None,
    }
}

fn punctuation_rule(c: char) -> (r: Option<u8>)
    ensures
        r == spec_punctuation_rule(c),
{
    match c {
        '.' | ',' => Some(0b000001),
        '?' | '!' | ';' => Some(0b001001),
        ':' => Some(0b011001),
        '(' | '[' | '{' => Some(0b110110),
        ')' | ']' | '}' => Some(0b101101),
        '"' | '\'' | '`' => Some(0b100100),
        '|' => Some(0b100011),
        '-' | '_' | '/' | '\\' | '@' => Some(0b000000),
        '<' | '>' | '=' | '&' => Some(0b011011),
        '*' | '+' | '^' | '~' => Some(0b000011),
        '%' | '$' => Some(0b001011),
        '#' => Some(0b010010),
        _ => None,
    }
}

/// The half of a rule that applies after a number or after text.
pub open spec fn rule_half(rule: u8, after_number: bool) -> u8 {
    if after_number {
        ((rule / 8) % 8) as u8
    } else {
        rule % 8
    }
}

/// The quote-like character `c` is not open in the state `brackets`.
pub open spec fn quote_closed(c: char, brackets: u8) -> bool {
    brackets & spec_bracket_bit(c)->0 == 0
}

/// Rules fit in six bits, and a half that depends on the quote state belongs
/// to a quote-like character.
proof fn lemma_punctuation_rule(c: char)
    ensures
        spec_punctuation_rule(c) matches Some(r) ==> {
            &&& r < 64
            &&& (rule_half(r, true) == 4 || rule_half(r, false) == 4) ==> spec_bracket_bit(c) is Some
        },
{
}

/// Whether a space goes before `c`, given which quotes are open and whether
/// a number precedes it: before a mark as its rule says; before any other
/// character unless it is numeric and follows a number.
pub open spec fn spec_space_before(c: char, brackets: u8, is_number: bool) -> bool {
    match spec_punctuation_rule(c) {
        None => !is_number || !char_is_numeric(c),
        Some(rule) => {
            let h = rule_half(rule, is_number);
            if h == 4 {
                quote_closed(c, brackets)
            } else {
                (h / 2) % 2 == 1
            }
        },
    }
}

/// Where spaces go after `c`: bit 1 when a number follows, bit 0 when text
/// follows. After a mark as its rule says; after a numeric character only
/// before text; after any other character always.
pub open spec fn spec_space_after(c: char, brackets: u8) -> u8 {
    match spec_punctuation_rule(c) {
        None => if char_is_numeric(c) { 1 } else { 3 },
        Some(rule) => {
            let n = rule_half(rule, true);
            let t = rule_half(rule, false);
            let before_number = if n == 4 { quote_closed(c, brackets) } else { n % 2 == 1 };
            let before_text = if t == 4 { quote_closed(c, brackets) } else { t % 2 == 1 };
            ((if before_number { 2int } else { 0int }) + (if before_text { 1int } else { 0int })) as u8
        },
    }
}

/// Whether a space goes before `c`.
pub fn space_before(c: char, brackets: u8, is_number: bool) -> (r: bool)
    ensures
        r == spec_space_before(c, brackets, is_number),
{
    proof {
        lemma_punctuation_rule(c);
    }
    let sb = punctuation_rule(c);
    match sb {
        None => !is_number || !is_numeric(c),
        Some(rule) => {
            let shift: u8 = if is_number { 3 } else { 0 };
            let half: u8 = (rule >> shift) & 0b111;
            assert(half == rule_half(rule, is_number)) by {
                assert(rule < 64 ==> (rule >> 3u8) & 7u8 == (rule / 8) % 8) by (bit_vector);
                assert((rule >> 0u8) & 7u8 == rule % 8) by (bit_vector);
            }
            if half == 0b100 {
                let b: u8 = get_bracket_bit(c).unwrap();
                (brackets & b) == 0
            } else {
                assert(half & 2u8 != 0 <==> (half / 2) % 2 == 1) by (bit_vector);
                half & 0b010 != 0
            }
        },
    }
}

/// Where spaces go after `c`: bit 1 when a number follows, bit 0 when text
/// follows.
pub fn space_after(c: char, brackets: u8) -> (r: u8)
    ensures
        r == spec_space_after(c, brackets),
        r < 4,
{
    proof {
        lemma_punctuation_rule(c);
    }
    let sa = punctuation_rule(c);
    match sa {
        None => {
            if is_numeric(c) { 1 } else { 3 }
        },
        Some(rule) => {
            let san: u8 = (rule >> 3) & 0b111;
            let sat: u8 = rule & 0b111;
            assert(rule < 64 ==> (rule >> 3u8) & 7u8 == (rule / 8) % 8) by (bit_vector);
            assert(rule & 7u8 == rule % 8) by (bit_vector);
            assert(rule & 1u8 == rule % 2) by (bit_vector);
            assert(san & 1u8 == san % 2) by (bit_vector);
            let n: u8 = if san == 0b100 {
                let b: u8 = get_bracket_bit(c).unwrap();
                if (brackets & b) == 0 { 1 } else { 0 }
            } else {
                san & 0b001
            };
            let t: u8 = if sat == 0b100 {
                let b: u8 = get_bracket_bit(c).unwrap();
                if (brackets & b) == 0 { 1 } else { 0 }
            } else {
                rule & 0b001
            };
            assert(n <= 1 && t <= 1 ==> (n << 1u8) | t == 2 * n + t) by (bit_vector);
            (n << 1) | t
        },
    }
}

/// A sentence mark: `.`, `,`, `?`, `!`, `;` or `:`.
pub open spec fn is_sentence_mark(c: char) -> bool {
    c == '.' || c == ',' || c == '?' || c == '!' || c == ';' || c == ':'
}

/// A character with a spacing rule of its own: a sentence mark, a bracket,
/// a quote or `|`, a hyphen, underscore, slash or `@`, a comparison sign or
/// `&`, `*`, `+`, `^`, `~`, `%`, `$` or `#`.
pub open spec fn has_spacing_rule(c: char) -> bool {
    ||| is_sentence_mark(c)
    ||| c == '(' || c == '[' || c == '{' || c == ')' || c == ']' || c == '}'
    ||| c == '"' || c == '\'' || c == '`' || c == '|'
    ||| c == '-' || c == '_' || c == '/' || c == '\\' || c == '@'
    ||| c == '<' || c == '>' || c == '=' || c == '&'
    ||| c == '*' || c == '+' || c == '^' || c == '~'
    ||| c == '%' || c == '$' || c == '#'
}

/// Spacing around punctuation, whatever quotes are open (`brackets`).
/// Sentence marks take no space before them after text and a space before
/// the text that follows; `.` and `,` stick to the numbers on both sides
/// (`1.5`, `1,5`), `?`, `!` and `;` stick to a number before them.
/// Opening brackets take a space before and none after; closing brackets
/// none before and one after. Hyphens, underscores, slashes and `@` stick
/// to both sides; comparison signs and `&` are spaced on both sides; `*`,
/// `+`, `^`, `~` are spaced after text but stick to numbers; `%` and `$`
/// stick to a number before them; `#` takes a space before and none after.
/// A quote takes spaces outside it: before it and after it when it opens,
/// neither when it closes. `|` is spaced after text and, after a number,
/// like a quote. Any other character takes a space before it, unless it is
/// numeric and follows a number, and a space after it before text (before
/// a number too, unless it is numeric).
pub proof fn lemma_punctuation_spacing(c: char, brackets: u8, after_number: bool)
    ensures
        is_sentence_mark(c) ==> !spec_space_before(c, brackets, false),
        is_sentence_mark(c) ==> spec_space_after(c, brackets) % 2 == 1,
        (c == '.' || c == ',') ==> !spec_space_before(c, brackets, true) && spec_space_after(c, brackets) == 1,
        (c == '?' || c == '!' || c == ';') ==> !spec_space_before(c, brackets, true) && spec_space_after(c, brackets) == 3,
        c == ':' ==> spec_space_before(c, brackets, true) && spec_space_after(c, brackets) == 3,
        (c == '(' || c == '[' || c == '{') ==> spec_space_before(c, brackets, after_number) && spec_space_after(c, brackets) == 0,
        (c == ')' || c == ']' || c == '}') ==> !spec_space_before(c, brackets, after_number) && spec_space_after(c, brackets) == 3,
        (c == '-' || c == '_' || c == '/' || c == '\\' || c == '@') ==> !spec_space_before(c, brackets, after_number)
            && spec_space_after(c, brackets) == 0,
        (c == '<' || c == '>' || c == '=' || c == '&') ==> spec_space_before(c, brackets, after_number)
            && spec_space_after(c, brackets) == 3,
        (c == '*' || c == '+' || c == '^' || c == '~') ==> spec_space_before(c, brackets, false)
            && !spec_space_before(c, brackets, true) && spec_space_after(c, brackets) == 1,
        (c == '%' || c == '$') ==> spec_space_before(c, brackets, false) && !spec_space_before(c, brackets, true)
            && spec_space_after(c, brackets) == 3,
        c == '#' ==> spec_space_before(c, brackets, after_number) && spec_space_after(c, brackets) == 0,
        c == '"' ==> spec_space_before(c, brackets, after_number) == (brackets & 1 == 0)
            && spec_space_after(c, brackets) == if brackets & 1 == 0 { 3u8 } else { 0u8 },
        c == '\'' ==> spec_space_before(c, brackets, after_number) == (brackets & 2 == 0)
            && spec_space_after(c, brackets) == if brackets & 2 == 0 { 3u8 } else { 0u8 },
        c == '`' ==> spec_space_before(c, brackets, after_number) == (brackets & 4 == 0)
            && spec_space_after(c, brackets) == if brackets & 4 == 0 { 3u8 } else { 0u8 },
        c == '|' ==> spec_space_before(c, brackets, false) && spec_space_before(c, brackets, true) == (brackets & 8 == 0)
            && spec_space_after(c, brackets) == if brackets & 8 == 0 { 3u8 } else { 1u8 },
        !has_spacing_rule(c) ==> spec_space_before(c, brackets, after_number)
            == !(after_number && char_is_numeric(c))
            && spec_space_after(c, brackets) == if char_is_numeric(c) { 1u8 } else { 3u8 },
{
}

} // verus!
