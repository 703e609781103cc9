//! Character-sequence models of the text operations the library uses:
//! splitting at a separator, lines, trimming, ASCII case-insensitive
//! comparison, lexicographic order, and decimal `u8` parsing.

use vstd::prelude::*;
use crate::unicode::{char_is_whitespace, is_whitespace};

verus! {

/// The pieces of `s` between occurrences of `sep`, as `str::split` with a
/// character pattern yields them: one more piece than there are separators.
pub open spec fn split_on(s: Seq<char>, sep: char) -> Seq<Seq<char>>
    decreases s.len(),
{
    if s.len() == 0 {
        seq![Seq::empty()]
    } else {
        let pieces = split_on(s.drop_last(), sep);
        if s.last() == sep {
            pieces.push(Seq::empty())
        } else {
            pieces.update(pieces.len() - 1, pieces.last().push(s.last()))
        }
    }
}

/// The pieces joined back together with `sep` between them.
pub open spec fn join_with(pieces: Seq<Seq<char>>, sep: char) -> Seq<char>
    decreases pieces.len(),
{
    if pieces.len() == 0 {
        Seq::empty()
    } else if pieces.len() == 1 {
        pieces[0]
    } else {
        join_with(pieces.drop_last(), sep).push(sep) + pieces.last()
    }
}

/// Splitting gives at least one piece, no piece holds the separator, and
/// joining the pieces with the separator gives the string back.
pub proof fn lemma_split_join(s: Seq<char>, sep: char)
    ensures
        split_on(s, sep).len() >= 1,
        forall|i: int, j: int|
            0 <= i < split_on(s, sep).len() && 0 <= j < split_on(s, sep)[i].len()
                ==> split_on(s, sep)[i][j] != sep,
        join_with(split_on(s, sep), sep) == s,
    decreases s.len(),
{
    if s.len() > 0 {
        let p = split_on(s.drop_last(), sep);
        lemma_split_join(s.drop_last(), sep);
        if s.last() == sep {
            let q = p.push(Seq::<char>::empty());
            assert(q.drop_last() =~= p);
            assert(join_with(q, sep) =~= s);
        } else {
            let q = p.update(p.len() - 1, p.last().push(s.last()));
            assert forall|i: int, j: int| 0 <= i < q.len() && 0 <= j < q[i].len() implies q[i][j] != sep by {
                if i == p.len() - 1 && j == p.last().len() {
                } else {
                }
            }
            if p.len() == 1 {
                assert(join_with(p, sep) == p[0]);
                assert(join_with(q, sep) == q[0]);
                assert(p.last() == p[0]);
                assert(q[0] == s.drop_last().push(s.last()));
                assert(s.drop_last().push(s.last()) =~= s);
                assert(join_with(q, sep) =~= s);
            } else {
                assert(q.drop_last() =~= p.drop_last());
                let head = join_with(p.drop_last(), sep).push(sep);
                assert(join_with(p, sep) == head + p.last());
                assert(join_with(q, sep) == head + p.last().push(s.last()));
                assert(head + p.last().push(s.last()) =~= (head + p.last()).push(s.last()));
                assert(s.drop_last().push(s.last()) =~= s);
                assert(join_with(q, sep) == s);
            }
        }
    }
}

/// How many times `c` occurs in `s`.
pub open spec fn count_char(s: Seq<char>, c: char) -> nat
    decreases s.len(),
{
    if s.len() == 0 {
        0
    } else {
        count_char(s.drop_last(), c) + if s.last() == c { 1nat } else { 0nat }
    }
}

/// Splitting gives one more piece than there are separators.
pub proof fn lemma_split_count(s: Seq<char>, sep: char)
    ensures
        split_on(s, sep).len() == count_char(s, sep) + 1,
    decreases s.len(),
{
    if s.len() > 0 {
        lemma_split_count(s.drop_last(), sep);
    }
}

/// A string without the separator is a single piece.
pub proof fn lemma_split_without_sep(s: Seq<char>, sep: char)
    requires
        !s.contains(sep),
    ensures
        split_on(s, sep) == seq![s],
    decreases s.len(),
{
    if s.len() > 0 {
        assert(!s.drop_last().contains(sep)) by {
            if s.drop_last().contains(sep) {
                let k = choose|k: int| 0 <= k < s.drop_last().len() && s.drop_last()[k] == sep;
                assert(s[k] == sep);
            }
        }
        lemma_split_without_sep(s.drop_last(), sep);
        assert(s.last() != sep) by {
            assert(s[s.len() - 1] == s.last());
        }
        let p = split_on(s.drop_last(), sep);
        assert(p.last() == s.drop_last());
        assert(s.drop_last().push(s.last()) =~= s);
        assert(p.update(0, s) =~= seq![s]);
    } else {
        assert(s =~= Seq::<char>::empty());
    }
}

/// A separator followed by text without separators adds that text as a
/// new last piece.
pub proof fn lemma_split_after_sep(s: Seq<char>, sep: char, t: Seq<char>)
    requires
        !t.contains(sep),
    ensures
        split_on(s.push(sep) + t, sep) == split_on(s, sep).push(t),
    decreases t.len(),
{
    if t.len() == 0 {
        assert(s.push(sep) + t =~= s.push(sep));
        assert(s.push(sep).drop_last() =~= s);
        assert(t =~= Seq::<char>::empty());
        assert(split_on(s.push(sep), sep) == split_on(s, sep).push(Seq::empty()));
    } else {
        let t1 = t.drop_last();
        assert(!t1.contains(sep)) by {
            if t1.contains(sep) {
                let k = choose|k: int| 0 <= k < t1.len() && t1[k] == sep;
                assert(t[k] == sep);
            }
        }
        lemma_split_after_sep(s, sep, t1);
        let u = s.push(sep) + t;
        assert(u.drop_last() =~= s.push(sep) + t1);
        assert(u.last() == t.last());
        assert(t.last() != sep) by {
            assert(t[t.len() - 1] == t.last());
        }
        assert(t1.push(t.last()) =~= t);
        let q = split_on(s, sep).push(t1);
        assert(split_on(u.drop_last(), sep) == q);
        assert(q.last() == t1);
        assert(split_on(u, sep) == q.update(q.len() - 1, t1.push(u.last())));
        assert(q.update(q.len() - 1, t) =~= split_on(s, sep).push(t));
    }
}

/// Splits a character vector at every `sep`.
pub(crate) fn split_chars(cs: &Vec<char>, sep: char) -> (r: Vec<Vec<char>>)
    ensures
        r@.map_values(|v: Vec<char>| v@) == split_on(cs@, sep),
{
    let mut pieces: Vec<Vec<char>> = Vec::new();
    pieces.push(Vec::new());
    let mut i: usize = 0;
    assert(cs@.take(0) =~= Seq::<char>::empty());
    assert(pieces@.map_values(|v: Vec<char>| v@) =~= split_on(cs@.take(0), sep));
    while i < cs.len()
        invariant
            i <= cs.len(),
            pieces@.map_values(|v: Vec<char>| v@) == split_on(cs@.take(i as int), sep),
        decreases cs.len() - i,
    {
        proof {
            lemma_split_join(cs@.take(i as int), sep);
            assert(cs@.take(i as int + 1).drop_last() =~= cs@.take(i as int));
        }
        let c = cs[i];
        if c == sep {
            pieces.push(Vec::new());
        } else {
            let mut last = pieces.pop().unwrap();
            last.push(c);
            pieces.push(last);
        }
        i = i + 1;
        assert(pieces@.map_values(|v: Vec<char>| v@) =~= split_on(cs@.take(i as int), sep));
    }
    assert(cs@.take(cs.len() as int) =~= cs@);
    pieces
}

/// The line drops one carriage return that ends it.
pub open spec fn strip_cr(line: Seq<char>) -> Seq<char> {
    if line.len() > 0 && line.last() == '\r' {
        line.drop_last()
    } else {
        line
    }
}

/// The lines of `s`, as `str::lines` gives them: split at `\n`, each line
/// ended by `\n` loses a `\r` before it, and a final line ending adds no
/// empty line.
pub open spec fn spec_lines(s: Seq<char>) -> Seq<Seq<char>> {
    let pieces = split_on(s, '\n');
    let kept = if pieces.last().len() == 0 { pieces.drop_last() } else { pieces };
    Seq::new(kept.len(), |i: int| if i < pieces.len() - 1 { strip_cr(kept[i]) } else { kept[i] })
}

/// Calls `str::lines` and collects the lines. Its documentation: lines end
/// at `\n` or `\r\n`, the terminators are not part of the lines, and a final
/// line ending is optional; the contract states this over `spec_lines`.
#[verifier::external_body]
pub(crate) fn lines_of<'a>(s: &'a str) -> (r: Vec<&'a str>)
    ensures
        r@.len() == spec_lines(s@).len(),
        forall|i: int| 0 <= i < r@.len() ==> r@[i]@ == spec_lines(s@)[i],
{
    s.lines().collect()
}

/// A decimal digit `0`..`9`.
pub open spec fn is_digit(c: char) -> bool {
    '0' <= c <= '9'
}

/// The value of a string of decimal digits.
pub open spec fn digits_value(s: Seq<char>) -> int
    decreases s.len(),
{
    if s.len() == 0 {
        0
    } else {
        digits_value(s.drop_last()) * 10 + (s.last() as int - '0' as int)
    }
}

/// `u8`'s `FromStr`: an optional `+` followed by at least one decimal digit
/// and nothing else, with a value that fits in a `u8`.
pub open spec fn spec_parse_u8(s: Seq<char>) -> Option<u8> {
    let d = if s.len() > 0 && s[0] == '+' { s.drop_first() } else { s };
    if d.len() > 0 && (forall|i: int| 0 <= i < d.len() ==> is_digit(#[trigger] d[i]))
        && digits_value(d) <= 255 {
        Some(digits_value(d) as u8)
    } else {
        None
    }
}

/// Calls `str::parse::<u8>`. Its documentation: an optional `+` sign
/// followed by only digits, other characters (whitespace included) are an
/// error, and so is a value out of range; the contract states this.
#[verifier::external_body]
pub(crate) fn parse_u8(s: &str) -> (r: Option<u8>)
    ensures
        r == spec_parse_u8(s@),
{
    s.parse::<u8>().ok()
}

/// The character of a decimal digit value.
pub open spec fn digit_char(d: int) -> char {
    if d == 0 { '0' } else if d == 1 { '1' } else if d == 2 { '2' } else if d == 3 { '3' }
    else if d == 4 { '4' } else if d == 5 { '5' } else if d == 6 { '6' } else if d == 7 { '7' }
    else if d == 8 { '8' } else { '9' }
}

proof fn lemma_digit_char(d: int)
    requires
        0 <= d < 10,
    ensures
        digit_char(d) as int - '0' as int == d,
        is_digit(digit_char(d)),
        digit_char(d) != '+',
{
}

/// The decimal text of a number, without sign or leading zeros, as
/// `format!("{}", n)` writes it.
pub open spec fn decimal_text(n: nat) -> Seq<char>
    decreases n,
{
    if n < 10 {
        seq![digit_char(n as int)]
    } else {
        decimal_text(n / 10).push(digit_char((n % 10) as int))
    }
}

/// The decimal text of a number is digits with that value, not starting
/// with `+`.
pub proof fn lemma_decimal_text(n: nat)
    ensures
        decimal_text(n).len() > 0,
        decimal_text(n)[0] != '+',
        forall|i: int| 0 <= i < decimal_text(n).len() ==> is_digit(#[trigger] decimal_text(n)[i]),
        digits_value(decimal_text(n)) == n,
    decreases n,
{
    lemma_digit_char((n % 10) as int);
    if n < 10 {
        let t = decimal_text(n);
        assert(t.drop_last() =~= Seq::<char>::empty());
        assert(digits_value(t.drop_last()) == 0);
        assert(n % 10 == n);
        assert(t.last() == digit_char(n as int));
        assert(digits_value(t) == n);
    } else {
        lemma_decimal_text(n / 10);
        let t = decimal_text(n);
        assert(t.drop_last() =~= decimal_text(n / 10));
        assert(digits_value(t) == digits_value(decimal_text(n / 10)) * 10 + (n % 10));
        assert((n / 10) * 10 + n % 10 == n);
        assert(t[0] == decimal_text(n / 10)[0]);
        assert forall|i: int| 0 <= i < t.len() implies is_digit(#[trigger] t[i]) by {
            if i < t.len() - 1 {
                assert(t[i] == decimal_text(n / 10)[i]);
            }
        }
    }
}

/// Reading back the decimal text of a `u8` gives it.
pub proof fn lemma_parse_decimal_u8(p: u8)
    ensures
        spec_parse_u8(decimal_text(p as nat)) == Some(p),
{
    lemma_decimal_text(p as nat);
}

/// Code-point lexicographic order, the order of `str`'s `Ord` (UTF-8 byte
/// order and code-point order agree): `a` comes strictly before `b`.
pub open spec fn lex_lt(a: Seq<char>, b: Seq<char>) -> bool
    decreases a.len(),
{
    if a.len() == 0 {
        b.len() > 0
    } else if b.len() == 0 {
        false
    } else if a[0] != b[0] {
        (a[0] as u32) < (b[0] as u32)
    } else {
        lex_lt(a.drop_first(), b.drop_first())
    }
}

/// The order is irreflexive and asymmetric.
pub proof fn lemma_lex_asym(a: Seq<char>, b: Seq<char>)
    ensures
        !(lex_lt(a, b) && lex_lt(b, a)),
        !lex_lt(a, a),
    decreases a.len(),
{
    if a.len() > 0 && b.len() > 0 {
        lemma_lex_asym(a.drop_first(), b.drop_first());
    }
    if a.len() > 0 {
        lemma_lex_asym(a.drop_first(), a.drop_first());
    }
}

/// The order is transitive.
pub proof fn lemma_lex_trans(a: Seq<char>, b: Seq<char>, c: Seq<char>)
    requires
        lex_lt(a, b),
        lex_lt(b, c),
    ensures
        lex_lt(a, c),
    decreases a.len(),
{
    if a.len() > 0 && b.len() > 0 && c.len() > 0 {
        if a[0] == b[0] && b[0] == c[0] {
            lemma_lex_trans(a.drop_first(), b.drop_first(), c.drop_first());
        }
    }
}

/// Two different sequences are ordered one way or the other.
pub proof fn lemma_lex_total(a: Seq<char>, b: Seq<char>)
    requires
        a != b,
    ensures
        lex_lt(a, b) || lex_lt(b, a),
    decreases a.len(),
{
    if a.len() > 0 && b.len() > 0 && a[0] == b[0] {
        assert(a =~= seq![a[0]] + a.drop_first());
        assert(b =~= seq![b[0]] + b.drop_first());
        lemma_lex_total(a.drop_first(), b.drop_first());
    } else if a.len() == 0 && b.len() == 0 {
        assert(a =~= b);
    } else if a.len() > 0 && b.len() > 0 {
        vstd::utf8::char_u32_cast(a[0], a[0] as u32);
        vstd::utf8::char_u32_cast(b[0], b[0] as u32);
    }
}

/// Compares two character sequences: negative when `a` comes first, zero
/// when they are equal, positive when `b` comes first.
pub(crate) fn compare_chars(a: &Vec<char>, b: &Vec<char>) -> (r: i8)
    ensures
        (r < 0) == lex_lt(a@, b@),
        (r == 0) == (a@ == b@),
        (r > 0) == lex_lt(b@, a@),
{
    let mut i: usize = 0;
    assert(a@.skip(0) =~= a@);
    assert(b@.skip(0) =~= b@);
    while i < a.len() && i < b.len() && a[i] == b[i]
        invariant
            i <= a.len(),
            i <= b.len(),
            forall|j: int| 0 <= j < i ==> a@[j] == b@[j],
            lex_lt(a@, b@) == lex_lt(a@.skip(i as int), b@.skip(i as int)),
            lex_lt(b@, a@) == lex_lt(b@.skip(i as int), a@.skip(i as int)),
        decreases a.len() - i,
    {
        assert(a@.skip(i as int).drop_first() =~= a@.skip(i as int + 1));
        assert(b@.skip(i as int).drop_first() =~= b@.skip(i as int + 1));
        i = i + 1;
    }
    proof {
        lemma_lex_asym(a@, b@);
    }
    if i == a.len() && i == b.len() {
        assert(a@ =~= b@);
        0
    } else if i == a.len() {
        assert(a@ != b@);
        -1
    } else if i == b.len() {
        assert(a@ != b@);
        1
    } else {
        proof {
            vstd::utf8::char_u32_cast(a@[i as int], a@[i as int] as u32);
            vstd::utf8::char_u32_cast(b@[i as int], b@[i as int] as u32);
            assert(a@.skip(i as int)[0] == a@[i as int]);
            assert(b@.skip(i as int)[0] == b@[i as int]);
        }
        assert(a@ != b@) by {
            assert(a@[i as int] != b@[i as int]);
        }
        if (a[i] as u32) < (b[i] as u32) {
            -1
        } else {
            1
        }
    }
}

/// Whether `p` is a prefix of `s`.
pub open spec fn starts_with(s: Seq<char>, p: Seq<char>) -> bool {
    p.len() <= s.len() && s.take(p.len() as int) == p
}

/// Tests whether `p` is a prefix of `s`.
pub(crate) fn chars_start_with(s: &Vec<char>, p: &Vec<char>) -> (r: bool)
    ensures
        r == starts_with(s@, p@),
{
    if p.len() > s.len() {
        return false;
    }
    let mut i: usize = 0;
    while i < p.len()
        invariant
            p.len() <= s.len(),
            i <= p.len(),
            forall|j: int| 0 <= j < i ==> s@[j] == p@[j],
        decreases p.len() - i,
    {
        if s[i] != p[i] {
            assert(s@.take(p.len() as int)[i as int] != p@[i as int]);
            return false;
        }
        i = i + 1;
    }
    assert(s@.take(p.len() as int) =~= p@);
    true
}

/// Whether `c` occurs in `s`.
pub(crate) fn contains_char(s: &Vec<char>, c: char) -> (r: bool)
    ensures
        r == s@.contains(c),
{
    let mut i: usize = 0;
    while i < s.len()
        invariant
            i <= s.len(),
            forall|j: int| 0 <= j < i ==> s@[j] != c,
        decreases s.len() - i,
    {
        if s[i] == c {
            assert(s@[i as int] == c);
            return true;
        }
        i = i + 1;
    }
    false
}

/// The code of `c` with ASCII capitals mapped to small letters.
pub open spec fn ascii_lower_code(c: char) -> u32 {
    if 'A' <= c <= 'Z' {
        (c as u32 + 32) as u32
    } else {
        c as u32
    }
}

/// `str::eq_ignore_ascii_case`: the same length, and equal characters once
/// ASCII letters are folded to one case (the byte-wise comparison of std
/// leaves non-ASCII characters as they are, so it agrees character-wise).
pub open spec fn eq_ignore_ascii_case(a: Seq<char>, b: Seq<char>) -> bool {
    a.len() == b.len() && forall|i: int| 0 <= i < a.len() ==> ascii_lower_code(#[trigger] a[i]) == ascii_lower_code(b[i])
}

fn lower_code(c: char) -> (r: u32)
    ensures
        r == ascii_lower_code(c),
{
    if 'A' <= c && c <= 'Z' {
        c as u32 + 32
    } else {
        c as u32
    }
}

/// Compares two character sequences, ignoring ASCII case.
pub(crate) fn chars_eq_ignore_ascii_case(a: &Vec<char>, b: &Vec<char>) -> (r: bool)
    ensures
        r == eq_ignore_ascii_case(a@, b@),
{
    if a.len() != b.len() {
        return false;
    }
    let mut i: usize = 0;
    while i < a.len()
        invariant
            a.len() == b.len(),
            i <= a.len(),
            forall|j: int| 0 <= j < i ==> ascii_lower_code(#[trigger] a@[j]) == ascii_lower_code(b@[j]),
        decreases a.len() - i,
    {
        if lower_code(a[i]) != lower_code(b[i]) {
            return false;
        }
        i = i + 1;
    }
    true
}

/// `s` without its leading whitespace.
pub open spec fn trim_start(s: Seq<char>) -> Seq<char>
    decreases s.len(),
{
    if s.len() > 0 && char_is_whitespace(s[0]) {
        trim_start(s.drop_first())
    } else {
        s
    }
}

/// `s` without its trailing whitespace.
pub open spec fn trim_end(s: Seq<char>) -> Seq<char>
    decreases s.len(),
{
    if s.len() > 0 && char_is_whitespace(s.last()) {
        trim_end(s.drop_last())
    } else {
        s
    }
}

/// `str::trim`: leading and trailing Unicode whitespace removed.
pub open spec fn spec_trim(s: Seq<char>) -> Seq<char> {
    trim_end(trim_start(s))
}

/// Copies the characters of `s` from `from` up to `to`.
pub(crate) fn copy_range(s: &Vec<char>, from: usize, to: usize) -> (r: Vec<char>)
    requires
        from <= to <= s.len(),
    ensures
        r@ == s@.subrange(from as int, to as int),
{
    let mut r: Vec<char> = Vec::new();
    let mut k: usize = from;
    while k < to
        invariant
            from <= k <= to <= s.len(),
            r@ =~= s@.subrange(from as int, k as int),
        decreases to - k,
    {
        r.push(s[k]);
        k = k + 1;
    }
    r
}

fn leading_whitespace_end(s: &Vec<char>) -> (i: usize)
    ensures
        i <= s.len(),
        trim_start(s@) == s@.skip(i as int),
{
    let mut i: usize = 0;
    assert(s@.skip(0) =~= s@);
    while i < s.len() && is_whitespace(s[i])
        invariant
            i <= s.len(),
            trim_start(s@) == trim_start(s@.skip(i as int)),
        decreases s.len() - i,
    {
        assert(s@.skip(i as int).drop_first() =~= s@.skip(i as int + 1));
        i = i + 1;
    }
    i
}

fn trailing_whitespace_start(s: &Vec<char>, i: usize) -> (j: usize)
    requires
        i <= s.len(),
    ensures
        i <= j <= s.len(),
        trim_end(s@.skip(i as int)) == s@.subrange(i as int, j as int),
{
    let ghost t = s@.skip(i as int);
    let mut j: usize = s.len();
    assert(t.take(t.len() as int) =~= t);
    while j > i && is_whitespace(s[j - 1])
        invariant
            i <= j <= s.len(),
            t == s@.skip(i as int),
            trim_end(t) == trim_end(t.take(j - i)),
        decreases j,
    {
        assert(t.take(j - i).drop_last() =~= t.take(j - 1 - i));
        j = j - 1;
    }
    assert(t.take(j - i) =~= s@.subrange(i as int, j as int));
    j
}

/// Removes leading and trailing whitespace.
pub(crate) fn trim_chars(s: &Vec<char>) -> (r: Vec<char>)
    ensures
        r@ == spec_trim(s@),
{
    let i = leading_whitespace_end(s);
    let j = trailing_whitespace_start(s, i);
    copy_range(s, i, j)
}
/// The views of a vector of strings.
pub open spec fn string_views(v: Seq<String>) -> Seq<Seq<char>> {
    v.map_values(|s: String| s@)
}

/// Every element comes strictly before the ones after it.
pub open spec fn strictly_sorted(s: Seq<Seq<char>>) -> bool {
    forall|i: int, j: int| 0 <= i < j < s.len() ==> lex_lt(s[i], s[j])
}

/// Two strictly sorted sequences with the same elements are equal.
pub proof fn lemma_sorted_unique(a: Seq<Seq<char>>, b: Seq<Seq<char>>)
    requires
        strictly_sorted(a),
        strictly_sorted(b),
        forall|y: Seq<char>| a.contains(y) <==> b.contains(y),
    ensures
        a == b,
    decreases a.len(),
{
    if a.len() == 0 {
        if b.len() > 0 {
            assert(b.contains(b[0]));
        }
        assert(a =~= b);
    } else {
        assert(a.contains(a[0]));
        assert(b.contains(a[0]));
        let k = choose|k: int| 0 <= k < b.len() && b[k] == a[0];
        assert(b.contains(b[0]));
        assert(a.contains(b[0]));
        let j = choose|j: int| 0 <= j < a.len() && a[j] == b[0];
        if j > 0 && k > 0 {
            assert(lex_lt(a[0], a[j]));
            assert(lex_lt(b[0], b[k]));
            lemma_lex_asym(a[0], b[0]);
        }
        assert(a[0] == b[0]);
        let a1 = a.drop_first();
        let b1 = b.drop_first();
        assert forall|y: Seq<char>| a1.contains(y) <==> b1.contains(y) by {
            if a1.contains(y) {
                let i = choose|i: int| 0 <= i < a1.len() && a1[i] == y;
                assert(a[i + 1] == y);
                assert(lex_lt(a[0], y));
                lemma_lex_asym(a[0], y);
                assert(b.contains(y));
                let m = choose|m: int| 0 <= m < b.len() && b[m] == y;
                assert(m != 0);
                assert(b1[m - 1] == y);
            }
            if b1.contains(y) {
                let i = choose|i: int| 0 <= i < b1.len() && b1[i] == y;
                assert(b[i + 1] == y);
                assert(lex_lt(b[0], y));
                lemma_lex_asym(b[0], y);
                assert(a.contains(y));
                let m = choose|m: int| 0 <= m < a.len() && a[m] == y;
                assert(m != 0);
                assert(a1[m - 1] == y);
            }
        }
        lemma_sorted_unique(a1, b1);
        assert(a =~= seq![a[0]] + a1);
        assert(b =~= seq![b[0]] + b1);
    }
}

} // verus!
