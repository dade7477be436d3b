//! Text as sequences of characters: conversion to and from `str`/`String`, and the
//! character classes the rest of the library relies on.

use vstd::prelude::*;

verus! {

/// Whether `c` is an ASCII decimal digit.
pub open spec fn is_ascii_digit(c: char) -> bool {
    '0' <= c && c <= '9'
}

pub fn ascii_digit(c: char) -> (r: bool)
    ensures
        r == is_ascii_digit(c),
{
    '0' <= c && c <= '9'
}

/// Appends one character to a `String`.
#[verifier::external_body]
pub(crate) fn push_char(s: &mut String, c: char)
    ensures
        final(s)@ == old(s)@.push(c),
{
    s.push(c);
}

/// The characters of `s`, in order.
pub fn chars_of(s: &str) -> (v: Vec<char>)
    ensures
        v@ == s@,
{
    let mut v: Vec<char> = Vec::new();
    for c in it: s.chars()
        invariant
            v@ == it.seq().take(it.index() as int),
            it.seq() == s@,
    {
        v.push(c);
    }
    v
}

/// A `String` holding exactly the characters of `v`.
pub fn string_of(v: &[char]) -> (s: String)
    ensures
        s@ == v@,
{
    let mut s = String::new();
    let mut i: usize = 0;
    while i < v.len()
        invariant
            i <= v.len(),
            s@ == v@.take(i as int),
        decreases v.len() - i,
    {
        push_char(&mut s, v[i]);
        assert(v@.take(i + 1) == v@.take(i as int).push(v@[i as int]));
        i = i + 1;
    }
    assert(v@.take(v.len() as int) == v@);
    s
}


/// Lexicographic order on characters (the order `String`'s `<` gives, since UTF-8 keeps
/// the order of code points).
pub open spec fn lex_less(a: Seq<char>, b: Seq<char>) -> bool
    decreases a.len(),
{
    if a.len() == 0 {
        b.len() > 0
    } else if b.len() == 0 {
        false
    } else if a[0] != b[0] {
        a[0] < b[0]
    } else {
        lex_less(a.drop_first(), b.drop_first())
    }
}

proof fn lemma_lex_less_skip(a: Seq<char>, b: Seq<char>, i: int)
    requires
        0 <= i <= a.len(),
        i <= b.len(),
        a.take(i) == b.take(i),
    ensures
        lex_less(a, b) == lex_less(a.skip(i), b.skip(i)),
    decreases i,
{
    if i > 0 {
        assert(a[0] == a.take(i)[0]);
        assert(b[0] == b.take(i)[0]);
        assert(a.drop_first().take(i - 1) == a.take(i).drop_first());
        assert(b.drop_first().take(i - 1) == b.take(i).drop_first());
        lemma_lex_less_skip(a.drop_first(), b.drop_first(), i - 1);
        assert(a.drop_first().skip(i - 1) == a.skip(i));
        assert(b.drop_first().skip(i - 1) == b.skip(i));
    } else {
        assert(a.skip(0) == a);
        assert(b.skip(0) == b);
    }
}

/// Whether `a` comes before `b` in lexicographic order.
pub fn less_than(a: &str, b: &str) -> (r: bool)
    ensures
        r == lex_less(a@, b@),
{
    let x = chars_of(a);
    let y = chars_of(b);
    let mut i: usize = 0;
    while i < x.len() && i < y.len() && x[i] == y[i]
        invariant
            i <= x.len(),
            i <= y.len(),
            x@.take(i as int) == y@.take(i as int),
            x@ == a@,
            y@ == b@,
        decreases x.len() - i,
    {
        assert(x@.take(i + 1) == x@.take(i as int).push(x@[i as int]));
        assert(y@.take(i + 1) == y@.take(i as int).push(y@[i as int]));
        i = i + 1;
    }
    proof {
        lemma_lex_less_skip(x@, y@, i as int);
    }
    if i == x.len() {
        i < y.len()
    } else if i == y.len() {
        false
    } else {
        x[i] < y[i]
    }
}

/// Unicode's `White_Space` characters, the ones `char::is_whitespace` accepts.
pub open spec fn is_white(c: char) -> bool {
    ('\u{9}' <= c && c <= '\u{d}') || c == ' ' || c == '\u{85}' || c == '\u{a0}' || c == '\u{1680}'
        || ('\u{2000}' <= c && c <= '\u{200a}') || c == '\u{2028}' || c == '\u{2029}' || c
        == '\u{202f}' || c == '\u{205f}' || c == '\u{3000}'
}

pub fn white(c: char) -> (r: bool)
    ensures
        r == is_white(c),
{
    ('\u{9}' <= c && c <= '\u{d}') || c == ' ' || c == '\u{85}' || c == '\u{a0}' || c == '\u{1680}'
        || ('\u{2000}' <= c && c <= '\u{200a}') || c == '\u{2028}' || c == '\u{2029}' || c
        == '\u{202f}' || c == '\u{205f}' || c == '\u{3000}'
}

pub open spec fn is_ascii_upper(c: char) -> bool {
    'A' <= c && c <= 'Z'
}

pub open spec fn is_ascii_alpha(c: char) -> bool {
    is_ascii_upper(c) || ('a' <= c && c <= 'z')
}

pub open spec fn lower_char(c: char) -> char {
    if is_ascii_upper(c) {
        ((c as u32) + 32) as char
    } else {
        c
    }
}

/// `str::to_ascii_lowercase`: ASCII capitals made small, everything else as it was.
pub open spec fn ascii_lower(s: Seq<char>) -> Seq<char> {
    s.map_values(|c: char| lower_char(c))
}

pub fn lower_ascii(s: &[char]) -> (r: Vec<char>)
    ensures
        r@ == ascii_lower(s@),
{
    let mut r: Vec<char> = Vec::new();
    let mut i: usize = 0;
    while i < s.len()
        invariant
            i <= s.len(),
            r@ == ascii_lower(s@.take(i as int)),
        decreases s.len() - i,
    {
        let c = s[i];
        let l = if 'A' <= c && c <= 'Z' {
            ((c as u8) + 32) as char
        } else {
            c
        };
        assert(l == lower_char(c));
        r.push(l);
        assert(ascii_lower(s@.take(i + 1)) =~= ascii_lower(s@.take(i as int)).push(lower_char(s@[i as int])));
        i = i + 1;
    }
    assert(s@.take(s.len() as int) == s@);
    r
}

pub open spec fn trim_start(s: Seq<char>) -> Seq<char>
    decreases s.len(),
{
    if s.len() > 0 && is_white(s[0]) {
        trim_start(s.drop_first())
    } else {
        s
    }
}

pub open spec fn trim_end(s: Seq<char>) -> Seq<char>
    decreases s.len(),
{
    if s.len() > 0 && is_white(s.last()) {
        trim_end(s.drop_last())
    } else {
        s
    }
}

/// `str::trim`: white space off both ends.
pub open spec fn trim(s: Seq<char>) -> Seq<char> {
    trim_end(trim_start(s))
}

proof fn lemma_trim_start_skip(s: Seq<char>, i: int)
    requires
        0 <= i <= s.len(),
        forall|j: int| 0 <= j < i ==> is_white(#[trigger] s[j]),
    ensures
        trim_start(s) == trim_start(s.skip(i)),
    decreases i,
{
    if i > 0 {
        lemma_trim_start_skip(s.drop_first(), i - 1);
        assert(s.drop_first().skip(i - 1) == s.skip(i));
    } else {
        assert(s.skip(0) == s);
    }
}

proof fn lemma_trim_end_take(s: Seq<char>, i: int)
    requires
        0 <= i <= s.len(),
        forall|j: int| i <= j < s.len() ==> is_white(#[trigger] s[j]),
    ensures
        trim_end(s) == trim_end(s.take(i)),
    decreases s.len() - i,
{
    if i < s.len() {
        lemma_trim_end_take(s.drop_last(), i);
        assert(s.drop_last().take(i) == s.take(i));
    } else {
        assert(s.take(i) == s);
    }
}

/// The bounds `[start, end)` of `s` without white space at either end.
pub fn trim_bounds(s: &[char]) -> (r: (usize, usize))
    ensures
        r.0 <= r.1 <= s@.len(),
        s@.subrange(r.0 as int, r.1 as int) == trim(s@),
{
    let mut i: usize = 0;
    while i < s.len() && white(s[i])
        invariant
            i <= s.len(),
            forall|j: int| 0 <= j < i ==> is_white(#[trigger] s@[j]),
        decreases s.len() - i,
    {
        i = i + 1;
    }
    proof {
        lemma_trim_start_skip(s@, i as int);
    }
    let ghost rest = s@.skip(i as int);
    assert(trim_start(rest) == rest);
    let mut j: usize = s.len();
    while j > i && white(s[j - 1])
        invariant
            i <= j <= s.len(),
            rest == s@.skip(i as int),
            forall|k: int| j <= k < s.len() ==> is_white(#[trigger] s@[k]),
        decreases j,
    {
        j = j - 1;
    }
    proof {
        assert forall|k: int| j - i <= k < rest.len() implies is_white(#[trigger] rest[k]) by {
            assert(rest[k] == s@[k + i]);
        }
        lemma_trim_end_take(rest, j - i);
        assert(rest.take(j - i) == s@.subrange(i as int, j as int));
        let t = rest.take(j - i);
        if t.len() > 0 {
            assert(t.last() == s@[j - 1]);
        }
    }
    (i, j)
}

/// `s` without white space at either end.
pub fn trimmed(s: &str) -> (r: String)
    ensures
        r@ == trim(s@),
{
    let v = chars_of(s);
    let (a, b) = trim_bounds(v.as_slice());
    string_of(slice_of(v.as_slice(), a, b).as_slice())
}

/// The characters from `a` up to `b`.
pub fn slice_of(s: &[char], a: usize, b: usize) -> (r: Vec<char>)
    requires
        a <= b <= s@.len(),
    ensures
        r@ == s@.subrange(a as int, b as int),
{
    let mut r: Vec<char> = Vec::new();
    let mut i = a;
    while i < b
        invariant
            a <= i <= b,
            b <= s@.len(),
            r@ == s@.subrange(a as int, i as int),
        decreases b - i,
    {
        r.push(s[i]);
        assert(s@.subrange(a as int, i + 1) == s@.subrange(a as int, i as int).push(s@[i as int]));
        i = i + 1;
    }
    r
}

/// `p` stands in `s` at `i`.
pub open spec fn occurs_at(s: Seq<char>, p: Seq<char>, i: int) -> bool {
    0 <= i && i + p.len() <= s.len() && s.subrange(i, i + p.len()) == p
}

pub open spec fn contains(s: Seq<char>, p: Seq<char>) -> bool {
    exists|i: int| occurs_at(s, p, i)
}

pub open spec fn starts_with(s: Seq<char>, p: Seq<char>) -> bool {
    occurs_at(s, p, 0)
}

pub open spec fn ends_with(s: Seq<char>, p: Seq<char>) -> bool {
    occurs_at(s, p, s.len() - p.len())
}

proof fn lemma_trim_start_keeps_out(s: Seq<char>, p: Seq<char>)
    requires
        forall|i: int| !occurs_at(s, p, i),
    ensures
        forall|i: int| !occurs_at(trim_start(s), p, i),
    decreases s.len(),
{
    if s.len() > 0 && is_white(s[0]) {
        assert forall|i: int| !occurs_at(s.drop_first(), p, i) by {
            if occurs_at(s.drop_first(), p, i) {
                assert(s.drop_first().subrange(i, i + p.len()) == s.subrange(i + 1, i + 1 + p.len()));
                assert(occurs_at(s, p, i + 1));
            }
        }
        lemma_trim_start_keeps_out(s.drop_first(), p);
        assert(trim_start(s) == trim_start(s.drop_first()));
    } else {
        assert(trim_start(s) == s);
    }
}

proof fn lemma_trim_end_keeps_out(s: Seq<char>, p: Seq<char>)
    requires
        forall|i: int| !occurs_at(s, p, i),
    ensures
        forall|i: int| !occurs_at(trim_end(s), p, i),
    decreases s.len(),
{
    if s.len() > 0 && is_white(s.last()) {
        assert forall|i: int| !occurs_at(s.drop_last(), p, i) by {
            if occurs_at(s.drop_last(), p, i) {
                assert(s.drop_last().subrange(i, i + p.len()) == s.subrange(i, i + p.len()));
                assert(occurs_at(s, p, i));
            }
        }
        lemma_trim_end_keeps_out(s.drop_last(), p);
        assert(trim_end(s) == trim_end(s.drop_last()));
    } else {
        assert(trim_end(s) == s);
    }
}

/// What does not stand in `s` does not stand in `s` trimmed either.
pub proof fn lemma_trim_keeps_out(s: Seq<char>, p: Seq<char>)
    requires
        forall|i: int| !occurs_at(s, p, i),
    ensures
        forall|i: int| !occurs_at(trim(s), p, i),
{
    lemma_trim_start_keeps_out(s, p);
    lemma_trim_end_keeps_out(trim_start(s), p);
}

pub fn matches_at(s: &[char], p: &[char], i: usize) -> (r: bool)
    ensures
        r == occurs_at(s@, p@, i as int),
{
    if i > s.len() || p.len() > s.len() - i {
        return false;
    }
    let mut k: usize = 0;
    while k < p.len()
        invariant
            k <= p.len(),
            i + p.len() <= s.len(),
            forall|m: int| 0 <= m < k ==> s@[i + m] == p@[m],
        decreases p.len() - k,
    {
        if s[i + k] != p[k] {
            assert(s@.subrange(i as int, i + p.len())[k as int] != p@[k as int]);
            return false;
        }
        k = k + 1;
    }
    assert(s@.subrange(i as int, i + p.len()) =~= p@);
    true
}

/// Where `p` first stands in `s` at or after `from`.
pub fn find_from(s: &[char], p: &[char], from: usize) -> (r: Option<usize>)
    ensures
        match r {
            Some(i) => from <= i && occurs_at(s@, p@, i as int) && forall|j: int|
                from <= j < i ==> !occurs_at(s@, p@, j),
            None => forall|j: int| from <= j ==> !occurs_at(s@, p@, j),
        },
{
    if from > s.len() {
        return None;
    }
    let mut i = from;
    loop
        invariant
            from <= i <= s.len(),
            forall|j: int| from <= j < i ==> !occurs_at(s@, p@, j),
        decreases s.len() - i,
    {
        if matches_at(s, p, i) {
            return Some(i);
        }
        if i == s.len() {
            return None;
        }
        i = i + 1;
    }
}

/// Where `p` last stands in `s`.
pub fn rfind(s: &[char], p: &[char]) -> (r: Option<usize>)
    ensures
        match r {
            Some(i) => occurs_at(s@, p@, i as int) && forall|j: int| i < j ==> !occurs_at(s@, p@, j),
            None => forall|j: int| !occurs_at(s@, p@, j),
        },
{
    let mut i: usize = s.len();
    loop
        invariant
            i <= s.len(),
            forall|j: int| i < j ==> !occurs_at(s@, p@, j),
        decreases i,
    {
        if matches_at(s, p, i) {
            return Some(i);
        }
        if i == 0 {
            return None;
        }
        i = i - 1;
    }
}

/// Whether `p` stands anywhere in `s`.
pub fn has(s: &[char], p: &[char]) -> (r: bool)
    ensures
        r == contains(s@, p@),
{
    find_from(s, p, 0).is_some()
}

/// Whether the two hold the same characters.
pub fn same(a: &[char], b: &[char]) -> (r: bool)
    ensures
        r == (a@ == b@),
{
    if a.len() != b.len() {
        return false;
    }
    let r = matches_at(a, b, 0);
    assert(a@.subrange(0, b@.len() as int) =~= a@);
    r
}

/// Appends the characters of `v`.
pub fn push_chars(s: &mut String, v: &[char])
    ensures
        final(s)@ == old(s)@ + v@,
{
    let mut i: usize = 0;
    while i < v.len()
        invariant
            i <= v.len(),
            s@ == old(s)@ + v@.take(i as int),
        decreases v.len() - i,
    {
        push_char(s, v[i]);
        assert(v@.take(i + 1) == v@.take(i as int).push(v@[i as int]));
        i = i + 1;
    }
    assert(v@.take(v.len() as int) == v@);
}

/// Appends a `str`.
pub fn push_str(s: &mut String, t: &str)
    ensures
        final(s)@ == old(s)@ + t@,
{
    let v = chars_of(t);
    push_chars(s, v.as_slice());
}

/// What `char::to_uppercase` gives for `c` (one character or several, by Unicode's tables).
pub uninterp spec fn char_uppercase(c: char) -> Seq<char>;

/// `char::to_uppercase`, collected. std documents that it yields one or more characters
/// (the character itself where it has no uppercase form).
#[verifier::external_body]
pub(crate) fn uppercase_of(c: char) -> (r: String)
    ensures
        r@ == char_uppercase(c),
        r@.len() >= 1,
{
    c.to_uppercase().collect()
}

/// The runs of non-white characters, as `str::split_whitespace` gives them.
pub open spec fn words(s: Seq<char>) -> Seq<Seq<char>>
    decreases s.len(),
{
    if s.len() == 0 {
        Seq::empty()
    } else {
        let before = words(s.drop_last());
        let c = s.last();
        if is_white(c) {
            before
        } else if s.len() >= 2 && !is_white(s[s.len() - 2]) {
            before.update(before.len() - 1, before.last().push(c))
        } else {
            before.push(seq![c])
        }
    }
}

/// The pieces joined with `sep` between them.
pub open spec fn join(pieces: Seq<Seq<char>>, sep: Seq<char>) -> Seq<char>
    decreases pieces.len(),
{
    if pieces.len() == 0 {
        Seq::empty()
    } else if pieces.len() == 1 {
        pieces[0]
    } else {
        join(pieces.drop_last(), sep) + sep + pieces.last()
    }
}

/// The words of `s` with one space between them.
pub open spec fn squeeze(s: Seq<char>) -> Seq<char> {
    join(words(s), seq![' '])
}

pub proof fn lemma_words(s: Seq<char>)
    ensures
        forall|k: int| 0 <= k < words(s).len() ==> (#[trigger] words(s)[k]).len() > 0,
        s.len() > 0 && !is_white(s.last()) ==> words(s).len() > 0,
    decreases s.len(),
{
    if s.len() > 0 {
        lemma_words(s.drop_last());
        if s.len() >= 2 && !is_white(s[s.len() - 2]) {
            assert(s.drop_last().last() == s[s.len() - 2]);
        }
    }
}

proof fn lemma_join_extend(pieces: Seq<Seq<char>>, c: char)
    requires
        pieces.len() > 0,
    ensures
        join(pieces.update(pieces.len() - 1, pieces.last().push(c)), seq![' ']) == join(pieces, seq![' ']).push(c),
{
    let updated = pieces.update(pieces.len() - 1, pieces.last().push(c));
    if pieces.len() > 1 {
        assert(updated.drop_last() == pieces.drop_last());
    }
}

proof fn lemma_join_nonempty(pieces: Seq<Seq<char>>)
    requires
        pieces.len() > 0,
        pieces.last().len() > 0,
    ensures
        join(pieces, seq![' ']).len() > 0,
{
}

/// What one more character does to `squeeze`: white space changes nothing, a character
/// after a word's character extends the word, and any other starts a word, after a space
/// unless it is the first.
pub proof fn lemma_squeeze_step(t: Seq<char>, c: char)
    ensures
        squeeze(t.push(c)) == (if is_white(c) {
            squeeze(t)
        } else if t.len() > 0 && !is_white(t.last()) {
            squeeze(t).push(c)
        } else if squeeze(t).len() > 0 {
            squeeze(t) + seq![' ', c]
        } else {
            seq![c]
        }),
{
    let s = t.push(c);
    assert(s.drop_last() == t);
    assert(s.last() == c);
    lemma_words(t);
    if words(t).len() > 0 {
        lemma_join_nonempty(words(t));
    }
    if !is_white(c) {
        if t.len() > 0 && !is_white(t.last()) {
            assert(s[s.len() - 2] == t.last());
            lemma_join_extend(words(t), c);
        } else {
            if t.len() > 0 {
                assert(s[s.len() - 2] == t.last());
            }
            let w = words(t).push(seq![c]);
            assert(w.drop_last() == words(t));
            if words(t).len() > 0 {
                assert(join(w, seq![' ']) =~= join(words(t), seq![' ']) + seq![' ', c]);
            } else {
                assert(join(w, seq![' ']) =~= seq![c]);
            }
        }
    }
}

/// The shape `squeeze` gives: no white space at either end, and white space only as single
/// spaces between other characters.
pub open spec fn squeezed_form(u: Seq<char>) -> bool {
    u.len() == 0 || {
        &&& !is_white(u[0])
        &&& !is_white(u.last())
        &&& forall|i: int| 0 <= i < u.len() && is_white(#[trigger] u[i]) ==> u[i] == ' ' && i + 1 < u.len() && !is_white(u[i + 1])
    }
}

proof fn lemma_squeeze_form(s: Seq<char>)
    ensures
        squeezed_form(squeeze(s)),
    decreases s.len(),
{
    if s.len() > 0 {
        let t = s.drop_last();
        let c = s.last();
        assert(t.push(c) == s);
        lemma_squeeze_form(t);
        lemma_squeeze_step(t, c);
        let q = squeeze(t);
        if !is_white(c) {
            if t.len() > 0 && !is_white(t.last()) {
                lemma_words(t);
                lemma_join_nonempty(words(t));
                let u = q.push(c);
                assert forall|i: int| 0 <= i < u.len() && is_white(#[trigger] u[i]) implies u[i] == ' ' && i + 1
                    < u.len() && !is_white(u[i + 1]) by {
                    assert(u[i] == q[i]);
                    if i + 1 < q.len() {
                        assert(u[i + 1] == q[i + 1]);
                    }
                }
                assert(u[0] == q[0]);
            } else if q.len() > 0 {
                let u = q + seq![' ', c];
                assert forall|i: int| 0 <= i < u.len() && is_white(#[trigger] u[i]) implies u[i] == ' ' && i + 1
                    < u.len() && !is_white(u[i + 1]) by {
                    if i < q.len() {
                        assert(u[i] == q[i]);
                        if i + 1 < q.len() {
                            assert(u[i + 1] == q[i + 1]);
                        }
                    }
                }
                assert(u[0] == q[0]);
            }
        }
    }
}

proof fn lemma_squeeze_fixed(u: Seq<char>)
    requires
        squeezed_form(u),
    ensures
        squeeze(u) == u,
    decreases u.len(),
{
    if u.len() > 0 {
        let t = u.drop_last();
        let c = u.last();
        assert(t.push(c) == u);
        lemma_squeeze_step(t, c);
        if t.len() > 0 {
            if !is_white(t.last()) {
                assert(t[0] == u[0]);
                assert forall|i: int| 0 <= i < t.len() && is_white(#[trigger] t[i]) implies t[i] == ' ' && i + 1
                    < t.len() && !is_white(t[i + 1]) by {
                    assert(t[i] == u[i]);
                    assert(u[i + 1] == t[i + 1] || i + 1 == t.len());
                }
                lemma_squeeze_fixed(t);
            } else {
                let i = t.len() - 1;
                assert(is_white(u[i]));
                let t2 = t.drop_last();
                assert(t.last() == ' ');
                assert(i > 0);
                assert(t2.len() > 0);
                assert(t2[0] == u[0]);
                assert(!is_white(t2.last())) by {
                    assert(t2.last() == u[i - 1]);
                    if is_white(u[i - 1]) {
                        assert(!is_white(u[i]));
                    }
                }
                assert forall|j: int| 0 <= j < t2.len() && is_white(#[trigger] t2[j]) implies t2[j] == ' ' && j + 1
                    < t2.len() && !is_white(t2[j + 1]) by {
                    assert(t2[j] == u[j]);
                    if j + 1 == t2.len() {
                        assert(is_white(u[j + 1]));
                    } else {
                        assert(t2[j + 1] == u[j + 1]);
                    }
                }
                lemma_squeeze_fixed(t2);
                assert(t2.push(' ') == t);
                lemma_squeeze_step(t2, ' ');
                assert(squeeze(t) == t2);
                assert(t2 + seq![' ', c] =~= u);
            }
        } else {
            assert(u =~= seq![c]);
        }
    }
}

/// Squeezing what is squeezed changes nothing.
pub proof fn lemma_squeeze_twice(s: Seq<char>)
    ensures
        squeeze(squeeze(s)) == squeeze(s),
{
    lemma_squeeze_form(s);
    lemma_squeeze_fixed(squeeze(s));
}

/// The run of non-white characters `y` ends with.
pub open spec fn trailing_word(y: Seq<char>) -> Seq<char>
    decreases y.len(),
{
    if y.len() == 0 || is_white(y.last()) {
        Seq::empty()
    } else {
        trailing_word(y.drop_last()).push(y.last())
    }
}

proof fn lemma_trailing_word(y: Seq<char>, n: int)
    requires
        0 <= n <= y.len(),
        forall|j: int| y.len() - n <= j < y.len() ==> !is_white(#[trigger] y[j]),
    ensures
        trailing_word(y).len() <= y.len(),
        trailing_word(y) == y.skip(y.len() - trailing_word(y).len()),
        trailing_word(y).len() >= n,
    decreases y.len(),
{
    if y.len() > 0 {
        let m = if n > 0 {
            n - 1
        } else {
            0
        };
        if !is_white(y.last()) {
            assert forall|j: int| y.drop_last().len() - m <= j < y.drop_last().len() implies !is_white(
                #[trigger] y.drop_last()[j],
            ) by {
                assert(y.drop_last()[j] == y[j]);
            }
            lemma_trailing_word(y.drop_last(), m);
            let r = trailing_word(y.drop_last());
            assert(y.drop_last().skip(y.drop_last().len() - r.len()).push(y.last()) =~= y.skip(y.len() - r.len() - 1));
        } else {
            if n > 0 {
                assert(!is_white(y[y.len() - 1]));
            }
            assert(y.skip(y.len() as int) =~= Seq::<char>::empty());
        }
    } else {
        assert(y.skip(0) =~= Seq::<char>::empty());
    }
}

proof fn lemma_squeeze_trailing_word(x: Seq<char>)
    requires
        x.len() > 0,
        !is_white(x.last()),
    ensures
        trailing_word(squeeze(x)) == trailing_word(x),
    decreases x.len(),
{
    let t = x.drop_last();
    let c = x.last();
    assert(t.push(c) == x);
    lemma_squeeze_step(t, c);
    assert(x.drop_last() == t);
    assert(trailing_word(t) == Seq::<char>::empty() || (t.len() > 0 && !is_white(t.last())));
    if t.len() > 0 && !is_white(t.last()) {
        lemma_squeeze_trailing_word(t);
        let u = squeeze(x);
        assert(u == squeeze(t).push(c));
        assert(u.drop_last() == squeeze(t));
        assert(u.last() == c);
        assert(trailing_word(u) == trailing_word(squeeze(t)).push(c));
        assert(trailing_word(x) == trailing_word(t).push(c));
    } else {
        assert(trailing_word(t) == Seq::<char>::empty());
        assert(trailing_word(x) == seq![c]) by {
            assert(Seq::<char>::empty().push(c) =~= seq![c]);
        }
        if squeeze(t).len() > 0 {
            let u = squeeze(t) + seq![' ', c];
            assert(u.last() == c);
            assert(u.drop_last().last() == ' ');
            assert(trailing_word(u.drop_last()) == Seq::<char>::empty());
            assert(trailing_word(u) == Seq::<char>::empty().push(c));
            assert(Seq::<char>::empty().push(c) =~= seq![c]);
        } else {
            let u = seq![c];
            assert(u.last() == c);
            assert(u.drop_last() =~= Seq::<char>::empty());
            assert(trailing_word(u.drop_last()) == Seq::<char>::empty());
            assert(trailing_word(u) == Seq::<char>::empty().push(c));
            assert(Seq::<char>::empty().push(c) =~= seq![c]);
        }
    }
}

/// A pattern without white space that does not stand in `s` does not stand in `s`
/// squeezed either.
pub proof fn lemma_squeeze_keeps_out(s: Seq<char>, p: Seq<char>)
    requires
        p.len() > 0,
        forall|k: int| 0 <= k < p.len() ==> !is_white(#[trigger] p[k]),
        forall|i: int| !occurs_at(s, p, i),
    ensures
        forall|i: int| !occurs_at(squeeze(s), p, i),
    decreases s.len(),
{
    if s.len() > 0 {
        let t = s.drop_last();
        let c = s.last();
        assert(t.push(c) == s);
        assert forall|i: int| !occurs_at(t, p, i) by {
            if occurs_at(t, p, i) {
                assert(s.subrange(i, i + p.len()) == t.subrange(i, i + p.len()));
                assert(occurs_at(s, p, i));
            }
        }
        lemma_squeeze_keeps_out(t, p);
        lemma_squeeze_step(t, c);
        let q = squeeze(t);
        let u = squeeze(s);
        if !is_white(c) {
            assert(u.len() >= q.len());
            assert(u.take(q.len() as int) == q);
            assert forall|i: int| !occurs_at(u, p, i) by {
                if occurs_at(u, p, i) {
                    if i + p.len() <= q.len() {
                        assert(u.subrange(i, i + p.len()) == q.subrange(i, i + p.len()));
                        assert(occurs_at(q, p, i));
                    } else {
                        // The occurrence holds no space, so it ends with the last character.
                        assert(i + p.len() == u.len()) by {
                            if i + p.len() < u.len() {
                                assert(u.len() == q.len() + 2);
                                assert(u[q.len() as int] == ' ');
                                assert(u.subrange(i, i + p.len())[q.len() - i] == u[q.len() as int]);
                                assert(!is_white(p[q.len() - i]));
                            }
                        }
                        assert forall|j: int| u.len() - p.len() <= j < u.len() implies !is_white(#[trigger] u[j]) by {
                            assert(u.subrange(i, i + p.len())[j - i] == u[j]);
                            assert(!is_white(p[j - i]));
                        }
                        lemma_trailing_word(u, p.len() as int);
                        lemma_squeeze_trailing_word(s);
                        let w = trailing_word(s);
                        lemma_trailing_word(s, 0);
                        assert(trailing_word(u) == w);
                        let a = s.len() - w.len();
                        let b = u.len() - w.len();
                        assert(u.skip(b) == w);
                        assert(s.skip(a) == w);
                        let off = i - b;
                        assert(0 <= off);
                        assert(u.subrange(i, i + p.len()) =~= w.subrange(off, off + p.len()));
                        assert(s.subrange(a + off, a + off + p.len()) =~= w.subrange(off, off + p.len()));
                        assert(occurs_at(s, p, a + off));
                    }
                }
            }
        } else {
            assert(s.drop_last() == t);
        }
    }
}

/// `s` with every run of white space made one space and none at either end: the words
/// of `s` joined by single spaces.
pub fn squeezed(s: &[char]) -> (r: Vec<char>)
    ensures
        r@ == squeeze(s@),
{
    let mut out: Vec<char> = Vec::new();
    let mut i: usize = 0;
    while i < s.len()
        invariant
            i <= s.len(),
            out@ == squeeze(s@.take(i as int)),
        decreases s.len() - i,
    {
        let ghost t = s@.take(i as int);
        let ghost t1 = s@.take(i + 1);
        assert(t1.drop_last() == t);
        assert(t1.last() == s@[i as int]);
        proof {
            lemma_words(t);
            if words(t).len() > 0 {
                lemma_join_nonempty(words(t));
            }
        }
        let c = s[i];
        if !white(c) {
            let in_word = i > 0 && !white(s[i - 1]);
            if in_word {
                assert(t1[t1.len() - 2] == s@[i - 1]);
                assert(t.last() == s@[i - 1]);
                assert(words(t1) == words(t).update(words(t).len() - 1, words(t).last().push(c)));
                proof {
                    lemma_join_extend(words(t), c);
                }
            } else {
                if i >= 1 {
                    assert(t1[t1.len() - 2] == s@[i - 1]);
                }
                assert(words(t1) == words(t).push(seq![c]));
                assert(words(t).push(seq![c]).drop_last() == words(t));
                if out.len() > 0 {
                    out.push(' ');
                }
            }
            out.push(c);
        } else {
            assert(words(t1) == words(t));
        }
        i = i + 1;
    }
    assert(s@.take(s.len() as int) == s@);
    out
}

/// `s` cut into its words.
pub fn split_words(s: &[char]) -> (r: Vec<Vec<char>>)
    ensures
        r@.map_values(|w: Vec<char>| w@) == words(s@),
{
    let mut r: Vec<Vec<char>> = Vec::new();
    let mut i: usize = 0;
    while i < s.len()
        invariant
            i <= s.len(),
            r@.map_values(|w: Vec<char>| w@) == words(s@.take(i as int)),
        decreases s.len() - i,
    {
        let ghost t = s@.take(i as int);
        let ghost t1 = s@.take(i + 1);
        let ghost before = r@.map_values(|w: Vec<char>| w@);
        assert(t1.drop_last() == t);
        assert(t1.last() == s@[i as int]);
        proof {
            lemma_words(t);
        }
        let c = s[i];
        if !white(c) {
            if i > 0 && !white(s[i - 1]) {
                assert(t1[t1.len() - 2] == s@[i - 1]);
                assert(t.last() == s@[i - 1]);
                let mut last = r.pop().unwrap();
                last.push(c);
                r.push(last);
                assert(r@.map_values(|w: Vec<char>| w@) =~= before.update(before.len() - 1, before.last().push(c)));
            } else {
                if i >= 1 {
                    assert(t1[t1.len() - 2] == s@[i - 1]);
                }
                let mut w: Vec<char> = Vec::new();
                w.push(c);
                r.push(w);
                assert(r@.map_values(|w: Vec<char>| w@) =~= before.push(seq![c]));
            }
        }
        i = i + 1;
    }
    assert(s@.take(s.len() as int) == s@);
    r
}
/// `i` is where `p` first stands in `s`.
pub open spec fn first_at(s: Seq<char>, p: Seq<char>, i: int) -> bool {
    occurs_at(s, p, i) && forall|j: int| 0 <= j < i ==> !occurs_at(s, p, j)
}

/// `i` is where `p` last stands in `s`.
pub open spec fn last_at(s: Seq<char>, p: Seq<char>, i: int) -> bool {
    occurs_at(s, p, i) && forall|j: int| i < j ==> !occurs_at(s, p, j)
}

/// Where `p` stands in `s` at all, there is a first place it stands.
pub proof fn lemma_some_first(s: Seq<char>, p: Seq<char>, i: int)
    requires
        occurs_at(s, p, i),
    ensures
        exists|j: int| first_at(s, p, j),
    decreases i,
{
    if exists|j: int| 0 <= j < i && occurs_at(s, p, j) {
        let j = choose|j: int| 0 <= j < i && occurs_at(s, p, j);
        lemma_some_first(s, p, j);
    } else {
        assert(first_at(s, p, i));
    }
}

pub proof fn lemma_first_unique(s: Seq<char>, p: Seq<char>, i: int, j: int)
    requires
        first_at(s, p, i),
        first_at(s, p, j),
    ensures
        i == j,
{
}

pub proof fn lemma_last_unique(s: Seq<char>, p: Seq<char>, i: int, j: int)
    requires
        last_at(s, p, i),
        last_at(s, p, j),
    ensures
        i == j,
{
}


/// `s` with each occurrence of `pat` replaced by `rep`, from the left, as `str::replace`
/// does.
#[verifier::opaque]
pub open spec fn replace_all(s: Seq<char>, pat: Seq<char>, rep: Seq<char>) -> Seq<char>
    decreases s.len(),
{
    if pat.len() > 0 && exists|i: int| first_at(s, pat, i) {
        let i = choose|i: int| first_at(s, pat, i);
        s.take(i) + rep + replace_all(s.skip(i + pat.len()), pat, rep)
    } else {
        s
    }
}

proof fn lemma_replace_step(s: Seq<char>, pat: Seq<char>, rep: Seq<char>, i: int)
    requires
        pat.len() > 0,
        first_at(s, pat, i),
    ensures
        replace_all(s, pat, rep) == s.take(i) + rep + replace_all(s.skip(i + pat.len()), pat, rep),
{
    reveal(replace_all);
    let c = choose|c: int| first_at(s, pat, c);
    lemma_first_unique(s, pat, c, i);
}

proof fn lemma_replace_none(s: Seq<char>, pat: Seq<char>, rep: Seq<char>)
    requires
        forall|j: int| !occurs_at(s, pat, j),
    ensures
        replace_all(s, pat, rep) == s,
{
    reveal(replace_all);
}

pub proof fn lemma_occurs_skip(v: Seq<char>, p: Seq<char>, pos: int, j: int)
    requires
        0 <= pos <= v.len(),
        0 <= j,
    ensures
        occurs_at(v.skip(pos), p, j) == occurs_at(v, p, j + pos),
{
    if j + p.len() <= v.len() - pos {
        assert(v.skip(pos).subrange(j, j + p.len()) == v.subrange(j + pos, j + pos + p.len()));
    }
}

/// Appends the characters of `k` to `out`.
pub fn append_all(out: &mut Vec<char>, k: &[char])
    ensures
        final(out)@ == old(out)@ + k@,
{
    let mut idx: usize = 0;
    while idx < k.len()
        invariant
            idx <= k.len(),
            out@ == old(out)@ + k@.take(idx as int),
        decreases k.len() - idx,
    {
        out.push(k[idx]);
        assert(k@.take(idx + 1) == k@.take(idx as int).push(k@[idx as int]));
        idx = idx + 1;
    }
    assert(k@.take(k.len() as int) == k@);
}

/// `str::replace` on characters.
pub fn replaced(s: &[char], pat: &[char], rep: &[char]) -> (r: Vec<char>)
    requires
        pat@.len() > 0 || rep@.len() == 0,
    ensures
        r@ == replace_all(s@, pat@, rep@),
{
    if pat.len() == 0 {
        proof {
            reveal(replace_all);
        }
        return slice_of(s, 0, s.len());
    }
    let mut out: Vec<char> = Vec::new();
    let mut pos: usize = 0;
    assert(s@.skip(0) == s@);
    loop
        invariant
            pos <= s.len(),
            pat@.len() > 0,
            out@ + replace_all(s@.skip(pos as int), pat@, rep@) == replace_all(s@, pat@, rep@),
        decreases s.len() - pos,
    {
        let ghost rest = s@.skip(pos as int);
        match find_from(s, pat, pos) {
            Some(t) => {
                let ghost tr = t - pos;
                assert forall|j: int| 0 <= j < tr implies !occurs_at(rest, pat@, j) by {
                    lemma_occurs_skip(s@, pat@, pos as int, j);
                }
                proof {
                    lemma_occurs_skip(s@, pat@, pos as int, tr);
                    lemma_replace_step(rest, pat@, rep@, tr);
                }
                let before = slice_of(s, pos, t);
                assert(before@ == rest.take(tr));
                append_all(&mut out, before.as_slice());
                append_all(&mut out, rep);
                let pl = pat.len();
                assert(rest.skip(tr + pl) == s@.skip(t + pl));
                pos = t + pl;
            },
            None => {
                assert forall|j: int| !occurs_at(rest, pat@, j) by {
                    if 0 <= j {
                        lemma_occurs_skip(s@, pat@, pos as int, j);
                    }
                }
                proof {
                    lemma_replace_none(rest, pat@, rep@);
                }
                let tail = slice_of(s, pos, s.len());
                append_all(&mut out, tail.as_slice());
                return out;
            },
        }
    }
}

/// Replaces `pat` by `rep` everywhere in a `String`.
pub fn replace_in(s: &str, pat: &str, rep: &str) -> (r: String)
    requires
        pat@.len() > 0 || rep@.len() == 0,
    ensures
        r@ == replace_all(s@, pat@, rep@),
{
    let v = chars_of(s);
    let p = chars_of(pat);
    let q = chars_of(rep);
    let out = replaced(v.as_slice(), p.as_slice(), q.as_slice());
    string_of(out.as_slice())
}

/// What `str::to_lowercase` gives (Unicode's full lowercase mapping).
pub uninterp spec fn lowercase(s: Seq<char>) -> Seq<char>;

/// `str::to_lowercase`.
#[verifier::external_body]
pub(crate) fn to_lowercase(s: &str) -> (r: String)
    ensures
        r@ == lowercase(s@),
{
    s.to_lowercase()
}

/// What `char::is_alphabetic` says (Unicode's `Alphabetic` property).
pub uninterp spec fn alphabetic(c: char) -> bool;

/// `char::is_alphabetic`.
#[verifier::external_body]
pub(crate) fn is_alphabetic(c: char) -> (r: bool)
    ensures
        r == alphabetic(c),
{
    c.is_alphabetic()
}

/// The decimal digit for `d`.
pub open spec fn digit_char(d: int) -> char {
    (48 + d) as char
}

/// `n` written in decimal, as `{}` formats it.
pub open spec fn decimal(n: nat) -> Seq<char>
    decreases n,
{
    if n < 10 {
        seq![digit_char(n as int)]
    } else {
        decimal(n / 10).push(digit_char((n % 10) as int))
    }
}

/// Appends `n` in decimal.
pub fn push_decimal(s: &mut String, n: u64)
    ensures
        final(s)@ == old(s)@ + decimal(n as nat),
    decreases n,
{
    if n >= 10 {
        push_decimal(s, n / 10);
    }
    let d = (n % 10) as u8;
    let c = (48u8 + d) as char;
    assert(c == digit_char((n % 10) as int));
    push_char(s, c);
}

/// The value of a run of decimal digits.
pub open spec fn digits_value(s: Seq<char>) -> nat
    decreases s.len(),
{
    if s.len() == 0 {
        0
    } else {
        digits_value(s.drop_last()) * 10 + ((s.last() as u32) - 48) as nat
    }
}

pub open spec fn all_digits(s: Seq<char>) -> bool {
    forall|i: int| 0 <= i < s.len() ==> is_ascii_digit(#[trigger] s[i])
}

/// What `u16::from_str` accepts: decimal digits, a `+` in front allowed, at most 65535.
pub open spec fn parses_as_u16(s: Seq<char>) -> Option<u16> {
    let d = if s.len() > 0 && s[0] == '+' {
        s.drop_first()
    } else {
        s
    };
    if d.len() > 0 && all_digits(d) && digits_value(d) <= 65535 {
        Some(digits_value(d) as u16)
    } else {
        None
    }
}

proof fn lemma_digits_value_grows(s: Seq<char>, i: int)
    requires
        0 <= i <= s.len(),
        all_digits(s),
    ensures
        digits_value(s.take(i)) <= digits_value(s),
    decreases s.len() - i,
{
    if i < s.len() {
        lemma_digits_value_grows(s.drop_last(), i);
        assert(s.drop_last().take(i) == s.take(i));
    } else {
        assert(s.take(i) == s);
    }
}

/// `u16::from_str` on characters.
pub fn parse_u16(s: &[char]) -> (r: Option<u16>)
    ensures
        r == parses_as_u16(s@),
{
    let start: usize = if s.len() > 0 && s[0] == '+' {
        1
    } else {
        0
    };
    let ghost d = if s@.len() > 0 && s@[0] == '+' {
        s@.drop_first()
    } else {
        s@
    };
    assert(d == s@.skip(start as int));
    if start == s.len() {
        return None;
    }
    let mut value: u32 = 0;
    let mut i = start;
    while i < s.len()
        invariant
            start <= i <= s.len(),
            d == s@.skip(start as int),
            d == (if s@.len() > 0 && s@[0] == '+' {
                s@.drop_first()
            } else {
                s@
            }),
            all_digits(s@.subrange(start as int, i as int)),
            value == digits_value(s@.subrange(start as int, i as int)),
            value <= 65535,
        decreases s.len() - i,
    {
        let c = s[i];
        if !ascii_digit(c) {
            assert(d[i - start] == c);
            assert(!is_ascii_digit(d[i - start]));
            return None;
        }
        let ghost prefix = s@.subrange(start as int, i + 1);
        assert(prefix.drop_last() == s@.subrange(start as int, i as int));
        let next = value * 10 + ((c as u32) - 48);
        assert(prefix.last() == c);
        assert(next == digits_value(prefix));
        if next > 65535 {
            proof {
                if all_digits(d) {
                    assert(prefix == d.take(i + 1 - start));
                    lemma_digits_value_grows(d, i + 1 - start);
                }
            }
            return None;
        }
        value = next;
        i = i + 1;
    }
    assert(s@.subrange(start as int, s.len() as int) == d);
    Some(value as u16)
}

/// The pieces of `s` between the occurrences of `sep`: always at least one.
pub open spec fn split_at_char(s: Seq<char>, sep: char) -> Seq<Seq<char>>
    decreases s.len(),
{
    if s.len() == 0 {
        seq![Seq::<char>::empty()]
    } else {
        let before = split_at_char(s.drop_last(), sep);
        if s.last() == sep {
            before.push(Seq::<char>::empty())
        } else {
            before.update(before.len() - 1, before.last().push(s.last()))
        }
    }
}

pub proof fn lemma_split_at_char_len(s: Seq<char>, sep: char)
    ensures
        split_at_char(s, sep).len() >= 1,
    decreases s.len(),
{
    if s.len() > 0 {
        lemma_split_at_char_len(s.drop_last(), sep);
    }
}

pub fn split_char(s: &[char], sep: char) -> (r: Vec<Vec<char>>)
    ensures
        r@.map_values(|p: Vec<char>| p@) == split_at_char(s@, sep),
        r@.len() >= 1,
{
    let mut r: Vec<Vec<char>> = Vec::new();
    r.push(Vec::new());
    let mut i: usize = 0;
    assert(r@.map_values(|p: Vec<char>| p@) =~= split_at_char(s@.take(0), sep));
    while i < s.len()
        invariant
            i <= s.len(),
            r@.map_values(|p: Vec<char>| p@) == split_at_char(s@.take(i as int), sep),
            r@.len() >= 1,
        decreases s.len() - i,
    {
        let ghost before = r@.map_values(|p: Vec<char>| p@);
        assert(s@.take(i + 1).drop_last() == s@.take(i as int));
        let c = s[i];
        if c == sep {
            r.push(Vec::new());
            assert(r@.map_values(|p: Vec<char>| p@) =~= before.push(Seq::<char>::empty()));
        } else {
            let mut last = r.pop().unwrap();
            last.push(c);
            r.push(last);
            assert(r@.map_values(|p: Vec<char>| p@) =~= before.update(before.len() - 1, before.last().push(c)));
        }
        i = i + 1;
    }
    assert(s@.take(s.len() as int) == s@);
    r
}

/// A line without the `\r` of a `\r\n` ending.
pub open spec fn without_cr(line: Seq<char>) -> Seq<char> {
    if line.len() > 0 && line.last() == '\r' {
        line.drop_last()
    } else {
        line
    }
}

/// The lines of `s`, as `str::lines` gives them: cut at `\n`, a `\r` in front of it
/// dropped, and no empty line after a final line ending.
pub open spec fn lines(s: Seq<char>) -> Seq<Seq<char>> {
    let pieces = split_at_char(s, '\n');
    let body = if pieces.last().len() == 0 {
        pieces.drop_last()
    } else {
        pieces
    };
    Seq::new(
        body.len(),
        |i: int|
            if i < pieces.len() - 1 {
                without_cr(body[i])
            } else {
                body[i]
            },
    )
}

pub fn split_lines(s: &[char]) -> (r: Vec<Vec<char>>)
    ensures
        r@.map_values(|p: Vec<char>| p@) == lines(s@),
{
    let pieces = split_char(s, '\n');
    let ghost pv = pieces@.map_values(|p: Vec<char>| p@);
    let count = if pieces[pieces.len() - 1].len() == 0 {
        pieces.len() - 1
    } else {
        pieces.len()
    };
    let mut r: Vec<Vec<char>> = Vec::new();
    let mut i: usize = 0;
    while i < count
        invariant
            i <= count <= pieces.len(),
            pv == pieces@.map_values(|p: Vec<char>| p@),
            pieces@.len() >= 1,
            count == if pv.last().len() == 0 {
                pieces.len() - 1
            } else {
                pieces.len() as int
            },
            r@.map_values(|p: Vec<char>| p@) == lines(s@).take(i as int),
            pv == split_at_char(s@, '\n'),
        decreases count - i,
    {
        let piece = &pieces[i];
        let n = piece.len();
        let line = if i + 1 < pieces.len() && n > 0 && piece[n - 1] == '\r' {
            slice_of(piece.as_slice(), 0, n - 1)
        } else {
            slice_of(piece.as_slice(), 0, n)
        };
        assert(line@ == lines(s@)[i as int]);
        let ghost before = r@.map_values(|p: Vec<char>| p@);
        r.push(line);
        assert(r@.map_values(|p: Vec<char>| p@) =~= before.push(line@));
        assert(lines(s@).take(i + 1) =~= lines(s@).take(i as int).push(lines(s@)[i as int]));
        i = i + 1;
    }
    assert(lines(s@).take(count as int) =~= lines(s@));
    r
}

/// Where `s` starts once its leading white space is skipped.
pub fn trim_start_at(s: &[char]) -> (r: usize)
    ensures
        r <= s@.len(),
        s@.skip(r as int) == trim_start(s@),
{
    let mut i: usize = 0;
    while i < s.len() && white(s[i])
        invariant
            i <= s.len(),
            forall|j: int| 0 <= j < i ==> is_white(#[trigger] s@[j]),
        decreases s.len() - i,
    {
        i = i + 1;
    }
    proof {
        lemma_trim_start_skip(s@, i as int);
    }
    i
}

/// `s` without the characters of `drop`.
pub open spec fn without_chars(s: Seq<char>, drop: Seq<char>) -> Seq<char>
    decreases s.len(),
{
    if s.len() == 0 {
        s
    } else if drop.contains(s.last()) {
        without_chars(s.drop_last(), drop)
    } else {
        without_chars(s.drop_last(), drop).push(s.last())
    }
}

pub fn remove_chars(s: &[char], drop: &[char]) -> (r: Vec<char>)
    ensures
        r@ == without_chars(s@, drop@),
{
    let mut r: Vec<char> = Vec::new();
    let mut i: usize = 0;
    while i < s.len()
        invariant
            i <= s.len(),
            r@ == without_chars(s@.take(i as int), drop@),
        decreases s.len() - i,
    {
        assert(s@.take(i + 1).drop_last() == s@.take(i as int));
        let c = s[i];
        let mut k: usize = 0;
        let mut found = false;
        while k < drop.len()
            invariant
                k <= drop.len(),
                found == (exists|m: int| 0 <= m < k && drop@[m] == c),
            decreases drop.len() - k,
        {
            if drop[k] == c {
                found = true;
            }
            k = k + 1;
        }
        assert(found == drop@.contains(c));
        if !found {
            r.push(c);
        }
        i = i + 1;
    }
    assert(s@.take(s.len() as int) == s@);
    r
}

/// How many characters of `s` are alphabetic.
pub open spec fn alphabetic_count(s: Seq<char>) -> nat
    decreases s.len(),
{
    if s.len() == 0 {
        0
    } else {
        alphabetic_count(s.drop_last()) + if alphabetic(s.last()) {
            1nat
        } else {
            0nat
        }
    }
}

} // verus!
