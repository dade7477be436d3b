//! Cleaning up and cutting what the speech recognizer returns.

use vstd::prelude::*;

use crate::text::{
    lemma_some_first, lemma_squeeze_keeps_out, lemma_squeeze_twice, append_all, chars_of, find_from, first_at, is_white, last_at, lemma_first_unique, lemma_last_unique, lemma_occurs_skip, occurs_at,
    rfind, slice_of, split_words, squeeze, squeezed, string_of, white, words,
};

verus! {

pub const ASR_TEXT_TAG: &'static str = "<asr_text>";
pub const LANGUAGE_MARKER: &'static str = "language ";
/// A run of Chinese without punctuation is cut after this many characters.
pub const MAX_UNPUNCTUATED_CJK_CHARS: usize = 16;

/// The tag llama.cpp leaves between the language preamble and the text.
pub open spec fn asr_tag() -> Seq<char> {
    seq!['<', 'a', 's', 'r', '_', 't', 'e', 'x', 't', '>']
}

/// What stands in front of the language's name in the preamble.
pub open spec fn language_marker() -> Seq<char> {
    seq!['l', 'a', 'n', 'g', 'u', 'a', 'g', 'e', ' ']
}

/// A language's name, as the preamble writes it: ASCII letters only.
pub open spec fn language_name(text: Seq<char>) -> bool {
    text.len() > 0 && forall|i: int| 0 <= i < text.len() ==> crate::text::is_ascii_alpha(#[trigger] text[i])
}

/// What is kept of the text in front of a tag: all of it, less a `language X` preamble at
/// its end.
pub open spec fn kept_before(before: Seq<char>) -> Seq<char> {
    if exists|m: int| last_at(before, language_marker(), m) {
        let m = choose|m: int| last_at(before, language_marker(), m);
        if language_name(before.skip(m + language_marker().len())) {
            before.take(m)
        } else {
            before
        }
    } else {
        before
    }
}

/// Kept text is separated from what follows the tag by a space.
pub open spec fn spaced(kept: Seq<char>) -> Seq<char> {
    if kept.len() > 0 && !is_white(kept.last()) {
        kept.push(' ')
    } else {
        kept
    }
}

/// The text with every tag and the preamble in front of it taken out.
#[verifier::opaque]
pub open spec fn untagged(rest: Seq<char>) -> Seq<char>
    decreases rest.len(),
{
    if exists|t: int| first_at(rest, asr_tag(), t) {
        let t = choose|t: int| first_at(rest, asr_tag(), t);
        spaced(kept_before(rest.take(t))) + untagged(rest.skip(t + asr_tag().len()))
    } else {
        rest
    }
}

/// llama.cpp leaks the model's `language English<asr_text>` preamble to clients, and a
/// code-switched chunk can carry more than one.
pub open spec fn strip_asr_prefix_of(raw: Seq<char>) -> Seq<char> {
    squeeze(untagged(raw))
}

fn is_language_name(text: &[char]) -> (r: bool)
    ensures
        r == language_name(text@),
{
    if text.len() == 0 {
        return false;
    }
    let mut i: usize = 0;
    while i < text.len()
        invariant
            i <= text.len(),
            forall|j: int| 0 <= j < i ==> crate::text::is_ascii_alpha(#[trigger] text@[j]),
        decreases text.len() - i,
    {
        let c = text[i];
        if !(('A' <= c && c <= 'Z') || ('a' <= c && c <= 'z')) {
            return false;
        }
        i = i + 1;
    }
    true
}

fn kept(before: &[char], marker: &[char]) -> (r: Vec<char>)
    requires
        marker@ == language_marker(),
    ensures
        r@ == kept_before(before@),
{
    match rfind(before, marker) {
        Some(m) => {
            assert(last_at(before@, language_marker(), m as int));
            proof {
                let c = choose|c: int| last_at(before@, language_marker(), c);
                lemma_last_unique(before@, language_marker(), c, m as int);
            }
            let ml = marker.len();
            let bl = before.len();
            assert(m + ml <= bl);
            let name = slice_of(before, m + ml, before.len());
            assert(name@ == before@.skip(m + language_marker().len()));
            if is_language_name(name.as_slice()) {
                slice_of(before, 0, m)
            } else {
                slice_of(before, 0, before.len())
            }
        },
        None => {
            slice_of(before, 0, before.len())
        },
    }
}

proof fn lemma_untagged_step(rest: Seq<char>, t: int)
    requires
        first_at(rest, asr_tag(), t),
    ensures
        untagged(rest) == spaced(kept_before(rest.take(t))) + untagged(rest.skip(t + 10)),
{
    reveal(untagged);
    let c = choose|c: int| first_at(rest, asr_tag(), c);
    lemma_first_unique(rest, asr_tag(), c, t);
}

proof fn lemma_untagged_none(rest: Seq<char>)
    requires
        forall|j: int| !occurs_at(rest, asr_tag(), j),
    ensures
        untagged(rest) == rest,
{
    reveal(untagged);
}

proof fn lemma_prefix_keeps_out(s: Seq<char>, p: Seq<char>, n: int)
    requires
        0 <= n <= s.len(),
        forall|i: int| !occurs_at(s, p, i),
    ensures
        forall|i: int| !occurs_at(s.take(n), p, i),
{
    assert forall|i: int| !occurs_at(s.take(n), p, i) by {
        if occurs_at(s.take(n), p, i) {
            assert(s.take(n).subrange(i, i + p.len()) == s.subrange(i, i + p.len()));
            assert(occurs_at(s, p, i));
        }
    }
}

proof fn lemma_tag_has_no_white()
    ensures
        forall|k: int| 0 <= k < asr_tag().len() ==> !is_white(#[trigger] asr_tag()[k]),
{
}

/// Two tag-free pieces, the first empty or ending in white space, are tag-free together.
proof fn lemma_join_keeps_out(a: Seq<char>, b: Seq<char>)
    requires
        a.len() == 0 || is_white(a.last()),
        forall|i: int| !occurs_at(a, asr_tag(), i),
        forall|i: int| !occurs_at(b, asr_tag(), i),
    ensures
        forall|i: int| !occurs_at(a + b, asr_tag(), i),
{
    lemma_tag_has_no_white();
    let p = asr_tag();
    let s = a + b;
    assert forall|i: int| !occurs_at(s, p, i) by {
        if occurs_at(s, p, i) {
            if i + p.len() <= a.len() {
                assert(s.subrange(i, i + p.len()) == a.subrange(i, i + p.len()));
                assert(occurs_at(a, p, i));
            } else if i >= a.len() {
                assert(s.subrange(i, i + p.len()) == b.subrange(i - a.len(), i - a.len() + p.len()));
                assert(occurs_at(b, p, i - a.len()));
            } else {
                let k = a.len() - 1 - i;
                assert(s.subrange(i, i + p.len())[k] == s[a.len() - 1]);
                assert(s[a.len() - 1] == a.last());
                assert(!is_white(p[k]));
            }
        }
    }
}

proof fn lemma_untagged_has_no_tag(rest: Seq<char>)
    ensures
        forall|i: int| !occurs_at(untagged(rest), asr_tag(), i),
    decreases rest.len(),
{
    lemma_tag_has_no_white();
    if exists|t: int| first_at(rest, asr_tag(), t) {
        let t = choose|t: int| first_at(rest, asr_tag(), t);
        lemma_untagged_step(rest, t);
        let before = rest.take(t);
        assert forall|i: int| !occurs_at(before, asr_tag(), i) by {
            if occurs_at(before, asr_tag(), i) {
                assert(before.subrange(i, i + 10) == rest.subrange(i, i + 10));
                assert(occurs_at(rest, asr_tag(), i));
            }
        }
        let k = kept_before(before);
        assert(forall|i: int| !occurs_at(k, asr_tag(), i)) by {
            if exists|m: int| last_at(before, language_marker(), m) {
                let m = choose|m: int| last_at(before, language_marker(), m);
                lemma_prefix_keeps_out(before, asr_tag(), m);
            }
        }
        let a = spaced(k);
        assert(forall|i: int| !occurs_at(a, asr_tag(), i)) by {
            if k.len() > 0 && !is_white(k.last()) {
                assert(a.take(k.len() as int) == k);
                assert(a == k + seq![' ']);
                assert forall|i: int| !occurs_at(a, asr_tag(), i) by {
                    if occurs_at(a, asr_tag(), i) {
                        if i + 10 <= k.len() {
                            assert(a.subrange(i, i + 10) == k.subrange(i, i + 10));
                            assert(occurs_at(k, asr_tag(), i));
                        } else {
                            assert(a.subrange(i, i + 10)[k.len() - i] == ' ');
                            assert(!is_white(asr_tag()[k.len() - i]));
                        }
                    }
                }
            }
        }
        assert(a.len() == 0 || is_white(a.last()));
        lemma_untagged_has_no_tag(rest.skip(t + 10));
        lemma_join_keeps_out(a, untagged(rest.skip(t + 10)));
    } else {
        assert forall|i: int| !occurs_at(rest, asr_tag(), i) by {
            if occurs_at(rest, asr_tag(), i) {
                lemma_some_first(rest, asr_tag(), i);
            }
        }
        lemma_untagged_none(rest);
    }
}

/// The cleaned text carries no tag, and its words stand one space apart with no white
/// space at either end, so cleaning it again changes nothing; text that never held a tag
/// only has its white space made single spaces.
pub proof fn law_cleaned_text_is_clean(raw: Seq<char>)
    ensures
        forall|i: int| !occurs_at(strip_asr_prefix_of(raw), asr_tag(), i),
        squeeze(strip_asr_prefix_of(raw)) == strip_asr_prefix_of(raw),
        strip_asr_prefix_of(strip_asr_prefix_of(raw)) == strip_asr_prefix_of(raw),
        (forall|i: int| !occurs_at(raw, asr_tag(), i)) ==> strip_asr_prefix_of(raw) == squeeze(raw),
{
    lemma_tag_has_no_white();
    lemma_untagged_has_no_tag(raw);
    lemma_squeeze_keeps_out(untagged(raw), asr_tag());
    lemma_squeeze_twice(untagged(raw));
    let r = strip_asr_prefix_of(raw);
    lemma_untagged_none(r);
    if forall|i: int| !occurs_at(raw, asr_tag(), i) {
        lemma_untagged_none(raw);
    }
}

fn append_spaced(cleaned: &mut Vec<char>, k: &[char])
    ensures
        final(cleaned)@ == old(cleaned)@ + spaced(k@),
{
    append_all(cleaned, k);
    if k.len() > 0 && !white(k[k.len() - 1]) {
        cleaned.push(' ');
    }
}

/// llama.cpp leaks the model's `language English<asr_text>` preamble to clients, and a
/// code-switched chunk can carry more than one.
pub fn strip_asr_prefix(raw: &str) -> (r: String)
    ensures
        r@ == strip_asr_prefix_of(raw@),
{
    let v = chars_of(raw);
    let tag = chars_of(ASR_TEXT_TAG);
    let marker = chars_of(LANGUAGE_MARKER);
    proof {
        reveal_strlit("<asr_text>");
        reveal_strlit("language ");
    }
    assert(tag@ =~= asr_tag());
    assert(marker@ =~= language_marker());
    let mut cleaned: Vec<char> = Vec::new();
    let mut pos: usize = 0;
    assert(v@.skip(0) == v@);
    loop
        invariant
            pos <= v.len(),
            v@ == raw@,
            tag@ == asr_tag(),
            marker@ == language_marker(),
            cleaned@ + untagged(v@.skip(pos as int)) == untagged(v@),
        decreases v.len() - pos,
    {
        let ghost rest = v@.skip(pos as int);
        match find_from(v.as_slice(), tag.as_slice(), pos) {
            Some(t) => {
                let ghost tr = t - pos;
                assert forall|j: int| 0 <= j < tr implies !occurs_at(rest, asr_tag(), j) by {
                    lemma_occurs_skip(v@, asr_tag(), pos as int, j);
                }
                proof {
                    lemma_occurs_skip(v@, asr_tag(), pos as int, tr);
                    lemma_untagged_step(rest, tr);
                }
                let before = slice_of(v.as_slice(), pos, t);
                assert(before@ == rest.take(tr));
                let k = kept(before.as_slice(), marker.as_slice());
                let ghost old_cleaned = cleaned@;
                append_spaced(&mut cleaned, k.as_slice());
                assert(rest.skip(tr + 10) == v@.skip(t + 10));
                assert(cleaned@ + untagged(v@.skip(t + 10)) == untagged(v@));
                pos = t + tag.len();
            },
            None => {
                assert forall|j: int| !occurs_at(rest, asr_tag(), j) by {
                    if 0 <= j {
                        lemma_occurs_skip(v@, asr_tag(), pos as int, j);
                    }
                }
                proof {
                    lemma_untagged_none(rest);
                }
                let tail = slice_of(v.as_slice(), pos, v.len());
                append_all(&mut cleaned, tail.as_slice());
                assert(tail@ == rest);
                let squeezed_text = squeezed(cleaned.as_slice());
                return string_of(squeezed_text.as_slice());
            },
        }
    }
}

// ---------------------------------------------------------------------------------------
// Cutting text into display units.

/// Scripts written without spaces between words: kana and CJK ideographs.
pub open spec fn unspaced(c: char) -> bool {
    let u = c as u32;
    (0x3040 <= u && u <= 0x30FF) || (0x3400 <= u && u <= 0x4DBF) || (0x4E00 <= u && u <= 0x9FFF) || (
    0xF900 <= u && u <= 0xFAFF) || (0x20000 <= u && u <= 0x2A6DF)
}

pub fn is_unspaced_script(c: char) -> (r: bool)
    ensures
        r == unspaced(c),
{
    let u = c as u32;
    (0x3040 <= u && u <= 0x30FF) || (0x3400 <= u && u <= 0x4DBF) || (0x4E00 <= u && u <= 0x9FFF) || (
    0xF900 <= u && u <= 0xFAFF) || (0x20000 <= u && u <= 0x2A6DF)
}

/// Punctuation that ends a clause in Chinese.
pub open spec fn clause_punctuation(c: char) -> bool {
    c == '，' || c == '。' || c == '！' || c == '？' || c == '；' || c == '：' || c == '、' || c == '…'
}

pub fn is_clause_punctuation(c: char) -> (r: bool)
    ensures
        r == clause_punctuation(c),
{
    c == '，' || c == '。' || c == '！' || c == '？' || c == '；' || c == '：' || c == '、' || c == '…'
}

/// Whether the next character of `token` after the first `i` is clause punctuation.
pub open spec fn punctuation_follows(token: Seq<char>, i: int) -> bool {
    i < token.len() && clause_punctuation(token[i])
}

/// The clauses closed after reading the first `i` characters of `token`, the clause
/// still open, and how many unspaced characters it holds. A clause closes after
/// punctuation, or after `MAX_UNPUNCTUATED_CJK_CHARS` unspaced characters, but never in
/// front of more punctuation.
pub open spec fn clause_cut(token: Seq<char>, i: int) -> (Seq<Seq<char>>, Seq<char>, int)
    decreases i,
{
    if i <= 0 {
        (Seq::empty(), Seq::empty(), 0)
    } else {
        let (closed, open, count) = clause_cut(token, i - 1);
        let c = token[i - 1];
        let open = open.push(c);
        let count = if unspaced(c) {
            count + 1
        } else {
            count
        };
        let follows = punctuation_follows(token, i);
        if (clause_punctuation(c) && !follows) || (count >= MAX_UNPUNCTUATED_CJK_CHARS && !follows) {
            (closed.push(open), Seq::empty(), 0)
        } else {
            (closed, open, count)
        }
    }
}

/// A token of unspaced script cut into clauses.
pub open spec fn clauses_of(token: Seq<char>) -> Seq<Seq<char>> {
    let (closed, open, _) = clause_cut(token, token.len() as int);
    if open.len() > 0 {
        closed.push(open)
    } else {
        closed
    }
}

proof fn lemma_clause_cut_flatten(token: Seq<char>, i: int)
    requires
        0 <= i <= token.len(),
    ensures
        ({
            let (closed, open, count) = clause_cut(token, i);
            closed.flatten() + open == token.take(i) && 0 <= count
        }),
    decreases i,
{
    if i > 0 {
        lemma_clause_cut_flatten(token, i - 1);
        let (closed, open, count) = clause_cut(token, i - 1);
        let c = token[i - 1];
        assert(token.take(i) == token.take(i - 1).push(c));
        closed.lemma_flatten_push(open.push(c));
        assert(closed.flatten() + open.push(c) == (closed.flatten() + open).push(c));
    }
}

/// Cutting a token into clauses loses and adds nothing.
pub proof fn law_clauses_keep_the_text(token: Seq<char>)
    ensures
        clauses_of(token).flatten() == token,
{
    lemma_clause_cut_flatten(token, token.len() as int);
    let (closed, open, _) = clause_cut(token, token.len() as int);
    assert(token.take(token.len() as int) == token);
    if open.len() > 0 {
        closed.lemma_flatten_push(open);
    } else {
        assert(closed.flatten() + open == closed.flatten());
    }
}

/// The marks that end a clause in Chinese: ，。！？；：、…
pub open spec fn chinese_clause_mark(c: char) -> bool {
    c == '，' || c == '。' || c == '！' || c == '？' || c == '；' || c == '：' || c == '、' || c == '…'
}

proof fn lemma_clause_cut_grows(token: Seq<char>, j: int, n: int)
    requires
        0 <= j <= n,
    ensures
        clause_cut(token, j).0.len() <= clause_cut(token, n).0.len(),
        clause_cut(token, n).0.take(clause_cut(token, j).0.len() as int) == clause_cut(token, j).0,
    decreases n - j,
{
    if j < n {
        lemma_clause_cut_grows(token, j, n - 1);
        let before = clause_cut(token, n - 1).0;
        let after = clause_cut(token, n).0;
        let small = clause_cut(token, j).0;
        if after != before {
            assert(after.take(before.len() as int) == before);
            assert(after.take(small.len() as int) =~= before.take(small.len() as int));
        }
    } else {
        assert(clause_cut(token, n).0.take(clause_cut(token, n).0.len() as int) =~= clause_cut(token, n).0);
    }
}

/// Each of the marks ，。！？；：、… ends a clause: in a token cut into clauses, a clause
/// closes right after such a mark unless another one follows it, so the first clauses
/// hold exactly the token up to and with that mark.
pub proof fn law_chinese_marks_end_clauses(token: Seq<char>, i: int)
    requires
        0 <= i < token.len(),
        chinese_clause_mark(token[i]),
        i + 1 == token.len() || !chinese_clause_mark(token[i + 1]),
    ensures
        exists|k: int| 0 <= k <= clauses_of(token).len() && #[trigger] clauses_of(token).take(k).flatten() == token.take(i + 1),
{
    let (closed, open, count) = clause_cut(token, i + 1);
    assert(clause_punctuation(token[i]));
    assert(!punctuation_follows(token, i + 1));
    assert(open.len() == 0);
    lemma_clause_cut_flatten(token, i + 1);
    assert(closed.flatten() == token.take(i + 1));
    lemma_clause_cut_grows(token, i + 1, token.len() as int);
    let all = clause_cut(token, token.len() as int).0;
    let k = closed.len() as int;
    assert(all.take(k) == closed);
    let cs = clauses_of(token);
    assert(cs.take(k) =~= all.take(k));
    assert(cs.take(k).flatten() == token.take(i + 1));
}

fn to_strings(pieces: &Vec<Vec<char>>) -> (r: Vec<String>)
    ensures
        r@.map_values(|s: String| s@) == pieces@.map_values(|p: Vec<char>| p@),
{
    let mut r: Vec<String> = Vec::new();
    let mut i: usize = 0;
    while i < pieces.len()
        invariant
            i <= pieces.len(),
            r@.map_values(|s: String| s@) == pieces@.map_values(|p: Vec<char>| p@).take(i as int),
        decreases pieces.len() - i,
    {
        let s = string_of(pieces[i].as_slice());
        let ghost before = r@.map_values(|s: String| s@);
        r.push(s);
        assert(r@.map_values(|s: String| s@) =~= before.push(pieces@[i as int]@));
        assert(pieces@.map_values(|p: Vec<char>| p@).take(i + 1) =~= pieces@.map_values(|p: Vec<char>| p@).take(i as int).push(pieces@[i as int]@));
        i = i + 1;
    }
    assert(pieces@.map_values(|p: Vec<char>| p@).take(pieces.len() as int) =~= pieces@.map_values(|p: Vec<char>| p@));
    r
}

fn cut_clauses(token: &[char]) -> (r: Vec<Vec<char>>)
    ensures
        r@.map_values(|p: Vec<char>| p@) == clauses_of(token@),
{
    let mut closed: Vec<Vec<char>> = Vec::new();
    let mut open: Vec<char> = Vec::new();
    let mut count: usize = 0;
    let mut i: usize = 0;
    while i < token.len()
        invariant
            i <= token.len(),
            count <= i,
            (closed@.map_values(|p: Vec<char>| p@), open@, count as int) == clause_cut(token@, i as int),
        decreases token.len() - i,
    {
        let c = token[i];
        open.push(c);
        if is_unspaced_script(c) {
            count = count + 1;
        }
        let follows = i + 1 < token.len() && is_clause_punctuation(token[i + 1]);
        if (is_clause_punctuation(c) && !follows) || (count >= MAX_UNPUNCTUATED_CJK_CHARS && !follows) {
            let ghost before = closed@.map_values(|p: Vec<char>| p@);
            let mut finished: Vec<char> = Vec::new();
            std::mem::swap(&mut finished, &mut open);
            closed.push(finished);
            count = 0;
            assert(closed@.map_values(|p: Vec<char>| p@) =~= before.push(finished@));
        }
        i = i + 1;
    }
    if open.len() > 0 {
        let ghost before = closed@.map_values(|p: Vec<char>| p@);
        let ghost o = open@;
        closed.push(open);
        assert(closed@.map_values(|p: Vec<char>| p@) =~= before.push(o));
    }
    closed
}

/// Chinese has no spaces: it is cut into clauses at punctuation, and unpunctuated runs
/// at most `MAX_UNPUNCTUATED_CJK_CHARS` characters at a time.
pub fn split_clauses(token: &str) -> (r: Vec<String>)
    ensures
        r@.map_values(|s: String| s@) == clauses_of(token@),
{
    let v = chars_of(token);
    let pieces = cut_clauses(v.as_slice());
    to_strings(&pieces)
}

pub open spec fn has_unspaced(word: Seq<char>) -> bool {
    exists|i: int| 0 <= i < word.len() && unspaced(word[i])
}

/// Words; those in an unspaced script cut into clauses.
pub open spec fn units_of(ws: Seq<Seq<char>>) -> Seq<Seq<char>>
    decreases ws.len(),
{
    if ws.len() == 0 {
        Seq::empty()
    } else {
        let w = ws.last();
        units_of(ws.drop_last()) + if has_unspaced(w) {
            clauses_of(w)
        } else {
            seq![w]
        }
    }
}

fn any_unspaced(word: &[char]) -> (r: bool)
    ensures
        r == has_unspaced(word@),
{
    let mut i: usize = 0;
    while i < word.len()
        invariant
            i <= word.len(),
            forall|j: int| 0 <= j < i ==> !unspaced(word@[j]),
        decreases word.len() - i,
    {
        if is_unspaced_script(word[i]) {
            return true;
        }
        i = i + 1;
    }
    false
}

/// The display units of a transcript text: words split on white space, and Chinese
/// cut into clauses.
pub fn split_units(text: &str) -> (r: Vec<String>)
    ensures
        r@.map_values(|s: String| s@) == units_of(words(text@)),
{
    let v = chars_of(text);
    let ws = split_words(v.as_slice());
    let ghost wv = ws@.map_values(|w: Vec<char>| w@);
    let mut units: Vec<Vec<char>> = Vec::new();
    let mut i: usize = 0;
    while i < ws.len()
        invariant
            i <= ws.len(),
            wv == ws@.map_values(|w: Vec<char>| w@),
            units@.map_values(|p: Vec<char>| p@) == units_of(wv.take(i as int)),
        decreases ws.len() - i,
    {
        assert(wv.take(i + 1).drop_last() == wv.take(i as int));
        assert(wv.take(i + 1).last() == ws@[i as int]@);
        let ghost before = units@.map_values(|p: Vec<char>| p@);
        if any_unspaced(ws[i].as_slice()) {
            let mut pieces = cut_clauses(ws[i].as_slice());
            let ghost pv = pieces@.map_values(|p: Vec<char>| p@);
            units.append(&mut pieces);
            assert(units@.map_values(|p: Vec<char>| p@) =~= before + pv);
        } else {
            let w = slice_of(ws[i].as_slice(), 0, ws[i].len());
            assert(w@ =~= ws@[i as int]@);
            units.push(w);
            assert(units@.map_values(|p: Vec<char>| p@) =~= before + seq![ws@[i as int]@]);
        }
        i = i + 1;
    }
    assert(wv.take(ws.len() as int) == wv);
    to_strings(&units)
}

} // verus!
