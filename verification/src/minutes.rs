//! Turning a transcript into minutes with whatever OpenAI-compatible endpoint the user
//! has: what is asked of the model, how a long transcript is cut, and how the answer is
//! cleaned.

use vstd::prelude::*;

use crate::text::{
    append_all, chars_of, contains, lemma_some_first, lemma_trim_keeps_out, find_from, first_at, has, lemma_first_unique, lemma_occurs_skip, lines,
    occurs_at, push_char, push_decimal, push_str, slice_of, split_at_char, split_lines, string_of, trim,
    trim_bounds, trimmed, decimal,
};

verus! {

#[derive(Debug, Clone)]
pub struct LlmConfig {
    pub base_url: String,
    pub api_key: String,
    pub model: String,
    /// Transcripts longer than this are summarized in parts first.
    pub max_chars_per_call: usize,
}

/// Parts are never cut smaller than this, whatever the setting says.
pub const MIN_CHARS_PER_CALL: usize = 2_000;

pub open spec fn loopback_of(url: Seq<char>) -> bool {
    contains(url, "://localhost"@) || contains(url, "://127.0.0.1"@) || contains(url, "://[::1]"@)
}

/// A URL on this machine, which a system-wide proxy must not get between.
pub fn is_loopback(url: &str) -> (r: bool)
    ensures
        r == loopback_of(url@),
{
    let u = chars_of(url);
    let a = chars_of("://localhost");
    let b = chars_of("://127.0.0.1");
    let c = chars_of("://[::1]");
    has(u.as_slice(), a.as_slice()) || has(u.as_slice(), b.as_slice()) || has(u.as_slice(), c.as_slice())
}

// ---------------------------------------------------------------------------------------
// Thinking out of the answer.

pub open spec fn think_open() -> Seq<char> {
    seq!['<', 't', 'h', 'i', 'n', 'k', '>']
}

pub open spec fn think_close() -> Seq<char> {
    seq!['<', '/', 't', 'h', 'i', 'n', 'k', '>']
}

/// The text with every `<think>` block taken out; an unclosed one takes the rest with it.
#[verifier::opaque]
pub open spec fn unthought(text: Seq<char>) -> Seq<char>
    decreases text.len(),
{
    if exists|s: int| first_at(text, think_open(), s) {
        let s = choose|s: int| first_at(text, think_open(), s);
        let after = text.skip(s);
        if exists|e: int| first_at(after, think_close(), e) {
            let e = choose|e: int| first_at(after, think_close(), e);
            unthought(text.take(s) + after.skip(e + 8))
        } else {
            text.take(s)
        }
    } else {
        text
    }
}

/// Reasoning models put their thinking in `<think>` blocks ahead of the answer.
pub open spec fn strip_reasoning_of(content: Seq<char>) -> Seq<char> {
    trim(unthought(content))
}

proof fn lemma_unthought_cut(text: Seq<char>, s: int, e: int)
    requires
        first_at(text, think_open(), s),
        first_at(text.skip(s), think_close(), e),
    ensures
        unthought(text) == unthought(text.take(s) + text.skip(s).skip(e + 8)),
{
    reveal(unthought);
    let s2 = choose|s2: int| first_at(text, think_open(), s2);
    lemma_first_unique(text, think_open(), s, s2);
    let e2 = choose|e2: int| first_at(text.skip(s), think_close(), e2);
    lemma_first_unique(text.skip(s), think_close(), e, e2);
}

proof fn lemma_unthought_unclosed(text: Seq<char>, s: int)
    requires
        first_at(text, think_open(), s),
        forall|e: int| !occurs_at(text.skip(s), think_close(), e),
    ensures
        unthought(text) == text.take(s),
{
    reveal(unthought);
    let s2 = choose|s2: int| first_at(text, think_open(), s2);
    lemma_first_unique(text, think_open(), s, s2);
}

proof fn lemma_unthought_none(text: Seq<char>)
    requires
        forall|s: int| !occurs_at(text, think_open(), s),
    ensures
        unthought(text) == text,
{
    reveal(unthought);
}

proof fn lemma_unthought_has_no_think(text: Seq<char>)
    ensures
        forall|i: int| !occurs_at(unthought(text), think_open(), i),
    decreases text.len(),
{
    reveal(unthought);
    if exists|s: int| first_at(text, think_open(), s) {
        let s = choose|s: int| first_at(text, think_open(), s);
        let after = text.skip(s);
        if exists|e: int| first_at(after, think_close(), e) {
            let e = choose|e: int| first_at(after, think_close(), e);
            lemma_unthought_has_no_think(text.take(s) + after.skip(e + 8));
            assert(unthought(text) == unthought(text.take(s) + after.skip(e + 8)));
        } else {
            assert(unthought(text) == text.take(s));
            assert forall|i: int| !occurs_at(text.take(s), think_open(), i) by {
                if occurs_at(text.take(s), think_open(), i) {
                    assert(text.take(s).subrange(i, i + 7) == text.subrange(i, i + 7));
                    assert(occurs_at(text, think_open(), i));
                }
            }
        }
    } else {
        assert forall|i: int| !occurs_at(text, think_open(), i) by {
            if occurs_at(text, think_open(), i) {
                lemma_some_first(text, think_open(), i);
            }
        }
        assert(unthought(text) == text);
    }
}

/// No thinking reaches the minutes: `<think>` never stands in what is left of an answer
/// once its reasoning is taken out.
pub proof fn law_no_thinking_is_left(content: Seq<char>)
    ensures
        !contains(strip_reasoning_of(content), think_open()),
{
    lemma_unthought_has_no_think(content);
    lemma_trim_keeps_out(unthought(content), think_open());
}

proof fn lemma_first_from_zero(s: Seq<char>, p: Seq<char>, i: int)
    requires
        occurs_at(s, p, i),
        forall|j: int| 0 <= j < i ==> !occurs_at(s, p, j),
    ensures
        first_at(s, p, i),
{
}

pub fn strip_reasoning(content: &str) -> (r: String)
    ensures
        r@ == strip_reasoning_of(content@),
{
    let mut text = chars_of(content);
    let open = vec!['<', 't', 'h', 'i', 'n', 'k', '>'];
    let close = vec!['<', '/', 't', 'h', 'i', 'n', 'k', '>'];
    assert(open@ == think_open());
    assert(close@ == think_close());
    loop
        invariant
            open@ == think_open(),
            close@ == think_close(),
            unthought(text@) == unthought(content@),
        decreases text@.len(),
    {
        match find_from(text.as_slice(), open.as_slice(), 0) {
            Some(s) => {
                proof {
                    lemma_first_from_zero(text@, think_open(), s as int);
                }
                let after = slice_of(text.as_slice(), s, text.len());
                assert(after@ == text@.skip(s as int));
                match find_from(after.as_slice(), close.as_slice(), 0) {
                    Some(e) => {
                        proof {
                            lemma_first_from_zero(after@, think_close(), e as int);
                            lemma_unthought_cut(text@, s as int, e as int);
                        }
                        let mut next = slice_of(text.as_slice(), 0, s);
                        let tail = slice_of(after.as_slice(), e + 8, after.len());
                        append_all(&mut next, tail.as_slice());
                        assert(next@ == text@.take(s as int) + text@.skip(s as int).skip(e + 8));
                        text = next;
                    },
                    None => {
                        proof {
                            lemma_unthought_unclosed(text@, s as int);
                        }
                        let kept = slice_of(text.as_slice(), 0, s);
                        let (a, b) = trim_bounds(kept.as_slice());
                        return string_of(slice_of(kept.as_slice(), a, b).as_slice());
                    },
                }
            },
            None => {
                proof {
                    lemma_unthought_none(text@);
                }
                let (a, b) = trim_bounds(text.as_slice());
                return string_of(slice_of(text.as_slice(), a, b).as_slice());
            },
        }
    }
}

// ---------------------------------------------------------------------------------------
// Long transcripts in parts.

/// Lines packed into parts: a line goes into the open part unless the part already has
/// something and would then exceed `max_chars`, in which case the part is closed first.
/// Each line counts with its line ending.
pub open spec fn pack_lines(ls: Seq<Seq<char>>, max_chars: int) -> (Seq<Seq<char>>, Seq<char>)
    decreases ls.len(),
{
    if ls.len() == 0 {
        (Seq::empty(), Seq::empty())
    } else {
        let (parts, open) = pack_lines(ls.drop_last(), max_chars);
        let line = ls.last();
        if open.len() > 0 && open.len() + line.len() + 1 > max_chars {
            (parts.push(open), line + seq!['\n'])
        } else {
            (parts, open + line + seq!['\n'])
        }
    }
}

/// The parts of `text` of at most `max_chars` characters, cut between lines. A single line
/// longer than that stays whole: cutting a sentence costs more than an oversized call.
pub open spec fn split_at_lines_of(text: Seq<char>, max_chars: int) -> Seq<Seq<char>> {
    let (parts, open) = pack_lines(lines(text), max_chars);
    if trim(open).len() > 0 || parts.len() == 0 {
        parts.push(open)
    } else {
        parts
    }
}

pub fn split_at_lines(text: &str, max_chars: usize) -> (r: Vec<String>)
    ensures
        r@.map_values(|p: String| p@) == split_at_lines_of(text@, max_chars as int),
{
    let v = chars_of(text);
    let ls = split_lines(v.as_slice());
    let ghost lv = ls@.map_values(|l: Vec<char>| l@);
    let mut parts: Vec<String> = Vec::new();
    let mut open: Vec<char> = Vec::new();
    let mut i: usize = 0;
    while i < ls.len()
        invariant
            i <= ls.len(),
            lv == ls@.map_values(|l: Vec<char>| l@),
            (parts@.map_values(|p: String| p@), open@) == pack_lines(lv.take(i as int), max_chars as int),
        decreases ls.len() - i,
    {
        assert(lv.take(i + 1).drop_last() == lv.take(i as int));
        assert(lv.take(i + 1).last() == ls@[i as int]@);
        let line = &ls[i];
        let n = line.len();
        if open.len() > 0 && (n >= max_chars || open.len() > max_chars - n - 1) {
            let ghost before = parts@.map_values(|p: String| p@);
            let s = string_of(open.as_slice());
            parts.push(s);
            assert(parts@.map_values(|p: String| p@) =~= before.push(open@));
            open = Vec::new();
        }
        let ghost o = open@;
        append_all(&mut open, line.as_slice());
        open.push('\n');
        assert(open@ == o + ls@[i as int]@ + seq!['\n']);
        i = i + 1;
    }
    assert(lv.take(ls.len() as int) == lv);
    assert(lv == lines(text@));
    let (a, b) = trim_bounds(open.as_slice());
    if a < b || parts.len() == 0 {
        let ghost before = parts@.map_values(|p: String| p@);
        let s = string_of(open.as_slice());
        parts.push(s);
        assert(parts@.map_values(|p: String| p@) =~= before.push(open@));
    }
    parts
}

/// A part holds at most `max_chars` characters, or one line alone.
pub open spec fn fits_or_one_line(part: Seq<char>, max_chars: int) -> bool {
    part.len() <= max_chars || !part.drop_last().contains('\n')
}

proof fn lemma_pieces_have_no_separator(s: Seq<char>, sep: char)
    ensures
        forall|k: int| 0 <= k < split_at_char(s, sep).len() ==> !(#[trigger] split_at_char(s, sep)[k]).contains(sep),
    decreases s.len(),
{
    if s.len() > 0 {
        lemma_pieces_have_no_separator(s.drop_last(), sep);
        crate::text::lemma_split_at_char_len(s.drop_last(), sep);
        let before = split_at_char(s.drop_last(), sep);
        if s.last() != sep {
            let last = before.last().push(s.last());
            assert(!before.last().contains(sep));
            assert forall|j: int| 0 <= j < last.len() implies last[j] != sep by {
                if j < last.len() - 1 {
                    assert(last[j] == before.last()[j]);
                }
            }
        }
    }
}

proof fn lemma_lines_have_no_newline(s: Seq<char>)
    ensures
        forall|k: int| 0 <= k < lines(s).len() ==> !(#[trigger] lines(s)[k]).contains('\n'),
{
    lemma_pieces_have_no_separator(s, '\n');
    crate::text::lemma_split_at_char_len(s, '\n');
    let pieces = split_at_char(s, '\n');
    assert forall|k: int| 0 <= k < lines(s).len() implies !(#[trigger] lines(s)[k]).contains('\n') by {
        let p = pieces[k];
        assert(!p.contains('\n'));
        if p.len() > 0 && p.last() == '\r' {
            assert forall|j: int| 0 <= j < p.drop_last().len() implies p.drop_last()[j] != '\n' by {
                assert(p.drop_last()[j] == p[j]);
            }
        }
    }
}

proof fn lemma_pack_lines_fit(ls: Seq<Seq<char>>, max_chars: int)
    requires
        0 <= max_chars,
        forall|k: int| 0 <= k < ls.len() ==> !(#[trigger] ls[k]).contains('\n'),
    ensures
        ({
            let (parts, open) = pack_lines(ls, max_chars);
            &&& forall|k: int| 0 <= k < parts.len() ==> fits_or_one_line(#[trigger] parts[k], max_chars)
            &&& fits_or_one_line(open, max_chars)
        }),
    decreases ls.len(),
{
    if ls.len() > 0 {
        lemma_pack_lines_fit(ls.drop_last(), max_chars);
        let (parts, open) = pack_lines(ls.drop_last(), max_chars);
        let line = ls.last();
        assert(!line.contains('\n'));
        let single = line + seq!['\n'];
        assert(single.drop_last() == line);
        assert(fits_or_one_line(single, max_chars));
        if open.len() > 0 && open.len() + line.len() + 1 > max_chars {
            let np = parts.push(open);
            assert forall|k: int| 0 <= k < np.len() implies fits_or_one_line(#[trigger] np[k], max_chars) by {
                if k < parts.len() {
                    assert(np[k] == parts[k]);
                }
            }
        } else {
            let joined = open + line + seq!['\n'];
            if open.len() == 0 {
                assert(joined == single);
            } else {
                assert(joined.len() <= max_chars);
            }
            assert(fits_or_one_line(joined, max_chars));
        }
    }
}

/// Every part of a long transcript holds at most `max_chars` characters, unless it is a
/// single line longer than that on its own.
pub proof fn law_parts_fit_the_call(text: Seq<char>, max_chars: int)
    requires
        0 <= max_chars,
    ensures
        forall|k: int|
            0 <= k < split_at_lines_of(text, max_chars).len() ==> fits_or_one_line(
                #[trigger] split_at_lines_of(text, max_chars)[k],
                max_chars,
            ),
{
    lemma_lines_have_no_newline(text);
    lemma_pack_lines_fit(lines(text), max_chars);
}

/// The lines one after the other, each ended by a line break.
pub open spec fn with_endings(ls: Seq<Seq<char>>) -> Seq<char>
    decreases ls.len(),
{
    if ls.len() == 0 {
        Seq::empty()
    } else {
        with_endings(ls.drop_last()) + ls.last() + seq!['\n']
    }
}

/// The parts one after the other.
pub open spec fn joined_parts(parts: Seq<Seq<char>>) -> Seq<char>
    decreases parts.len(),
{
    if parts.len() == 0 {
        Seq::empty()
    } else {
        joined_parts(parts.drop_last()) + parts.last()
    }
}

proof fn lemma_pack_lines_keep_the_lines(ls: Seq<Seq<char>>, max_chars: int)
    ensures
        ({
            let (parts, open) = pack_lines(ls, max_chars);
            joined_parts(parts) + open == with_endings(ls)
        }),
    decreases ls.len(),
{
    if ls.len() > 0 {
        lemma_pack_lines_keep_the_lines(ls.drop_last(), max_chars);
        let (parts, open) = pack_lines(ls.drop_last(), max_chars);
        let line = ls.last();
        if open.len() > 0 && open.len() + line.len() + 1 > max_chars {
            assert(parts.push(open).drop_last() == parts);
            assert(joined_parts(parts.push(open)) + (line + seq!['\n']) =~= with_endings(ls));
        } else {
            assert(joined_parts(parts) + (open + line + seq!['\n']) =~= with_endings(ls));
        }
    }
}

/// No line of a long transcript is lost or moved: the parts, one after the other, are its
/// lines in order, each ended by a line break; all that can be left out is white space at
/// the very end.
pub proof fn law_parts_keep_every_line(text: Seq<char>, max_chars: int)
    ensures
        ({
            let whole = with_endings(lines(text));
            let got = joined_parts(split_at_lines_of(text, max_chars));
            &&& got.len() <= whole.len()
            &&& whole.take(got.len() as int) == got
            &&& trim(whole.skip(got.len() as int)).len() == 0
        }),
{
    lemma_pack_lines_keep_the_lines(lines(text), max_chars);
    let (parts, open) = pack_lines(lines(text), max_chars);
    let whole = with_endings(lines(text));
    if trim(open).len() > 0 || parts.len() == 0 {
        assert(parts.push(open).drop_last() == parts);
        assert(joined_parts(parts.push(open)) == whole);
        assert(whole.skip(whole.len() as int) =~= Seq::<char>::empty());
    } else {
        let got = joined_parts(parts);
        assert(whole.take(got.len() as int) =~= got);
        assert(whole.skip(got.len() as int) =~= open);
    }
}

/// How many characters come before the first line break of `s` (all of them if none).
pub open spec fn first_line_len(s: Seq<char>) -> nat
    decreases s.len(),
{
    if s.len() == 0 || s[0] == '\n' {
        0
    } else {
        1 + first_line_len(s.drop_first())
    }
}

proof fn lemma_first_line_of_line(line: Seq<char>)
    requires
        !line.contains('\n'),
    ensures
        first_line_len(line + seq!['\n']) == line.len(),
    decreases line.len(),
{
    if line.len() > 0 {
        assert(line[0] != '\n');
        assert(!line.drop_first().contains('\n')) by {
            assert forall|j: int| 0 <= j < line.drop_first().len() implies line.drop_first()[j] != '\n' by {
                assert(line.drop_first()[j] == line[j + 1]);
            }
        }
        lemma_first_line_of_line(line.drop_first());
        assert((line + seq!['\n']).drop_first() == line.drop_first() + seq!['\n']);
    } else {
        assert((line + seq!['\n'])[0] == '\n');
    }
}

proof fn lemma_first_line_keeps(a: Seq<char>, b: Seq<char>)
    requires
        a.len() > 0,
        a.last() == '\n',
    ensures
        first_line_len(a + b) == first_line_len(a),
    decreases a.len(),
{
    if a[0] != '\n' {
        assert((a + b).drop_first() == a.drop_first() + b);
        assert(a.drop_first().len() > 0);
        assert(a.drop_first().last() == a.last());
        lemma_first_line_keeps(a.drop_first(), b);
    }
}

/// A part, or the open part, is empty or ends with a line break.
pub open spec fn ends_a_line(part: Seq<char>) -> bool {
    part.len() == 0 || part.last() == '\n'
}

/// Each part is as long as it can be: the first line of the next part would not have fit
/// behind it.
pub open spec fn parts_full(parts: Seq<Seq<char>>, max_chars: int) -> bool {
    forall|i: int| 0 <= i < parts.len() - 1 ==> #[trigger] parts[i].len() + first_line_len(parts[i + 1]) + 1 > max_chars
}

proof fn lemma_pack_lines_full(ls: Seq<Seq<char>>, max_chars: int)
    requires
        forall|k: int| 0 <= k < ls.len() ==> !(#[trigger] ls[k]).contains('\n'),
    ensures
        ({
            let (parts, open) = pack_lines(ls, max_chars);
            &&& forall|k: int| 0 <= k < parts.len() ==> (#[trigger] parts[k]).len() > 0 && parts[k].last() == '\n'
            &&& ends_a_line(open)
            &&& parts_full(parts, max_chars)
            &&& parts.len() > 0 ==> open.len() > 0 && parts.last().len() + first_line_len(open) + 1 > max_chars
        }),
    decreases ls.len(),
{
    if ls.len() > 0 {
        lemma_pack_lines_full(ls.drop_last(), max_chars);
        let (parts, open) = pack_lines(ls.drop_last(), max_chars);
        let line = ls.last();
        assert(!line.contains('\n')) by {
            assert(ls[ls.len() - 1] == line);
        }
        let single = line + seq!['\n'];
        lemma_first_line_of_line(line);
        if open.len() > 0 && open.len() + line.len() + 1 > max_chars {
            let np = parts.push(open);
            assert forall|k: int| 0 <= k < np.len() implies (#[trigger] np[k]).len() > 0 && np[k].last() == '\n' by {
                if k < parts.len() {
                    assert(np[k] == parts[k]);
                }
            }
            assert forall|i: int| 0 <= i < np.len() - 1 implies #[trigger] np[i].len() + first_line_len(np[i + 1]) + 1
                > max_chars by {
                assert(np[i] == parts[i]);
                if i + 1 < parts.len() {
                    assert(np[i + 1] == parts[i + 1]);
                } else {
                    assert(np[i + 1] == open);
                    assert(parts[i] == parts.last());
                }
            }
            assert(np.last() == open);
            assert(single.last() == '\n');
        } else {
            let joined = open + line + seq!['\n'];
            assert(joined == open + single);
            assert(joined.last() == '\n');
            if open.len() > 0 {
                lemma_first_line_keeps(open, single);
            }
        }
    }
}

/// Every part of a long transcript ends with a line break, and each is as long as it can
/// be: the first line of the next part would not have fit behind it.
pub proof fn law_parts_end_lines_and_are_full(text: Seq<char>, max_chars: int)
    ensures
        forall|k: int|
            0 <= k < split_at_lines_of(text, max_chars).len() ==> ends_a_line(
                #[trigger] split_at_lines_of(text, max_chars)[k],
            ),
        parts_full(split_at_lines_of(text, max_chars), max_chars),
{
    lemma_lines_have_no_newline(text);
    lemma_pack_lines_full(lines(text), max_chars);
    let (parts, open) = pack_lines(lines(text), max_chars);
    let out = split_at_lines_of(text, max_chars);
    if trim(open).len() > 0 || parts.len() == 0 {
        let np = parts.push(open);
        assert forall|k: int| 0 <= k < np.len() implies ends_a_line(#[trigger] np[k]) by {
            if k < parts.len() {
                assert(np[k] == parts[k]);
            }
        }
        assert forall|i: int| 0 <= i < np.len() - 1 implies #[trigger] np[i].len() + first_line_len(np[i + 1]) + 1
            > max_chars by {
            assert(np[i] == parts[i]);
            if i + 1 < parts.len() {
                assert(np[i + 1] == parts[i + 1]);
            } else {
                assert(np[i + 1] == open);
                assert(parts[i] == parts.last());
            }
        }
    }
}

// ---------------------------------------------------------------------------------------
// What the model is asked.

pub open spec fn llm_configured(config: LlmConfig) -> bool {
    trim(config.base_url@).len() > 0 && trim(config.model@).len() > 0
}

/// Minutes need an endpoint and a model to ask.
pub fn is_llm_configured(config: &LlmConfig) -> (r: bool)
    ensures
        r == llm_configured(*config),
{
    let a = trimmed(config.base_url.as_str());
    let b = trimmed(config.model.as_str());
    !a.as_str().is_empty() && !b.as_str().is_empty()
}

/// How long the parts of a transcript may be.
pub fn part_size(config: &LlmConfig) -> (r: usize)
    ensures
        r == if config.max_chars_per_call >= MIN_CHARS_PER_CALL {
            config.max_chars_per_call
        } else {
            MIN_CHARS_PER_CALL
        },
{
    if config.max_chars_per_call >= MIN_CHARS_PER_CALL {
        config.max_chars_per_call
    } else {
        MIN_CHARS_PER_CALL
    }
}

/// How many model calls the minutes take: one per part and one for the minutes, or just
/// one when the transcript is a single part.
pub fn call_count(parts: usize) -> (r: usize)
    requires
        parts < usize::MAX,
    ensures
        r == if parts > 1 {
            parts + 1
        } else {
            1
        },
{
    if parts > 1 {
        parts + 1
    } else {
        1
    }
}

pub open spec fn part_request_of(index: nat, count: nat, part: Seq<char>) -> Seq<char> {
    "This is part "@ + decimal(index + 1) + " of "@ + decimal(count)
        + " of a long transcript. Write detailed notes on this part only: the facts, figures, arguments, decisions, commitments and open questions, in order, keeping the [mm:ss] times. Do not write final minutes yet.\n\nTranscript part:\n\n"@
        + part
}

/// What the model is asked about one part of a long transcript (`index` counts from 0).
pub fn part_request(index: u64, count: u64, part: &str) -> (r: String)
    requires
        index < u64::MAX,
    ensures
        r@ == part_request_of(index as nat, count as nat, part@),
{
    let mut r = String::new();
    push_str(&mut r, "This is part ");
    push_decimal(&mut r, index + 1);
    push_str(&mut r, " of ");
    push_decimal(&mut r, count);
    push_str(
        &mut r,
        " of a long transcript. Write detailed notes on this part only: the facts, figures, arguments, decisions, commitments and open questions, in order, keeping the [mm:ss] times. Do not write final minutes yet.\n\nTranscript part:\n\n",
    );
    push_str(&mut r, part);
    r
}

/// The source the minutes are written from, when the transcript is one part.
pub fn transcript_source(part: &str) -> (r: String)
    ensures
        r@ == "Transcript:\n\n"@ + part@,
{
    let mut r = String::new();
    push_str(&mut r, "Transcript:\n\n");
    push_str(&mut r, part);
    r
}

pub open spec fn notes_source_of(notes: Seq<Seq<char>>) -> Seq<char> {
    "Notes taken on the consecutive parts of the transcript:\n\n"@ + crate::text::join(
        notes,
        "\n\n---\n\n"@,
    )
}

/// The source the minutes are written from, when the transcript came in parts.
pub fn notes_source(notes: &Vec<String>) -> (r: String)
    ensures
        r@ == notes_source_of(notes@.map_values(|n: String| n@)),
{
    let ghost nv = notes@.map_values(|n: String| n@);
    let mut joined = String::new();
    let mut i: usize = 0;
    while i < notes.len()
        invariant
            i <= notes.len(),
            nv == notes@.map_values(|n: String| n@),
            joined@ == crate::text::join(nv.take(i as int), "\n\n---\n\n"@),
        decreases notes.len() - i,
    {
        assert(nv.take(i + 1).drop_last() == nv.take(i as int));
        assert(nv.take(i + 1).last() == notes@[i as int]@);
        if i > 0 {
            push_str(&mut joined, "\n\n---\n\n");
        } else {
            assert(nv.take(1) == seq![notes@[0]@]);
        }
        push_str(&mut joined, notes[i].as_str());
        i = i + 1;
    }
    assert(nv.take(notes.len() as int) == nv);
    let mut r = String::new();
    push_str(&mut r, "Notes taken on the consecutive parts of the transcript:\n\n");
    push_str(&mut r, joined.as_str());
    r
}

/// What the model is asked for the minutes.
pub fn minutes_request(template_prompt: &str, title: &str, source: &str) -> (r: String)
    ensures
        r@ == template_prompt@ + "\n\nMeeting title: "@ + title@ + "\n\n"@ + source@,
{
    let mut r = String::new();
    push_str(&mut r, template_prompt);
    push_str(&mut r, "\n\nMeeting title: ");
    push_str(&mut r, title);
    push_str(&mut r, "\n\n");
    push_str(&mut r, source);
    r
}

/// The next call to the model while minutes are written.
pub enum MinutesCall {
    /// Notes on part `index` of a long transcript; `done` calls are behind, of `total`.
    Part { index: usize, request: String, done: usize, total: usize },
    /// The minutes themselves; `done` calls are behind, of `total`.
    Minutes { request: String, done: usize, total: usize },
}

/// What the model is asked next, with how many calls are behind and how many there are:
/// a transcript of one part goes straight to the minutes; a longer one gets notes on each
/// part in order, then the minutes written from those notes.
pub open spec fn next_call_of(
    parts: Seq<Seq<char>>,
    notes: Seq<Seq<char>>,
    template_prompt: Seq<char>,
    title: Seq<char>,
) -> (Option<(nat, Seq<char>)>, Seq<char>, nat, nat) {
    let total: nat = if parts.len() > 1 {
        (parts.len() + 1) as nat
    } else {
        1
    };
    if parts.len() == 1 {
        (None, template_prompt + "\n\nMeeting title: "@ + title + "\n\n"@ + ("Transcript:\n\n"@ + parts[0]), 0, total)
    } else if notes.len() < parts.len() {
        (
            Some((notes.len(), part_request_of(notes.len(), parts.len(), parts[notes.len() as int]))),
            Seq::empty(),
            notes.len(),
            total,
        )
    } else {
        (None, template_prompt + "\n\nMeeting title: "@ + title + "\n\n"@ + notes_source_of(notes), notes.len(), total)
    }
}

/// Every part of a long transcript reaches the model once, in order: with `k` of `n > 1`
/// parts noted, the next call asks about part `k` (counted from 0), and its request ends
/// with that part's text and names it "part k+1 of n"; `k` calls are behind, of `n + 1`.
/// Once every part has its notes, the minutes are asked for with the template first and
/// all the notes, in order, at the end. A transcript of one part is asked about whole, with
/// the template first, in the one call there is.
pub proof fn law_each_part_is_asked_about_in_turn(
    parts: Seq<Seq<char>>,
    notes: Seq<Seq<char>>,
    template_prompt: Seq<char>,
    title: Seq<char>,
)
    ensures
        ({
            let (part, request, done, total) = next_call_of(parts, notes, template_prompt, title);
            &&& parts.len() > 1 && notes.len() < parts.len() ==> {
                let k = notes.len();
                let asked = part.unwrap().1;
                &&& part is Some
                &&& part.unwrap().0 == k
                &&& asked.len() >= parts[k as int].len()
                &&& asked.skip(asked.len() - parts[k as int].len()) == parts[k as int]
                &&& asked.take(("This is part "@ + decimal(k + 1) + " of "@ + decimal(parts.len())).len() as int)
                    == "This is part "@ + decimal(k + 1) + " of "@ + decimal(parts.len())
                &&& done == k
                &&& total == parts.len() + 1
            }
            &&& parts.len() > 1 && notes.len() == parts.len() ==> {
                let joined = crate::text::join(notes, "\n\n---\n\n"@);
                &&& part is None
                &&& request.len() >= template_prompt.len() + joined.len()
                &&& request.take(template_prompt.len() as int) == template_prompt
                &&& request.skip(request.len() - joined.len()) == joined
                &&& done == parts.len()
                &&& total == parts.len() + 1
            }
            &&& parts.len() == 1 ==> {
                &&& part is None
                &&& request.len() >= template_prompt.len() + parts[0].len()
                &&& request.take(template_prompt.len() as int) == template_prompt
                &&& request.skip(request.len() - parts[0].len()) == parts[0]
                &&& done == 0
                &&& total == 1
            }
        }),
{
    if parts.len() > 1 && notes.len() < parts.len() {
        let k = notes.len();
        let head = "This is part "@ + decimal(k + 1) + " of "@ + decimal(parts.len());
        let asked = part_request_of(k, parts.len(), parts[k as int]);
        let middle = " of a long transcript. Write detailed notes on this part only: the facts, figures, arguments, decisions, commitments and open questions, in order, keeping the [mm:ss] times. Do not write final minutes yet.\n\nTranscript part:\n\n"@;
        assert(asked == head + middle + parts[k as int]);
        assert(asked.skip(asked.len() - parts[k as int].len()) =~= parts[k as int]);
        assert(asked.take(head.len() as int) =~= head);
    }
    if parts.len() > 1 && notes.len() == parts.len() {
        let joined = crate::text::join(notes, "\n\n---\n\n"@);
        let request = template_prompt + "\n\nMeeting title: "@ + title + "\n\n"@ + notes_source_of(notes);
        assert(request.skip(request.len() - joined.len()) =~= joined);
        assert(request.take(template_prompt.len() as int) =~= template_prompt);
    }
    if parts.len() == 1 {
        let request = template_prompt + "\n\nMeeting title: "@ + title + "\n\n"@ + ("Transcript:\n\n"@ + parts[0]);
        assert(request.skip(request.len() - parts[0].len()) =~= parts[0]);
        assert(request.take(template_prompt.len() as int) =~= template_prompt);
    }
}

pub open spec fn call_view(call: MinutesCall) -> (Option<(nat, Seq<char>)>, Seq<char>, nat, nat) {
    match call {
        MinutesCall::Part { index, request, done, total } => (Some((index as nat, request@)), Seq::empty(), done as nat, total as nat),
        MinutesCall::Minutes { request, done, total } => (None, request@, done as nat, total as nat),
    }
}

/// The next call while minutes are written from `parts` (never none), with the notes the
/// model has given on the first parts so far.
pub fn next_call(parts: &Vec<String>, notes: &Vec<String>, template_prompt: &str, title: &str) -> (r: MinutesCall)
    requires
        parts.len() > 0,
        parts.len() < usize::MAX,
        parts.len() < u64::MAX,
        parts.len() > 1 ==> notes.len() <= parts.len(),
    ensures
        call_view(r) == next_call_of(
            parts@.map_values(|p: String| p@),
            notes@.map_values(|n: String| n@),
            template_prompt@,
            title@,
        ),
{
    let total = call_count(parts.len());
    if parts.len() == 1 {
        let source = transcript_source(parts[0].as_str());
        let request = minutes_request(template_prompt, title, source.as_str());
        MinutesCall::Minutes { request, done: 0, total }
    } else if notes.len() < parts.len() {
        let index = notes.len();
        let request = part_request(index as u64, parts.len() as u64, parts[index].as_str());
        MinutesCall::Part { index, request, done: index, total }
    } else {
        let source = notes_source(notes);
        let request = minutes_request(template_prompt, title, source.as_str());
        MinutesCall::Minutes { request, done: notes.len(), total }
    }
}

pub open spec fn without_trailing_slashes(s: Seq<char>) -> Seq<char>
    decreases s.len(),
{
    if s.len() > 0 && s.last() == '/' {
        without_trailing_slashes(s.drop_last())
    } else {
        s
    }
}

/// The chat endpoint under an OpenAI-style root.
pub fn chat_url(base_url: &str) -> (r: String)
    ensures
        r@ == without_trailing_slashes(trim(base_url@)) + "/chat/completions"@,
{
    let v = chars_of(base_url);
    let (a, b) = trim_bounds(v.as_slice());
    let t = slice_of(v.as_slice(), a, b);
    let mut n = t.len();
    assert(t@.take(t.len() as int) == t@);
    while n > 0 && t[n - 1] == '/'
        invariant
            n <= t.len(),
            without_trailing_slashes(t@) == without_trailing_slashes(t@.take(n as int)),
        decreases n,
    {
        assert(t@.take(n as int).drop_last() == t@.take(n - 1));
        n = n - 1;
    }
    assert(t@.take(t.len() as int) == t@);
    let mut r = string_of(slice_of(t.as_slice(), 0, n).as_slice());
    push_str(&mut r, "/chat/completions");
    r
}

} // verus!
