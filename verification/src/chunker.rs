//! Where a recording is cut for the recognizer. Which frames hold speech is measured on the
//! samples; from there on it is counting: runs of speech frames with short dips bridged,
//! packed into chunks that close at a long pause or before they grow too long, cut to size
//! where speech never pauses, and padded so words are not clipped.

use vstd::prelude::*;

verus! {

/// A range of samples to transcribe.
#[derive(Debug, Clone, Copy, PartialEq, Eq, Structural)]
pub struct Chunk {
    pub start: usize,
    pub end: usize,
}

/// The chunker's settings, counted in frames (the padding in samples).
#[derive(Debug, Clone, Copy, PartialEq, Eq, Structural)]
pub struct ChunkFrames {
    /// A gap at least this long can be cut at. Shorter dips are part of a word.
    pub min_pause: usize,
    /// No chunk spans more frames than this.
    pub max_frames: usize,
    /// A gap this long always ends the chunk, so long silences are never sent.
    pub long_pause: usize,
    /// Chunks with less speech than this are dropped as clicks and coughs.
    pub min_speech: usize,
    /// Samples kept before and after speech so word onsets and tails are not clipped.
    pub padding: usize,
}

// ---------------------------------------------------------------------------------------
// Runs of speech.

/// Runs of speech frames as `(start, end)` frame ranges, bridging gaps shorter than
/// `min_pause` frames: a speech frame joins the run before it when fewer than `min_pause`
/// frames lie between that run's end and it.
pub open spec fn runs_of(speech: Seq<bool>, min_pause: nat) -> Seq<(nat, nat)>
    decreases speech.len(),
{
    if speech.len() == 0 {
        Seq::empty()
    } else {
        let before = runs_of(speech.drop_last(), min_pause);
        let at = (speech.len() - 1) as nat;
        if !speech.last() {
            before
        } else if before.len() > 0 && at - before.last().1 < min_pause {
            before.update(before.len() - 1, (before.last().0, at + 1))
        } else {
            before.push((at, at + 1))
        }
    }
}

/// Runs are non-empty, in order, apart, and inside the frames.
pub open spec fn ordered_runs(runs: Seq<(nat, nat)>, frames: nat) -> bool {
    &&& forall|k: int| 0 <= k < runs.len() ==> #[trigger] runs[k].0 < runs[k].1 <= frames
    &&& forall|k: int| 0 < k < runs.len() ==> runs[k - 1].1 <= #[trigger] runs[k].0
}

proof fn lemma_runs_ordered(speech: Seq<bool>, min_pause: nat)
    ensures
        ordered_runs(runs_of(speech, min_pause), speech.len()),
    decreases speech.len(),
{
    if speech.len() > 0 {
        lemma_runs_ordered(speech.drop_last(), min_pause);
    }
}

/// Frame ranges as numbers.
pub open spec fn pairs(v: Seq<(usize, usize)>) -> Seq<(nat, nat)> {
    v.map_values(|p: (usize, usize)| (p.0 as nat, p.1 as nat))
}

pub open spec fn triples(v: Seq<(usize, usize, usize)>) -> Seq<(nat, nat, nat)> {
    v.map_values(|t: (usize, usize, usize)| (t.0 as nat, t.1 as nat, t.2 as nat))
}

fn utterances(speech: &[bool], min_pause: usize) -> (r: Vec<(usize, usize)>)
    ensures
        pairs(r@) == runs_of(speech@, min_pause as nat),
{
    let mut runs: Vec<(usize, usize)> = Vec::new();
    let mut i: usize = 0;
    while i < speech.len()
        invariant
            i <= speech.len(),
            runs@.len() == runs_of(speech@.take(i as int), min_pause as nat).len(),
            forall|k: int|
                0 <= k < runs@.len() ==> (#[trigger] runs@[k]).0 == runs_of(speech@.take(i as int), min_pause as nat)[k].0
                    && runs@[k].1 == runs_of(speech@.take(i as int), min_pause as nat)[k].1,
        decreases speech.len() - i,
    {
        let ghost before = runs_of(speech@.take(i as int), min_pause as nat);
        proof {
            lemma_runs_ordered(speech@.take(i as int), min_pause as nat);
            assert(speech@.take(i + 1).drop_last() == speech@.take(i as int));
            assert(speech@.take(i + 1).last() == speech@[i as int]);
        }
        if speech[i] {
            let n = runs.len();
            if n > 0 && i - runs[n - 1].1 < min_pause {
                let first = runs[n - 1].0;
                runs.set(n - 1, (first, i + 1));
            } else {
                runs.push((i, i + 1));
            }
        }
        i = i + 1;
    }
    assert(speech@.take(speech.len() as int) == speech@);
    assert(pairs(runs@) =~= runs_of(speech@, min_pause as nat));
    runs
}

// ---------------------------------------------------------------------------------------
// Packing runs into chunks.

/// Runs packed into spans `(start, end, speech frames)`: a run joins the span before it
/// while the gap to it is shorter than `long_pause` and the span stays within
/// `max_frames`; otherwise it opens a new span.
pub open spec fn spans_of(utts: Seq<(nat, nat)>, long_pause: nat, max_frames: nat) -> Seq<(nat, nat, nat)>
    decreases utts.len(),
{
    if utts.len() == 0 {
        Seq::empty()
    } else {
        let before = spans_of(utts.drop_last(), long_pause, max_frames);
        let start = utts.last().0;
        let end = utts.last().1;
        if before.len() > 0 && start - before.last().1 < long_pause && end - before.last().0 <= max_frames {
            before.update(before.len() - 1, (before.last().0, end, (before.last().2 + (end - start)) as nat))
        } else {
            before.push((start, end, (end - start) as nat))
        }
    }
}

/// Spans are non-empty, in order, apart, inside the frames, and hold at least one and at
/// most all of their frames as speech.
pub open spec fn ordered_spans(spans: Seq<(nat, nat, nat)>, frames: nat) -> bool {
    &&& forall|k: int|
        0 <= k < spans.len() ==> #[trigger] spans[k].0 < spans[k].1 <= frames && 1 <= spans[k].2 <= spans[k].1
            - spans[k].0
    &&& forall|k: int| 0 < k < spans.len() ==> spans[k - 1].1 <= #[trigger] spans[k].0
}

proof fn lemma_spans_ordered(utts: Seq<(nat, nat)>, long_pause: nat, max_frames: nat, frames: nat)
    requires
        ordered_runs(utts, frames),
    ensures
        ordered_spans(spans_of(utts, long_pause, max_frames), frames),
        utts.len() > 0 ==> spans_of(utts, long_pause, max_frames).len() > 0 && spans_of(
            utts,
            long_pause,
            max_frames,
        ).last().1 == utts.last().1,
        utts.len() == 0 ==> spans_of(utts, long_pause, max_frames).len() == 0,
    decreases utts.len(),
{
    if utts.len() > 0 {
        let rest = utts.drop_last();
        assert(ordered_runs(rest, frames)) by {
            assert forall|k: int| 0 < k < rest.len() implies rest[k - 1].1 <= #[trigger] rest[k].0 by {
                assert(utts[k] == rest[k]);
                assert(utts[k - 1] == rest[k - 1]);
            }
            assert forall|k: int| 0 <= k < rest.len() implies #[trigger] rest[k].0 < rest[k].1 <= frames by {
                assert(utts[k] == rest[k]);
            }
        }
        lemma_spans_ordered(rest, long_pause, max_frames, frames);
        let before = spans_of(rest, long_pause, max_frames);
        let last = utts.len() - 1;
        assert(utts[last].0 < utts[last].1 <= frames);
        if rest.len() > 0 {
            assert(utts[last - 1] == rest.last());
            assert(utts[last - 1].1 <= utts[last].0);
        }
    }
}

fn pack_spans(utts: &Vec<(usize, usize)>, long_pause: usize, max_frames: usize, frames: usize) -> (r: Vec<
    (usize, usize, usize),
>)
    requires
        ordered_runs(pairs(utts@), frames as nat),
    ensures
        triples(r@) == spans_of(pairs(utts@), long_pause as nat, max_frames as nat),
{
    let ghost runs = pairs(utts@);
    let mut spans: Vec<(usize, usize, usize)> = Vec::new();
    let mut i: usize = 0;
    while i < utts.len()
        invariant
            i <= utts.len(),
            runs == pairs(utts@),
            ordered_runs(runs, frames as nat),
            triples(spans@) == spans_of(runs.take(i as int), long_pause as nat, max_frames as nat),
        decreases utts.len() - i,
    {
        let ghost prefix = runs.take(i as int);
        let ghost before = spans_of(prefix, long_pause as nat, max_frames as nat);
        proof {
            assert(ordered_runs(prefix, frames as nat)) by {
                assert forall|k: int| 0 < k < prefix.len() implies prefix[k - 1].1 <= #[trigger] prefix[k].0 by {
                    assert(runs[k] == prefix[k]);
                    assert(runs[k - 1] == prefix[k - 1]);
                }
                assert forall|k: int| 0 <= k < prefix.len() implies #[trigger] prefix[k].0 < prefix[k].1 <= frames by {
                    assert(runs[k] == prefix[k]);
                }
            }
            lemma_spans_ordered(prefix, long_pause as nat, max_frames as nat, frames as nat);
            assert(runs.take(i + 1).drop_last() == prefix);
            assert(runs.take(i + 1).last() == runs[i as int]);
            assert(runs[i as int] == (utts@[i as int].0 as nat, utts@[i as int].1 as nat));
            assert(runs[i as int].0 < runs[i as int].1 <= frames);
            if i > 0 {
                assert(runs[i - 1].1 <= runs[i as int].0);
                assert(prefix.last() == runs[i - 1]);
            }
            assert(spans@.len() == before.len());
            if spans@.len() > 0 {
                assert(triples(spans@)[spans@.len() - 1] == before.last());
            }
        }
        let (start, end) = utts[i];
        let n = spans.len();
        if n > 0 && start - spans[n - 1].1 < long_pause && end - spans[n - 1].0 <= max_frames {
            let (first, _, speech) = spans[n - 1];
            spans.set(n - 1, (first, end, speech + (end - start)));
            assert(triples(spans@) =~= before.update(
                before.len() - 1,
                (before.last().0, end as nat, (before.last().2 + (end - start)) as nat),
            ));
        } else {
            spans.push((start, end, end - start));
            assert(triples(spans@) =~= before.push((start as nat, end as nat, (end - start) as nat)));
        }
        i = i + 1;
    }
    assert(runs.take(utts.len() as int) == runs);
    spans
}

/// A span cut into pieces of at most `max` frames, from its start.
pub open spec fn split(start: nat, end: nat, max: nat) -> Seq<(nat, nat)>
    decreases end - start,
{
    if start >= end || max == 0 {
        Seq::empty()
    } else if start + max >= end {
        seq![(start, end)]
    } else {
        seq![(start, start + max)] + split(start + max, end, max)
    }
}

/// The frame ranges sent: each span with enough speech, cut to size where speech never
/// pauses.
pub open spec fn pieces_of(spans: Seq<(nat, nat, nat)>, min_speech: nat, max: nat) -> Seq<(nat, nat)>
    decreases spans.len(),
{
    if spans.len() == 0 {
        Seq::empty()
    } else {
        pieces_of(spans.drop_last(), min_speech, max) + if spans.last().2 >= min_speech {
            split(spans.last().0, spans.last().1, max)
        } else {
            Seq::empty()
        }
    }
}

/// The frame ranges a recording's speech frames give under `frames`.
pub open spec fn planned_pieces(speech: Seq<bool>, frames: ChunkFrames) -> Seq<(nat, nat)> {
    pieces_of(
        spans_of(runs_of(speech, frames.min_pause as nat), frames.long_pause as nat, frames.max_frames as nat),
        frames.min_speech as nat,
        frames.max_frames as nat,
    )
}

/// The samples of a frame range, padded on both sides and kept inside the recording.
pub open spec fn chunk_of(piece: (nat, nat), frame_len: nat, padding: nat, samples: nat) -> Chunk {
    Chunk {
        start: (if piece.0 * frame_len >= padding {
            piece.0 * frame_len - padding
        } else {
            0
        }) as usize,
        end: (if piece.1 * frame_len + padding <= samples {
            piece.1 * frame_len + padding
        } else {
            samples
        }) as usize,
    }
}

pub open spec fn chunks_of(pieces: Seq<(nat, nat)>, frame_len: nat, padding: nat, samples: nat) -> Seq<Chunk> {
    pieces.map_values(|piece: (nat, nat)| chunk_of(piece, frame_len, padding, samples))
}

/// The chunks to transcribe, from which frames hold speech (`speech[i]` for the frame of
/// samples `i * frame_len` up to the next) in a recording of `sample_count` samples.
pub fn frame_chunks(speech: &[bool], frame_len: usize, sample_count: usize, frames: ChunkFrames) -> (r: Vec<
    Chunk,
>)
    requires
        frames.max_frames > 0,
        speech@.len() + frames.max_frames <= usize::MAX,
        speech@.len() * frame_len + frames.padding <= usize::MAX,
    ensures
        r@ == chunks_of(planned_pieces(speech@, frames), frame_len as nat, frames.padding as nat, sample_count as nat),
{
    let len = speech.len();
    let max = frames.max_frames;
    let padding = frames.padding;
    let min_speech = frames.min_speech;
    let ghost fl = frame_len as nat;
    let utts = utterances(speech, frames.min_pause);
    proof {
        lemma_runs_ordered(speech@, frames.min_pause as nat);
    }
    let spans = pack_spans(&utts, frames.long_pause, max, len);
    proof {
        lemma_spans_ordered(pairs(utts@), frames.long_pause as nat, max as nat, len as nat);
    }
    let ghost sp = triples(spans@);
    let ghost chunk_fn = |piece: (nat, nat)| chunk_of(piece, fl, padding as nat, sample_count as nat);
    let mut out: Vec<Chunk> = Vec::new();
    let ghost mut done: Seq<(nat, nat)> = Seq::empty();
    let mut i: usize = 0;
    while i < spans.len()
        invariant
            i <= spans.len(),
            sp == triples(spans@),
            ordered_spans(sp, len as nat),
            len == speech@.len(),
            max > 0,
            len + max <= usize::MAX,
            len * frame_len + padding <= usize::MAX,
            done == pieces_of(sp.take(i as int), min_speech as nat, max as nat),
            out@ == done.map_values(chunk_fn),
            chunk_fn == (|piece: (nat, nat)| chunk_of(piece, fl, padding as nat, sample_count as nat)),
            fl == frame_len,
        decreases spans.len() - i,
    {
        proof {
            assert(sp.take(i + 1).drop_last() == sp.take(i as int));
            assert(sp.take(i + 1).last() == sp[i as int]);
            assert(sp[i as int] == (spans@[i as int].0 as nat, spans@[i as int].1 as nat, spans@[i as int].2 as nat));
        }
        let (start, end, speech_frames) = spans[i];
        let ghost outer = done;
        if speech_frames >= min_speech {
            let mut piece = start;
            while piece < end
                invariant
                    start <= piece <= end + max,
                    start < end <= len,
                    max > 0,
                    len + max <= usize::MAX,
                    len * frame_len + padding <= usize::MAX,
                    outer + split(start as nat, end as nat, max as nat) == done + split(piece as nat, end as nat, max as nat),
                    out@ == done.map_values(chunk_fn),
                    chunk_fn == (|piece: (nat, nat)| chunk_of(piece, fl, padding as nat, sample_count as nat)),
                    fl == frame_len,
                decreases end + max - piece,
            {
                let to = if piece + max < end {
                    piece + max
                } else {
                    end
                };
                proof {
                    assert(piece * frame_len <= len * frame_len) by (nonlinear_arith)
                        requires
                            piece <= len,
                    ;
                    assert(to * frame_len <= len * frame_len) by (nonlinear_arith)
                        requires
                            to <= len,
                    ;
                }
                let first = piece * frame_len;
                let last = to * frame_len + padding;
                let chunk = Chunk {
                    start: first.saturating_sub(padding),
                    end: if last <= sample_count {
                        last
                    } else {
                        sample_count
                    },
                };
                let ghost p = (piece as nat, to as nat);
                assert(chunk == chunk_fn(p));
                out.push(chunk);
                proof {
                    assert(split(piece as nat, end as nat, max as nat) == seq![p] + split(
                        (piece + max) as nat,
                        end as nat,
                        max as nat,
                    ));
                    assert(done.push(p).map_values(chunk_fn) =~= done.map_values(chunk_fn).push(chunk_fn(p)));
                    assert(done + (seq![p] + split((piece + max) as nat, end as nat, max as nat)) =~= done.push(p)
                        + split((piece + max) as nat, end as nat, max as nat));
                    done = done.push(p);
                }
                piece = piece + max;
            }
            proof {
                assert(split(piece as nat, end as nat, max as nat) == Seq::<(nat, nat)>::empty());
                assert(done =~= outer + split(start as nat, end as nat, max as nat));
            }
        } else {
            assert(done =~= outer + Seq::<(nat, nat)>::empty());
        }
        i = i + 1;
    }
    assert(sp.take(spans.len() as int) == sp);
    assert(sp == spans_of(runs_of(speech@, frames.min_pause as nat), frames.long_pause as nat, max as nat));
    out
}

/// A piece of a span lies inside it and is at most `max` frames long.
pub open spec fn fits(piece: (nat, nat), start: nat, end: nat, max: nat) -> bool {
    start <= piece.0 < piece.1 <= end && piece.1 <= piece.0 + max
}

proof fn lemma_split_fits(start: nat, end: nat, max: nat)
    requires
        max > 0,
    ensures
        forall|k: int| 0 <= k < split(start, end, max).len() ==> fits(#[trigger] split(start, end, max)[k], start, end, max),
    decreases end - start,
{
    let pieces = split(start, end, max);
    if start < end && start + max < end {
        lemma_split_fits(start + max, end, max);
        let rest = split(start + max, end, max);
        assert forall|k: int| 0 <= k < pieces.len() implies fits(#[trigger] pieces[k], start, end, max) by {
            if k > 0 {
                assert(pieces[k] == rest[k - 1]);
                assert(fits(rest[k - 1], start + max, end, max));
            }
        }
    }
}

proof fn lemma_pieces_fit(spans: Seq<(nat, nat, nat)>, min_speech: nat, max: nat, frames: nat)
    requires
        max > 0,
        ordered_spans(spans, frames),
    ensures
        forall|k: int|
            0 <= k < pieces_of(spans, min_speech, max).len() ==> fits(
                #[trigger] pieces_of(spans, min_speech, max)[k],
                0,
                frames,
                max,
            ),
    decreases spans.len(),
{
    if spans.len() > 0 {
        let rest = spans.drop_last();
        assert(ordered_spans(rest, frames)) by {
            assert forall|k: int| 0 <= k < rest.len() implies #[trigger] rest[k].0 < rest[k].1 <= frames && 1
                <= rest[k].2 <= rest[k].1 - rest[k].0 by {
                assert(rest[k] == spans[k]);
            }
            assert forall|k: int| 0 < k < rest.len() implies rest[k - 1].1 <= #[trigger] rest[k].0 by {
                assert(rest[k] == spans[k]);
                assert(rest[k - 1] == spans[k - 1]);
            }
        }
        lemma_pieces_fit(rest, min_speech, max, frames);
        let last = spans.last();
        assert(last == spans[spans.len() - 1]);
        lemma_split_fits(last.0, last.1, max);
        let before = pieces_of(rest, min_speech, max);
        let added = if last.2 >= min_speech {
            split(last.0, last.1, max)
        } else {
            Seq::empty()
        };
        let all = pieces_of(spans, min_speech, max);
        assert(all == before + added);
        assert forall|k: int| 0 <= k < all.len() implies fits(#[trigger] all[k], 0, frames, max) by {
            if k < before.len() {
                assert(all[k] == before[k]);
            } else {
                assert(all[k] == added[k - before.len()]);
                assert(fits(added[k - before.len()], last.0, last.1, max));
            }
        }
    }
}

/// No chunk reaches past the end of the recording, and none is longer than `max_frames`
/// frames of it plus the padding on either side: speech that never pauses is still cut
/// to size.
pub proof fn law_chunks_are_cut_to_size(speech: Seq<bool>, frames: ChunkFrames, frame_len: nat, samples: nat)
    requires
        frames.max_frames > 0,
        speech.len() * frame_len + frames.padding <= usize::MAX,
        samples <= usize::MAX,
    ensures
        forall|k: int|
            0 <= k < chunks_of(planned_pieces(speech, frames), frame_len, frames.padding as nat, samples).len() ==> {
                let chunk = #[trigger] chunks_of(planned_pieces(speech, frames), frame_len, frames.padding as nat, samples)[k];
                &&& chunk.end <= samples
                &&& chunk.end <= chunk.start + frames.max_frames * frame_len + 2 * frames.padding
            },
{
    let max = frames.max_frames as nat;
    let pad = frames.padding as nat;
    let runs = runs_of(speech, frames.min_pause as nat);
    lemma_runs_ordered(speech, frames.min_pause as nat);
    lemma_spans_ordered(runs, frames.long_pause as nat, max, speech.len());
    let spans = spans_of(runs, frames.long_pause as nat, max);
    lemma_pieces_fit(spans, frames.min_speech as nat, max, speech.len());
    let pieces = planned_pieces(speech, frames);
    let chunks = chunks_of(pieces, frame_len, pad, samples);
    assert forall|k: int| 0 <= k < chunks.len() implies {
        let chunk = #[trigger] chunks[k];
        &&& chunk.end <= samples
        &&& chunk.end <= chunk.start + max * frame_len + 2 * pad
    } by {
        let p = pieces[k];
        assert(fits(p, 0, speech.len(), max));
        let a = p.0;
        let b = p.1;
        assert(a * frame_len <= speech.len() * frame_len) by (nonlinear_arith)
            requires
                a <= speech.len(),
        ;
        assert(b * frame_len <= speech.len() * frame_len) by (nonlinear_arith)
            requires
                b <= speech.len(),
        ;
        assert(b * frame_len <= a * frame_len + max * frame_len) by (nonlinear_arith)
            requires
                b <= a + max,
        ;
        assert(chunks[k] == chunk_of(p, frame_len, pad, samples));
    }
}

/// Pieces come in order and apart: each ends where the next one starts or before.
pub open spec fn ordered_pieces(pieces: Seq<(nat, nat)>) -> bool {
    forall|k: int| 0 < k < pieces.len() ==> pieces[k - 1].1 <= #[trigger] pieces[k].0
}

proof fn lemma_split_ordered(start: nat, end: nat, max: nat)
    requires
        max > 0,
    ensures
        ordered_pieces(split(start, end, max)),
        split(start, end, max).len() > 0 ==> split(start, end, max)[0].0 == start,
    decreases end - start,
{
    let pieces = split(start, end, max);
    if start < end && start + max < end {
        lemma_split_ordered(start + max, end, max);
        let rest = split(start + max, end, max);
        assert forall|k: int| 0 < k < pieces.len() implies pieces[k - 1].1 <= #[trigger] pieces[k].0 by {
            assert(pieces[k] == rest[k - 1]);
            if k > 1 {
                assert(pieces[k - 1] == rest[k - 2]);
            }
        }
    }
}

proof fn lemma_pieces_ordered(spans: Seq<(nat, nat, nat)>, min_speech: nat, max: nat, frames: nat)
    requires
        max > 0,
        ordered_spans(spans, frames),
    ensures
        ordered_pieces(pieces_of(spans, min_speech, max)),
        spans.len() > 0 ==> forall|k: int|
            0 <= k < pieces_of(spans, min_speech, max).len() ==> (#[trigger] pieces_of(spans, min_speech, max)[k]).1
                <= spans.last().1,
    decreases spans.len(),
{
    if spans.len() > 0 {
        let rest = spans.drop_last();
        assert(ordered_spans(rest, frames)) by {
            assert forall|k: int| 0 <= k < rest.len() implies #[trigger] rest[k].0 < rest[k].1 <= frames && 1
                <= rest[k].2 <= rest[k].1 - rest[k].0 by {
                assert(rest[k] == spans[k]);
            }
            assert forall|k: int| 0 < k < rest.len() implies rest[k - 1].1 <= #[trigger] rest[k].0 by {
                assert(rest[k] == spans[k]);
                assert(rest[k - 1] == spans[k - 1]);
            }
        }
        lemma_pieces_ordered(rest, min_speech, max, frames);
        let last = spans.last();
        assert(last == spans[spans.len() - 1]);
        lemma_split_ordered(last.0, last.1, max);
        lemma_split_fits(last.0, last.1, max);
        let before = pieces_of(rest, min_speech, max);
        let added = if last.2 >= min_speech {
            split(last.0, last.1, max)
        } else {
            Seq::empty()
        };
        let all = pieces_of(spans, min_speech, max);
        assert(all == before + added);
        if rest.len() > 0 {
            assert(rest.last() == spans[spans.len() - 2]);
            assert(rest.last().1 <= last.0);
        }
        assert forall|k: int| 0 <= k < all.len() implies (#[trigger] all[k]).1 <= last.1 by {
            if k < before.len() {
                assert(all[k] == before[k]);
                assert(rest.len() > 0) by {
                    if rest.len() == 0 {
                        assert(before.len() == 0);
                    }
                }
                assert(before[k].1 <= rest.last().1);
            } else {
                assert(all[k] == added[k - before.len()]);
                assert(fits(added[k - before.len()], last.0, last.1, max));
            }
        }
        assert forall|k: int| 0 < k < all.len() implies all[k - 1].1 <= #[trigger] all[k].0 by {
            if k < before.len() {
                assert(all[k] == before[k]);
                assert(all[k - 1] == before[k - 1]);
            } else if k == before.len() {
                assert(all[k] == added[0]);
                assert(all[k - 1] == before[k - 1]);
                assert(rest.len() > 0) by {
                    if rest.len() == 0 {
                        assert(before.len() == 0);
                    }
                }
                assert(before[k - 1].1 <= rest.last().1);
            } else {
                assert(all[k] == added[k - before.len()]);
                assert(all[k - 1] == added[k - 1 - before.len()]);
            }
        }
    }
}

/// Chunks come in the order of the recording, each starting no earlier than the one before;
/// when the recording holds all its frames, every chunk holds at least one sample; and a
/// recording without frames gives no chunk.
pub proof fn law_chunks_come_in_order(speech: Seq<bool>, frames: ChunkFrames, frame_len: nat, samples: nat)
    requires
        frames.max_frames > 0,
        speech.len() * frame_len + frames.padding <= usize::MAX,
        samples <= usize::MAX,
    ensures
        ({
            let chunks = chunks_of(planned_pieces(speech, frames), frame_len, frames.padding as nat, samples);
            &&& forall|k: int| 0 < k < chunks.len() ==> chunks[k - 1].start <= #[trigger] chunks[k].start
            &&& frame_len > 0 && samples >= speech.len() * frame_len ==> forall|k: int|
                0 <= k < chunks.len() ==> (#[trigger] chunks[k]).start < chunks[k].end
            &&& speech.len() == 0 ==> chunks.len() == 0
        }),
{
    let max = frames.max_frames as nat;
    let pad = frames.padding as nat;
    let runs = runs_of(speech, frames.min_pause as nat);
    lemma_runs_ordered(speech, frames.min_pause as nat);
    lemma_spans_ordered(runs, frames.long_pause as nat, max, speech.len());
    let spans = spans_of(runs, frames.long_pause as nat, max);
    lemma_pieces_fit(spans, frames.min_speech as nat, max, speech.len());
    lemma_pieces_ordered(spans, frames.min_speech as nat, max, speech.len());
    let pieces = planned_pieces(speech, frames);
    let chunks = chunks_of(pieces, frame_len, pad, samples);
    assert forall|k: int| 0 < k < chunks.len() implies chunks[k - 1].start <= #[trigger] chunks[k].start by {
        let p = pieces[k - 1];
        let q = pieces[k];
        assert(p.1 <= q.0);
        assert(fits(p, 0, speech.len(), max));
        assert(fits(q, 0, speech.len(), max));
        assert(p.0 * frame_len <= q.0 * frame_len) by (nonlinear_arith)
            requires
                p.0 <= q.0,
        ;
        assert(q.0 * frame_len <= speech.len() * frame_len) by (nonlinear_arith)
            requires
                q.0 <= speech.len(),
        ;
        assert(chunks[k] == chunk_of(q, frame_len, pad, samples));
        assert(chunks[k - 1] == chunk_of(p, frame_len, pad, samples));
    }
    if frame_len > 0 && samples >= speech.len() * frame_len {
        assert forall|k: int| 0 <= k < chunks.len() implies (#[trigger] chunks[k]).start < chunks[k].end by {
            let p = pieces[k];
            assert(fits(p, 0, speech.len(), max));
            assert(p.0 * frame_len < p.1 * frame_len) by (nonlinear_arith)
                requires
                    p.0 < p.1,
                    frame_len > 0,
            ;
            assert(p.1 * frame_len <= speech.len() * frame_len) by (nonlinear_arith)
                requires
                    p.1 <= speech.len(),
            ;
            assert(chunks[k] == chunk_of(p, frame_len, pad, samples));
        }
    }
    if speech.len() == 0 {
        assert(runs.len() == 0);
        assert(spans.len() == 0);
    }
}

} // verus!
