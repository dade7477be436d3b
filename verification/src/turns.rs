//! Cutting a chunk where the speaker changes, so that every line of the transcript belongs
//! to one speaker. Who talks when is laid on a grid of short steps; here the steps of one
//! chunk become runs of one speaker, runs too short to stand alone join a neighbour, and
//! the runs become the pieces sent to the recognizer.

use vstd::prelude::*;

use crate::chunker::Chunk;

verus! {

/// A range of samples to transcribe, and who talks in it, when known.
#[derive(Debug, Clone, Copy, PartialEq, Eq, Structural)]
pub struct Piece {
    pub start: usize,
    pub end: usize,
    pub speaker: Option<usize>,
}

/// A run of one speaker as `(speaker, first step, step after the last)`.
pub type Run = (usize, usize, usize);

// ---------------------------------------------------------------------------------------
// Runs.

/// The runs over steps `first..at` of the timeline: a step of the run's speaker or of
/// nobody known extends the run before it; a step of another speaker starts a run. Steps
/// nobody is known to talk in before the first speaker belong to no run.
pub open spec fn runs_upto(timeline: Seq<Option<usize>>, first: nat, at: nat) -> Seq<Run>
    decreases at - first,
{
    if at <= first {
        Seq::empty()
    } else {
        let before = runs_upto(timeline, first, (at - 1) as nat);
        let i = (at - 1) as nat;
        match timeline[i as int] {
            Some(s) => if before.len() > 0 && before.last().0 == s {
                before.update(before.len() - 1, (s, before.last().1, at as usize))
            } else {
                before.push((s, i as usize, at as usize))
            },
            None => if before.len() > 0 {
                before.update(before.len() - 1, (before.last().0, before.last().1, at as usize))
            } else {
                before
            },
        }
    }
}

/// The runs of steps `first..last`, the first one reaching back to `first`.
pub open spec fn runs_of(timeline: Seq<Option<usize>>, first: nat, last: nat) -> Seq<Run> {
    let runs = runs_upto(timeline, first, last);
    if runs.len() > 0 {
        runs.update(0, (runs[0].0, first as usize, runs[0].2))
    } else {
        runs
    }
}

/// Runs follow each other without a gap from `first` to `last`, none empty.
pub open spec fn tiles(runs: Seq<Run>, first: nat, last: nat) -> bool {
    &&& runs.len() > 0
    &&& runs[0].1 == first
    &&& runs.last().2 == last
    &&& forall|k: int| 0 <= k < runs.len() ==> (#[trigger] runs[k]).1 < runs[k].2
    &&& forall|k: int| 0 < k < runs.len() ==> runs[k - 1].2 == (#[trigger] runs[k]).1
}

/// Neighbouring runs have different speakers.
pub open spec fn alternate(runs: Seq<Run>) -> bool {
    forall|k: int| 0 < k < runs.len() ==> runs[k - 1].0 != (#[trigger] runs[k]).0
}

proof fn lemma_runs_upto(timeline: Seq<Option<usize>>, first: nat, at: nat)
    requires
        at <= timeline.len(),
        at <= usize::MAX,
    ensures
        ({
            let runs = runs_upto(timeline, first, at);
            &&& runs.len() > 0 ==> first <= runs[0].1 && runs.last().2 == at
            &&& forall|k: int| 0 <= k < runs.len() ==> (#[trigger] runs[k]).1 < runs[k].2
            &&& forall|k: int| 0 < k < runs.len() ==> runs[k - 1].2 == (#[trigger] runs[k]).1
            &&& alternate(runs)
        }),
    decreases at - first,
{
    if at > first {
        lemma_runs_upto(timeline, first, (at - 1) as nat);
        let before = runs_upto(timeline, first, (at - 1) as nat);
        let runs = runs_upto(timeline, first, at);
        if before.len() > 0 {
            assert(before.last() == before[before.len() - 1]);
        }
        assert forall|k: int| 0 < k < runs.len() implies runs[k - 1].0 != (#[trigger] runs[k]).0 by {
            if k < before.len() {
                assert(runs[k - 1].0 == before[k - 1].0);
                assert(runs[k].0 == before[k].0);
            }
        }
    }
}

pub fn speaker_runs(timeline: &[Option<usize>], first: usize, last: usize) -> (r: Vec<Run>)
    requires
        first <= last <= timeline@.len(),
    ensures
        r@ == runs_of(timeline@, first as nat, last as nat),
{
    let mut runs: Vec<Run> = Vec::new();
    let mut at: usize = first;
    while at < last
        invariant
            first <= at <= last <= timeline@.len(),
            runs@ == runs_upto(timeline@, first as nat, at as nat),
        decreases last - at,
    {
        let n = runs.len();
        match timeline[at] {
            Some(speaker) => {
                if n > 0 && runs[n - 1].0 == speaker {
                    let (s, from, _) = runs[n - 1];
                    runs.set(n - 1, (s, from, at + 1));
                } else {
                    runs.push((speaker, at, at + 1));
                }
            },
            None => {
                if n > 0 {
                    let (s, from, _) = runs[n - 1];
                    runs.set(n - 1, (s, from, at + 1));
                }
            },
        }
        at = at + 1;
    }
    if runs.len() > 0 {
        let (s, _, to) = runs[0];
        runs.set(0, (s, first, to));
    }
    runs
}

// ---------------------------------------------------------------------------------------
// Joining runs too short to stand alone.

pub open spec fn steps_of(run: Run) -> int {
    run.2 - run.1
}

/// Where the first of the shortest runs is.
pub open spec fn shortest_at(runs: Seq<Run>) -> nat
    decreases runs.len(),
{
    if runs.len() <= 1 {
        0
    } else {
        let before = shortest_at(runs.drop_last());
        if steps_of(runs.last()) < steps_of(runs[before as int]) {
            (runs.len() - 1) as nat
        } else {
            before
        }
    }
}

/// Neighbouring runs of one speaker made one.
pub open spec fn joined(runs: Seq<Run>) -> Seq<Run>
    decreases runs.len(),
{
    if runs.len() == 0 {
        Seq::empty()
    } else {
        let before = joined(runs.drop_last());
        let run = runs.last();
        if before.len() > 0 && before.last().0 == run.0 {
            before.update(before.len() - 1, (run.0, before.last().1, run.2))
        } else {
            before.push(run)
        }
    }
}

pub proof fn lemma_joined_len(runs: Seq<Run>)
    ensures
        joined(runs).len() <= runs.len(),
        runs.len() > 0 ==> joined(runs).len() > 0,
    decreases runs.len(),
{
    if runs.len() > 0 {
        lemma_joined_len(runs.drop_last());
    }
}

/// The run at `at` given to its neighbour: the one before it, or for the first run the
/// one after it; then neighbours of one speaker joined.
pub open spec fn absorbed(runs: Seq<Run>, at: int) -> Seq<Run> {
    let run = runs[at];
    let rest = runs.remove(at);
    let given = if at > 0 {
        rest.update(at - 1, (rest[at - 1].0, rest[at - 1].1, run.2))
    } else {
        rest.update(0, (rest[0].0, run.1, rest[0].2))
    };
    joined(given)
}

pub proof fn lemma_absorbed_len(runs: Seq<Run>, at: int)
    requires
        runs.len() >= 2,
        0 <= at < runs.len(),
    ensures
        absorbed(runs, at).len() < runs.len(),
        absorbed(runs, at).len() > 0,
{
    let run = runs[at];
    let rest = runs.remove(at);
    let given = if at > 0 {
        rest.update(at - 1, (rest[at - 1].0, rest[at - 1].1, run.2))
    } else {
        rest.update(0, (rest[0].0, run.1, rest[0].2))
    };
    lemma_joined_len(given);
}

/// Runs shorter than `min_steps` join a neighbour, the shortest (first of equals) first,
/// until one run is left or none is that short.
pub open spec fn merged_runs(runs: Seq<Run>, min_steps: nat) -> Seq<Run>
    decreases runs.len(),
{
    if runs.len() <= 1 {
        runs
    } else {
        let at = shortest_at(runs);
        if steps_of(runs[at as int]) >= min_steps || at >= runs.len() {
            runs
        } else {
            proof {
                lemma_absorbed_len(runs, at as int);
            }
            merged_runs(absorbed(runs, at as int), min_steps)
        }
    }
}

proof fn lemma_shortest(runs: Seq<Run>)
    requires
        runs.len() > 0,
    ensures
        shortest_at(runs) < runs.len(),
        forall|k: int| 0 <= k < runs.len() ==> steps_of(runs[shortest_at(runs) as int]) <= steps_of(#[trigger] runs[k]),
    decreases runs.len(),
{
    if runs.len() > 1 {
        let rest = runs.drop_last();
        lemma_shortest(rest);
        assert forall|k: int| 0 <= k < runs.len() implies steps_of(runs[shortest_at(runs) as int]) <= steps_of(
            #[trigger] runs[k],
        ) by {
            if k < rest.len() {
                assert(rest[k] == runs[k]);
                assert(steps_of(rest[shortest_at(rest) as int]) <= steps_of(rest[k]));
            }
            assert(rest[shortest_at(rest) as int] == runs[shortest_at(rest) as int]);
        }
    }
}

proof fn lemma_joined_tiles(runs: Seq<Run>, first: nat, last: nat)
    requires
        tiles(runs, first, last),
    ensures
        tiles(joined(runs), first, last),
        alternate(joined(runs)),
    decreases runs.len(),
{
    let before = joined(runs.drop_last());
    let run = runs.last();
    if runs.len() == 1 {
        assert(runs.drop_last().len() == 0);
        assert(joined(runs) == seq![run]);
    } else {
        let rest = runs.drop_last();
        assert(tiles(rest, first, runs[runs.len() - 2].2 as nat)) by {
            assert forall|k: int| 0 <= k < rest.len() implies (#[trigger] rest[k]).1 < rest[k].2 by {
                assert(rest[k] == runs[k]);
            }
            assert forall|k: int| 0 < k < rest.len() implies rest[k - 1].2 == (#[trigger] rest[k]).1 by {
                assert(rest[k] == runs[k]);
                assert(rest[k - 1] == runs[k - 1]);
            }
        }
        lemma_joined_tiles(rest, first, runs[runs.len() - 2].2 as nat);
        assert(run == runs[runs.len() - 1]);
        assert(runs[runs.len() - 2].2 == run.1);
        let out = joined(runs);
        if before.last().0 == run.0 {
            assert forall|k: int| 0 <= k < out.len() implies (#[trigger] out[k]).1 < out[k].2 by {
                if k < out.len() - 1 {
                    assert(out[k] == before[k]);
                } else {
                    assert(before.last() == before[before.len() - 1]);
                }
            }
            assert forall|k: int| 0 < k < out.len() implies out[k - 1].2 == (#[trigger] out[k]).1 by {
                if k < out.len() - 1 {
                    assert(out[k] == before[k]);
                    assert(out[k - 1] == before[k - 1]);
                } else {
                    assert(out[k - 1] == before[k - 1]);
                    assert(before.last() == before[before.len() - 1]);
                }
            }
            assert forall|k: int| 0 < k < out.len() implies out[k - 1].0 != (#[trigger] out[k]).0 by {
                assert(out[k - 1] == before[k - 1]);
                if k < out.len() - 1 {
                    assert(out[k] == before[k]);
                } else {
                    assert(before.last() == before[before.len() - 1]);
                }
            }
        } else {
            assert forall|k: int| 0 < k < out.len() implies out[k - 1].0 != (#[trigger] out[k]).0 by {
                if k < out.len() - 1 {
                    assert(out[k] == before[k]);
                    assert(out[k - 1] == before[k - 1]);
                } else {
                    assert(before.last() == before[before.len() - 1]);
                }
            }
            assert forall|k: int| 0 < k < out.len() implies out[k - 1].2 == (#[trigger] out[k]).1 by {
                if k < out.len() - 1 {
                    assert(out[k] == before[k]);
                    assert(out[k - 1] == before[k - 1]);
                } else {
                    assert(before.last() == before[before.len() - 1]);
                }
            }
        }
    }
}

proof fn lemma_absorbed_tiles(runs: Seq<Run>, at: int, first: nat, last: nat)
    requires
        tiles(runs, first, last),
        runs.len() >= 2,
        0 <= at < runs.len(),
    ensures
        tiles(absorbed(runs, at), first, last),
        alternate(absorbed(runs, at)),
{
    let run = runs[at];
    let rest = runs.remove(at);
    let given = if at > 0 {
        rest.update(at - 1, (rest[at - 1].0, rest[at - 1].1, run.2))
    } else {
        rest.update(0, (rest[0].0, run.1, rest[0].2))
    };
    assert forall|k: int| 0 <= k < given.len() implies (#[trigger] given[k]).1 < given[k].2 by {
        if k < at - 1 {
            assert(given[k] == runs[k]);
        } else if k == at - 1 {
            assert(runs[k].1 < runs[k].2);
            assert(runs[k].2 == runs[at].1);
        } else if at == 0 && k == 0 {
            assert(runs[1].1 == runs[0].2);
        } else {
            assert(given[k] == runs[k + 1]);
        }
    }
    assert forall|k: int| 0 < k < given.len() implies given[k - 1].2 == (#[trigger] given[k]).1 by {
        if k < at - 1 {
            assert(given[k] == runs[k]);
            assert(given[k - 1] == runs[k - 1]);
        } else if k == at - 1 {
            assert(given[k - 1] == runs[k - 1]);
        } else if k == at {
            assert(given[k] == runs[k + 1]);
            assert(runs[k + 1].1 == runs[k].2);
        } else {
            assert(given[k] == runs[k + 1]);
            assert(given[k - 1].2 == runs[k].2);
        }
    }
    assert(given[0].1 == first);
    assert(given.last() == given[given.len() - 1]);
    if at == runs.len() - 1 {
        assert(given[given.len() - 1].2 == run.2);
    } else {
        assert(given[given.len() - 1].2 == runs[runs.len() - 1].2);
    }
    lemma_joined_tiles(given, first, last);
}

/// Runs of steps `first..last`, with runs too short to stand alone joined to a neighbour.
pub open spec fn split_runs_of(timeline: Seq<Option<usize>>, first: nat, last: nat, min_steps: nat) -> Seq<Run> {
    merged_runs(runs_of(timeline, first, last), min_steps)
}

fn shortest(runs: &Vec<Run>) -> (r: usize)
    requires
        runs@.len() > 0,
        forall|k: int| 0 <= k < runs@.len() ==> (#[trigger] runs@[k]).1 < runs@[k].2,
    ensures
        r == shortest_at(runs@),
{
    let mut best: usize = 0;
    let mut i: usize = 1;
    assert(runs@.take(1).len() == 1);
    while i < runs.len()
        invariant
            1 <= i <= runs@.len(),
            forall|k: int| 0 <= k < runs@.len() ==> (#[trigger] runs@[k]).1 < runs@[k].2,
            best == shortest_at(runs@.take(i as int)),
            best < i,
        decreases runs.len() - i,
    {
        proof {
            lemma_shortest(runs@.take(i as int));
            assert(runs@.take(i + 1).drop_last() == runs@.take(i as int));
            assert(runs@.take(i + 1).last() == runs@[i as int]);
            assert(runs@.take(i + 1)[best as int] == runs@[best as int]);
        }
        if runs[i].2 - runs[i].1 < runs[best].2 - runs[best].1 {
            best = i;
        }
        i = i + 1;
    }
    assert(runs@.take(runs.len() as int) == runs@);
    best
}

fn join(runs: &Vec<Run>) -> (r: Vec<Run>)
    ensures
        r@ == joined(runs@),
{
    let mut out: Vec<Run> = Vec::new();
    let mut i: usize = 0;
    while i < runs.len()
        invariant
            i <= runs@.len(),
            out@ == joined(runs@.take(i as int)),
        decreases runs.len() - i,
    {
        assert(runs@.take(i + 1).drop_last() == runs@.take(i as int));
        assert(runs@.take(i + 1).last() == runs@[i as int]);
        let (s, from, to) = runs[i];
        let n = out.len();
        if n > 0 && out[n - 1].0 == s {
            let (_, start, _) = out[n - 1];
            out.set(n - 1, (s, start, to));
        } else {
            out.push((s, from, to));
        }
        i = i + 1;
    }
    assert(runs@.take(runs.len() as int) == runs@);
    out
}

/// The runs of one speaker over steps `first..last` of the timeline, runs shorter than
/// `min_steps` joined to a neighbour, shortest first.
pub fn split_runs(timeline: &[Option<usize>], first: usize, last: usize, min_steps: usize) -> (r: Vec<Run>)
    requires
        first <= last <= timeline@.len(),
    ensures
        r@ == split_runs_of(timeline@, first as nat, last as nat, min_steps as nat),
        r@.len() > 0 ==> tiles(r@, first as nat, last as nat) && alternate(r@),
        r@.len() > 1 ==> forall|k: int| 0 <= k < r@.len() ==> steps_of(#[trigger] r@[k]) >= min_steps,
{
    let mut runs = speaker_runs(timeline, first, last);
    proof {
        lemma_runs_upto(timeline@, first as nat, last as nat);
        let r = runs_upto(timeline@, first as nat, last as nat);
        if r.len() > 0 {
            assert(runs@[0].1 == first);
            assert(runs@.last() == r.last() || runs@.len() == 1);
            assert forall|k: int| 0 < k < runs@.len() implies runs@[k - 1].0 != (#[trigger] runs@[k]).0 by {
                assert(runs@[k] == r[k]);
            }
            assert forall|k: int| 0 < k < runs@.len() implies runs@[k - 1].2 == (#[trigger] runs@[k]).1 by {
                assert(runs@[k] == r[k]);
                if k > 1 {
                    assert(runs@[k - 1] == r[k - 1]);
                }
            }
            assert forall|k: int| 0 <= k < runs@.len() implies (#[trigger] runs@[k]).1 < runs@[k].2 by {
                if k > 0 {
                    assert(runs@[k] == r[k]);
                } else {
                    assert(first <= r[0].1);
                }
            }
            assert(runs@.last() == runs@[runs@.len() - 1]);
            if runs@.len() > 1 {
                assert(runs@[runs@.len() - 1] == r[r.len() - 1]);
            }
        }
    }
    let ghost target = merged_runs(runs@, min_steps as nat);
    let mut done = false;
    while !done && runs.len() > 1
        invariant
            merged_runs(runs@, min_steps as nat) == target,
            runs@.len() > 0 ==> tiles(runs@, first as nat, last as nat) && alternate(runs@),
            done ==> runs@ == target && forall|k: int| 0 <= k < runs@.len() ==> steps_of(#[trigger] runs@[k]) >= min_steps,
        decreases runs@.len(), if done { 0int } else { 1int },
    {
        let at = shortest(&runs);
        proof {
            lemma_shortest(runs@);
        }
        if runs[at].2 - runs[at].1 >= min_steps {
            done = true;
        } else {
            proof {
                lemma_absorbed_tiles(runs@, at as int, first as nat, last as nat);
                lemma_absorbed_len(runs@, at as int);
            }
            let ghost before = runs@;
            let removed = runs.remove(at);
            if at > 0 {
                let (s, from, _) = runs[at - 1];
                runs.set(at - 1, (s, from, removed.2));
            } else {
                let (s, _, to) = runs[0];
                runs.set(0, (s, removed.1, to));
            }
            runs = join(&runs);
            assert(runs@ == absorbed(before, at as int));
        }
    }
    proof {
        if !done {
            assert(runs@.len() <= 1);
        }
    }
    runs
}

/// The pieces of a chunk from its runs: each run a piece of its speaker, cut at `cuts`
/// (one between each two runs), the first starting and the last ending with the chunk.
/// A chunk nobody is known to talk in is one piece without a speaker.
pub open spec fn pieces_of(chunk: Chunk, speakers: Seq<usize>, cuts: Seq<usize>) -> Seq<Piece> {
    if speakers.len() == 0 {
        seq![Piece { start: chunk.start, end: chunk.end, speaker: None }]
    } else {
        Seq::new(
            speakers.len(),
            |k: int|
                Piece {
                    start: if k == 0 {
                        chunk.start
                    } else {
                        cuts[k - 1]
                    },
                    end: if k == speakers.len() - 1 {
                        chunk.end
                    } else {
                        cuts[k]
                    },
                    speaker: Some(speakers[k]),
                },
        )
    }
}

pub fn pieces(chunk: Chunk, speakers: &[usize], cuts: &[usize]) -> (r: Vec<Piece>)
    requires
        speakers@.len() > 0 ==> cuts@.len() + 1 == speakers@.len(),
    ensures
        r@ == pieces_of(chunk, speakers@, cuts@),
{
    if speakers.len() == 0 {
        let r = vec![Piece { start: chunk.start, end: chunk.end, speaker: None }];
        assert(r@ =~= pieces_of(chunk, speakers@, cuts@));
        return r;
    }
    let mut out: Vec<Piece> = Vec::new();
    let mut start = chunk.start;
    let mut k: usize = 0;
    while k < speakers.len()
        invariant
            k <= speakers@.len(),
            speakers@.len() > 0,
            cuts@.len() + 1 == speakers@.len(),
            out@.len() == k,
            k < speakers@.len() ==> start == (if k == 0 {
                chunk.start
            } else {
                cuts@[k - 1]
            }),
            forall|j: int| 0 <= j < k ==> out@[j] == pieces_of(chunk, speakers@, cuts@)[j],
        decreases speakers.len() - k,
    {
        let end = if k + 1 < speakers.len() {
            cuts[k]
        } else {
            chunk.end
        };
        out.push(Piece { start, end, speaker: Some(speakers[k]) });
        start = end;
        k = k + 1;
    }
    assert(out@ =~= pieces_of(chunk, speakers@, cuts@));
    out
}

} // verus!
