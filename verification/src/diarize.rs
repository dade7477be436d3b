//! The counting around diarization: how the recording is cut into windows, which
//! embeddings anchor the clustering, how clusters that match one known voice are merged,
//! how the windows' votes decide who speaks in each frame, and how speakers are numbered
//! in the order they are first heard. The audio, the embeddings and the similarities
//! themselves are measured elsewhere; what arrives here is what they decided.

use vstd::prelude::*;

use crate::speakers::{
    frames_for_samples, number_groups, numbering, SpeakerBounds, WindowActivity, FRAME_SIZE, WINDOW_SAMPLES,
};

verus! {

// ---------------------------------------------------------------------------------------
// Windows.

/// How many windows of [`WINDOW_SAMPLES`] cover `total` samples at a hop of `step`: one for
/// a recording no longer than a window, else as many hops as it takes to reach the end.
pub open spec fn window_count_of(total: nat, step: nat) -> nat {
    if total <= WINDOW_SAMPLES {
        1
    } else {
        ceil_div((total - WINDOW_SAMPLES) as nat, step) + 1
    }
}

/// `a / b`, rounded up.
pub open spec fn ceil_div(a: nat, b: nat) -> nat {
    if a % b == 0 {
        a / b
    } else {
        a / b + 1
    }
}

fn div_ceil(a: usize, b: usize) -> (r: usize)
    requires
        b > 0,
    ensures
        r == ceil_div(a as nat, b as nat),
{
    if a % b == 0 {
        a / b
    } else {
        assert(a / b < usize::MAX) by (nonlinear_arith)
            requires
                b > 0,
                a % b != 0,
                a <= usize::MAX,
        ;
        a / b + 1
    }
}

pub fn window_count(total: usize, step: usize) -> (r: usize)
    requires
        step > 0,
    ensures
        r == window_count_of(total as nat, step as nat),
{
    if total <= WINDOW_SAMPLES {
        1
    } else {
        let hops = div_ceil(total - WINDOW_SAMPLES, step);
        assert(hops <= total - WINDOW_SAMPLES) by {
            assert((total - WINDOW_SAMPLES) as nat / (step as nat) <= (total - WINDOW_SAMPLES) as nat) by (
            nonlinear_arith)
                requires
                    step > 0,
            ;
            if (total - WINDOW_SAMPLES) as nat % (step as nat) != 0 {
                assert((total - WINDOW_SAMPLES) as nat / (step as nat) < (total - WINDOW_SAMPLES) as nat) by (
                nonlinear_arith)
                    requires
                        step > 0,
                        (total - WINDOW_SAMPLES) as nat % (step as nat) != 0,
                ;
            }
        }
        hops + 1
    }
}

/// The hop between windows, in samples, a whole number of frames: the one asked for (at
/// least a frame), grown on long recordings so there are no more than `max_windows` windows
/// (at least two), and never more than a window's worth of frames.
pub open spec fn step_samples_of(requested_frames: nat, max_windows: nat, total: nat) -> nat {
    let requested = if requested_frames >= 1 {
        requested_frames
    } else {
        1
    };
    let windows = if max_windows >= 2 {
        max_windows
    } else {
        2
    };
    let needed = if total > WINDOW_SAMPLES {
        ceil_div((total - WINDOW_SAMPLES) as nat, ((windows - 1) * FRAME_SIZE) as nat)
    } else {
        0
    };
    let wanted = if requested >= needed {
        requested
    } else {
        needed
    };
    let cap = frames_in_a_window();
    ((if wanted <= cap {
        wanted
    } else {
        cap
    }) * FRAME_SIZE) as nat
}

/// The frames one window holds.
pub open spec fn frames_in_a_window() -> nat {
    ((WINDOW_SAMPLES - 721) / 270) as nat
}

pub fn step_samples(requested_frames: usize, max_windows: usize, total: usize) -> (r: usize)
    requires
        max_windows < usize::MAX / FRAME_SIZE,
    ensures
        r == step_samples_of(requested_frames as nat, max_windows as nat, total as nat),
        r > 0,
{
    let requested = if requested_frames >= 1 {
        requested_frames
    } else {
        1
    };
    let windows = if max_windows >= 2 {
        max_windows
    } else {
        2
    };
    let needed = if total > WINDOW_SAMPLES {
        div_ceil(total - WINDOW_SAMPLES, (windows - 1) * FRAME_SIZE)
    } else {
        0
    };
    let wanted = if requested >= needed {
        requested
    } else {
        needed
    };
    let cap = frames_for_samples(WINDOW_SAMPLES);
    assert(cap == frames_in_a_window());
    let frames = if wanted <= cap {
        wanted
    } else {
        cap
    };
    frames * FRAME_SIZE
}

proof fn lemma_ceil_covers(a: nat, b: nat)
    requires
        b > 0,
    ensures
        ceil_div(a, b) * b >= a,
{
    assert(ceil_div(a, b) * b >= a) by (nonlinear_arith)
        requires
            b > 0,
            ceil_div(a, b) == (if a % b == 0 {
                a / b
            } else {
                a / b + 1
            }),
    ;
}

proof fn lemma_ceil_at_most(a: nat, b: nat, k: nat)
    requires
        b > 0,
        k * b >= a,
    ensures
        ceil_div(a, b) <= k,
{
    assert(ceil_div(a, b) <= k) by (nonlinear_arith)
        requires
            b > 0,
            k * b >= a,
            ceil_div(a, b) == (if a % b == 0 {
                a / b
            } else {
                a / b + 1
            }),
    ;
}

/// On a long recording the hop grows so that there are no more windows than allowed, as
/// long as a hop of a whole window's worth of frames is enough for that.
pub proof fn law_long_recordings_get_at_most_max_windows(requested_frames: nat, max_windows: nat, total: nat)
    requires
        ({
            let windows = if max_windows >= 2 {
                max_windows
            } else {
                2
            };
            total <= WINDOW_SAMPLES || ceil_div(
                (total - WINDOW_SAMPLES) as nat,
                ((windows - 1) * FRAME_SIZE) as nat,
            ) <= frames_in_a_window()
        }),
    ensures
        window_count_of(total, step_samples_of(requested_frames, max_windows, total)) <= (if max_windows >= 2 {
            max_windows
        } else {
            2
        }),
{
    let windows = if max_windows >= 2 {
        max_windows
    } else {
        2
    };
    if total > WINDOW_SAMPLES {
        let a = (total - WINDOW_SAMPLES) as nat;
        let d = ((windows - 1) * FRAME_SIZE) as nat;
        let needed = ceil_div(a, d);
        let step = step_samples_of(requested_frames, max_windows, total);
        let frames = step / (FRAME_SIZE as nat);
        assert(step == frames * FRAME_SIZE);
        assert(frames >= needed);
        lemma_ceil_covers(a, d);
        assert(((windows - 1) as nat) * step >= a) by (nonlinear_arith)
            requires
                step == frames * 270,
                frames >= needed,
                needed * d >= a,
                d == (windows - 1) * 270,
                windows >= 2,
        ;
        lemma_ceil_at_most(a, step, (windows - 1) as nat);
    }
}

// ---------------------------------------------------------------------------------------
// Anchors.

/// The embeddings clustering is anchored on: those with enough clean speech, or all of
/// them when none has.
pub open spec fn anchors_of(anchor: Seq<bool>) -> Seq<usize> {
    if anchor.contains(true) {
        flagged(anchor)
    } else {
        Seq::new(anchor.len(), |i: int| i as usize)
    }
}

/// The positions that are `true`, in order.
pub open spec fn flagged(anchor: Seq<bool>) -> Seq<usize>
    decreases anchor.len(),
{
    if anchor.len() == 0 {
        Seq::empty()
    } else if anchor.last() {
        flagged(anchor.drop_last()).push((anchor.len() - 1) as usize)
    } else {
        flagged(anchor.drop_last())
    }
}

proof fn lemma_flagged_empty(anchor: Seq<bool>)
    ensures
        flagged(anchor).len() == 0 <==> !anchor.contains(true),
    decreases anchor.len(),
{
    if anchor.len() > 0 {
        lemma_flagged_empty(anchor.drop_last());
        if anchor.drop_last().contains(true) {
            let i = choose|i: int| 0 <= i < anchor.drop_last().len() && anchor.drop_last()[i] == true;
            assert(anchor[i] == true);
        }
        if anchor.contains(true) && !anchor.last() {
            let i = choose|i: int| 0 <= i < anchor.len() && anchor[i] == true;
            assert(anchor.drop_last()[i] == true);
        }
        if anchor.last() {
            assert(anchor[anchor.len() - 1] == true);
        }
    }
}

pub fn anchors(anchor: &[bool]) -> (r: Vec<usize>)
    ensures
        r@ == anchors_of(anchor@),
{
    let mut flags: Vec<usize> = Vec::new();
    let mut i: usize = 0;
    while i < anchor.len()
        invariant
            i <= anchor.len(),
            flags@ == flagged(anchor@.take(i as int)),
        decreases anchor.len() - i,
    {
        assert(anchor@.take(i + 1).drop_last() == anchor@.take(i as int));
        if anchor[i] {
            flags.push(i);
        }
        i = i + 1;
    }
    assert(anchor@.take(anchor.len() as int) == anchor@);
    proof {
        lemma_flagged_empty(anchor@);
    }
    if flags.len() > 0 {
        flags
    } else {
        let mut all: Vec<usize> = Vec::new();
        let mut i: usize = 0;
        while i < anchor.len()
            invariant
                i <= anchor.len(),
                all@.len() == i,
                forall|j: int| 0 <= j < i ==> all@[j] == j,
            decreases anchor.len() - i,
        {
            all.push(i);
            i = i + 1;
        }
        assert(all@ =~= Seq::new(anchor@.len(), |i: int| i as usize));
        all
    }
}

// ---------------------------------------------------------------------------------------
// Known voices.

/// Below how many clusters merging by known voice never goes: the exact count, else the
/// minimum, else one.
pub open spec fn merge_floor_of(bounds: SpeakerBounds) -> nat {
    let floor = match bounds.num_speakers {
        Some(n) => n,
        None => match bounds.min_speakers {
            Some(m) => m,
            None => 1,
        },
    };
    if floor >= 1 {
        floor as nat
    } else {
        1
    }
}

pub fn merge_floor(bounds: &SpeakerBounds) -> (r: usize)
    ensures
        r == merge_floor_of(*bounds),
{
    let floor = match bounds.num_speakers {
        Some(n) => n,
        None => match bounds.min_speakers {
            Some(m) => m,
            None => 1,
        },
    };
    if floor >= 1 {
        floor
    } else {
        1
    }
}

/// The first cluster before `before` whose best known voice is `voice`.
pub open spec fn first_with(best: Seq<Option<usize>>, voice: nat, before: nat) -> Option<nat>
    decreases before,
{
    if before == 0 {
        None
    } else {
        match first_with(best, voice, (before - 1) as nat) {
            Some(c) => Some(c),
            None => if best[before - 1] == Some(voice as usize) {
                Some((before - 1) as nat)
            } else {
                None
            },
        }
    }
}

/// Merging for one known voice, over the clusters before `upto`: each cluster matching it
/// after the first goes into the first, while more than `floor` clusters remain.
pub open spec fn voice_pass(
    best: Seq<Option<usize>>,
    voice: nat,
    upto: nat,
    start: (Seq<nat>, nat),
    floor: nat,
) -> (Seq<nat>, nat)
    decreases upto,
{
    if upto == 0 {
        start
    } else {
        let (remap, count) = voice_pass(best, voice, (upto - 1) as nat, start, floor);
        let c = (upto - 1) as nat;
        match first_with(best, voice, c) {
            Some(first) => if best[c as int] == Some(voice as usize) && count > floor {
                (remap.update(c as int, first), (count - 1) as nat)
            } else {
                (remap, count)
            },
            None => (remap, count),
        }
    }
}

/// Merging for the known voices before `voices`, in order: where each cluster goes, and
/// how many clusters remain.
pub open spec fn merged(best: Seq<Option<usize>>, voices: nat, floor: nat) -> (Seq<nat>, nat)
    decreases voices,
{
    if voices == 0 {
        (Seq::new(best.len(), |c: int| c as nat), best.len())
    } else {
        voice_pass(best, (voices - 1) as nat, best.len(), merged(best, (voices - 1) as nat, floor), floor)
    }
}

/// What merging keeps true: each cluster goes to itself or to an earlier cluster that
/// stays itself and has the same best known voice; the count is the clusters left
/// standing and never drops below the floor (nor below what there was to begin with).
pub open spec fn merge_ok(best: Seq<Option<usize>>, remap: Seq<nat>, count: nat, floor: nat) -> bool {
    &&& remap.len() == best.len()
    &&& forall|c: int|
        0 <= c < best.len() ==> #[trigger] remap[c] <= c && (remap[c] != c ==> remap[remap[c] as int] == remap[c]
            && best[remap[c] as int] == best[c] && best[c] is Some)
    &&& count == standing(remap, best.len())
    &&& count >= (if floor <= best.len() {
        floor
    } else {
        best.len()
    })
}

/// How many of the first `upto` clusters go to themselves.
pub open spec fn standing(remap: Seq<nat>, upto: nat) -> nat
    decreases upto,
{
    if upto == 0 {
        0
    } else {
        standing(remap, (upto - 1) as nat) + if remap[upto - 1] == upto - 1 {
            1nat
        } else {
            0nat
        }
    }
}

proof fn lemma_standing_update(remap: Seq<nat>, upto: nat, c: int, v: nat)
    requires
        0 <= c < upto <= remap.len(),
        remap[c] == c,
        v != c,
    ensures
        standing(remap.update(c, v), upto) + 1 == standing(remap, upto),
    decreases upto,
{
    if upto - 1 > c {
        lemma_standing_update(remap, (upto - 1) as nat, c, v);
    } else {
        lemma_standing_same(remap, remap.update(c, v), c as nat);
    }
}

proof fn lemma_standing_same(a: Seq<nat>, b: Seq<nat>, upto: nat)
    requires
        upto <= a.len(),
        upto <= b.len(),
        forall|i: int| 0 <= i < upto ==> a[i] == b[i],
    ensures
        standing(a, upto) == standing(b, upto),
    decreases upto,
{
    if upto > 0 {
        lemma_standing_same(a, b, (upto - 1) as nat);
    }
}

proof fn lemma_standing_identity(n: nat)
    ensures
        standing(Seq::new(n, |c: int| c as nat), n) == n,
    decreases n,
{
    if n > 0 {
        lemma_standing_identity((n - 1) as nat);
        lemma_standing_same(Seq::new(n, |c: int| c as nat), Seq::new((n - 1) as nat, |c: int| c as nat), (n - 1) as nat);
    }
}

proof fn lemma_first_with(best: Seq<Option<usize>>, voice: nat, before: nat)
    requires
        before <= best.len(),
    ensures
        first_with(best, voice, before) matches Some(f) ==> f < before && best[f as int] == Some(voice as usize) && forall|
            i: int,
        | 0 <= i < f ==> best[i] != Some(voice as usize),
        first_with(best, voice, before) is None ==> forall|i: int| 0 <= i < before ==> best[i] != Some(voice as usize),
    decreases before,
{
    if before > 0 {
        lemma_first_with(best, voice, (before - 1) as nat);
    }
}

proof fn lemma_voice_pass(best: Seq<Option<usize>>, voice: nat, upto: nat, start: (Seq<nat>, nat), floor: nat)
    requires
        upto <= best.len(),
        merge_ok(best, start.0, start.1, floor),
        forall|c: int| 0 <= c < best.len() && start.0[c] != c ==> best[c] != Some(voice as usize),
    ensures
        merge_ok(best, voice_pass(best, voice, upto, start, floor).0, voice_pass(best, voice, upto, start, floor).1, floor),
        forall|c: int|
            upto <= c < best.len() ==> voice_pass(best, voice, upto, start, floor).0[c] == start.0[c],
    decreases upto,
{
    if upto > 0 {
        let c = (upto - 1) as nat;
        lemma_voice_pass(best, voice, c, start, floor);
        let (remap, count) = voice_pass(best, voice, c, start, floor);
        lemma_first_with(best, voice, c);
        match first_with(best, voice, c) {
            Some(first) => {
                if best[c as int] == Some(voice as usize) && count > floor {
                    assert(remap[c as int] == start.0[c as int]);
                    assert(remap[c as int] == c);
                    assert(remap[first as int] <= first);
                    if remap[first as int] != first {
                        assert(best[remap[first as int] as int] == best[first as int]);
                        assert(remap[first as int] < first);
                        assert(false);
                    }
                    let remap2 = remap.update(c as int, first);
                    lemma_standing_update(remap, best.len(), c as int, first);
                    assert forall|i: int| 0 <= i < best.len() implies #[trigger] remap2[i] <= i && (remap2[i] != i
                        ==> remap2[remap2[i] as int] == remap2[i] && best[remap2[i] as int] == best[i] && best[i] is Some) by {
                        if i == c {
                            assert(remap2[first as int] == first);
                        } else if remap2[i] != i {
                            assert(remap[i] != i);
                            assert(remap[remap[i] as int] == remap[i]);
                            if remap[i] == c {
                                assert(i > c);
                                assert(remap[i] == start.0[i]);
                                assert(best[i] != Some(voice as usize));
                                assert(best[remap[i] as int] == best[i]);
                                assert(false);
                            }
                        }
                    }
                }
            },
            None => {},
        }
    }
}

proof fn lemma_merged(best: Seq<Option<usize>>, voices: nat, floor: nat)
    requires
        voices <= usize::MAX,
    ensures
        merge_ok(best, merged(best, voices, floor).0, merged(best, voices, floor).1, floor),
        forall|c: int|
            0 <= c < best.len() && (#[trigger] merged(best, voices, floor).0[c]) != c ==> (best[c] matches Some(v)
                && v < voices),
    decreases voices,
{
    if voices == 0 {
        lemma_standing_identity(best.len());
    } else {
        let v = (voices - 1) as nat;
        lemma_merged(best, v, floor);
        let start = merged(best, v, floor);
        assert forall|c: int| 0 <= c < best.len() && start.0[c] != c implies best[c] != Some(v as usize) by {
            assert(best[c] matches Some(w) && w < v);
            assert(merged(best, v, floor).0[c] != c);
        }
        lemma_voice_pass(best, v, best.len(), start, floor);
        lemma_voice_pass_moves(best, v, best.len(), start, floor);
    }
}

proof fn lemma_voice_pass_moves(best: Seq<Option<usize>>, voice: nat, upto: nat, start: (Seq<nat>, nat), floor: nat)
    requires
        upto <= best.len(),
        start.0.len() == best.len(),
    ensures
        voice_pass(best, voice, upto, start, floor).0.len() == best.len(),
        forall|c: int|
            0 <= c < best.len() && (#[trigger] voice_pass(best, voice, upto, start, floor).0[c]) != start.0[c] ==> best[c]
                == Some(voice as usize),
    decreases upto,
{
    if upto > 0 {
        lemma_voice_pass_moves(best, voice, (upto - 1) as nat, start, floor);
    }
}

/// Where each cluster goes when clusters whose best known voice is the same are merged,
/// voice by voice and cluster by cluster, and how many clusters are left.
/// `best[c]` is the known voice cluster `c` matches best, when it matches one well enough.
pub fn merge_known(best: &[Option<usize>], voices: usize, floor: usize) -> (r: (Vec<usize>, usize))
    ensures
        r.0@.map_values(|c: usize| c as nat) == merged(best@, voices as nat, floor as nat).0,
        r.1 == merged(best@, voices as nat, floor as nat).1,
{
    let n = best.len();
    let mut remap: Vec<usize> = Vec::new();
    let mut i: usize = 0;
    while i < n
        invariant
            i <= n,
            n == best.len(),
            remap@.len() == i,
            forall|j: int| 0 <= j < i ==> remap@[j] == j,
        decreases n - i,
    {
        remap.push(i);
        i = i + 1;
    }
    let mut count: usize = n;
    assert(remap@.map_values(|c: usize| c as nat) =~= merged(best@, 0, floor as nat).0);
    let mut voice: usize = 0;
    while voice < voices
        invariant
            voice <= voices,
            n == best.len(),
            remap@.len() == n,
            remap@.map_values(|c: usize| c as nat) == merged(best@, voice as nat, floor as nat).0,
            count == merged(best@, voice as nat, floor as nat).1,
        decreases voices - voice,
    {
        let ghost start = merged(best@, voice as nat, floor as nat);
        proof {
            lemma_merged(best@, voice as nat, floor as nat);
        }
        let mut first: Option<usize> = None;
        let mut c: usize = 0;
        while c < n
            invariant
                c <= n,
                n == best.len(),
                remap@.len() == n,
                start.0.len() == n,
                (remap@.map_values(|c: usize| c as nat), count as nat) == voice_pass(best@, voice as nat, c as nat, start, floor as nat),
                first == (match first_with(best@, voice as nat, c as nat) {
                    Some(f) => Some(f as usize),
                    None => None,
                }),
            decreases n - c,
        {
            proof {
                lemma_first_with(best@, voice as nat, c as nat);
                lemma_voice_pass_moves(best@, voice as nat, c as nat, start, floor as nat);
            }
            if best[c] == Some(voice) {
                match first {
                    Some(f) => {
                        if count > floor {
                            let ghost before = remap@.map_values(|c: usize| c as nat);
                            remap.set(c, f);
                            count = count - 1;
                            assert(remap@.map_values(|c: usize| c as nat) =~= before.update(c as int, f as nat));
                        }
                    },
                    None => {
                        first = Some(c);
                    },
                }
            }
            c = c + 1;
        }
        voice = voice + 1;
    }
    (remap, count)
}

/// Merging by known voice never leaves fewer clusters than the floor (nor than there were),
/// and only merges clusters into an earlier one that stays, with the same known voice.
pub proof fn law_merging_respects_the_floor(best: Seq<Option<usize>>, voices: nat, floor: nat)
    requires
        voices <= usize::MAX,
    ensures
        merge_ok(best, merged(best, voices, floor).0, merged(best, voices, floor).1, floor),
{
    lemma_merged(best, voices, floor);
}

/// The labels after merging: numbered again by first appearance of where each cluster
/// went, or as they were when nothing was merged.
pub open spec fn relabeled(labels: Seq<usize>, remap: Seq<usize>, count: nat) -> Seq<usize> {
    if count == remap.len() {
        labels
    } else {
        numbering(labels.map_values(|l: usize| remap[l as int] as nat)).2
    }
}

pub fn relabel(labels: &[usize], remap: &[usize], count: usize) -> (r: Vec<usize>)
    requires
        forall|i: int| 0 <= i < labels@.len() ==> labels@[i] < remap@.len(),
        forall|c: int| 0 <= c < remap@.len() ==> remap@[c] < remap@.len(),
    ensures
        r@ == relabeled(labels@, remap@, count as nat),
{
    if count == remap.len() {
        let mut same: Vec<usize> = Vec::new();
        let mut i: usize = 0;
        while i < labels.len()
            invariant
                i <= labels.len(),
                same@ == labels@.take(i as int),
            decreases labels.len() - i,
        {
            same.push(labels[i]);
            assert(labels@.take(i + 1) == labels@.take(i as int).push(labels@[i as int]));
            i = i + 1;
        }
        assert(labels@.take(labels.len() as int) == labels@);
        return same;
    }
    let mut mapped: Vec<usize> = Vec::new();
    let mut i: usize = 0;
    while i < labels.len()
        invariant
            i <= labels.len(),
            mapped@.len() == i,
            forall|j: int| 0 <= j < labels@.len() ==> labels@[j] < remap@.len(),
            forall|c: int| 0 <= c < remap@.len() ==> remap@[c] < remap@.len(),
            forall|j: int| 0 <= j < i ==> mapped@[j] == remap@[labels@[j] as int],
        decreases labels.len() - i,
    {
        mapped.push(remap[labels[i]]);
        i = i + 1;
    }
    assert(mapped@.map_values(|x: usize| x as nat) =~= labels@.map_values(|l: usize| remap@[l as int] as nat));
    let (numbers, _) = number_groups(mapped.as_slice(), remap.len());
    numbers
}

// ---------------------------------------------------------------------------------------
// Numbering speakers as they are first heard.

/// The number a speaker gets: its place among the speakers in the order the segments first
/// hear them, 0 for one never heard.
pub open spec fn renumbered(heard: Seq<usize>, speaker: usize) -> usize {
    let lookup = numbering(heard.map_values(|s: usize| s as nat)).0;
    if lookup.dom().contains(speaker as nat) {
        lookup[speaker as nat] as usize
    } else {
        0
    }
}

/// Speakers renumbered by first appearance: the speaker of each segment, in order, and the
/// new index of each speaker.
pub fn renumber(heard: &[usize], speakers: &[usize], bound: usize) -> (r: (Vec<usize>, Vec<usize>))
    requires
        forall|i: int| 0 <= i < heard@.len() ==> heard@[i] < bound,
        forall|i: int| 0 <= i < speakers@.len() ==> speakers@[i] < bound,
    ensures
        r.0@ == numbering(heard@.map_values(|s: usize| s as nat)).2,
        r.1@.len() == speakers@.len(),
        forall|i: int| 0 <= i < speakers@.len() ==> #[trigger] r.1@[i] == renumbered(heard@, speakers@[i]),
{
    let (numbers, lookup) = number_groups(heard, bound);
    let mut indices: Vec<usize> = Vec::new();
    let mut i: usize = 0;
    while i < speakers.len()
        invariant
            i <= speakers.len(),
            indices@.len() == i,
            lookup@.len() == bound,
            forall|j: int| 0 <= j < speakers@.len() ==> speakers@[j] < bound,
            forall|x: int|
                0 <= x < bound ==> (#[trigger] lookup@[x] matches Some(l) ==> numbering(
                    heard@.map_values(|x: usize| x as nat),
                ).0.dom().contains(x as nat) && numbering(heard@.map_values(|x: usize| x as nat)).0[x as nat] == l)
                    && (lookup@[x] is None ==> !numbering(heard@.map_values(|x: usize| x as nat)).0.dom().contains(
                    x as nat,
                )),
            forall|j: int| 0 <= j < i ==> #[trigger] indices@[j] == renumbered(heard@, speakers@[j]),
        decreases speakers.len() - i,
    {
        let index = match lookup[speakers[i]] {
            Some(l) => l,
            None => 0,
        };
        indices.push(index);
        i = i + 1;
    }
    (numbers, indices)
}

// ---------------------------------------------------------------------------------------
// Votes.

/// The first global frame of window `window`.
pub open spec fn offset_of(window: nat, step: nat) -> nat {
    (window * step) / (FRAME_SIZE as nat)
}

/// Whether window `w` (of `len` frames) covers global frame `f`.
pub open spec fn covers(w: nat, step: nat, len: nat, f: int) -> bool {
    offset_of(w, step) <= f < offset_of(w, step) + len
}

/// How many of the first `upto` windows cover frame `f`.
pub open spec fn coverage(acts: Seq<WindowActivity>, step: nat, f: int, upto: nat) -> nat
    decreases upto,
{
    if upto == 0 {
        0
    } else {
        let w = (upto - 1) as nat;
        coverage(acts, step, f, w) + if covers(w, step, acts[w as int].frames@.len(), f) {
            1nat
        } else {
            0nat
        }
    }
}

/// Whether embedding `k` (local speaker `items[k].1` of window `items[k].0`) is active
/// at global frame `f`.
pub open spec fn item_active(acts: Seq<WindowActivity>, items: Seq<(usize, usize)>, step: nat, k: int, f: int) -> bool {
    let w = items[k].0 as nat;
    &&& covers(w, step, acts[w as int].frames@.len(), f)
    &&& acts[w as int].frames@[f - offset_of(w, step)]@[items[k].1 as int]
}

/// How many of the first `upto` embeddings labelled `speaker` are active at frame `f`.
pub open spec fn votes(
    acts: Seq<WindowActivity>,
    items: Seq<(usize, usize)>,
    labels: Seq<usize>,
    step: nat,
    speaker: nat,
    f: int,
    upto: nat,
) -> nat
    decreases upto,
{
    if upto == 0 {
        0
    } else {
        let k = upto - 1;
        votes(acts, items, labels, step, speaker, f, (upto - 1) as nat) + if labels[k] == speaker && item_active(
            acts,
            items,
            step,
            k,
            f,
        ) {
            1nat
        } else {
            0nat
        }
    }
}

/// A speaker talks in a frame when at least half the windows that see the frame say so.
pub open spec fn majority_of(
    acts: Seq<WindowActivity>,
    items: Seq<(usize, usize)>,
    labels: Seq<usize>,
    step: nat,
    speaker: nat,
    f: int,
) -> bool {
    let seen = coverage(acts, step, f, acts.len());
    seen > 0 && 2 * votes(acts, items, labels, step, speaker, f, items.len()) >= seen
}

/// The windows are all valid and their offsets fit.
pub open spec fn windows_fit(acts: Seq<WindowActivity>, step: nat) -> bool {
    &&& acts.len() * step <= usize::MAX
    &&& forall|w: int| 0 <= w < acts.len() ==> (#[trigger] acts[w]).frames@.len() <= usize::MAX
}

proof fn lemma_offset_bound(w: nat, n: nat, step: nat)
    requires
        w <= n,
        n * step <= usize::MAX,
    ensures
        w * step <= usize::MAX,
        offset_of(w, step) <= w * step,
{
    assert(w * step <= n * step) by (nonlinear_arith)
        requires
            w <= n,
    ;
}

proof fn lemma_coverage_bound(acts: Seq<WindowActivity>, step: nat, f: int, upto: nat)
    ensures
        coverage(acts, step, f, upto) <= upto,
    decreases upto,
{
    if upto > 0 {
        lemma_coverage_bound(acts, step, f, (upto - 1) as nat);
    }
}

proof fn lemma_votes_bound(
    acts: Seq<WindowActivity>,
    items: Seq<(usize, usize)>,
    labels: Seq<usize>,
    step: nat,
    speaker: nat,
    f: int,
    upto: nat,
)
    ensures
        votes(acts, items, labels, step, speaker, f, upto) <= upto,
    decreases upto,
{
    if upto > 0 {
        lemma_votes_bound(acts, items, labels, step, speaker, f, (upto - 1) as nat);
    }
}

fn coverage_counts(acts: &[WindowActivity], step: usize, frame_count: usize) -> (r: Vec<usize>)
    requires
        acts@.len() * step <= usize::MAX,
    ensures
        r@.len() == frame_count,
        forall|f: int| 0 <= f < frame_count ==> #[trigger] r@[f] == coverage(acts@, step as nat, f, acts@.len()),
{
    let mut counts: Vec<usize> = Vec::new();
    let mut f: usize = 0;
    while f < frame_count
        invariant
            f <= frame_count,
            counts@.len() == f,
            forall|g: int| 0 <= g < f ==> counts@[g] == 0,
        decreases frame_count - f,
    {
        counts.push(0);
        f = f + 1;
    }
    let windows = acts.len();
    let mut w: usize = 0;
    while w < acts.len()
        invariant
            w <= acts.len(),
            windows == acts@.len(),
            acts@.len() * step <= usize::MAX,
            counts@.len() == frame_count,
            forall|g: int| 0 <= g < frame_count ==> #[trigger] counts@[g] == coverage(acts@, step as nat, g, w as nat),
            forall|g: int| 0 <= g < frame_count ==> counts@[g] <= w,
        decreases acts.len() - w,
    {
        proof {
            lemma_offset_bound(w as nat, acts@.len(), step as nat);
            assert forall|g: int| 0 <= g < frame_count implies coverage(acts@, step as nat, g, w as nat) <= w by {
                lemma_coverage_bound(acts@, step as nat, g, w as nat);
            }
        }
        let offset = w * step / FRAME_SIZE;
        let len = acts[w].frames.len();
        let mut i: usize = 0;
        while i < len
            invariant
                i <= len,
                len == acts@[w as int].frames@.len(),
                offset == offset_of(w as nat, step as nat),
                w < acts@.len(),
                windows == acts@.len(),
                counts@.len() == frame_count,
                forall|g: int|
                    0 <= g < frame_count ==> #[trigger] counts@[g] == coverage(acts@, step as nat, g, w as nat) + if offset
                        <= g < offset + i {
                        1nat
                    } else {
                        0nat
                    },
                forall|g: int| 0 <= g < frame_count ==> counts@[g] <= w + 1,
                forall|g: int| 0 <= g < frame_count ==> coverage(acts@, step as nat, g, w as nat) <= w,
            decreases len - i,
        {
            if offset < frame_count && i < frame_count - offset {
                let at = offset + i;
                let c = counts[at];
                assert(c == coverage(acts@, step as nat, at as int, w as nat));
                assert(coverage(acts@, step as nat, at as int, w as nat) <= w);
                assert(w < acts@.len());
                counts.set(at, c + 1);
            }
            i = i + 1;
        }
        w = w + 1;
    }
    counts
}

fn vote_counts(
    acts: &[WindowActivity],
    items: &[(usize, usize)],
    labels: &[usize],
    step: usize,
    frame_count: usize,
    speaker: usize,
) -> (r: Vec<usize>)
    requires
        acts@.len() * step <= usize::MAX,
        labels@.len() == items@.len(),
        forall|k: int| 0 <= k < items@.len() ==> (#[trigger] items@[k]).0 < acts@.len() && items@[k].1 < 3,
    ensures
        r@.len() == frame_count,
        forall|f: int|
            0 <= f < frame_count ==> #[trigger] r@[f] == votes(
                acts@,
                items@,
                labels@,
                step as nat,
                speaker as nat,
                f,
                items@.len(),
            ),
{
    let mut counts: Vec<usize> = Vec::new();
    let mut f: usize = 0;
    while f < frame_count
        invariant
            f <= frame_count,
            counts@.len() == f,
            forall|g: int| 0 <= g < f ==> counts@[g] == 0,
        decreases frame_count - f,
    {
        counts.push(0);
        f = f + 1;
    }
    let item_count = items.len();
    let mut k: usize = 0;
    while k < items.len()
        invariant
            k <= items.len(),
            item_count == items@.len(),
            acts@.len() * step <= usize::MAX,
            labels@.len() == items@.len(),
            forall|q: int| 0 <= q < items@.len() ==> (#[trigger] items@[q]).0 < acts@.len() && items@[q].1 < 3,
            counts@.len() == frame_count,
            forall|g: int|
                0 <= g < frame_count ==> #[trigger] counts@[g] == votes(
                    acts@,
                    items@,
                    labels@,
                    step as nat,
                    speaker as nat,
                    g,
                    k as nat,
                ),
            forall|g: int| 0 <= g < frame_count ==> counts@[g] <= k,
        decreases items.len() - k,
    {
        let (w, local) = items[k];
        assert(items@[k as int] == (w, local));
        if labels[k] == speaker {
            proof {
                lemma_offset_bound(w as nat, acts@.len(), step as nat);
                assert forall|g: int| 0 <= g < frame_count implies votes(
                    acts@,
                    items@,
                    labels@,
                    step as nat,
                    speaker as nat,
                    g,
                    k as nat,
                ) <= k by {
                    lemma_votes_bound(acts@, items@, labels@, step as nat, speaker as nat, g, k as nat);
                }
            }
            let offset = w * step / FRAME_SIZE;
            let frames = &acts[w].frames;
            let len = frames.len();
            let mut i: usize = 0;
            while i < len
                invariant
                    i <= len,
                    len == frames@.len(),
                    w < acts@.len(),
                    frames@ == acts@[w as int].frames@,
                    offset == offset_of(w as nat, step as nat),
                    w == items@[k as int].0,
                    local == items@[k as int].1,
                    local < 3,
                    k < items@.len(),
                    item_count == items@.len(),
                    labels@.len() == items@.len(),
                    labels@[k as int] == speaker,
                    counts@.len() == frame_count,
                    forall|g: int|
                        0 <= g < frame_count ==> #[trigger] counts@[g] == votes(
                            acts@,
                            items@,
                            labels@,
                            step as nat,
                            speaker as nat,
                            g,
                            k as nat,
                        ) + if offset <= g < offset + i && frames@[g - offset]@[local as int] {
                            1nat
                        } else {
                            0nat
                        },
                    forall|g: int| 0 <= g < frame_count ==> counts@[g] <= k + 1,
                    forall|g: int|
                        0 <= g < frame_count ==> votes(acts@, items@, labels@, step as nat, speaker as nat, g, k as nat)
                            <= k,
                decreases len - i,
            {
                if frames[i][local] && offset < frame_count && i < frame_count - offset {
                    let at = offset + i;
                    let c = counts[at];
                    assert(c == votes(acts@, items@, labels@, step as nat, speaker as nat, at as int, k as nat));
                    assert(votes(acts@, items@, labels@, step as nat, speaker as nat, at as int, k as nat) <= k);
                    assert(k < items@.len());
                    counts.set(at, c + 1);
                }
                i = i + 1;
            }
        }
        k = k + 1;
    }
    counts
}

/// Who talks in each of the first `frame_count` global frames, speaker by speaker: the
/// majority of the windows that see a frame. `items[k]` is the window and local speaker
/// embedding `k` came from; `labels[k]` the speaker it was clustered as.
pub fn majority_frames(
    acts: &[WindowActivity],
    items: &[(usize, usize)],
    labels: &[usize],
    step: usize,
    frame_count: usize,
    speaker_count: usize,
) -> (r: Vec<Vec<bool>>)
    requires
        acts@.len() * step <= usize::MAX,
        labels@.len() == items@.len(),
        forall|k: int| 0 <= k < items@.len() ==> (#[trigger] items@[k]).0 < acts@.len() && items@[k].1 < 3,
    ensures
        r@.len() == speaker_count,
        forall|s: int| 0 <= s < speaker_count ==> (#[trigger] r@[s])@.len() == frame_count,
        forall|s: int, f: int|
            0 <= s < speaker_count && 0 <= f < frame_count ==> #[trigger] r@[s]@[f] == majority_of(
                acts@,
                items@,
                labels@,
                step as nat,
                s as nat,
                f,
            ),
{
    let seen = coverage_counts(acts, step, frame_count);
    let mut rows: Vec<Vec<bool>> = Vec::new();
    let mut s: usize = 0;
    while s < speaker_count
        invariant
            s <= speaker_count,
            rows@.len() == s,
            seen@.len() == frame_count,
            acts@.len() * step <= usize::MAX,
            labels@.len() == items@.len(),
            forall|k: int| 0 <= k < items@.len() ==> (#[trigger] items@[k]).0 < acts@.len() && items@[k].1 < 3,
            forall|f: int| 0 <= f < frame_count ==> #[trigger] seen@[f] == coverage(acts@, step as nat, f, acts@.len()),
            forall|q: int| 0 <= q < s ==> (#[trigger] rows@[q])@.len() == frame_count,
            forall|q: int, f: int|
                0 <= q < s && 0 <= f < frame_count ==> #[trigger] rows@[q]@[f] == majority_of(
                    acts@,
                    items@,
                    labels@,
                    step as nat,
                    q as nat,
                    f,
                ),
        decreases speaker_count - s,
    {
        let track = vote_counts(acts, items, labels, step, frame_count, s);
        let mut row: Vec<bool> = Vec::new();
        let mut f: usize = 0;
        while f < frame_count
            invariant
                f <= frame_count,
                row@.len() == f,
                seen@.len() == frame_count,
                track@.len() == frame_count,
                forall|g: int| 0 <= g < frame_count ==> #[trigger] seen@[g] == coverage(acts@, step as nat, g, acts@.len()),
                forall|g: int|
                    0 <= g < frame_count ==> #[trigger] track@[g] == votes(
                        acts@,
                        items@,
                        labels@,
                        step as nat,
                        s as nat,
                        g,
                        items@.len(),
                    ),
                forall|g: int| 0 <= g < f ==> row@[g] == majority_of(acts@, items@, labels@, step as nat, s as nat, g),
            decreases frame_count - f,
        {
            let c = seen[f];
            let v = track[f];
            let on = c > 0 && (v >= c || v >= c - v);
            row.push(on);
            f = f + 1;
        }
        rows.push(row);
        s = s + 1;
    }
    rows
}

} // verus!
