//! Who spoke when: the frame grid of the segmentation model, what one window of it says,
//! the bounds on how many speakers there are, and counting clusters.

use vstd::prelude::*;

verus! {

pub const SAMPLE_RATE: u32 = 16_000;
/// The model is trained on 10 s windows and only accepts that length.
pub const WINDOW_SAMPLES: usize = 160_000;
/// Each output frame summarises this many input samples.
pub const FRAME_SIZE: usize = 270;
/// Receptive-field offset of the first output frame.
pub const FRAME_START: usize = 721;
/// The model separates at most this many concurrent speakers inside a window.
pub const LOCAL_SPEAKERS: usize = 3;

/// The first sample `frame` summarises.
pub fn frame_start_sample(frame: usize) -> (r: usize)
    requires
        FRAME_START + frame * FRAME_SIZE <= usize::MAX,
    ensures
        r == FRAME_START + frame * FRAME_SIZE,
{
    FRAME_START + frame * FRAME_SIZE
}

/// Number of output frames fully covered by `samples` valid input samples.
pub fn frames_for_samples(samples: usize) -> (r: usize)
    ensures
        r == (if samples >= FRAME_START {
            (samples - FRAME_START) as int
        } else {
            0
        }) / (FRAME_SIZE as int),
{
    samples.saturating_sub(FRAME_START) / FRAME_SIZE
}

/// Per-frame activity of the local speakers inside one 10 s window.
#[derive(Debug, Clone, PartialEq, Eq)]
pub struct WindowActivity {
    pub frames: Vec<[bool; 3]>,
}

/// How many of the local speakers are active in a frame.
pub open spec fn active_count(frame: [bool; 3]) -> int {
    (if frame@[0] {
        1int
    } else {
        0int
    }) + (if frame@[1] {
        1int
    } else {
        0int
    }) + (if frame@[2] {
        1int
    } else {
        0int
    })
}

/// How many frames have `speaker` active.
pub open spec fn frames_with(frames: Seq<[bool; 3]>, speaker: int) -> nat
    decreases frames.len(),
{
    if frames.len() == 0 {
        0
    } else {
        frames_with(frames.drop_last(), speaker) + if frames.last()@[speaker] {
            1nat
        } else {
            0nat
        }
    }
}

/// How many frames have `speaker` active and nobody else.
pub open spec fn frames_alone(frames: Seq<[bool; 3]>, speaker: int) -> nat
    decreases frames.len(),
{
    if frames.len() == 0 {
        0
    } else {
        frames_alone(frames.drop_last(), speaker) + if frames.last()@[speaker] && active_count(
            frames.last(),
        ) == 1 {
            1nat
        } else {
            0nat
        }
    }
}

/// How many frames have anyone active.
pub open spec fn frames_with_speech(frames: Seq<[bool; 3]>) -> nat
    decreases frames.len(),
{
    if frames.len() == 0 {
        0
    } else {
        frames_with_speech(frames.drop_last()) + if active_count(frames.last()) > 0 {
            1nat
        } else {
            0nat
        }
    }
}

fn count_in(frame: [bool; 3]) -> (r: usize)
    ensures
        r == active_count(frame),
{
    let mut n: usize = 0;
    if frame[0] {
        n = n + 1;
    }
    if frame[1] {
        n = n + 1;
    }
    if frame[2] {
        n = n + 1;
    }
    n
}

impl WindowActivity {
    /// Frames where `speaker` talks.
    pub fn active_frames(&self, speaker: usize) -> (r: usize)
        requires
            speaker < LOCAL_SPEAKERS,
        ensures
            r == frames_with(self.frames@, speaker as int),
    {
        let mut n: usize = 0;
        let mut i: usize = 0;
        while i < self.frames.len()
            invariant
                i <= self.frames.len(),
                speaker < 3,
                n <= i,
                n == frames_with(self.frames@.take(i as int), speaker as int),
            decreases self.frames.len() - i,
        {
            assert(self.frames@.take(i + 1).drop_last() == self.frames@.take(i as int));
            if self.frames[i][speaker] {
                n = n + 1;
            }
            i = i + 1;
        }
        assert(self.frames@.take(self.frames.len() as int) == self.frames@);
        n
    }

    /// Frames where `speaker` talks alone; overlapped frames contaminate speaker
    /// embeddings.
    pub fn clean_frames(&self, speaker: usize) -> (r: usize)
        requires
            speaker < LOCAL_SPEAKERS,
        ensures
            r == frames_alone(self.frames@, speaker as int),
    {
        let mut n: usize = 0;
        let mut i: usize = 0;
        while i < self.frames.len()
            invariant
                i <= self.frames.len(),
                speaker < 3,
                n <= i,
                n == frames_alone(self.frames@.take(i as int), speaker as int),
            decreases self.frames.len() - i,
        {
            assert(self.frames@.take(i + 1).drop_last() == self.frames@.take(i as int));
            let frame = self.frames[i];
            if frame[speaker] && count_in(frame) == 1 {
                n = n + 1;
            }
            i = i + 1;
        }
        assert(self.frames@.take(self.frames.len() as int) == self.frames@);
        n
    }

    /// Frames where anyone talks.
    pub fn speech_frames(&self) -> (r: usize)
        ensures
            r == frames_with_speech(self.frames@),
    {
        let mut n: usize = 0;
        let mut i: usize = 0;
        while i < self.frames.len()
            invariant
                i <= self.frames.len(),
                n <= i,
                n == frames_with_speech(self.frames@.take(i as int)),
            decreases self.frames.len() - i,
        {
            assert(self.frames@.take(i + 1).drop_last() == self.frames@.take(i as int));
            if count_in(self.frames[i]) > 0 {
                n = n + 1;
            }
            i = i + 1;
        }
        assert(self.frames@.take(self.frames.len() as int) == self.frames@);
        n
    }
}

// ---------------------------------------------------------------------------------------
// How many speakers.

#[derive(Debug, Clone, Copy, PartialEq, Eq, Default)]
pub struct SpeakerBounds {
    pub num_speakers: Option<usize>,
    pub min_speakers: Option<usize>,
    pub max_speakers: Option<usize>,
}

/// The smallest and largest number of clusters the bounds allow: an exact count wins,
/// and neither is ever below one.
pub open spec fn bounds_range(b: SpeakerBounds) -> (usize, usize) {
    match b.num_speakers {
        Some(count) => {
            let c = if count >= 1 {
                count
            } else {
                1
            };
            (c, c)
        },
        None => {
            let min = match b.min_speakers {
                Some(m) => if m >= 1 {
                    m
                } else {
                    1
                },
                None => 1,
            };
            let max = match b.max_speakers {
                Some(m) => if m >= min {
                    m
                } else {
                    min
                },
                None => usize::MAX,
            };
            (min, max)
        },
    }
}

impl SpeakerBounds {
    pub fn exact(num_speakers: usize) -> (r: Self)
        ensures
            r == (SpeakerBounds { num_speakers: Some(num_speakers), min_speakers: None, max_speakers: None }),
    {
        SpeakerBounds { num_speakers: Some(num_speakers), min_speakers: None, max_speakers: None }
    }

    pub fn range(&self) -> (r: (usize, usize))
        ensures
            r == bounds_range(*self),
            1 <= r.0 <= r.1,
    {
        match self.num_speakers {
            Some(count) => {
                let c = if count >= 1 {
                    count
                } else {
                    1
                };
                (c, c)
            },
            None => {
                let min = match self.min_speakers {
                    Some(m) => if m >= 1 {
                        m
                    } else {
                        1
                    },
                    None => 1,
                };
                let max = match self.max_speakers {
                    Some(m) => if m >= min {
                        m
                    } else {
                        min
                    },
                    None => usize::MAX,
                };
                (min, max)
            },
        }
    }
}

// ---------------------------------------------------------------------------------------
// Counting clusters.

/// One more than the largest label; zero for no labels.
pub open spec fn label_count(labels: Seq<usize>) -> nat
    decreases labels.len(),
{
    if labels.len() == 0 {
        0
    } else {
        let before = label_count(labels.drop_last());
        if labels.last() + 1 > before {
            (labels.last() + 1) as nat
        } else {
            before
        }
    }
}

/// How often `label` occurs.
pub open spec fn occurrences(labels: Seq<usize>, label: int) -> nat
    decreases labels.len(),
{
    if labels.len() == 0 {
        0
    } else {
        occurrences(labels.drop_last(), label) + if labels.last() == label {
            1nat
        } else {
            0nat
        }
    }
}

proof fn lemma_label_count(labels: Seq<usize>)
    ensures
        forall|i: int| 0 <= i < labels.len() ==> labels[i] < label_count(labels),
        labels.len() > 0 ==> exists|i: int| 0 <= i < labels.len() && labels[i] + 1 == label_count(labels),
        labels.len() == 0 ==> label_count(labels) == 0,
    decreases labels.len(),
{
    if labels.len() > 0 {
        lemma_label_count(labels.drop_last());
        let before = labels.drop_last();
        assert forall|i: int| 0 <= i < labels.len() implies labels[i] < label_count(labels) by {
            if i < labels.len() - 1 {
                assert(labels[i] == before[i]);
            }
        }
        if labels.last() + 1 > label_count(before) {
            assert(labels[labels.len() - 1] + 1 == label_count(labels));
        } else {
            let i = choose|i: int| 0 <= i < before.len() && before[i] + 1 == label_count(before);
            assert(labels[i] == before[i]);
        }
    }
}

proof fn lemma_occurrences_bound(labels: Seq<usize>, label: int)
    ensures
        occurrences(labels, label) <= labels.len(),
    decreases labels.len(),
{
    if labels.len() > 0 {
        lemma_occurrences_bound(labels.drop_last(), label);
    }
}

/// The size of each cluster, by label.
pub open spec fn sizes_of(labels: Seq<usize>) -> Seq<usize> {
    Seq::new(label_count(labels), |k: int| occurrences(labels, k) as usize)
}

/// How many items each cluster has, by label.
pub fn cluster_sizes(labels: &[usize]) -> (r: Vec<usize>)
    requires
        forall|i: int| 0 <= i < labels@.len() ==> labels@[i] < usize::MAX,
    ensures
        r@ == sizes_of(labels@),
{
    let mut count: usize = 0;
    let mut i: usize = 0;
    while i < labels.len()
        invariant
            i <= labels.len(),
            count == label_count(labels@.take(i as int)),
            forall|j: int| 0 <= j < labels@.len() ==> labels@[j] < usize::MAX,
        decreases labels.len() - i,
    {
        assert(labels@.take(i + 1).drop_last() == labels@.take(i as int));
        if labels[i] + 1 > count {
            count = labels[i] + 1;
        }
        i = i + 1;
    }
    assert(labels@.take(labels.len() as int) == labels@);
    proof {
        lemma_label_count(labels@);
    }
    let mut sizes: Vec<usize> = vec![0usize; count];
    let mut j: usize = 0;
    while j < labels.len()
        invariant
            j <= labels.len(),
            sizes@.len() == count,
            count == label_count(labels@),
            forall|i: int| 0 <= i < labels@.len() ==> labels@[i] < label_count(labels@),
            forall|k: int| 0 <= k < count ==> sizes@[k] == occurrences(labels@.take(j as int), k),
        decreases labels.len() - j,
    {
        assert(labels@.take(j + 1).drop_last() == labels@.take(j as int));
        let l = labels[j];
        proof {
            lemma_occurrences_bound(labels@.take(j as int), l as int);
        }
        let next = sizes[l] + 1;
        sizes.set(l, next);
        j = j + 1;
    }
    assert(labels@.take(labels.len() as int) == labels@);
    assert forall|k: int| 0 <= k < count implies sizes@[k] == occurrences(labels@, k) as usize by {
        lemma_occurrences_bound(labels@, k);
    }
    assert(sizes@ == sizes_of(labels@));
    sizes
}

/// How many sizes are at least `min_size`.
pub open spec fn sizes_at_least(sizes: Seq<usize>, min_size: usize) -> nat
    decreases sizes.len(),
{
    if sizes.len() == 0 {
        0
    } else {
        sizes_at_least(sizes.drop_last(), min_size) + if sizes.last() >= min_size {
            1nat
        } else {
            0nat
        }
    }
}

/// How many clusters have at least `min_cluster_size` items.
pub fn large_cluster_count(labels: &[usize], min_cluster_size: usize) -> (r: usize)
    requires
        forall|i: int| 0 <= i < labels@.len() ==> labels@[i] < usize::MAX,
    ensures
        r == sizes_at_least(sizes_of(labels@), min_cluster_size),
{
    let sizes = cluster_sizes(labels);
    let mut n: usize = 0;
    let mut i: usize = 0;
    while i < sizes.len()
        invariant
            i <= sizes.len(),
            n <= i,
            n == sizes_at_least(sizes@.take(i as int), min_cluster_size),
        decreases sizes.len() - i,
    {
        assert(sizes@.take(i + 1).drop_last() == sizes@.take(i as int));
        if sizes[i] >= min_cluster_size {
            n = n + 1;
        }
        i = i + 1;
    }
    assert(sizes@.take(sizes.len() as int) == sizes@);
    n
}

// ---------------------------------------------------------------------------------------
// Cutting the dendrogram.

/// Which group each of `n` items is in after `merges` (pairs of items) are applied in
/// order, each group named by one of its items: a merge of two items in different groups
/// moves the second one's group over to the first one's name.
pub open spec fn groups_after(merges: Seq<(usize, usize)>, n: nat) -> Seq<nat>
    decreases merges.len(),
{
    if merges.len() == 0 {
        Seq::new(n, |i: int| i as nat)
    } else {
        let before = groups_after(merges.drop_last(), n);
        let a = before[merges.last().0 as int];
        let b = before[merges.last().1 as int];
        if a == b {
            before
        } else {
            before.map_values(|x: nat| if x == b { a } else { x })
        }
    }
}

/// The merges name items that exist.
pub open spec fn merges_within(merges: Seq<(usize, usize)>, n: nat) -> bool {
    forall|k: int| 0 <= k < merges.len() ==> (#[trigger] merges[k]).0 < n && merges[k].1 < n
}

proof fn lemma_groups_within(merges: Seq<(usize, usize)>, n: nat)
    requires
        merges_within(merges, n),
    ensures
        groups_after(merges, n).len() == n,
        forall|i: int| 0 <= i < n ==> groups_after(merges, n)[i] < n,
    decreases merges.len(),
{
    if merges.len() > 0 {
        let rest = merges.drop_last();
        assert(merges_within(rest, n)) by {
            assert forall|k: int| 0 <= k < rest.len() implies (#[trigger] rest[k]).0 < n && rest[k].1 < n by {
                assert(rest[k] == merges[k]);
            }
        }
        lemma_groups_within(rest, n);
        assert(merges[merges.len() - 1] == merges.last());
    }
}

/// `l` is one of the labels.
pub open spec fn appears(labels: Seq<usize>, l: nat) -> bool {
    exists|i: int| 0 <= i < labels.len() && labels[i] == l
}

/// Groups numbered by first appearance: the lookup from a group to its number, how many
/// numbers were handed out, and the number of each item.
pub open spec fn numbering(groups: Seq<nat>) -> (Map<nat, nat>, nat, Seq<usize>)
    decreases groups.len(),
{
    if groups.len() == 0 {
        (Map::empty(), 0, Seq::empty())
    } else {
        let (lookup, next, labels) = numbering(groups.drop_last());
        let g = groups.last();
        if lookup.dom().contains(g) {
            (lookup, next, labels.push(lookup[g] as usize))
        } else {
            (lookup.insert(g, next), next + 1, labels.push(next as usize))
        }
    }
}

/// The labels of `cut`: each item's group, numbered by first appearance.
pub open spec fn cut_labels(item_count: nat, merges: Seq<(usize, usize)>, merge_count: nat) -> Seq<usize> {
    let applied = if merge_count < merges.len() {
        merges.take(merge_count as int)
    } else {
        merges
    };
    numbering(groups_after(applied, item_count)).2
}

/// `g` is the group of some item.
pub open spec fn occurs(groups: Seq<nat>, g: nat) -> bool {
    exists|i: int| 0 <= i < groups.len() && groups[i] == g
}

/// What a numbering of `groups` is: one label per item, the label of its group; a label
/// for each group that occurs and no other; different groups, different labels; the
/// labels `0..next` all handed out, each but 0 after the one below it.
pub open spec fn numbering_ok(groups: Seq<nat>, lookup: Map<nat, nat>, next: nat, labels: Seq<usize>) -> bool {
    &&& labels.len() == groups.len()
    &&& next <= groups.len()
    &&& forall|i: int|
        0 <= i < groups.len() ==> lookup.dom().contains(#[trigger] groups[i]) && labels[i] == lookup[groups[i]]
    &&& forall|g: nat| #[trigger] lookup.dom().contains(g) ==> lookup[g] < next && occurs(groups, g)
    &&& forall|g: nat, h: nat|
        lookup.dom().contains(g) && lookup.dom().contains(h) && #[trigger] lookup[g] == #[trigger] lookup[h] ==> g == h
    &&& forall|l: nat| l < next ==> #[trigger] appears(labels, l)
    &&& forall|i: int|
        0 <= i < groups.len() ==> #[trigger] labels[i] == 0 || exists|j: int| 0 <= j < i && labels[j] == labels[i] - 1
}

proof fn lemma_numbering_known(groups: Seq<nat>, lookup: Map<nat, nat>, next: nat, labels: Seq<usize>, g: nat)
    requires
        numbering_ok(groups, lookup, next, labels),
        lookup.dom().contains(g),
        lookup[g] <= usize::MAX,
    ensures
        numbering_ok(groups.push(g), lookup, next, labels.push(lookup[g] as usize)),
{
    let groups2 = groups.push(g);
    let labels2 = labels.push(lookup[g] as usize);
    let last = groups.len() as int;
    assert forall|i: int| 0 <= i < groups2.len() implies lookup.dom().contains(#[trigger] groups2[i]) && labels2[i]
        == lookup[groups2[i]] by {
        if i < last {
            assert(groups2[i] == groups[i]);
            assert(labels2[i] == labels[i]);
        }
    }
    assert forall|g2: nat| #[trigger] lookup.dom().contains(g2) implies lookup[g2] < next && occurs(groups2, g2) by {
        assert(occurs(groups, g2));
        let i = choose|i: int| 0 <= i < groups.len() && groups[i] == g2;
        assert(groups2[i] == groups[i]);
    }
    assert forall|l: nat| l < next implies #[trigger] appears(labels2, l) by {
        assert(appears(labels, l));
        let i = choose|i: int| 0 <= i < labels.len() && labels[i] == l;
        assert(labels2[i] == labels[i]);
    }
    assert(occurs(groups, g));
    let k = choose|k: int| 0 <= k < groups.len() && groups[k] == g;
    assert(labels[k] == lookup[g]);
    assert forall|i: int| 0 <= i < groups2.len() implies #[trigger] labels2[i] == 0 || exists|j: int|
        0 <= j < i && labels2[j] == labels2[i] - 1 by {
        if i < last {
            assert(labels2[i] == labels[i]);
            if labels[i] != 0 {
                let j = choose|j: int| 0 <= j < i && labels[j] == labels[i] - 1;
                assert(labels2[j] == labels[j]);
            }
        } else {
            assert(labels2[i] == labels[k]);
            if labels[k] != 0 {
                let j = choose|j: int| 0 <= j < k && labels[j] == labels[k] - 1;
                assert(labels2[j] == labels[j]);
            }
        }
    }
}

proof fn lemma_numbering_new(groups: Seq<nat>, lookup: Map<nat, nat>, next: nat, labels: Seq<usize>, g: nat)
    requires
        numbering_ok(groups, lookup, next, labels),
        !lookup.dom().contains(g),
        next <= usize::MAX,
    ensures
        numbering_ok(groups.push(g), lookup.insert(g, next), next + 1, labels.push(next as usize)),
{
    let groups2 = groups.push(g);
    let labels2 = labels.push(next as usize);
    let lookup2 = lookup.insert(g, next);
    let last = groups.len() as int;
    assert forall|i: int| 0 <= i < groups2.len() implies lookup2.dom().contains(#[trigger] groups2[i]) && labels2[i]
        == lookup2[groups2[i]] by {
        if i < last {
            assert(groups2[i] == groups[i]);
            assert(labels2[i] == labels[i]);
            assert(groups[i] != g);
        }
    }
    assert forall|g2: nat| #[trigger] lookup2.dom().contains(g2) implies lookup2[g2] < next + 1 && occurs(groups2, g2) by {
        if g2 == g {
            assert(groups2[last] == g);
        } else {
            assert(occurs(groups, g2));
            let i = choose|i: int| 0 <= i < groups.len() && groups[i] == g2;
            assert(groups2[i] == groups[i]);
        }
    }
    assert forall|a: nat, b: nat|
        lookup2.dom().contains(a) && lookup2.dom().contains(b) && #[trigger] lookup2[a] == #[trigger] lookup2[b] implies a
        == b by {
        if a != g && b != g {
            assert(lookup[a] == lookup[b]);
        } else if a == g && b != g {
            assert(lookup[b] < next);
        } else if a != g && b == g {
            assert(lookup[a] < next);
        }
    }
    assert forall|l: nat| l < next + 1 implies #[trigger] appears(labels2, l) by {
        if l < next {
            assert(appears(labels, l));
            let i = choose|i: int| 0 <= i < labels.len() && labels[i] == l;
            assert(labels2[i] == labels[i]);
        } else {
            assert(labels2[last] == l);
        }
    }
    assert forall|i: int| 0 <= i < groups2.len() implies #[trigger] labels2[i] == 0 || exists|j: int|
        0 <= j < i && labels2[j] == labels2[i] - 1 by {
        if i < last {
            assert(labels2[i] == labels[i]);
            if labels[i] != 0 {
                let j = choose|j: int| 0 <= j < i && labels[j] == labels[i] - 1;
                assert(labels2[j] == labels[j]);
            }
        } else if next > 0 {
            assert(appears(labels, (next - 1) as nat));
            let j = choose|j: int| 0 <= j < labels.len() && labels[j] == (next - 1) as nat;
            assert(labels2[j] == labels[j]);
        }
    }
}

proof fn lemma_numbering(groups: Seq<nat>)
    requires
        groups.len() <= usize::MAX,
    ensures
        ({
            let (lookup, next, labels) = numbering(groups);
            numbering_ok(groups, lookup, next, labels)
        }),
    decreases groups.len(),
{
    if groups.len() > 0 {
        let rest = groups.drop_last();
        lemma_numbering(rest);
        let (lookup, next, labels) = numbering(rest);
        assert(rest.push(groups.last()) == groups);
        assert(next <= rest.len());
        if lookup.dom().contains(groups.last()) {
            assert(lookup[groups.last()] < next);
            lemma_numbering_known(rest, lookup, next, labels, groups.last());
        } else {
            lemma_numbering_new(rest, lookup, next, labels, groups.last());
        }
    }
}

/// Labels after applying the first `merge_count` merges (pairs of items, in the order the
/// dendrogram made them), numbered `0..k` in order of first appearance.
pub fn cut(item_count: usize, merges: &[(usize, usize)], merge_count: usize) -> (r: Vec<usize>)
    requires
        merges_within(merges@, item_count as nat),
    ensures
        r@ == cut_labels(item_count as nat, merges@, merge_count as nat),
{
    let count = if merge_count < merges.len() {
        merge_count
    } else {
        merges.len()
    };
    let ghost applied = if merge_count < merges.len() {
        merges@.take(merge_count as int)
    } else {
        merges@
    };
    assert(applied == merges@.take(count as int));
    let ghost n = item_count as nat;
    let mut group: Vec<usize> = Vec::new();
    let mut i: usize = 0;
    while i < item_count
        invariant
            i <= item_count,
            group@.len() == i,
            forall|j: int| 0 <= j < i ==> group@[j] == j,
        decreases item_count - i,
    {
        group.push(i);
        i = i + 1;
    }
    assert(group@.map_values(|x: usize| x as nat) =~= groups_after(Seq::empty(), n));
    let mut k: usize = 0;
    while k < count
        invariant
            k <= count <= merges@.len(),
            merges_within(merges@, n),
            n == item_count,
            group@.len() == item_count,
            group@.map_values(|x: usize| x as nat) == groups_after(merges@.take(k as int), n),
        decreases count - k,
    {
        let ghost done = merges@.take(k as int);
        let ghost before = groups_after(done, n);
        proof {
            assert(merges_within(done, n)) by {
                assert forall|q: int| 0 <= q < done.len() implies (#[trigger] done[q]).0 < n && done[q].1 < n by {
                    assert(done[q] == merges@[q]);
                }
            }
            lemma_groups_within(done, n);
            assert(merges@.take(k + 1).drop_last() == done);
            assert(merges@.take(k + 1).last() == merges@[k as int]);
            assert(merges@[k as int].0 < n && merges@[k as int].1 < n);
        }
        let (left, right) = merges[k];
        let a = group[left];
        let b = group[right];
        assert(a == before[left as int] && b == before[right as int]);
        if a != b {
            let mut j: usize = 0;
            while j < item_count
                invariant
                    j <= item_count,
                    group@.len() == item_count,
                    n == item_count,
                    before.len() == n,
                    forall|q: int| 0 <= q < j ==> group@[q] == (if before[q] == b { a as nat } else { before[q] }),
                    forall|q: int| j <= q < item_count ==> group@[q] == before[q],
                decreases item_count - j,
            {
                if group[j] == b {
                    group.set(j, a);
                }
                j = j + 1;
            }
            assert(group@.map_values(|x: usize| x as nat) =~= before.map_values(
                |x: nat| if x == b { a as nat } else { x },
            ));
        }
        k = k + 1;
    }
    proof {
        assert(merges_within(applied, n)) by {
            assert forall|q: int| 0 <= q < applied.len() implies (#[trigger] applied[q]).0 < n && applied[q].1 < n by {
                assert(applied[q] == merges@[q]);
            }
        }
        lemma_groups_within(applied, n);
    }
    assert(group@.map_values(|x: usize| x as nat) == groups_after(merges@.take(count as int), n));
    assert forall|i: int| 0 <= i < group@.len() implies group@[i] < item_count by {
        assert(group@.map_values(|x: usize| x as nat)[i] == group@[i] as nat);
    }
    let (labels, _) = number_groups(group.as_slice(), item_count);
    labels
}

/// Numbers the groups of items by first appearance; groups are below `bound`. Gives each
/// item's number and, for each group below `bound`, its number if it occurs.
pub fn number_groups(groups: &[usize], bound: usize) -> (r: (Vec<usize>, Vec<Option<usize>>))
    requires
        forall|i: int| 0 <= i < groups@.len() ==> groups@[i] < bound,
    ensures
        r.0@ == numbering(groups@.map_values(|x: usize| x as nat)).2,
        r.1@.len() == bound,
        forall|x: int|
            0 <= x < bound ==> (#[trigger] r.1@[x] matches Some(l) ==> numbering(
                groups@.map_values(|x: usize| x as nat),
            ).0.dom().contains(x as nat) && numbering(groups@.map_values(|x: usize| x as nat)).0[x as nat] == l)
                && (r.1@[x] is None ==> !numbering(groups@.map_values(|x: usize| x as nat)).0.dom().contains(x as nat)),
{
    let ghost gs = groups@.map_values(|x: usize| x as nat);
    let mut lookup: Vec<Option<usize>> = Vec::new();
    let mut i: usize = 0;
    while i < bound
        invariant
            i <= bound,
            lookup@.len() == i,
            forall|j: int| 0 <= j < i ==> lookup@[j] is None,
        decreases bound - i,
    {
        lookup.push(None);
        i = i + 1;
    }
    let mut labels: Vec<usize> = Vec::new();
    let mut next: usize = 0;
    let mut i: usize = 0;
    while i < groups.len()
        invariant
            i <= groups.len(),
            gs == groups@.map_values(|x: usize| x as nat),
            forall|q: int| 0 <= q < groups@.len() ==> groups@[q] < bound,
            lookup@.len() == bound,
            ({
                let (m, nx, ls) = numbering(gs.take(i as int));
                &&& labels@ == ls
                &&& next == nx
                &&& forall|x: int|
                    0 <= x < bound ==> (#[trigger] lookup@[x] matches Some(l) ==> m.dom().contains(x as nat) && m[x as nat]
                        == l) && (lookup@[x] is None ==> !m.dom().contains(x as nat))
            }),
            next <= i,
        decreases groups.len() - i,
    {
        proof {
            lemma_numbering(gs.take(i as int));
            assert(gs.take(i + 1).drop_last() == gs.take(i as int));
            assert(gs.take(i + 1).last() == gs[i as int]);
        }
        let root = groups[i];
        assert(root == gs[i as int]);
        match lookup[root] {
            Some(label) => {
                labels.push(label);
            },
            None => {
                lookup.set(root, Some(next));
                labels.push(next);
                next = next + 1;
            },
        }
        i = i + 1;
    }
    assert(gs.take(groups.len() as int) == gs);
    (labels, lookup)
}

/// The labels of a cut are compact, numbered by first appearance: each label but 0 comes
/// after the one below it. Two items share a label exactly when they are in one group,
/// and so the two items of every merge applied share a label.
pub proof fn law_cut_labels_are_compact_and_follow_the_merges(
    item_count: nat,
    merges: Seq<(usize, usize)>,
    merge_count: nat,
)
    requires
        merges_within(merges, item_count),
        item_count <= usize::MAX,
    ensures
        ({
            let labels = cut_labels(item_count, merges, merge_count);
            let applied = if merge_count < merges.len() {
                merges.take(merge_count as int)
            } else {
                merges
            };
            let groups = groups_after(applied, item_count);
            &&& labels.len() == item_count
            &&& forall|i: int| 0 <= i < item_count ==> #[trigger] labels[i] == 0 || exists|j: int|
                0 <= j < i && labels[j] == labels[i] - 1
            &&& forall|i: int, j: int|
                0 <= i < item_count && 0 <= j < item_count ==> (#[trigger] labels[i] == #[trigger] labels[j] <==> groups[i]
                    == groups[j])
        }),
{
    let applied = if merge_count < merges.len() {
        merges.take(merge_count as int)
    } else {
        merges
    };
    assert(merges_within(applied, item_count)) by {
        assert forall|q: int| 0 <= q < applied.len() implies (#[trigger] applied[q]).0 < item_count && applied[q].1
            < item_count by {
            assert(applied[q] == merges[q]);
        }
    }
    lemma_groups_within(applied, item_count);
    let groups = groups_after(applied, item_count);
    lemma_numbering(groups);
    let (lookup, next, labels) = numbering(groups);
    assert forall|i: int, j: int| 0 <= i < item_count && 0 <= j < item_count implies (#[trigger] labels[i]
        == #[trigger] labels[j] <==> groups[i] == groups[j]) by {
        assert(labels[i] == lookup[groups[i]]);
        assert(labels[j] == lookup[groups[j]]);
        assert(lookup.dom().contains(groups[i]));
        assert(lookup.dom().contains(groups[j]));
        if labels[i] == labels[j] {
            assert(lookup[groups[i]] == lookup[groups[j]]);
        }
    }
}

/// Once a merge is applied its two items stay in one group, whatever is merged after.
pub proof fn law_merged_items_stay_together(merges: Seq<(usize, usize)>, n: nat, k: int)
    requires
        merges_within(merges, n),
        0 <= k < merges.len(),
    ensures
        groups_after(merges, n)[merges[k].0 as int] == groups_after(merges, n)[merges[k].1 as int],
    decreases merges.len(),
{
    let rest = merges.drop_last();
    assert(merges_within(rest, n)) by {
        assert forall|q: int| 0 <= q < rest.len() implies (#[trigger] rest[q]).0 < n && rest[q].1 < n by {
            assert(rest[q] == merges[q]);
        }
    }
    lemma_groups_within(rest, n);
    assert(merges[merges.len() - 1] == merges.last());
    if k < merges.len() - 1 {
        law_merged_items_stay_together(rest, n, k);
        assert(rest[k] == merges[k]);
    }
}

// ---------------------------------------------------------------------------------------
// Choosing where to cut.

/// How many clusters of at least `min_cluster_size` items the cut after `merge_count`
/// merges gives.
pub open spec fn count_at(item_count: nat, merges: Seq<(usize, usize)>, merge_count: nat, min_cluster_size: usize) -> nat {
    sizes_at_least(sizes_of(cut_labels(item_count, merges, merge_count)), min_cluster_size)
}

proof fn lemma_labels_below(groups: Seq<nat>)
    requires
        groups.len() <= usize::MAX,
    ensures
        forall|i: int| 0 <= i < groups.len() ==> numbering(groups).2[i] < usize::MAX,
{
    lemma_numbering(groups);
    let (lookup, next, labels) = numbering(groups);
    assert forall|i: int| 0 <= i < groups.len() implies labels[i] < usize::MAX by {
        assert(lookup.dom().contains(groups[i]));
    }
}

/// The count of large clusters after each number of merges, from none to all of them.
pub fn cut_counts(item_count: usize, merges: &[(usize, usize)], min_cluster_size: usize) -> (r: Vec<usize>)
    requires
        merges_within(merges@, item_count as nat),
    ensures
        r@.len() == merges@.len() + 1,
        forall|m: int|
            0 <= m <= merges@.len() ==> #[trigger] r@[m] == count_at(
                item_count as nat,
                merges@,
                m as nat,
                min_cluster_size,
            ),
{
    let ghost n = item_count as nat;
    let mut group: Vec<usize> = Vec::new();
    let mut i: usize = 0;
    while i < item_count
        invariant
            i <= item_count,
            group@.len() == i,
            forall|j: int| 0 <= j < i ==> group@[j] == j,
        decreases item_count - i,
    {
        group.push(i);
        i = i + 1;
    }
    assert(group@.map_values(|x: usize| x as nat) =~= groups_after(Seq::empty(), n));
    assert(merges@.take(0) =~= Seq::<(usize, usize)>::empty());
    let mut counts: Vec<usize> = Vec::new();
    let mut k: usize = 0;
    loop
        invariant_except_break
            counts@.len() == k,
            forall|m: int|
                0 <= m < k ==> #[trigger] counts@[m] == count_at(n, merges@, m as nat, min_cluster_size),
        invariant
            k <= merges@.len(),
            merges_within(merges@, n),
            n == item_count,
            group@.len() == item_count,
            group@.map_values(|x: usize| x as nat) == groups_after(merges@.take(k as int), n),
        ensures
            counts@.len() == merges@.len() + 1,
            forall|m: int|
                0 <= m <= merges@.len() ==> #[trigger] counts@[m] == count_at(n, merges@, m as nat, min_cluster_size),
        decreases merges@.len() - k,
    {
        let ghost done = merges@.take(k as int);
        proof {
            assert(merges_within(done, n)) by {
                assert forall|q: int| 0 <= q < done.len() implies (#[trigger] done[q]).0 < n && done[q].1 < n by {
                    assert(done[q] == merges@[q]);
                }
            }
            lemma_groups_within(done, n);
            lemma_labels_below(groups_after(done, n));
        }
        assert forall|q: int| 0 <= q < group@.len() implies group@[q] < item_count by {
            assert(group@.map_values(|x: usize| x as nat)[q] == group@[q] as nat);
        }
        let (labels, _) = number_groups(group.as_slice(), item_count);
        assert(group@.map_values(|x: usize| x as nat) == groups_after(done, n));
        assert(labels@ == numbering(groups_after(done, n)).2);
        proof {
            lemma_numbering(groups_after(done, n));
        }
        assert(labels@.len() == groups_after(done, n).len());
        assert forall|q: int| 0 <= q < labels@.len() implies labels@[q] < usize::MAX by {
            assert(numbering(groups_after(done, n)).2[q] < usize::MAX);
        }
        let count = large_cluster_count(labels.as_slice(), min_cluster_size);
        proof {
            let applied = if (k as nat) < merges@.len() {
                merges@.take(k as int)
            } else {
                merges@
            };
            assert(applied == done);
        }
        counts.push(count);
        if k == merges.len() {
            break;
        }
        let ghost before = groups_after(done, n);
        proof {
            assert(merges@.take(k + 1).drop_last() == done);
            assert(merges@.take(k + 1).last() == merges@[k as int]);
            assert(merges@[k as int].0 < n && merges@[k as int].1 < n);
        }
        let (left, right) = merges[k];
        let a = group[left];
        let b = group[right];
        assert(a == before[left as int] && b == before[right as int]);
        if a != b {
            let mut j: usize = 0;
            while j < item_count
                invariant
                    j <= item_count,
                    group@.len() == item_count,
                    n == item_count,
                    before.len() == n,
                    forall|q: int| 0 <= q < j ==> group@[q] == (if before[q] == b { a as nat } else { before[q] }),
                    forall|q: int| j <= q < item_count ==> group@[q] == before[q],
                decreases item_count - j,
            {
                if group[j] == b {
                    group.set(j, a);
                }
                j = j + 1;
            }
            assert(group@.map_values(|x: usize| x as nat) =~= before.map_values(
                |x: nat| if x == b { a as nat } else { x },
            ));
        }
        k = k + 1;
    }
    counts
}

/// `|a - b|`.
pub open spec fn distance(a: int, b: int) -> nat {
    if a >= b {
        (a - b) as nat
    } else {
        (b - a) as nat
    }
}

/// Whether merge count `m` is closer to the aim than `n`: its count nearer `target`, or as
/// near and itself nearer the threshold cut.
pub open spec fn closer(counts: Seq<usize>, target: nat, threshold_cut: nat, m: int, n: int) -> bool {
    let dm = distance(counts[m] as int, target as int);
    let dn = distance(counts[n] as int, target as int);
    dm < dn || (dm == dn && distance(m, threshold_cut as int) < distance(n, threshold_cut as int))
}

/// The first of the closest merge counts before `upto`.
pub open spec fn closest_cut(counts: Seq<usize>, target: nat, threshold_cut: nat, upto: nat) -> nat
    decreases upto,
{
    if upto <= 1 {
        0
    } else {
        let best = closest_cut(counts, target, threshold_cut, (upto - 1) as nat);
        if closer(counts, target, threshold_cut, upto - 1, best as int) {
            (upto - 1) as nat
        } else {
            best
        }
    }
}

/// Where the dendrogram is cut, and the large clusters there: at the threshold, unless that
/// breaks the speaker bounds; then where the count of large clusters comes closest to them,
/// nearest the threshold among equals. `counts[m]` is the count after `m` merges.
pub open spec fn chosen_cut(counts: Seq<usize>, threshold_cut: nat, bounds: SpeakerBounds) -> (nat, nat) {
    let count = counts[threshold_cut as int];
    let (low, high) = bounds_range(bounds);
    if count < low || count > high {
        let target = if count < low {
            low
        } else {
            high
        };
        let chosen = closest_cut(counts, target as nat, threshold_cut, counts.len());
        (chosen, counts[chosen as int] as nat)
    } else {
        (threshold_cut, count as nat)
    }
}

proof fn lemma_closest_cut(counts: Seq<usize>, target: nat, threshold_cut: nat, upto: nat)
    requires
        1 <= upto <= counts.len(),
    ensures
        closest_cut(counts, target, threshold_cut, upto) < upto,
        forall|m: int|
            0 <= m < upto ==> !closer(counts, target, threshold_cut, m, closest_cut(counts, target, threshold_cut, upto) as int),
    decreases upto,
{
    if upto > 1 {
        lemma_closest_cut(counts, target, threshold_cut, (upto - 1) as nat);
        let prev = closest_cut(counts, target, threshold_cut, (upto - 1) as nat);
        let best = closest_cut(counts, target, threshold_cut, upto);
        assert forall|m: int| 0 <= m < upto implies !closer(counts, target, threshold_cut, m, best as int) by {
            if m < upto - 1 {
                assert(!closer(counts, target, threshold_cut, m, prev as int));
            }
        }
    }
}

pub fn choose_cut(counts: &[usize], threshold_cut: usize, bounds: &SpeakerBounds) -> (r: (usize, usize))
    requires
        threshold_cut < counts@.len(),
    ensures
        (r.0 as nat, r.1 as nat) == chosen_cut(counts@, threshold_cut as nat, *bounds),
        r.0 < counts@.len(),
{
    let count = counts[threshold_cut];
    let (low, high) = bounds.range();
    if count < low || count > high {
        let target = if count < low {
            low
        } else {
            high
        };
        let mut best: usize = 0;
        let mut m: usize = 1;
        while m < counts.len()
            invariant
                1 <= m <= counts@.len(),
                best == closest_cut(counts@, target as nat, threshold_cut as nat, m as nat),
                best < m,
            decreases counts.len() - m,
        {
            let dm = if counts[m] >= target {
                counts[m] - target
            } else {
                target - counts[m]
            };
            let db = if counts[best] >= target {
                counts[best] - target
            } else {
                target - counts[best]
            };
            let tm = if m >= threshold_cut {
                m - threshold_cut
            } else {
                threshold_cut - m
            };
            let tb = if best >= threshold_cut {
                best - threshold_cut
            } else {
                threshold_cut - best
            };
            if dm < db || (dm == db && tm < tb) {
                best = m;
            }
            m = m + 1;
        }
        (best, counts[best])
    } else {
        (threshold_cut, count)
    }
}

/// The n-th large cluster a label is, counting from 0, or none for a small one.
pub open spec fn large_index(sizes: Seq<usize>, min_cluster_size: usize, label: int) -> Option<usize> {
    if sizes[label] >= min_cluster_size {
        Some(sizes_at_least(sizes.take(label), min_cluster_size) as usize)
    } else {
        None
    }
}

/// For each item, the large cluster it is in, numbered among the large clusters; none for
/// an item of a small cluster, which goes to the nearest large one.
pub fn large_labels(labels: &[usize], min_cluster_size: usize) -> (r: Vec<Option<usize>>)
    requires
        forall|i: int| 0 <= i < labels@.len() ==> labels@[i] < usize::MAX,
    ensures
        r@.len() == labels@.len(),
        forall|i: int|
            0 <= i < labels@.len() ==> #[trigger] r@[i] == large_index(sizes_of(labels@), min_cluster_size, labels@[i] as int),
{
    let sizes = cluster_sizes(labels);
    proof {
        lemma_label_count(labels@);
    }
    let mut below: Vec<usize> = Vec::new();
    let mut n: usize = 0;
    let mut k: usize = 0;
    while k < sizes.len()
        invariant
            k <= sizes@.len(),
            below@.len() == k,
            n == sizes_at_least(sizes@.take(k as int), min_cluster_size),
            n <= k,
            forall|j: int| 0 <= j < k ==> #[trigger] below@[j] == sizes_at_least(sizes@.take(j), min_cluster_size),
        decreases sizes.len() - k,
    {
        below.push(n);
        assert(sizes@.take(k + 1).drop_last() == sizes@.take(k as int));
        if sizes[k] >= min_cluster_size {
            n = n + 1;
        }
        k = k + 1;
    }
    let mut out: Vec<Option<usize>> = Vec::new();
    let mut i: usize = 0;
    while i < labels.len()
        invariant
            i <= labels@.len(),
            out@.len() == i,
            sizes@ == sizes_of(labels@),
            below@.len() == sizes@.len(),
            forall|j: int| 0 <= j < labels@.len() ==> labels@[j] < sizes@.len(),
            forall|j: int| 0 <= j < sizes@.len() ==> #[trigger] below@[j] == sizes_at_least(sizes@.take(j), min_cluster_size),
            forall|j: int|
                0 <= j < i ==> #[trigger] out@[j] == large_index(sizes@, min_cluster_size, labels@[j] as int),
        decreases labels.len() - i,
    {
        let label = labels[i];
        if sizes[label] >= min_cluster_size {
            out.push(Some(below[label]));
        } else {
            out.push(None);
        }
        i = i + 1;
    }
    out
}

} // verus!
