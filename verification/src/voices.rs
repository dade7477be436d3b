//! The voices the user has put a name to, and the speakers found in each meeting.
//!
//! A meeting keeps what its speakers sound like, so one can be named long after the
//! recording was processed. Naming is the only thing that teaches the app a voice:
//! recognizing someone in a later meeting never adds to what is stored about them, so a
//! wrong guess cannot feed on itself. What a voice sounds like is held here by the bit
//! patterns of its values; two examples are the same when all their values are.

use vstd::prelude::*;

use crate::text::{chars_of, decimal, lowercase, push_decimal, push_str, same, to_lowercase, trim, trimmed};

verus! {

/// As many examples of one voice as are kept; the oldest goes first.
pub const MAX_EXAMPLES: usize = 5;

/// A voice the user has named.
pub struct Voice {
    pub id: String,
    pub name: String,
    /// What the voice sounded like in each meeting it was named in.
    pub examples: Vec<Vec<u32>>,
}

/// A speaker found in a meeting, as far as its name goes.
pub struct Speaker {
    pub index: usize,
    /// The name shown in the transcript: a voice's name, or "Speaker 2".
    pub label: String,
    /// The remembered voice this speaker is, by recognition or by the user's word.
    pub voice_id: Option<String>,
    /// What this speaker sounds like in this meeting.
    pub centroid: Vec<u32>,
}

/// A voice as values: its id, its name and its examples.
pub type VoiceView = (Seq<char>, Seq<char>, Seq<Seq<u32>>);

pub open spec fn examples_of(examples: Seq<Vec<u32>>) -> Seq<Seq<u32>> {
    examples.map_values(|e: Vec<u32>| e@)
}

impl View for Voice {
    type V = VoiceView;

    open spec fn view(&self) -> VoiceView {
        (self.id@, self.name@, examples_of(self.examples@))
    }
}

pub open spec fn voices_of(voices: Seq<Voice>) -> Seq<VoiceView> {
    voices.map_values(|v: Voice| v@)
}

pub open spec fn id_of(id: Option<String>) -> Option<Seq<char>> {
    match id {
        Some(s) => Some(s@),
        None => None,
    }
}

/// "Speaker 1" for the first speaker found, "Speaker 2" for the second, and so on.
pub open spec fn default_label_of(index: nat) -> Seq<char> {
    "Speaker "@ + decimal(index + 1)
}

pub fn default_label(index: usize) -> (r: String)
    requires
        index < usize::MAX,
    ensures
        r@ == default_label_of(index as nat),
{
    let mut r = String::new();
    push_str(&mut r, "Speaker ");
    push_decimal(&mut r, (index + 1) as u64);
    r
}

/// One example of a remembered voice, as the speaker search is given it.
pub struct KnownSpeaker {
    pub id: String,
    pub embedding: Vec<u32>,
}

/// Every example of every voice, under the voice's id, in order.
pub open spec fn known_of(voices: Seq<VoiceView>) -> Seq<(Seq<char>, Seq<u32>)>
    decreases voices.len(),
{
    if voices.len() == 0 {
        Seq::empty()
    } else {
        let v = voices.last();
        known_of(voices.drop_last()) + v.2.map_values(|e: Seq<u32>| (v.0, e))
    }
}

pub open spec fn known_view(known: Seq<KnownSpeaker>) -> Seq<(Seq<char>, Seq<u32>)> {
    known.map_values(|k: KnownSpeaker| (k.id@, k.embedding@))
}

/// What the speaker search is told about the voices: each of their examples.
pub fn known_speakers(voices: &[Voice]) -> (r: Vec<KnownSpeaker>)
    ensures
        known_view(r@) == known_of(voices_of(voices@)),
{
    let ghost all = voices_of(voices@);
    let mut r: Vec<KnownSpeaker> = Vec::new();
    let mut i: usize = 0;
    while i < voices.len()
        invariant
            i <= voices@.len(),
            all == voices_of(voices@),
            known_view(r@) == known_of(all.take(i as int)),
        decreases voices.len() - i,
    {
        let voice = &voices[i];
        let ghost base = known_view(r@);
        let ghost v = all[i as int];
        assert(v == voice@);
        let mut j: usize = 0;
        while j < voice.examples.len()
            invariant
                j <= voice.examples@.len(),
                v == voice@,
                known_view(r@) == base + v.2.take(j as int).map_values(|e: Seq<u32>| (v.0, e)),
            decreases voice.examples.len() - j,
        {
            let ghost before_push = r@;
            let id = voice.id.clone();
            let embedding = copy_values(voice.examples[j].as_slice());
            r.push(KnownSpeaker { id, embedding });
            proof {
                assert(r@ == before_push.push(KnownSpeaker { id, embedding }));
                assert(known_view(r@) =~= known_view(before_push).push((id@, embedding@)));
                assert(v.2[j as int] == voice.examples@[j as int]@);
                assert(v.2.take(j + 1).map_values(|e: Seq<u32>| (v.0, e)) =~= v.2.take(j as int).map_values(
                    |e: Seq<u32>| (v.0, e),
                ).push((v.0, v.2[j as int])));
                assert(known_view(r@) =~= base + v.2.take(j + 1).map_values(|e: Seq<u32>| (v.0, e)));
            }
            j = j + 1;
        }
        proof {
            assert(v.2.take(v.2.len() as int) == v.2);
            assert(all.take(i + 1).drop_last() == all.take(i as int));
            assert(all.take(i + 1).last() == v);
        }
        i = i + 1;
    }
    assert(all.take(voices.len() as int) == all);
    r
}

// ---------------------------------------------------------------------------------------
// Forgetting an example.

/// The examples without those equal to `example`, in order.
pub open spec fn without(examples: Seq<Seq<u32>>, example: Seq<u32>) -> Seq<Seq<u32>>
    decreases examples.len(),
{
    if examples.len() == 0 {
        examples
    } else {
        let rest = without(examples.drop_last(), example);
        if examples.last() == example {
            rest
        } else {
            rest.push(examples.last())
        }
    }
}

/// `i` is the first voice with id `id`.
pub open spec fn first_id_at(voices: Seq<VoiceView>, id: Seq<char>, i: int) -> bool {
    &&& 0 <= i < voices.len()
    &&& voices[i].0 == id
    &&& forall|j: int| 0 <= j < i ==> voices[j].0 != id
}

/// The voices without those of id `id` that nothing is known about any more.
pub open spec fn without_leftovers(voices: Seq<VoiceView>, id: Seq<char>) -> Seq<VoiceView>
    decreases voices.len(),
{
    if voices.len() == 0 {
        voices
    } else {
        let rest = without_leftovers(voices.drop_last(), id);
        let v = voices.last();
        if v.0 == id && v.2.len() == 0 {
            rest
        } else {
            rest.push(v)
        }
    }
}

/// What taking `example` back from the voice `id` leaves: the first voice of that id loses
/// every copy of it, and a voice of that id that nothing is known about any more is only a
/// leftover name, which goes.
pub open spec fn forgotten(voices: Seq<VoiceView>, id: Seq<char>, example: Seq<u32>) -> Seq<VoiceView> {
    let updated = if exists|i: int| first_id_at(voices, id, i) {
        let i = choose|i: int| first_id_at(voices, id, i);
        voices.update(i, (voices[i].0, voices[i].1, without(voices[i].2, example)))
    } else {
        voices
    };
    without_leftovers(updated, id)
}

proof fn lemma_without_add(a: Seq<Seq<u32>>, b: Seq<Seq<u32>>, example: Seq<u32>)
    ensures
        without(a + b, example) == without(a, example) + without(b, example),
    decreases b.len(),
{
    if b.len() == 0 {
        assert(a + b == a);
        assert(without(a, example) + without(b, example) == without(a, example));
    } else {
        lemma_without_add(a, b.drop_last(), example);
        assert((a + b).drop_last() == a + b.drop_last());
        assert((a + b).last() == b.last());
    }
}

proof fn lemma_without_leftovers_add(a: Seq<VoiceView>, b: Seq<VoiceView>, id: Seq<char>)
    ensures
        without_leftovers(a + b, id) == without_leftovers(a, id) + without_leftovers(b, id),
    decreases b.len(),
{
    if b.len() == 0 {
        assert(a + b == a);
        assert(without_leftovers(a, id) + without_leftovers(b, id) == without_leftovers(a, id));
    } else {
        lemma_without_leftovers_add(a, b.drop_last(), id);
        assert((a + b).drop_last() == a + b.drop_last());
        assert((a + b).last() == b.last());
    }
}

proof fn lemma_without_one(x: Seq<u32>, example: Seq<u32>)
    ensures
        without(seq![x], example) == (if x == example {
            Seq::<Seq<u32>>::empty()
        } else {
            seq![x]
        }),
{
    assert(seq![x].drop_last() =~= Seq::<Seq<u32>>::empty());
    assert(without(Seq::<Seq<u32>>::empty(), example) == Seq::<Seq<u32>>::empty());
    assert(Seq::<Seq<u32>>::empty().push(x) =~= seq![x]);
}

proof fn lemma_without_leftovers_one(v: VoiceView, id: Seq<char>)
    ensures
        without_leftovers(seq![v], id) == (if v.0 == id && v.2.len() == 0 {
            Seq::<VoiceView>::empty()
        } else {
            seq![v]
        }),
{
    assert(seq![v].drop_last() =~= Seq::<VoiceView>::empty());
    assert(without_leftovers(Seq::<VoiceView>::empty(), id) == Seq::<VoiceView>::empty());
    assert(Seq::<VoiceView>::empty().push(v) =~= seq![v]);
}

fn same_values(a: &[u32], b: &[u32]) -> (r: bool)
    ensures
        r == (a@ == b@),
{
    if a.len() != b.len() {
        return false;
    }
    let mut i: usize = 0;
    while i < a.len()
        invariant
            i <= a.len(),
            a.len() == b.len(),
            forall|j: int| 0 <= j < i ==> a@[j] == b@[j],
        decreases a.len() - i,
    {
        if a[i] != b[i] {
            return false;
        }
        i = i + 1;
    }
    assert(a@ =~= b@);
    true
}

fn copy_values(a: &[u32]) -> (r: Vec<u32>)
    ensures
        r@ == a@,
{
    let mut r: Vec<u32> = Vec::new();
    let mut i: usize = 0;
    while i < a.len()
        invariant
            i <= a.len(),
            r@ == a@.take(i as int),
        decreases a.len() - i,
    {
        r.push(a[i]);
        assert(a@.take(i + 1) == a@.take(i as int).push(a@[i as int]));
        i = i + 1;
    }
    assert(a@.take(a.len() as int) == a@);
    r
}

fn same_text(a: &str, b: &str) -> (r: bool)
    ensures
        r == (a@ == b@),
{
    let x = chars_of(a);
    let y = chars_of(b);
    same(x.as_slice(), y.as_slice())
}

/// Takes every copy of `example` out of `examples`.
fn drop_example(examples: &mut Vec<Vec<u32>>, example: &[u32])
    ensures
        examples_of(final(examples)@) == without(examples_of(old(examples)@), example@),
{
    let ghost orig = examples_of(examples@);
    let mut i: usize = examples.len();
    proof {
        assert(orig.skip(i as int) =~= Seq::<Seq<u32>>::empty());
        assert(orig.take(i as int) =~= orig);
    }
    while i > 0
        invariant
            i <= examples@.len(),
            orig.len() >= examples@.len(),
            examples_of(examples@).take(i as int) == orig.take(i as int),
            examples_of(examples@).skip(i as int) == without(orig.skip(i as int), example@),
            examples_of(examples@) == examples_of(examples@).take(i as int) + examples_of(examples@).skip(
                i as int,
            ),
        decreases i,
    {
        let ghost cur = examples_of(examples@);
        let ghost x = orig[i - 1];
        proof {
            assert(orig.skip(i - 1) =~= seq![x] + orig.skip(i as int));
            lemma_without_add(seq![x], orig.skip(i as int), example@);
            lemma_without_one(x, example@);
            assert(cur[i - 1] == x) by {
                assert(cur.take(i as int)[i - 1] == orig.take(i as int)[i - 1]);
            }
        }
        if same_values(examples[i - 1].as_slice(), example) {
            examples.remove(i - 1);
            proof {
                let now = examples_of(examples@);
                assert(now =~= cur.take(i - 1) + cur.skip(i as int));
                assert(now.take(i - 1) =~= orig.take(i - 1));
                assert(now.skip(i - 1) =~= cur.skip(i as int));
                assert(now =~= now.take(i - 1) + now.skip(i - 1));
            }
        } else {
            proof {
                assert(cur.take(i - 1) =~= orig.take(i - 1));
                assert(cur.skip(i - 1) =~= seq![x] + cur.skip(i as int));
                assert(cur =~= cur.take(i - 1) + cur.skip(i - 1));
            }
        }
        i = i - 1;
    }
    proof {
        assert(orig.skip(0) == orig);
        assert(examples_of(examples@).take(0) =~= Seq::<Seq<u32>>::empty());
    }
}

/// Takes out the voices of id `voice_id` that have no example left.
fn drop_leftovers(voices: &mut Vec<Voice>, voice_id: &str)
    ensures
        voices_of(final(voices)@) == without_leftovers(voices_of(old(voices)@), voice_id@),
{
    let ghost orig = voices_of(voices@);
    let mut i: usize = voices.len();
    proof {
        assert(orig.skip(i as int) =~= Seq::<VoiceView>::empty());
        assert(orig.take(i as int) =~= orig);
    }
    while i > 0
        invariant
            i <= voices@.len(),
            orig.len() >= voices@.len(),
            voices_of(voices@).take(i as int) == orig.take(i as int),
            voices_of(voices@).skip(i as int) == without_leftovers(orig.skip(i as int), voice_id@),
            voices_of(voices@) == voices_of(voices@).take(i as int) + voices_of(voices@).skip(i as int),
        decreases i,
    {
        let ghost cur = voices_of(voices@);
        let ghost x = orig[i - 1];
        proof {
            assert(orig.skip(i - 1) =~= seq![x] + orig.skip(i as int));
            lemma_without_leftovers_add(seq![x], orig.skip(i as int), voice_id@);
            lemma_without_leftovers_one(x, voice_id@);
            assert(cur[i - 1] == x) by {
                assert(cur.take(i as int)[i - 1] == orig.take(i as int)[i - 1]);
            }
            assert(voices@[i - 1]@ == cur[i - 1]);
        }
        if voices[i - 1].examples.len() == 0 && same_text(voices[i - 1].id.as_str(), voice_id) {
            voices.remove(i - 1);
            proof {
                let now = voices_of(voices@);
                assert(now =~= cur.take(i - 1) + cur.skip(i as int));
                assert(now.take(i - 1) =~= orig.take(i - 1));
                assert(now.skip(i - 1) =~= cur.skip(i as int));
                assert(now =~= now.take(i - 1) + now.skip(i - 1));
            }
        } else {
            proof {
                assert(cur.take(i - 1) =~= orig.take(i - 1));
                assert(cur.skip(i - 1) =~= seq![x] + cur.skip(i as int));
                assert(cur =~= cur.take(i - 1) + cur.skip(i - 1));
            }
        }
        i = i - 1;
    }
    proof {
        assert(orig.skip(0) == orig);
        assert(voices_of(voices@).take(0) =~= Seq::<VoiceView>::empty());
    }
}

/// Takes `example` back from the voice `voice_id`; a voice left with nothing known about
/// it goes.
fn forget_example(voices: &mut Vec<Voice>, voice_id: &str, example: &[u32])
    ensures
        voices_of(final(voices)@) == forgotten(voices_of(old(voices)@), voice_id@, example@),
{
    let ghost orig = voices_of(voices@);
    let mut i: usize = 0;
    while i < voices.len() && !same_text(voices[i].id.as_str(), voice_id)
        invariant
            i <= voices@.len(),
            orig == voices_of(voices@),
            forall|j: int| 0 <= j < i ==> orig[j].0 != voice_id@,
        decreases voices.len() - i,
    {
        i = i + 1;
    }
    let ghost updated = orig;
    if i < voices.len() {
        let mut v = voices.remove(i);
        drop_example(&mut v.examples, example);
        voices.insert(i, v);
        proof {
            assert(first_id_at(orig, voice_id@, i as int));
            let k = choose|k: int| first_id_at(orig, voice_id@, k);
            assert(k == i);
            updated = orig.update(i as int, (orig[i as int].0, orig[i as int].1, without(orig[i as int].2, example@)));
            assert(voices_of(voices@) =~= updated);
        }
    } else {
        proof {
            assert(!exists|k: int| first_id_at(orig, voice_id@, k));
        }
    }
    drop_leftovers(voices, voice_id);
}

// ---------------------------------------------------------------------------------------
// Naming a speaker.

/// The voices before a speaker is named again: what it was known as gives its example back.
pub open spec fn released(voices: Seq<VoiceView>, voice_id: Option<Seq<char>>, centroid: Seq<u32>) -> Seq<
    VoiceView,
> {
    match voice_id {
        Some(id) => forgotten(voices, id, centroid),
        None => voices,
    }
}

/// `i` is the first voice whose name is `lower` in lower case.
pub open spec fn first_name_at(voices: Seq<VoiceView>, lower: Seq<char>, i: int) -> bool {
    &&& 0 <= i < voices.len()
    &&& lowercase(voices[i].1) == lower
    &&& forall|j: int| 0 <= j < i ==> lowercase(voices[j].1) != lower
}

/// A voice's examples after it is taught `example`: a new, non-empty one goes last, and
/// past the limit the oldest goes.
pub open spec fn taught(examples: Seq<Seq<u32>>, example: Seq<u32>) -> Seq<Seq<u32>> {
    if example.len() > 0 && !examples.contains(example) {
        let more = examples.push(example);
        if more.len() > MAX_EXAMPLES {
            more.drop_first()
        } else {
            more
        }
    } else {
        examples
    }
}

/// The voices after the one at `at` is taught `example`.
pub open spec fn teach(voices: Seq<VoiceView>, at: int, example: Seq<u32>) -> Seq<VoiceView> {
    voices.update(at, (voices[at].0, voices[at].1, taught(voices[at].2, example)))
}

fn holds(examples: &Vec<Vec<u32>>, example: &[u32]) -> (r: bool)
    ensures
        r == examples_of(examples@).contains(example@),
{
    let ghost ex = examples_of(examples@);
    let mut i: usize = 0;
    while i < examples.len()
        invariant
            i <= examples@.len(),
            ex == examples_of(examples@),
            forall|j: int| 0 <= j < i ==> ex[j] != example@,
        decreases examples.len() - i,
    {
        if same_values(examples[i].as_slice(), example) {
            assert(ex[i as int] == example@);
            return true;
        }
        i = i + 1;
    }
    false
}

/// Gives `speaker` the name `name`, teaching `voices` what that person sounds like.
/// An existing voice of that name, in any case, gets another example; otherwise a new voice
/// is made, under the id `new_id` gives. A speaker that carried another name before takes
/// its example back from that voice.
pub fn name_speaker<F: FnOnce() -> String>(voices: &mut Vec<Voice>, speaker: &mut Speaker, name: &str, new_id: F)
    requires
        new_id.requires(()),
    ensures
        ({
            let before = released(voices_of(old(voices)@), id_of(old(speaker).voice_id), old(speaker).centroid@);
            let lower = lowercase(trim(name@));
            &&& final(speaker).index == old(speaker).index
            &&& final(speaker).centroid@ == old(speaker).centroid@
            &&& if exists|i: int| first_name_at(before, lower, i) {
                let at = choose|i: int| first_name_at(before, lower, i);
                &&& voices_of(final(voices)@) == teach(before, at, old(speaker).centroid@)
                &&& id_of(final(speaker).voice_id) == Some(before[at].0)
                &&& final(speaker).label@ == before[at].1
            } else {
                exists|id: String|
                    #[trigger] new_id.ensures((), id) && voices_of(final(voices)@) == teach(
                        before.push((id@, trim(name@), Seq::<Seq<u32>>::empty())),
                        before.len() as int,
                        old(speaker).centroid@,
                    ) && id_of(final(speaker).voice_id) == Some(id@) && final(speaker).label@ == trim(name@)
            }
        }),
{
    let wanted = trimmed(name);
    let previous = speaker.voice_id.take();
    match &previous {
        Some(id) => forget_example(voices, id.as_str(), speaker.centroid.as_slice()),
        None => {},
    }
    let ghost before = voices_of(voices@);
    assert(before == released(voices_of(old(voices)@), id_of(old(speaker).voice_id), old(speaker).centroid@));
    let lower = to_lowercase(wanted.as_str());
    let mut at: usize = 0;
    while at < voices.len() && !same_text(to_lowercase(voices[at].name.as_str()).as_str(), lower.as_str())
        invariant
            at <= voices@.len(),
            before == voices_of(voices@),
            lower@ == lowercase(trim(name@)),
            forall|j: int| 0 <= j < at ==> lowercase(before[j].1) != lower@,
        decreases voices.len() - at,
    {
        at = at + 1;
    }
    let ghost made: Option<String> = None;
    if at == voices.len() {
        let id = new_id();
        proof {
            made = Some(id);
        }
        voices.push(Voice { id, name: wanted, examples: Vec::new() });
        proof {
            assert(examples_of(voices@.last().examples@) =~= Seq::<Seq<u32>>::empty());
            assert(voices@.last()@ == (id@, trim(name@), Seq::<Seq<u32>>::empty()));
            assert(voices_of(voices@) =~= before.push((id@, trim(name@), Seq::<Seq<u32>>::empty())));
        }
    }
    let ghost listed = voices_of(voices@);
    let mut voice = voices.remove(at);
    let ghost start = voice@;
    assert(start == listed[at as int]);
    if !speaker.centroid.is_empty() && !holds(&voice.examples, speaker.centroid.as_slice()) {
        voice.examples.push(copy_values(speaker.centroid.as_slice()));
        proof {
            assert(examples_of(voice.examples@) =~= start.2.push(speaker.centroid@));
        }
        if voice.examples.len() > MAX_EXAMPLES {
            voice.examples.remove(0);
            proof {
                assert(examples_of(voice.examples@) =~= start.2.push(speaker.centroid@).drop_first());
            }
        }
    }
    assert(voice@ == (start.0, start.1, taught(start.2, speaker.centroid@)));
    speaker.voice_id = Some(voice.id.clone());
    speaker.label = voice.name.clone();
    voices.insert(at, voice);
    proof {
        assert(voices_of(voices@) =~= teach(listed, at as int, speaker.centroid@));
        if at < before.len() {
            assert(first_name_at(before, lower@, at as int));
            let k = choose|k: int| first_name_at(before, lower@, k);
            assert(k == at);
            assert(listed == before);
        } else {
            assert(!exists|k: int| first_name_at(before, lower@, k));
            let id = made.unwrap();
            assert(new_id.ensures((), id));
            assert(listed == before.push((id@, trim(name@), Seq::<Seq<u32>>::empty())));
            assert(speaker.voice_id.unwrap()@ == id@);
        }
    }
}

// ---------------------------------------------------------------------------------------
// What naming and unnaming keep.

/// No voice holds more examples than are kept.
pub open spec fn within_limit(voices: Seq<VoiceView>) -> bool {
    forall|k: int| 0 <= k < voices.len() ==> #[trigger] voices[k].2.len() <= MAX_EXAMPLES
}

/// No two voices share an id.
pub open spec fn distinct_ids(voices: Seq<VoiceView>) -> bool {
    forall|i: int, j: int| 0 <= i < voices.len() && 0 <= j < voices.len() && i != j ==> voices[i].0 != voices[j].0
}

proof fn lemma_without_shrinks(examples: Seq<Seq<u32>>, example: Seq<u32>)
    ensures
        without(examples, example).len() <= examples.len(),
        !without(examples, example).contains(example),
    decreases examples.len(),
{
    if examples.len() > 0 {
        lemma_without_shrinks(examples.drop_last(), example);
        let rest = without(examples.drop_last(), example);
        if examples.last() != example {
            assert forall|k: int| 0 <= k < rest.push(examples.last()).len() implies rest.push(
                examples.last(),
            )[k] != example by {
                if k < rest.len() {
                    assert(rest.push(examples.last())[k] == rest[k]);
                }
            }
        }
    }
}

proof fn lemma_without_leftovers_keep(voices: Seq<VoiceView>, id: Seq<char>)
    ensures
        forall|k: int|
            0 <= k < without_leftovers(voices, id).len() ==> {
                let v = #[trigger] without_leftovers(voices, id)[k];
                &&& voices.contains(v)
                &&& v.0 == id ==> v.2.len() > 0
            },
    decreases voices.len(),
{
    if voices.len() > 0 {
        let rest = without_leftovers(voices.drop_last(), id);
        lemma_without_leftovers_keep(voices.drop_last(), id);
        let out = without_leftovers(voices, id);
        assert forall|k: int| 0 <= k < out.len() implies {
            let v = #[trigger] out[k];
            &&& voices.contains(v)
            &&& v.0 == id ==> v.2.len() > 0
        } by {
            if k < rest.len() {
                assert(out[k] == rest[k]);
                let v = rest[k];
                assert(voices.drop_last().contains(v));
                let j = choose|j: int| 0 <= j < voices.drop_last().len() && voices.drop_last()[j] == v;
                assert(voices[j] == v);
            } else {
                assert(out[k] == voices.last());
                assert(voices[voices.len() - 1] == voices.last());
            }
        }
    }
}

/// Teaching a voice never lets it hold more examples than are kept: past the limit the
/// oldest goes.
pub proof fn law_teaching_keeps_the_limit(voices: Seq<VoiceView>, at: int, example: Seq<u32>)
    requires
        within_limit(voices),
        0 <= at < voices.len(),
    ensures
        within_limit(teach(voices, at, example)),
{
    let t = teach(voices, at, example);
    assert forall|k: int| 0 <= k < t.len() implies #[trigger] t[k].2.len() <= MAX_EXAMPLES by {
        if k != at {
            assert(t[k] == voices[k]);
        }
    }
}

/// Taking an example back never lets a voice hold more examples than are kept.
pub proof fn law_forgetting_keeps_the_limit(voices: Seq<VoiceView>, id: Seq<char>, example: Seq<u32>)
    requires
        within_limit(voices),
    ensures
        within_limit(forgotten(voices, id, example)),
{
    let updated = if exists|i: int| first_id_at(voices, id, i) {
        let i = choose|i: int| first_id_at(voices, id, i);
        lemma_without_shrinks(voices[i].2, example);
        voices.update(i, (voices[i].0, voices[i].1, without(voices[i].2, example)))
    } else {
        voices
    };
    assert(within_limit(updated)) by {
        assert forall|k: int| 0 <= k < updated.len() implies #[trigger] updated[k].2.len() <= MAX_EXAMPLES by {
            if exists|i: int| first_id_at(voices, id, i) {
                let i = choose|i: int| first_id_at(voices, id, i);
                if k != i {
                    assert(updated[k] == voices[k]);
                }
            }
        }
    }
    lemma_without_leftovers_keep(updated, id);
    let out = forgotten(voices, id, example);
    assert forall|k: int| 0 <= k < out.len() implies #[trigger] out[k].2.len() <= MAX_EXAMPLES by {
        let v = out[k];
        assert(updated.contains(v));
        let j = choose|j: int| 0 <= j < updated.len() && updated[j] == v;
        assert(updated[j].2.len() <= MAX_EXAMPLES);
    }
}

/// A speaker named with what it sounds like leaves that example with the voice it was
/// named as, as its newest.
pub proof fn law_a_named_voice_holds_the_example(voices: Seq<VoiceView>, at: int, example: Seq<u32>)
    requires
        0 <= at < voices.len(),
        example.len() > 0,
    ensures
        teach(voices, at, example)[at].2.contains(example),
        !voices[at].2.contains(example) ==> teach(voices, at, example)[at].2.last() == example,
{
    let ex = voices[at].2;
    if !ex.contains(example) {
        let more = ex.push(example);
        assert(more[more.len() - 1] == example);
        if more.len() > MAX_EXAMPLES {
            assert(more.drop_first()[more.drop_first().len() - 1] == example);
        }
    }
}

/// When ids are not shared, taking an example back leaves no copy of it under that id,
/// and no voice of that id that nothing is known about.
pub proof fn law_a_correction_takes_the_example_back(voices: Seq<VoiceView>, id: Seq<char>, example: Seq<u32>)
    requires
        distinct_ids(voices),
    ensures
        forall|k: int|
            0 <= k < forgotten(voices, id, example).len() && (#[trigger] forgotten(voices, id, example)[k]).0
                == id ==> !forgotten(voices, id, example)[k].2.contains(example) && forgotten(
                voices,
                id,
                example,
            )[k].2.len() > 0,
{
    let updated = if exists|i: int| first_id_at(voices, id, i) {
        let i = choose|i: int| first_id_at(voices, id, i);
        lemma_without_shrinks(voices[i].2, example);
        voices.update(i, (voices[i].0, voices[i].1, without(voices[i].2, example)))
    } else {
        voices
    };
    assert forall|j: int| 0 <= j < updated.len() && (#[trigger] updated[j]).0 == id implies !updated[j].2.contains(
        example,
    ) by {
        assert(updated[j].0 == voices[j].0);
        if exists|i: int| first_id_at(voices, id, i) {
            let i = choose|i: int| first_id_at(voices, id, i);
            if j != i {
                assert(voices[i].0 == voices[j].0);
            }
        } else {
            assert(first_id_at(voices, id, j) || exists|i: int| 0 <= i < j && voices[i].0 == id);
            if !first_id_at(voices, id, j) {
                let i = choose|i: int| 0 <= i < j && voices[i].0 == id;
                assert(voices[i].0 == voices[j].0);
            }
        }
    }
    lemma_without_leftovers_keep(updated, id);
    let out = forgotten(voices, id, example);
    assert forall|k: int| 0 <= k < out.len() && (#[trigger] out[k]).0 == id implies !out[k].2.contains(example)
        && out[k].2.len() > 0 by {
        let v = out[k];
        assert(updated.contains(v));
        let j = choose|j: int| 0 <= j < updated.len() && updated[j] == v;
        assert(updated[j].0 == id);
    }
}

/// Takes the name off `speaker` again.
pub fn unname_speaker(voices: &mut Vec<Voice>, speaker: &mut Speaker)
    requires
        old(speaker).index < usize::MAX,
    ensures
        voices_of(final(voices)@) == released(
            voices_of(old(voices)@),
            id_of(old(speaker).voice_id),
            old(speaker).centroid@,
        ),
        final(speaker).index == old(speaker).index,
        final(speaker).centroid@ == old(speaker).centroid@,
        final(speaker).voice_id is None,
        final(speaker).label@ == default_label_of(old(speaker).index as nat),
{
    let previous = speaker.voice_id.take();
    match &previous {
        Some(id) => forget_example(voices, id.as_str(), speaker.centroid.as_slice()),
        None => {},
    }
    speaker.label = default_label(speaker.index);
}

} // verus!
