//! Calls: who else has the microphone open, and what that means for a recording.
//!
//! Every call program holds the microphone for as long as the call runs and lets it go
//! the moment the call ends. [`CallWatch`] turns a second-by-second series of readings of
//! who holds it into what the windows show and when a recording should stop. Times are
//! nanoseconds on one monotonic clock, whatever its origin.

use vstd::prelude::*;

use crate::text::{
    ascii_lower, char_uppercase, chars_of, lower_char, contains, has, less_than, lex_less, lower_ascii, matches_at,
    push_chars, same, slice_of, starts_with, uppercase_of,
};

verus! {

/// Another program that has the microphone open right now.
#[derive(Debug, Clone, PartialEq, Eq)]
pub struct MicUser {
    pub pid: u32,
    /// The everyday name, "Zoom", not the bundle or the executable.
    pub name: String,
}

/// What the windows show about calls.
#[derive(Debug, Clone, PartialEq, Eq, Default)]
pub struct CallState {
    /// The program on a call, or none.
    pub app: Option<String>,
    /// Seconds left until the recording stops because the call ended, while that counts down.
    pub ending_in: Option<u64>,
}

/// One second's verdict.
#[derive(Debug, Clone, PartialEq, Eq, Default)]
pub struct Tick {
    pub state: CallState,
    /// The countdown ran out: stop the recording now.
    pub stop: bool,
}

/// One second, in nanoseconds.
pub const SECOND: u64 = 1_000_000_000;
/// How long a program must hold the microphone before the bar says a meeting has started.
pub const NOTICE_AFTER: u64 = 3_000_000_000;
/// How long a program must hold the microphone before its letting go counts as a call ending.
pub const CALL_AFTER: u64 = 60_000_000_000;
/// How long the recording goes on after the call ended.
pub const GRACE: u64 = 30_000_000_000;

struct Holder {
    pid: u32,
    name: String,
    since: u64,
    /// Held long enough to be a call.
    counted: bool,
}

struct Ended {
    name: String,
    at: u64,
}

/// The state machine. Feed it every second with who holds the microphone.
pub struct CallWatch {
    holding: Vec<Holder>,
    /// The last call that ended while nothing else counted as one, until the countdown
    /// runs out, the user keeps recording, or the call turns out to go on.
    ended: Option<Ended>,
}

// ---------------------------------------------------------------------------------------
// The model.

pub struct HolderView {
    pub pid: u32,
    pub name: Seq<char>,
    pub since: u64,
    pub counted: bool,
}

pub struct EndedView {
    pub name: Seq<char>,
    pub at: u64,
}

pub struct WatchView {
    pub holders: Seq<HolderView>,
    pub ended: Option<EndedView>,
}

pub struct TickView {
    pub app: Option<Seq<char>>,
    pub ending_in: Option<u64>,
    pub stop: bool,
}

impl Holder {
    pub closed spec fn view(&self) -> HolderView {
        HolderView { pid: self.pid, name: self.name@, since: self.since, counted: self.counted }
    }
}

impl CallWatch {
    pub closed spec fn view(&self) -> WatchView {
        WatchView {
            holders: self.holding@.map_values(|h: Holder| h.view()),
            ended: match self.ended {
                Some(e) => Some(EndedView { name: e.name@, at: e.at }),
                None => None,
            },
        }
    }
}

impl Tick {
    pub open spec fn view(&self) -> TickView {
        TickView {
            app: match self.state.app {
                Some(a) => Some(a@),
                None => None,
            },
            ending_in: self.state.ending_in,
            stop: self.stop,
        }
    }
}

pub open spec fn user_views(users: Seq<MicUser>) -> Seq<(u32, Seq<char>)> {
    users.map_values(|u: MicUser| (u.pid, u.name@))
}

/// How long from `since` to `now`, never negative.
pub open spec fn held(since: u64, now: u64) -> int {
    if now >= since {
        now - since
    } else {
        0
    }
}

pub open spec fn has_pid(users: Seq<(u32, Seq<char>)>, pid: u32) -> bool {
    exists|i: int| 0 <= i < users.len() && users[i].0 == pid
}

pub open spec fn holds_pid(holders: Seq<HolderView>, pid: u32) -> bool {
    exists|i: int| 0 <= i < holders.len() && holders[i].pid == pid
}

/// Programs seen for the first time join the holders, in the order they are listed, each
/// process once.
pub open spec fn arrive(holders: Seq<HolderView>, users: Seq<(u32, Seq<char>)>, now: u64) -> Seq<HolderView>
    decreases users.len(),
{
    if users.len() == 0 {
        holders
    } else {
        let before = arrive(holders, users.drop_last(), now);
        let user = users.last();
        if holds_pid(before, user.0) {
            before
        } else {
            before.push(HolderView { pid: user.0, name: user.1, since: now, counted: false })
        }
    }
}

/// The holders still present, in order.
pub open spec fn staying(holders: Seq<HolderView>, users: Seq<(u32, Seq<char>)>) -> Seq<HolderView>
    decreases holders.len(),
{
    if holders.len() == 0 {
        holders
    } else {
        let before = staying(holders.drop_last(), users);
        if has_pid(users, holders.last().pid) {
            before.push(holders.last())
        } else {
            before
        }
    }
}

/// The last holder that counted as a call and is gone now.
pub open spec fn call_gone(holders: Seq<HolderView>, users: Seq<(u32, Seq<char>)>) -> Option<HolderView>
    decreases holders.len(),
{
    if holders.len() == 0 {
        None
    } else {
        let h = holders.last();
        if !has_pid(users, h.pid) && h.counted {
            Some(h)
        } else {
            call_gone(holders.drop_last(), users)
        }
    }
}

/// A holder counts as a call after `CALL_AFTER`, or after `NOTICE_AFTER` while a call has
/// just ended (a reconnect, or the next call).
pub open spec fn count(h: HolderView, just_ended: bool, now: u64) -> HolderView {
    HolderView {
        counted: h.counted || held(h.since, now) >= CALL_AFTER || (just_ended && held(h.since, now)
            >= NOTICE_AFTER),
        ..h
    }
}

pub open spec fn any_counted(holders: Seq<HolderView>) -> bool {
    exists|i: int| 0 <= i < holders.len() && holders[i].counted
}

pub open spec fn noticed(h: HolderView, now: u64) -> bool {
    h.counted || held(h.since, now) >= NOTICE_AFTER
}

/// `a` opened the microphone before `b`, by time and then by name.
pub open spec fn earlier(a: HolderView, b: HolderView) -> bool {
    a.since < b.since || (a.since == b.since && lex_less(a.name, b.name))
}

/// The noticed holder that opened the microphone first; the first listed among equals.
pub open spec fn earliest(holders: Seq<HolderView>, now: u64) -> Option<HolderView>
    decreases holders.len(),
{
    if holders.len() == 0 {
        None
    } else {
        let best = earliest(holders.drop_last(), now);
        let h = holders.last();
        if !noticed(h, now) {
            best
        } else {
            match best {
                None => Some(h),
                Some(b) => if earlier(h, b) {
                    Some(h)
                } else {
                    Some(b)
                },
            }
        }
    }
}

/// Whole seconds left of the grace period, rounded up.
pub open spec fn seconds_left(at: u64, now: u64) -> int {
    (GRACE - held(at, now) + SECOND - 1) / (SECOND as int)
}

/// One step of the watch: the state after the reading at `now`, and the verdict.
pub open spec fn step(
    w: WatchView,
    now: u64,
    users: Seq<(u32, Seq<char>)>,
    recording: bool,
    stop_when_call_ends: bool,
) -> (WatchView, TickView) {
    let arrived = arrive(w.holders, users, now);
    let ended = match call_gone(arrived, users) {
        Some(h) => Some(EndedView { name: h.name, at: now }),
        None => w.ended,
    };
    let holders = staying(arrived, users).map_values(|h: HolderView| count(h, ended is Some, now));
    let ended = if any_counted(holders) || !recording || !stop_when_call_ends {
        None
    } else {
        ended
    };
    let stop = match ended {
        Some(e) => held(e.at, now) >= GRACE,
        None => false,
    };
    let ending_in = match ended {
        Some(e) => if stop {
            None
        } else {
            Some(seconds_left(e.at, now) as u64)
        },
        None => None,
    };
    let app = if stop {
        None
    } else {
        match ended {
            Some(e) => Some(e.name),
            None => match earliest(holders, now) {
                Some(h) => Some(h.name),
                None => None,
            },
        }
    };
    (
        WatchView { holders, ended: if stop { None } else { ended } },
        TickView { app, ending_in, stop },
    )
}

// ---------------------------------------------------------------------------------------
// The code.

fn has_user(users: &[MicUser], pid: u32) -> (r: bool)
    ensures
        r == has_pid(user_views(users@), pid),
{
    let mut i: usize = 0;
    while i < users.len()
        invariant
            i <= users.len(),
            forall|j: int| 0 <= j < i ==> users@[j].pid != pid,
        decreases users.len() - i,
    {
        if users[i].pid == pid {
            assert(user_views(users@)[i as int].0 == pid);
            return true;
        }
        i = i + 1;
    }
    proof {
        if has_pid(user_views(users@), pid) {
            let j = choose|j: int| 0 <= j < users@.len() && user_views(users@)[j].0 == pid;
            assert(users@[j].pid == pid);
        }
    }
    false
}

fn elapsed(since: u64, now: u64) -> (r: u64)
    ensures
        r == held(since, now),
{
    if now >= since {
        now - since
    } else {
        0
    }
}

impl CallWatch {
    pub fn new() -> (w: Self)
        ensures
            w@.holders == Seq::<HolderView>::empty(),
            w@.ended is None,
    {
        let w = CallWatch { holding: Vec::new(), ended: None };
        assert(w@.holders =~= Seq::<HolderView>::empty());
        w
    }

    fn holds(&self, pid: u32) -> (r: bool)
        ensures
            r == holds_pid(self@.holders, pid),
    {
        let mut i: usize = 0;
        while i < self.holding.len()
            invariant
                i <= self.holding.len(),
                forall|j: int| 0 <= j < i ==> self.holding@[j].pid != pid,
            decreases self.holding.len() - i,
        {
            if self.holding[i].pid == pid {
                assert(self@.holders[i as int].pid == pid);
                return true;
            }
            i = i + 1;
        }
        proof {
            if holds_pid(self@.holders, pid) {
                let j = choose|j: int| 0 <= j < self@.holders.len() && self@.holders[j].pid == pid;
                assert(self.holding@[j].pid == pid);
            }
        }
        false
    }

    /// `recording` is whether a recording runs right now; `stop_when_call_ends` is the
    /// setting. With either off, a call ending changes nothing.
    pub fn observe(&mut self, now: u64, users: &[MicUser], recording: bool, stop_when_call_ends: bool) -> (tick: Tick)
        ensures
            (final(self)@, tick@) == step(old(self)@, now, user_views(users@), recording, stop_when_call_ends),
    {
        let ghost start = self@;
        let ghost uv = user_views(users@);
        // Who arrived.
        let mut i: usize = 0;
        while i < users.len()
            invariant
                i <= users.len(),
                uv == user_views(users@),
                self@.holders == arrive(start.holders, uv.take(i as int), now),
                self@.ended == start.ended,
            decreases users.len() - i,
        {
            assert(uv.take(i + 1).drop_last() == uv.take(i as int));
            if !self.holds(users[i].pid) {
                let ghost before = self@.holders;
                self.holding.push(Holder { pid: users[i].pid, name: users[i].name.clone(), since: now, counted: false });
                assert(self@.holders == before.push(
                    HolderView { pid: uv[i as int].0, name: uv[i as int].1, since: now, counted: false },
                ));
            }
            i = i + 1;
        }
        assert(uv.take(users.len() as int) == uv);
        let ghost arrived = self@.holders;

        // Who left: the last call among them is the one that ended.
        let mut old_holding: Vec<Holder> = Vec::new();
        std::mem::swap(&mut old_holding, &mut self.holding);
        let mut kept: Vec<Holder> = Vec::new();
        let mut gone_name: Option<String> = None;
        let mut j: usize = 0;
        let ghost ohv = old_holding@.map_values(|h: Holder| h.view());
        assert(ohv == arrived);
        while j < old_holding.len()
            invariant
                j <= old_holding.len(),
                ohv == old_holding@.map_values(|h: Holder| h.view()),
                kept@.map_values(|h: Holder| h.view()) == staying(ohv.take(j as int), uv),
                match gone_name {
                    Some(n) => call_gone(ohv.take(j as int), uv) matches Some(h) && h.name == n@,
                    None => call_gone(ohv.take(j as int), uv) is None,
                },
                uv == user_views(users@),
            decreases old_holding.len() - j,
        {
            assert(ohv.take(j + 1).drop_last() == ohv.take(j as int));
            assert(ohv.take(j + 1).last() == ohv[j as int]);
            let h = &old_holding[j];
            if has_user(users, h.pid) {
                let ghost before = kept@.map_values(|h: Holder| h.view());
                kept.push(Holder { pid: h.pid, name: h.name.clone(), since: h.since, counted: h.counted });
                assert(kept@.map_values(|h: Holder| h.view()) == before.push(ohv[j as int]));
            } else if h.counted {
                gone_name = Some(h.name.clone());
            }
            j = j + 1;
        }
        assert(ohv.take(old_holding.len() as int) == ohv);
        if let Some(name) = gone_name {
            self.ended = Some(Ended { name, at: now });
        }
        let ghost ended1 = self@.ended;

        // Who has held long enough.
        let just_ended = self.ended.is_some();
        let ghost kv = kept@.map_values(|h: Holder| h.view());
        let mut counted_any = false;
        let mut k: usize = 0;
        while k < kept.len()
            invariant
                k <= kept.len(),
                kv.len() == kept@.len(),
                forall|m: int| 0 <= m < k ==> kept@[m].view() == count(kv[m], just_ended, now),
                forall|m: int| k <= m < kept@.len() ==> kept@[m].view() == kv[m],
                counted_any == (exists|m: int| 0 <= m < k && kept@[m].counted),
            decreases kept.len() - k,
        {
            let held_for = elapsed(kept[k].since, now);
            let counted = kept[k].counted || held_for >= CALL_AFTER || (just_ended && held_for >= NOTICE_AFTER);
            let ghost before = kept@;
            let mut h = kept.remove(k);
            h.counted = counted;
            kept.insert(k, h);
            assert(forall|m: int| 0 <= m < kept@.len() && m != k ==> kept@[m] == before[m]);
            assert(kept@[k as int].counted == counted);
            if counted {
                counted_any = true;
            }
            assert(counted_any == (exists|m: int| 0 <= m < k + 1 && kept@[m].counted)) by {
                if exists|m: int| 0 <= m < k + 1 && kept@[m].counted {
                    let m = choose|m: int| 0 <= m < k + 1 && kept@[m].counted;
                    if m < k {
                        assert(before[m].counted);
                    }
                }
                if exists|m: int| 0 <= m < k && before[m].counted {
                    let m = choose|m: int| 0 <= m < k && before[m].counted;
                    assert(kept@[m].counted);
                }
            }
            k = k + 1;
        }
        let ghost counted_view = kv.map_values(|h: HolderView| count(h, just_ended, now));
        assert(kept@.map_values(|h: Holder| h.view()) =~= counted_view);
        assert(any_counted(counted_view) == counted_any) by {
            if counted_any {
                let m = choose|m: int| 0 <= m < kept@.len() && kept@[m].counted;
                assert(counted_view[m].counted);
            }
            if any_counted(counted_view) {
                let m = choose|m: int| 0 <= m < counted_view.len() && counted_view[m].counted;
                assert(kept@[m].counted);
            }
        }
        self.holding = kept;

        if counted_any || !recording || !stop_when_call_ends {
            self.ended = None;
        }
        let mut stop = false;
        let mut ending_in: Option<u64> = None;
        if let Some(ended) = &self.ended {
            let since_end = elapsed(ended.at, now);
            if since_end >= GRACE {
                stop = true;
            } else {
                ending_in = Some((GRACE - since_end + SECOND - 1) / SECOND);
            }
        }

        let app = if stop {
            None
        } else if let Some(ended) = &self.ended {
            Some(ended.name.clone())
        } else {
            self.earliest_name(now)
        };
        if stop {
            self.ended = None;
        }
        Tick { state: CallState { app, ending_in }, stop }
    }

    fn earliest_name(&self, now: u64) -> (r: Option<String>)
        ensures
            match earliest(self@.holders, now) {
                Some(h) => r matches Some(n) && n@ == h.name,
                None => r is None,
            },
    {
        let ghost hv = self@.holders;
        let mut best: Option<usize> = None;
        let mut i: usize = 0;
        while i < self.holding.len()
            invariant
                i <= self.holding.len(),
                hv == self@.holders,
                match best {
                    Some(b) => b < i && earliest(hv.take(i as int), now) == Some(hv[b as int]),
                    None => earliest(hv.take(i as int), now) is None,
                },
            decreases self.holding.len() - i,
        {
            assert(hv.take(i + 1).drop_last() == hv.take(i as int));
            assert(hv.take(i + 1).last() == hv[i as int]);
            let h = &self.holding[i];
            let noticed = h.counted || elapsed(h.since, now) >= NOTICE_AFTER;
            if noticed {
                match best {
                    None => {
                        best = Some(i);
                    },
                    Some(b) => {
                        let other = &self.holding[b];
                        if h.since < other.since || (h.since == other.since && less_than(
                            h.name.as_str(),
                            other.name.as_str(),
                        )) {
                            best = Some(i);
                        }
                    },
                }
            }
            i = i + 1;
        }
        assert(hv.take(self.holding.len() as int) == hv);
        match best {
            Some(b) => Some(self.holding[b].name.clone()),
            None => None,
        }
    }

    /// The user wants the recording to go on although the call ended.
    pub fn keep(&mut self)
        ensures
            final(self)@.holders == old(self)@.holders,
            final(self)@.ended is None,
    {
        self.ended = None;
    }
}

// ---------------------------------------------------------------------------------------
// What holds of every step.

proof fn lemma_arrive_keeps(holders: Seq<HolderView>, users: Seq<(u32, Seq<char>)>, now: u64)
    ensures
        arrive(holders, users, now).len() >= holders.len(),
        forall|i: int| 0 <= i < holders.len() ==> #[trigger] arrive(holders, users, now)[i] == holders[i],
    decreases users.len(),
{
    if users.len() > 0 {
        lemma_arrive_keeps(holders, users.drop_last(), now);
    }
}

proof fn lemma_staying_keeps(holders: Seq<HolderView>, users: Seq<(u32, Seq<char>)>, i: int)
    requires
        0 <= i < holders.len(),
        has_pid(users, holders[i].pid),
    ensures
        exists|j: int| 0 <= j < staying(holders, users).len() && #[trigger] staying(holders, users)[j] == holders[i],
    decreases holders.len(),
{
    if i == holders.len() - 1 {
        let s = staying(holders, users);
        assert(s[s.len() - 1] == holders[i]);
    } else {
        lemma_staying_keeps(holders.drop_last(), users, i);
        let j = choose|j: int| 0 <= j < staying(holders.drop_last(), users).len() && staying(holders.drop_last(), users)[j] == holders.drop_last()[i];
        assert(staying(holders, users)[j] == holders[i]);
    }
}

/// Without a recording, or with the setting off, a call ending shows nothing and stops
/// nothing.
pub proof fn law_no_countdown_without_recording(
    w: WatchView,
    now: u64,
    users: Seq<(u32, Seq<char>)>,
    recording: bool,
    stop_when_call_ends: bool,
)
    requires
        !recording || !stop_when_call_ends,
    ensures
        ({
            let (next, tick) = step(w, now, users, recording, stop_when_call_ends);
            !tick.stop && tick.ending_in is None && next.ended is None
        }),
{
}

/// While a program that counts as a call still holds the microphone, no countdown runs
/// and nothing stops: two call programs end the recording only when both are gone.
pub proof fn law_a_call_going_on_keeps_the_recording(
    w: WatchView,
    now: u64,
    users: Seq<(u32, Seq<char>)>,
    recording: bool,
    stop_when_call_ends: bool,
    i: int,
)
    requires
        0 <= i < w.holders.len(),
        w.holders[i].counted,
        has_pid(users, w.holders[i].pid),
    ensures
        ({
            let (next, tick) = step(w, now, users, recording, stop_when_call_ends);
            !tick.stop && tick.ending_in is None && next.ended is None
        }),
{
    let arrived = arrive(w.holders, users, now);
    lemma_arrive_keeps(w.holders, users, now);
    assert(arrived[i] == w.holders[i]);
    lemma_staying_keeps(arrived, users, i);
    let stay = staying(arrived, users);
    let j = choose|j: int| 0 <= j < stay.len() && stay[j] == arrived[i];
    let ended = match call_gone(arrived, users) {
        Some(h) => Some(EndedView { name: h.name, at: now }),
        None => w.ended,
    };
    let holders = stay.map_values(|h: HolderView| count(h, ended is Some, now));
    assert(holders[j].counted);
    assert(any_counted(holders));
}

/// A recording is stopped only for a call that ended before this reading, and only once
/// the grace period since then is over.
pub proof fn law_stop_only_after_the_grace_period(
    w: WatchView,
    now: u64,
    users: Seq<(u32, Seq<char>)>,
    recording: bool,
    stop_when_call_ends: bool,
)
    ensures
        ({
            let (next, tick) = step(w, now, users, recording, stop_when_call_ends);
            tick.stop ==> (w.ended matches Some(e) && held(e.at, now) >= GRACE && next.ended is None)
        }),
{
}

/// With no countdown under way and no call leaving, nothing is stopped and no countdown
/// is shown: a short use of the microphone, or a call after "keep recording", ends nothing.
pub proof fn law_nothing_ends_without_a_call_ending(
    w: WatchView,
    now: u64,
    users: Seq<(u32, Seq<char>)>,
    recording: bool,
    stop_when_call_ends: bool,
)
    requires
        w.ended is None,
        call_gone(arrive(w.holders, users, now), users) is None,
    ensures
        ({
            let (next, tick) = step(w, now, users, recording, stop_when_call_ends);
            !tick.stop && tick.ending_in is None && next.ended is None
        }),
{
}

/// The countdown shows between 1 and 30 seconds.
pub proof fn law_countdown_within_the_grace_period(
    w: WatchView,
    now: u64,
    users: Seq<(u32, Seq<char>)>,
    recording: bool,
    stop_when_call_ends: bool,
)
    ensures
        ({
            let (next, tick) = step(w, now, users, recording, stop_when_call_ends);
            tick.ending_in matches Some(s) ==> 1 <= s <= GRACE / SECOND
        }),
{
}

// ---------------------------------------------------------------------------------------
// Program names.

/// Parts of an identifier or a path of which the last that says something is the name.
pub open spec fn is_separator(c: char) -> bool {
    c == '.' || c == '\\' || c == '/'
}

/// `s` cut at every separator, as `str::split` cuts it: always at least one part.
pub open spec fn parts(s: Seq<char>) -> Seq<Seq<char>>
    decreases s.len(),
{
    if s.len() == 0 {
        seq![Seq::<char>::empty()]
    } else {
        let before = parts(s.drop_last());
        if is_separator(s.last()) {
            before.push(Seq::<char>::empty())
        } else {
            before.update(before.len() - 1, before.last().push(s.last()))
        }
    }
}

proof fn lemma_parts_len(s: Seq<char>)
    ensures
        parts(s).len() >= 1,
    decreases s.len(),
{
    if s.len() > 0 {
        lemma_parts_len(s.drop_last());
    }
}

/// A part that can be a program's name: not empty, and not a suffix such as "exe".
pub open spec fn names_something(part: Seq<char>) -> bool {
    part.len() > 0 && part != "exe"@ && part != "app"@ && part != "helper"@
}

/// The last part that names something.
pub open spec fn last_name_part(ps: Seq<Seq<char>>) -> Option<Seq<char>>
    decreases ps.len(),
{
    if ps.len() == 0 {
        None
    } else if names_something(ps.last()) {
        Some(ps.last())
    } else {
        last_name_part(ps.drop_last())
    }
}

/// Call programs by a piece of their bundle or executable name, and what they are called.
pub open spec fn known_programs() -> Seq<(Seq<char>, Seq<char>)> {
    seq![
        ("zoom"@, "Zoom"@),
        ("com.microsoft.teams"@, "Teams"@),
        ("ms-teams"@, "Teams"@),
        ("teams.exe"@, "Teams"@),
        ("com.tencent.meeting"@, "Tencent Meeting"@),
        ("wemeet"@, "Tencent Meeting"@),
        ("com.tencent.xinwechat"@, "WeChat"@),
        ("wechat"@, "WeChat"@),
        ("weixin"@, "WeChat"@),
        ("dingtalk"@, "DingTalk"@),
        ("com.electron.lark"@, "Feishu"@),
        ("larksuite"@, "Feishu"@),
        ("feishu"@, "Feishu"@),
        ("lark.exe"@, "Feishu"@),
        ("com.google.chrome"@, "Chrome"@),
        ("chrome.exe"@, "Chrome"@),
        ("com.microsoft.edgemac"@, "Edge"@),
        ("msedge"@, "Edge"@),
        ("org.mozilla.firefox"@, "Firefox"@),
        ("firefox"@, "Firefox"@),
        ("com.apple.webkit.gpu"@, "Safari"@),
        ("com.apple.safari"@, "Safari"@),
        ("com.apple.facetime"@, "FaceTime"@),
        ("webex"@, "Webex"@),
        ("ciscocollabhost"@, "Webex"@),
        ("com.tinyspeck.slackmacgap"@, "Slack"@),
        ("slack.exe"@, "Slack"@),
        ("discord"@, "Discord"@),
        ("skype"@, "Skype"@),
    ]
}

fn known_program_table() -> (t: Vec<(&'static str, &'static str)>)
    ensures
        t@.map_values(|e: (&str, &str)| (e.0@, e.1@)) == known_programs(),
{
    let t = vec![
        ("zoom", "Zoom"),
        ("com.microsoft.teams", "Teams"),
        ("ms-teams", "Teams"),
        ("teams.exe", "Teams"),
        ("com.tencent.meeting", "Tencent Meeting"),
        ("wemeet", "Tencent Meeting"),
        ("com.tencent.xinwechat", "WeChat"),
        ("wechat", "WeChat"),
        ("weixin", "WeChat"),
        ("dingtalk", "DingTalk"),
        ("com.electron.lark", "Feishu"),
        ("larksuite", "Feishu"),
        ("feishu", "Feishu"),
        ("lark.exe", "Feishu"),
        ("com.google.chrome", "Chrome"),
        ("chrome.exe", "Chrome"),
        ("com.microsoft.edgemac", "Edge"),
        ("msedge", "Edge"),
        ("org.mozilla.firefox", "Firefox"),
        ("firefox", "Firefox"),
        ("com.apple.webkit.gpu", "Safari"),
        ("com.apple.safari", "Safari"),
        ("com.apple.facetime", "FaceTime"),
        ("webex", "Webex"),
        ("ciscocollabhost", "Webex"),
        ("com.tinyspeck.slackmacgap", "Slack"),
        ("slack.exe", "Slack"),
        ("discord", "Discord"),
        ("skype", "Skype"),
    ];
    assert(t@.map_values(|e: (&str, &str)| (e.0@, e.1@)) =~= known_programs());
    t
}

/// The name of the first known program whose key is in `lower`.
pub open spec fn first_known(lower: Seq<char>, table: Seq<(Seq<char>, Seq<char>)>) -> Option<Seq<char>>
    decreases table.len(),
{
    if table.len() == 0 {
        None
    } else if contains(lower, table[0].0) {
        Some(table[0].1)
    } else {
        first_known(lower, table.drop_first())
    }
}

/// Apple's and Windows' own processes, which open the microphone for Siri, dictation and
/// voice access, never for a call.
pub open spec fn is_system_process(lower: Seq<char>) -> bool {
    starts_with(lower, "com.apple."@) || lower == "svchost.exe"@ || lower == "audiodg.exe"@ || lower
        == "searchhost.exe"@
}

/// The everyday name of a program from its bundle identifier or executable.
pub open spec fn program_name_of(id: Seq<char>) -> Option<Seq<char>> {
    let lower = ascii_lower(id);
    match first_known(lower, known_programs()) {
        Some(name) => Some(name),
        None => if is_system_process(lower) {
            None
        } else {
            match last_name_part(parts(lower)) {
                Some(part) => Some(char_uppercase(part[0]) + part.drop_first()),
                None => None,
            }
        },
    }
}

fn split_parts(s: &[char]) -> (r: Vec<Vec<char>>)
    ensures
        r@.map_values(|p: Vec<char>| p@) == parts(s@),
{
    let mut r: Vec<Vec<char>> = Vec::new();
    r.push(Vec::new());
    let mut i: usize = 0;
    assert(r@.map_values(|p: Vec<char>| p@) =~= parts(s@.take(0)));
    while i < s.len()
        invariant
            i <= s.len(),
            r@.map_values(|p: Vec<char>| p@) == parts(s@.take(i as int)),
            r@.len() >= 1,
        decreases s.len() - i,
    {
        let ghost before = r@.map_values(|p: Vec<char>| p@);
        assert(s@.take(i + 1).drop_last() == s@.take(i as int));
        let c = s[i];
        if c == '.' || c == '\\' || c == '/' {
            r.push(Vec::new());
            assert(r@.map_values(|p: Vec<char>| p@) =~= before.push(Seq::<char>::empty()));
        } else {
            let mut last = r.pop().unwrap();
            last.push(c);
            r.push(last);
            assert(r@.map_values(|p: Vec<char>| p@) =~= before.update(before.len() - 1, before.last().push(c)));
        }
        i = i + 1;
    }
    assert(s@.take(s.len() as int) == s@);
    r
}

fn is_name_part(part: &[char]) -> (r: bool)
    ensures
        r == names_something(part@),
{
    let exe = chars_of("exe");
    let app = chars_of("app");
    let helper = chars_of("helper");
    part.len() > 0 && !same(part, exe.as_slice()) && !same(part, app.as_slice()) && !same(part, helper.as_slice())
}

/// The everyday name of a program, from its bundle identifier (macOS) or the file name of
/// its executable (Windows); none for the system's own helpers, which are not calls.
pub fn program_name(id: &str) -> (r: Option<String>)
    ensures
        match program_name_of(id@) {
            Some(name) => r matches Some(s) && s@ == name,
            None => r is None,
        },
        r matches Some(s) ==> s@.len() > 0,
{
    let original = chars_of(id);
    let lower = lower_ascii(original.as_slice());
    let table = known_program_table();
    let ghost tv = table@.map_values(|e: (&str, &str)| (e.0@, e.1@));
    let mut i: usize = 0;
    assert(tv.skip(0) == tv);
    while i < table.len()
        invariant
            i <= table.len(),
            tv == table@.map_values(|e: (&str, &str)| (e.0@, e.1@)),
            tv == known_programs(),
            lower@ == ascii_lower(id@),
            first_known(lower@, tv) == first_known(lower@, tv.skip(i as int)),
        decreases table.len() - i,
    {
        assert(tv.skip(i as int).drop_first() == tv.skip(i + 1));
        let key = chars_of(table[i].0);
        assert(tv[i as int] == (table@[i as int].0@, table@[i as int].1@));
        assert(tv.skip(i as int)[0] == tv[i as int]);
        if has(lower.as_slice(), key.as_slice()) {
            let name = table[i].1.to_owned();
            assert(first_known(lower@, tv) == Some(name@));
            assert(lower@ == ascii_lower(id@));
            assert(program_name_of(id@) == Some(name@));
            assert(known_programs()[i as int].1 == name@);
            proof {
                lemma_known_names_are_not_empty();
            }
            assert(known_programs()[i as int].1.len() > 0);
            return Some(name);
        }
        i = i + 1;
    }
    let apple = chars_of("com.apple.");
    let svchost = chars_of("svchost.exe");
    let audiodg = chars_of("audiodg.exe");
    let searchhost = chars_of("searchhost.exe");
    if matches_at(lower.as_slice(), apple.as_slice(), 0) || same(lower.as_slice(), svchost.as_slice())
        || same(lower.as_slice(), audiodg.as_slice()) || same(lower.as_slice(), searchhost.as_slice()) {
        return None;
    }
    let ps = split_parts(lower.as_slice());
    let ghost pv = ps@.map_values(|p: Vec<char>| p@);
    let mut k: usize = ps.len();
    assert(pv.take(k as int) == pv);
    assert(first_known(lower@, tv.skip(table.len() as int)) is None);
    assert(!is_system_process(lower@));
    while k > 0
        invariant
            k <= ps.len(),
            pv == ps@.map_values(|p: Vec<char>| p@),
            last_name_part(pv) == last_name_part(pv.take(k as int)),
            pv == parts(lower@),
            lower@ == ascii_lower(id@),
            first_known(lower@, known_programs()) is None,
            !is_system_process(lower@),
        decreases k,
    {
        assert(pv.take(k as int).drop_last() == pv.take(k - 1));
        assert(pv.take(k as int).last() == pv[k - 1]);
        if is_name_part(ps[k - 1].as_slice()) {
            let part = &ps[k - 1];
            let mut name = uppercase_of(part[0]);
            let rest = slice_of(part.as_slice(), 1, part.len());
            push_chars(&mut name, rest.as_slice());
            assert(rest@ == part@.drop_first());
            assert(pv[k - 1] == part@);
            assert(last_name_part(pv) == Some(part@));
            assert(name@.len() > 0);
            return Some(name);
        }
        k = k - 1;
    }
    None
}

proof fn lemma_known_names_are_not_empty()
    ensures
        forall|i: int| 0 <= i < known_programs().len() ==> (#[trigger] known_programs()[i]).1.len() > 0,
{
    reveal_strlit("Zoom");
    reveal_strlit("Teams");
    reveal_strlit("Tencent Meeting");
    reveal_strlit("WeChat");
    reveal_strlit("DingTalk");
    reveal_strlit("Feishu");
    reveal_strlit("Chrome");
    reveal_strlit("Edge");
    reveal_strlit("Firefox");
    reveal_strlit("Safari");
    reveal_strlit("FaceTime");
    reveal_strlit("Webex");
    reveal_strlit("Slack");
    reveal_strlit("Discord");
    reveal_strlit("Skype");
}

proof fn lemma_ascii_lower_twice(s: Seq<char>)
    ensures
        ascii_lower(ascii_lower(s)) == ascii_lower(s),
{
    assert forall|i: int| 0 <= i < s.len() implies #[trigger] lower_char(lower_char(s[i])) == lower_char(s[i]) by {
        let c = s[i];
        if 'A' <= c && c <= 'Z' {
            assert(((c as u32) + 32) as char as u32 == (c as u32) + 32);
        }
    }
    assert(ascii_lower(ascii_lower(s)) =~= ascii_lower(s));
}

/// Only the id with its ASCII letters made small matters to the name: two ids that differ
/// in the case of their ASCII letters name the same program, or none alike.
pub proof fn law_program_names_ignore_case(a: Seq<char>, b: Seq<char>)
    requires
        ascii_lower(a) == ascii_lower(b),
    ensures
        program_name_of(a) == program_name_of(b),
        program_name_of(ascii_lower(a)) == program_name_of(a),
{
    lemma_ascii_lower_twice(a);
}

/// Apple's and Windows' own processes that are not known call programs are never calls.
pub proof fn law_system_processes_are_not_calls(id: Seq<char>)
    requires
        first_known(ascii_lower(id), known_programs()) is None,
        is_system_process(ascii_lower(id)),
    ensures
        program_name_of(id) is None,
{
}

/// The everyday names the app shows call programs under, each with the piece of the bundle
/// identifier or executable name it is known by, in the order they are looked for.
pub open spec fn call_program_names() -> Seq<(Seq<char>, Seq<char>)> {
    seq![
        ("Zoom"@, "zoom"@),
        ("Teams"@, "com.microsoft.teams"@),
        ("Teams"@, "ms-teams"@),
        ("Teams"@, "teams.exe"@),
        ("Tencent Meeting"@, "com.tencent.meeting"@),
        ("Tencent Meeting"@, "wemeet"@),
        ("WeChat"@, "com.tencent.xinwechat"@),
        ("WeChat"@, "wechat"@),
        ("WeChat"@, "weixin"@),
        ("DingTalk"@, "dingtalk"@),
        ("Feishu"@, "com.electron.lark"@),
        ("Feishu"@, "larksuite"@),
        ("Feishu"@, "feishu"@),
        ("Feishu"@, "lark.exe"@),
        ("Chrome"@, "com.google.chrome"@),
        ("Chrome"@, "chrome.exe"@),
        ("Edge"@, "com.microsoft.edgemac"@),
        ("Edge"@, "msedge"@),
        ("Firefox"@, "org.mozilla.firefox"@),
        ("Firefox"@, "firefox"@),
        ("Safari"@, "com.apple.webkit.gpu"@),
        ("Safari"@, "com.apple.safari"@),
        ("FaceTime"@, "com.apple.facetime"@),
        ("Webex"@, "webex"@),
        ("Webex"@, "ciscocollabhost"@),
        ("Slack"@, "com.tinyspeck.slackmacgap"@),
        ("Slack"@, "slack.exe"@),
        ("Discord"@, "discord"@),
        ("Skype"@, "skype"@),
    ]
}

proof fn lemma_first_known_at(lower: Seq<char>, table: Seq<(Seq<char>, Seq<char>)>, k: int)
    requires
        0 <= k < table.len(),
        contains(lower, table[k].0),
        forall|j: int| 0 <= j < k ==> !contains(lower, #[trigger] table[j].0),
    ensures
        first_known(lower, table) == Some(table[k].1),
    decreases k,
{
    if k > 0 {
        assert(!contains(lower, table[0].0));
        assert forall|j: int| 0 <= j < k - 1 implies !contains(lower, #[trigger] table.drop_first()[j].0) by {
            assert(table.drop_first()[j] == table[j + 1]);
        }
        lemma_first_known_at(lower, table.drop_first(), k - 1);
    }
}

/// A known call program is shown under its everyday name: an id whose small-letter form
/// holds the key of entry `k` of [`call_program_names`], and none of the keys before it, is
/// named as that entry says (so "com.tencent.xinWeChat" is "WeChat").
pub proof fn law_call_programs_have_their_names(id: Seq<char>, k: int)
    requires
        0 <= k < call_program_names().len(),
        contains(ascii_lower(id), call_program_names()[k].1),
        forall|j: int| 0 <= j < k ==> !contains(ascii_lower(id), #[trigger] call_program_names()[j].1),
    ensures
        program_name_of(id) == Some(call_program_names()[k].0),
{
    assert(known_programs() =~= call_program_names().map_values(|e: (Seq<char>, Seq<char>)| (e.1, e.0)));
    lemma_first_known_at(ascii_lower(id), known_programs(), k);
}

} // verus!
