use zillanote::calls::{program_name, CallState, CallWatch, MicUser, Tick, CALL_AFTER, GRACE, NOTICE_AFTER, SECOND};

fn user(pid: u32, name: &str) -> MicUser {
    MicUser { pid, name: name.to_string() }
}

/// An arbitrary origin for the monotonic clock.
const T0: u64 = 1_000 * SECOND;

fn secs(n: u64) -> u64 {
    n * SECOND
}

/// Runs the watch second by second from `start`, with `users` present throughout, and
/// returns the last tick.
fn run(watch: &mut CallWatch, start: u64, seconds: u64, users: &[MicUser], recording: bool) -> Tick {
    let mut last = Tick::default();
    for second in 0..=seconds {
        last = watch.observe(start + secs(second), users, recording, true);
    }
    last
}

#[test]
fn a_program_that_holds_the_microphone_for_a_few_seconds_is_a_meeting_starting() {
    let mut watch = CallWatch::new();
    let t0 = T0;
    let zoom = [user(7, "Zoom")];
    assert_eq!(watch.observe(t0, &zoom, false, true).state.app, None, "not on the first sight");
    assert_eq!(watch.observe(t0 + secs(1), &zoom, false, true).state.app, None);
    assert_eq!(watch.observe(t0 + NOTICE_AFTER, &zoom, false, true).state.app.as_deref(), Some("Zoom"));
    // Gone again: Siri's listener does this all day.
    assert_eq!(watch.observe(t0 + secs(4), &[], false, true), Tick::default());
}

#[test]
fn a_short_use_of_the_microphone_never_ends_a_recording() {
    let mut watch = CallWatch::new();
    let t0 = T0;
    run(&mut watch, t0, 20, &[user(3, "Dictation")], true);
    let after = run(&mut watch, t0 + secs(21), 40, &[], true);
    assert_eq!(after, Tick::default());
}

#[test]
fn the_call_ending_counts_down_and_then_stops_the_recording() {
    let mut watch = CallWatch::new();
    let t0 = T0;
    let zoom = [user(7, "Zoom")];
    let on = run(&mut watch, t0, CALL_AFTER / SECOND + 5, &zoom, true);
    assert_eq!(on.state, CallState { app: Some("Zoom".into()), ending_in: None });

    let t1 = t0 + secs(CALL_AFTER / SECOND + 6);
    let first = watch.observe(t1, &[], true, true);
    assert_eq!(first.state, CallState { app: Some("Zoom".into()), ending_in: Some(30) });
    assert!(!first.stop);
    let later = watch.observe(t1 + secs(12), &[], true, true);
    assert_eq!(later.state.ending_in, Some(18));
    let last = watch.observe(t1 + GRACE, &[], true, true);
    assert!(last.stop, "the grace period is over");
    assert_eq!(last.state, CallState::default());
    // Once is enough.
    assert!(!watch.observe(t1 + GRACE + secs(1), &[], false, true).stop);
}

#[test]
fn a_reconnect_within_the_grace_period_is_the_same_call() {
    let mut watch = CallWatch::new();
    let t0 = T0;
    let teams = [user(9, "Teams")];
    run(&mut watch, t0, CALL_AFTER / SECOND, &teams, true);
    let t1 = t0 + secs(CALL_AFTER / SECOND + 1);
    assert_eq!(watch.observe(t1, &[], true, true).state.ending_in, Some(30));
    // Back, under a new process id (Teams restarts its media helper), for more than a moment.
    let back = [user(10, "Teams")];
    let resumed = run(&mut watch, t1 + secs(5), NOTICE_AFTER / SECOND, &back, true);
    assert_eq!(resumed.state, CallState { app: Some("Teams".into()), ending_in: None });
    // And that call ending later counts down again, without another minute of holding.
    let t2 = t1 + secs(20);
    assert_eq!(watch.observe(t2, &[], true, true).state.ending_in, Some(30));
}

#[test]
fn keep_recording_cancels_the_countdown_until_the_next_call_ends() {
    let mut watch = CallWatch::new();
    let t0 = T0;
    let zoom = [user(7, "Zoom")];
    run(&mut watch, t0, CALL_AFTER / SECOND, &zoom, true);
    let t1 = t0 + secs(CALL_AFTER / SECOND + 1);
    assert!(watch.observe(t1, &[], true, true).state.ending_in.is_some());
    watch.keep();
    let quiet = run(&mut watch, t1 + secs(1), GRACE / SECOND + 10, &[], true);
    assert_eq!(quiet, Tick::default(), "no stop, nothing shown");
    // The next call is a call of its own, a minute to count and thirty seconds to end.
    let t2 = t1 + secs(100);
    run(&mut watch, t2, CALL_AFTER / SECOND, &[user(8, "Zoom")], true);
    assert_eq!(watch.observe(t2 + secs(61), &[], true, true).state.ending_in, Some(30));
}

#[test]
fn without_a_recording_or_with_the_setting_off_a_call_ending_shows_nothing() {
    let t0 = T0;
    let zoom = [user(7, "Zoom")];
    let mut idle = CallWatch::new();
    run(&mut idle, t0, CALL_AFTER / SECOND, &zoom, false);
    assert_eq!(idle.observe(t0 + secs(61), &[], false, true), Tick::default());

    let mut off = CallWatch::new();
    run(&mut off, t0, CALL_AFTER / SECOND, &zoom, true);
    assert_eq!(off.observe(t0 + secs(61), &[], true, false), Tick::default());
}

#[test]
fn two_call_programs_end_the_recording_only_when_both_are_gone() {
    let mut watch = CallWatch::new();
    let t0 = T0;
    watch.observe(t0, &[user(7, "Zoom")], true, true);
    let both = [user(7, "Zoom"), user(9, "Teams")];
    let on = run(&mut watch, t0 + secs(1), CALL_AFTER / SECOND, &both, true);
    assert_eq!(on.state.app.as_deref(), Some("Zoom"), "the first to open the microphone is named");
    let t1 = t0 + secs(62);
    let one_left = watch.observe(t1, &[user(9, "Teams")], true, true);
    assert_eq!(one_left.state, CallState { app: Some("Teams".into()), ending_in: None });
    assert_eq!(watch.observe(t1 + secs(1), &[], true, true).state.ending_in, Some(30));
}

#[test]
fn programs_are_known_by_their_everyday_names_and_the_systems_own_are_not_calls() {
    assert_eq!(program_name("us.zoom.xos").as_deref(), Some("Zoom"));
    assert_eq!(program_name("Zoom.exe").as_deref(), Some("Zoom"));
    assert_eq!(program_name("com.microsoft.teams2").as_deref(), Some("Teams"));
    assert_eq!(program_name("ms-teams.exe").as_deref(), Some("Teams"));
    assert_eq!(program_name("com.tencent.meeting").as_deref(), Some("Tencent Meeting"));
    assert_eq!(program_name("wemeetapp.exe").as_deref(), Some("Tencent Meeting"));
    assert_eq!(program_name("com.google.Chrome.helper").as_deref(), Some("Chrome"));
    assert_eq!(program_name("com.apple.WebKit.GPU").as_deref(), Some("Safari"));
    assert_eq!(program_name("com.apple.FaceTime").as_deref(), Some("FaceTime"));
    assert_eq!(program_name("com.apple.CoreSpeech"), None);
    assert_eq!(program_name("svchost.exe"), None);
    assert_eq!(program_name("com.example.Whisperer").as_deref(), Some("Whisperer"));
    assert_eq!(program_name("C:\\Apps\\Voicechat.exe").as_deref(), Some("Voicechat"));
    assert_eq!(program_name("sox").as_deref(), Some("Sox"));
}

// Laws, on concrete values.

#[test]
fn no_countdown_is_shown_without_a_recording() {
    let mut watch = CallWatch::new();
    let zoom = [user(7, "Zoom")];
    for second in 0..=70 {
        let tick = watch.observe(T0 + secs(second), &zoom, false, true);
        assert_eq!(tick.state.ending_in, None);
        assert!(!tick.stop);
    }
    let gone = watch.observe(T0 + secs(71), &[], false, true);
    assert_eq!(gone.state.ending_in, None);
    assert!(!gone.stop);
}

#[test]
fn a_call_going_on_never_stops_the_recording() {
    let mut watch = CallWatch::new();
    let zoom = [user(7, "Zoom")];
    for second in 0..=200 {
        assert!(!watch.observe(T0 + secs(second), &zoom, true, true).stop);
    }
}

#[test]
fn the_countdown_never_shows_more_than_the_grace_period() {
    let mut watch = CallWatch::new();
    run(&mut watch, T0, CALL_AFTER / SECOND, &[user(7, "Zoom")], true);
    for second in 1..=GRACE / SECOND {
        let tick = watch.observe(T0 + secs(CALL_AFTER / SECOND + second), &[], true, true);
        if let Some(left) = tick.state.ending_in {
            assert!(left <= GRACE / SECOND);
        }
    }
}

#[test]
fn a_new_watch_shows_nothing() {
    let mut watch = CallWatch::new();
    assert_eq!(watch.observe(T0, &[], true, true), Tick::default());
}

#[test]
fn names_do_not_depend_on_letter_case_and_are_never_empty() {
    for id in ["us.zoom.xos", "com.Microsoft.Teams2", "C:\\Program Files\\Obs\\obs64.exe", "org.example.Recorder", "COM.APPLE.SIRI"] {
        assert_eq!(program_name(id), program_name(&id.to_ascii_uppercase()));
        assert_eq!(program_name(id), program_name(&id.to_ascii_lowercase()));
        assert!(program_name(id).map_or(true, |name| !name.is_empty()));
    }
    assert_eq!(program_name("com.apple.corespeech"), None);
}
