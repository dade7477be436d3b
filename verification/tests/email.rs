use zillanote::email::{
    escape, explain, main_topic, minutes_bodies, minutes_message, minutes_parts, password, render_html, server_for, subject,
    EmailSettings, Server,
};

fn settings(from: &str, server: &str) -> EmailSettings {
    EmailSettings {
        to: "hui@example.com".to_string(),
        from: from.to_string(),
        password: "app-password".to_string(),
        server: server.to_string(),
    }
}

#[test]
fn the_server_comes_from_the_senders_domain_unless_one_is_given() {
    let server = |from, custom| server_for(&settings(from, custom));

    assert_eq!(server("me@Gmail.com", "").unwrap(), Server { host: "smtp.gmail.com".into(), port: 465 });
    assert_eq!(server("me@qq.com", "").unwrap().host, "smtp.qq.com");
    assert_eq!(server("me@outlook.com", "").unwrap().port, 587);
    assert_eq!(
        server("me@corp.example", "mail.corp.example:587").unwrap(),
        Server { host: "mail.corp.example".into(), port: 587 }
    );
    assert_eq!(server("me@corp.example", "mail.corp.example").unwrap().port, 465);
    assert!(server("me@corp.example", "").unwrap_err().contains("corp.example"));
    assert!(server("me@corp.example", "host:abc").is_err());
}

#[test]
fn a_refused_login_comes_with_advice_and_other_failures_as_they_are() {
    let gmail = Server { host: "smtp.gmail.com".into(), port: 465 };
    // What Gmail answers to the Google password of an account with 2-Step Verification.
    let wants_app_password = "permanent error (534): 5.7.9 Application-specific password required. \
                              For more information, go to https://support.google.com/mail/?p=InvalidSecondFactor";

    let refused = explain(&gmail, wants_app_password);
    assert!(refused.contains("did not accept") && refused.contains("myaccount.google.com/apppasswords"), "{refused}");
    assert!(refused.contains("(534)"), "the server's own words stay in: {refused}");
    assert!(explain(&gmail, "permanent error (535): 5.7.8 Username and Password not accepted").contains("app password"));

    let untrusted = explain(&gmail, "Connection error: invalid peer certificate: unknown certificate authority");
    assert!(untrusted.starts_with("Could not send through"), "not a matter of passwords: {untrusted}");

    let unreachable = explain(&gmail, "Connection error: timed out");
    assert_eq!(unreachable, "Could not send through smtp.gmail.com:465: Connection error: timed out");
}

#[test]
fn a_google_app_password_pasted_in_its_four_groups_loses_the_spaces() {
    let typed = |typed: &str| password(&EmailSettings { password: typed.into(), ..settings("me@gmail.com", "") });

    assert_eq!(typed(" abcd efgh  ijkl mnop "), "abcdefghijklmnop");
    assert_eq!(typed("my own pass word"), "my own pass word", "any other password is left as typed");
    assert_eq!(typed("abcd efgh ijkl"), "abcd efgh ijkl");
}

#[test]
fn email_is_on_only_when_recipient_sender_and_password_are_all_set() {
    assert!(settings("me@qq.com", "").is_configured());
    assert!(!EmailSettings { password: " ".into(), ..settings("me@qq.com", "") }.is_configured());
    assert!(!EmailSettings::default().is_configured());
}

#[test]
fn the_message_carries_the_minutes_as_text_and_as_html() {
    let message = minutes_message(
        &settings("me@qq.com", ""),
        "周会 <Q3>",
        "2026-09-20 10:30",
        "## 决定\n\n| Action | Owner |\n|---|---|\n| Send deck | unassigned |",
    )
    .unwrap();
    let raw = String::from_utf8(message.message.formatted()).unwrap();

    assert!(raw.contains("To: hui@example.com"));
    assert!(raw.contains("From: ZillaNote <me@qq.com>"));
    assert!(raw.contains("multipart/alternative"));
    assert!(raw.contains("text/plain") && raw.contains("text/html"));
}

#[test]
fn the_subject_has_the_day_and_what_the_meeting_was_about() {
    let when = "2026-09-20 16:34";
    // The meeting was never named, and the model opened with the date: the first topic says more.
    let minutes = "# 2026年9月20日 会议\n\n## 1. 预算与收入测算\n**目标:**\n- ...\n\n## 2. 招聘\n";
    assert_eq!(subject("Meeting 2026-09-20 16:34", when, minutes), "Minutes 2026-09-20: 预算与收入测算");

    // A title the model wrote itself is the main topic.
    assert_eq!(
        subject("Meeting 2026-09-20 16:34", when, "# Q3 supplier review\n\n## 1. Prices\n"),
        "Minutes 2026-09-20: Q3 supplier review"
    );
    // The user's own name for the meeting comes first.
    assert_eq!(subject("Board prep", when, minutes), "Minutes 2026-09-20: Board prep");
    // Section names say nothing either; with nothing better, the subject stays plain.
    assert_eq!(
        subject("Meeting 2026-09-20 16:34", when, "# Meeting 2026-09-20 16:34\n## Overview\n## **Pricing** for 2027\n"),
        "Minutes 2026-09-20: Pricing for 2027"
    );
    assert_eq!(subject("Meeting 2026-09-20 16:34", when, "## Summary\nShort."), "Minutes 2026-09-20: Meeting");
    // The test mail has a sentence where the date goes.
    assert_eq!(
        subject("ZillaNote test", "If you can read this, minutes will arrive here.", "## It works"),
        "Minutes: ZillaNote test"
    );
}

#[test]
fn html_in_the_minutes_is_shown_not_run() {
    let html = render_html("## Plan\n\n<script>alert(1)</script> and <img src=x onerror=y>\n\n| A | B |\n|---|---|\n| 1 | 2 |");

    assert!(html.contains("<h2>Plan</h2>"));
    assert!(!html.contains("<script>") && !html.contains("<img"));
    assert!(html.contains("&lt;script&gt;"));
    assert!(html.contains("<td>1</td>"));
}

#[test]
fn a_bad_address_is_reported_before_anything_is_sent() {
    let mut bad = settings("me@qq.com", "");
    bad.to = "not-an-address".to_string();

    assert!(minutes_message(&bad, "T", "now", "x").err().unwrap().contains("not-an-address"));
}

// Of our own.

#[test]
fn a_bad_sender_is_reported_too() {
    let bad = settings("nobody", "");
    assert!(minutes_message(&bad, "T", "now", "x").err().unwrap().contains("nobody"));
}

#[test]
fn a_custom_server_with_a_port_past_the_range_is_refused() {
    assert!(server_for(&settings("me@corp.example", "mail.corp.example:70000")).is_err());
}

#[test]
fn the_known_providers_each_have_their_server() {
    let host = |from| server_for(&settings(from, "")).unwrap();
    assert_eq!(host("me@163.com"), Server { host: "smtp.163.com".into(), port: 465 });
    assert_eq!(host("me@icloud.com").host, "smtp.mail.me.com");
}

#[test]
fn markup_is_escaped() {
    assert_eq!(escape("a < b && c > d"), "a &lt; b &amp;&amp; c &gt; d");
}

#[test]
fn tables_get_borders() {
    let html = render_html("| A |\n|---|\n| 1 |");
    assert!(html.contains("<table style=\"border-collapse:collapse\" border=\"1\" cellpadding=\"6\">"), "{html}");
}

#[test]
fn the_bodies_carry_title_and_time() {
    let (plain, html) = minutes_bodies("Weekly", "2026-09-20 10:30", "## Done\nAll.");
    assert!(plain.starts_with("Weekly"), "{plain}");
    assert!(plain.contains("2026-09-20 10:30"), "{plain}");
    assert!(html.contains("<h2>Done</h2>"), "{html}");
}

#[test]
fn the_main_topic_prefers_the_users_title() {
    assert_eq!(main_topic("Board prep", "# Something\n"), "Board prep");
}

#[test]
fn other_providers_get_general_advice() {
    let other = Server { host: "smtp.example.org".into(), port: 587 };
    let refused = explain(&other, "535 authentication failed");
    assert!(refused.contains("Most providers take an app password here"), "{refused}");
}

#[test]
fn the_mail_goes_from_the_sender_to_the_recipient_with_the_subject_and_both_bodies() {
    let mut email = settings(" me@example.com ", "");
    email.to = " hui@example.com\n".to_string();
    let minutes = "## Budget\nDecided.";
    let (sender, to, subject_line, plain, html) = minutes_parts(&email, "", "2026-09-21 10:00", minutes);
    assert_eq!(sender, "ZillaNote <me@example.com>");
    assert_eq!(to, "hui@example.com");
    assert_eq!(subject_line, subject("", "2026-09-21 10:00", minutes));
    let (plain_body, html_body) = minutes_bodies("", "2026-09-21 10:00", minutes);
    assert_eq!((plain, html), (plain_body, html_body));
    assert!(minutes_message(&email, "", "2026-09-21 10:00", minutes).is_ok());
}

#[test]
fn every_known_domain_has_its_provider() {
    let expected = [
        ("gmail.com", "smtp.gmail.com", 465),
        ("googlemail.com", "smtp.gmail.com", 465),
        ("qq.com", "smtp.qq.com", 465),
        ("foxmail.com", "smtp.qq.com", 465),
        ("163.com", "smtp.163.com", 465),
        ("126.com", "smtp.126.com", 465),
        ("outlook.com", "smtp-mail.outlook.com", 587),
        ("hotmail.com", "smtp-mail.outlook.com", 587),
        ("live.com", "smtp-mail.outlook.com", 587),
        ("msn.com", "smtp-mail.outlook.com", 587),
        ("icloud.com", "smtp.mail.me.com", 587),
        ("me.com", "smtp.mail.me.com", 587),
        ("mac.com", "smtp.mail.me.com", 587),
        ("yahoo.com", "smtp.mail.yahoo.com", 465),
    ];
    for (domain, host, port) in expected {
        let found = server_for(&settings(&format!(" me@{domain} "), "")).unwrap();
        assert_eq!(found, Server { host: host.into(), port }, "{domain}");
    }
}
