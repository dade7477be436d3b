//! Sends the minutes to one fixed address through the user's own mail account: which
//! server to use, the subject line, the message itself, and what to say when it fails.

use vstd::prelude::*;
use vstd::string::StringSliceAdditionalSpecFns;
use vstd::utf8::{decode_utf8, encode_utf8, is_char_boundary};

use lettre::message::{Mailbox, MultiPart};
use lettre::Message;
use pulldown_cmark::{html, Event, Options, Parser};

use crate::text::{
    all_digits, alphabetic, alphabetic_count, chars_of, contains, decimal, first_at, has, is_alphabetic,
    is_ascii_alpha, is_ascii_digit, lines, lowercase, parse_u16, parses_as_u16, push_decimal, push_str,
    remove_chars, replace_all, replace_in, replaced, same, slice_of, split_lines, split_words, starts_with,
    string_of, to_lowercase, trim, trim_bounds, trim_start, trim_start_at, trimmed, without_chars, words,
    matches_at, lemma_words,
};

verus! {

#[verifier::external_type_specification]
#[verifier::external_body]
pub struct ExMailbox(Mailbox);

#[verifier::external_type_specification]
#[verifier::external_body]
pub struct ExMessage(Message);

#[derive(Debug, Clone, Default, PartialEq)]
pub struct EmailSettings {
    /// Where every set of minutes goes.
    pub to: String,
    /// The account that sends them.
    pub from: String,
    /// That account's app password (Gmail, iCloud, Yahoo) or authorization code (QQ, 163).
    pub password: String,
    /// `host` or `host:port`. Empty for the providers the app already knows.
    pub server: String,
}

impl EmailSettings {
    /// Minutes are emailed whenever these three are filled in.
    pub open spec fn configured(&self) -> bool {
        trim(self.to@).len() > 0 && trim(self.from@).len() > 0 && trim(self.password@).len() > 0
    }

    pub fn is_configured(&self) -> (r: bool)
        ensures
            r == self.configured(),
    {
        let to = trimmed(self.to.as_str());
        let from = trimmed(self.from.as_str());
        let password = trimmed(self.password.as_str());
        !to.as_str().is_empty() && !from.as_str().is_empty() && !password.as_str().is_empty()
    }
}

#[derive(Debug, Clone, PartialEq, Eq)]
pub struct Server {
    pub host: String,
    pub port: u16,
}

// ---------------------------------------------------------------------------------------
// The server.

/// The mail providers the app knows: their domains, outgoing server and port.
pub open spec fn known_servers() -> Seq<(Seq<Seq<char>>, Seq<char>, u16)> {
    seq![
        (seq!["gmail.com"@, "googlemail.com"@], "smtp.gmail.com"@, 465u16),
        (seq!["qq.com"@, "foxmail.com"@], "smtp.qq.com"@, 465u16),
        (seq!["163.com"@], "smtp.163.com"@, 465u16),
        (seq!["126.com"@], "smtp.126.com"@, 465u16),
        (seq!["outlook.com"@, "hotmail.com"@, "live.com"@, "msn.com"@], "smtp-mail.outlook.com"@, 587u16),
        (seq!["icloud.com"@, "me.com"@, "mac.com"@], "smtp.mail.me.com"@, 587u16),
        (seq!["yahoo.com"@], "smtp.mail.yahoo.com"@, 465u16),
    ]
}

fn known_server_table() -> (t: Vec<(Vec<&'static str>, &'static str, u16)>)
    ensures
        t@.map_values(|e: (Vec<&str>, &str, u16)| (e.0@.map_values(|d: &str| d@), e.1@, e.2)) == known_servers(),
{
    let t = vec![
        (vec!["gmail.com", "googlemail.com"], "smtp.gmail.com", 465u16),
        (vec!["qq.com", "foxmail.com"], "smtp.qq.com", 465u16),
        (vec!["163.com"], "smtp.163.com", 465u16),
        (vec!["126.com"], "smtp.126.com", 465u16),
        (vec!["outlook.com", "hotmail.com", "live.com", "msn.com"], "smtp-mail.outlook.com", 587u16),
        (vec!["icloud.com", "me.com", "mac.com"], "smtp.mail.me.com", 587u16),
        (vec!["yahoo.com"], "smtp.mail.yahoo.com", 465u16),
    ];
    let ghost m = t@.map_values(|e: (Vec<&str>, &str, u16)| (e.0@.map_values(|d: &str| d@), e.1@, e.2));
    assert(m[0].0 =~= known_servers()[0].0);
    assert(m[1].0 =~= known_servers()[1].0);
    assert(m[2].0 =~= known_servers()[2].0);
    assert(m[3].0 =~= known_servers()[3].0);
    assert(m[4].0 =~= known_servers()[4].0);
    assert(m[5].0 =~= known_servers()[5].0);
    assert(m[6].0 =~= known_servers()[6].0);
    assert(m =~= known_servers());
    t
}

/// The host and port of the first known provider that has `domain`.
pub open spec fn known_server(domain: Seq<char>, table: Seq<(Seq<Seq<char>>, Seq<char>, u16)>) -> Option<(Seq<char>, u16)>
    decreases table.len(),
{
    if table.len() == 0 {
        None
    } else if table[0].0.contains(domain) {
        Some((table[0].1, table[0].2))
    } else {
        known_server(domain, table.drop_first())
    }
}

/// `i` is the last position of `c` in `s`.
pub open spec fn last_char_at(s: Seq<char>, c: char, i: int) -> bool {
    0 <= i < s.len() && s[i] == c && forall|j: int| i < j < s.len() ==> s[j] != c
}

/// What follows the last `c` in `s`; all of `s` if there is none (`rsplit(c).next()`).
pub open spec fn after_last(s: Seq<char>, c: char) -> Seq<char> {
    if exists|i: int| last_char_at(s, c, i) {
        s.skip((choose|i: int| last_char_at(s, c, i)) + 1)
    } else {
        s
    }
}

proof fn lemma_last_char_unique(s: Seq<char>, c: char, i: int, j: int)
    requires
        last_char_at(s, c, i),
        last_char_at(s, c, j),
    ensures
        i == j,
{
}

fn last_char(s: &[char], c: char) -> (r: Option<usize>)
    ensures
        match r {
            Some(i) => last_char_at(s@, c, i as int),
            None => forall|i: int| 0 <= i < s@.len() ==> s@[i] != c,
        },
{
    let mut i = s.len();
    while i > 0
        invariant
            i <= s.len(),
            forall|j: int| i <= j < s@.len() ==> s@[j] != c,
        decreases i,
    {
        i = i - 1;
        if s[i] == c {
            return Some(i);
        }
    }
    None
}

pub open spec fn port_error(port: Seq<char>) -> Seq<char> {
    "\""@ + port + "\" is not a port number."@
}

pub open spec fn unknown_domain_error(domain: Seq<char>) -> Seq<char> {
    "Enter the outgoing mail (SMTP) server for "@ + domain + " in Settings."@
}

/// The outgoing server for the settings: the one written in, `host` or `host:port` (465
/// when no port is given); else the known provider of the sender's domain.
pub open spec fn server_of(to: Seq<char>, from: Seq<char>, server: Seq<char>) -> Result<(Seq<char>, u16), Seq<char>> {
    let custom = trim(server);
    if custom.len() > 0 {
        if exists|i: int| last_char_at(custom, ':', i) {
            let i = choose|i: int| last_char_at(custom, ':', i);
            match parses_as_u16(custom.skip(i + 1)) {
                Some(port) => Ok((custom.take(i), port)),
                None => Err(port_error(custom.skip(i + 1))),
            }
        } else {
            Ok((custom, 465u16))
        }
    } else {
        let domain = lowercase(after_last(trim(from), '@'));
        match known_server(domain, known_servers()) {
            Some(found) => Ok(found),
            None => Err(unknown_domain_error(domain)),
        }
    }
}

pub fn server_for(settings: &EmailSettings) -> (r: Result<Server, String>)
    ensures
        match server_of(settings.to@, settings.from@, settings.server@) {
            Ok((host, port)) => r matches Ok(s) && s.host@ == host && s.port == port,
            Err(e) => r matches Err(m) && m@ == e,
        },
{
    let server_chars = chars_of(settings.server.as_str());
    let (a, b) = trim_bounds(server_chars.as_slice());
    let custom = slice_of(server_chars.as_slice(), a, b);
    if custom.len() > 0 {
        match last_char(custom.as_slice(), ':') {
            Some(i) => {
                proof {
                    let c = choose|c: int| last_char_at(custom@, ':', c);
                    lemma_last_char_unique(custom@, ':', c, i as int);
                }
                let port_text = slice_of(custom.as_slice(), i + 1, custom.len());
                assert(port_text@ == custom@.skip(i + 1));
                match parse_u16(port_text.as_slice()) {
                    Some(port) => {
                        let host = slice_of(custom.as_slice(), 0, i);
                        assert(host@ == custom@.take(i as int));
                        Ok(Server { host: string_of(host.as_slice()), port })
                    },
                    None => {
                        let mut m = String::new();
                        push_str(&mut m, "\"");
                        let p = string_of(port_text.as_slice());
                        push_str(&mut m, p.as_str());
                        push_str(&mut m, "\" is not a port number.");
                        Err(m)
                    },
                }
            },
            None => {
                assert(!exists|i: int| last_char_at(custom@, ':', i));
                Ok(Server { host: string_of(custom.as_slice()), port: 465 })
            },
        }
    } else {
        let from_chars = chars_of(settings.from.as_str());
        let (fa, fb) = trim_bounds(from_chars.as_slice());
        let from = slice_of(from_chars.as_slice(), fa, fb);
        let tail = match last_char(from.as_slice(), '@') {
            Some(i) => {
                proof {
                    let c = choose|c: int| last_char_at(from@, '@', c);
                    lemma_last_char_unique(from@, '@', c, i as int);
                }
                slice_of(from.as_slice(), i + 1, from.len())
            },
            None => {
                assert(!exists|i: int| last_char_at(from@, '@', i));
                slice_of(from.as_slice(), 0, from.len())
            },
        };
        assert(tail@ == after_last(trim(settings.from@), '@'));
        let tail_string = string_of(tail.as_slice());
        let domain = to_lowercase(tail_string.as_str());
        let domain_chars = chars_of(domain.as_str());
        let table = known_server_table();
        let ghost tv = table@.map_values(|e: (Vec<&str>, &str, u16)| (e.0@.map_values(|d: &str| d@), e.1@, e.2));
        let mut k: usize = 0;
        assert(tv.skip(0) == tv);
        while k < table.len()
            invariant
                k <= table.len(),
                tv == table@.map_values(|e: (Vec<&str>, &str, u16)| (e.0@.map_values(|d: &str| d@), e.1@, e.2)),
                tv == known_servers(),
                domain_chars@ == domain@,
                known_server(domain@, tv) == known_server(domain@, tv.skip(k as int)),
                domain@ == lowercase(after_last(trim(settings.from@), '@')),
                trim(settings.server@).len() == 0,
            decreases table.len() - k,
        {
            assert(tv.skip(k as int).drop_first() == tv.skip(k + 1));
            assert(tv.skip(k as int)[0] == tv[k as int]);
            let domains = &table[k].0;
            let ghost dv = domains@.map_values(|d: &str| d@);
            assert(dv == tv[k as int].0);
            let mut j: usize = 0;
            let mut found = false;
            while j < domains.len()
                invariant
                    j <= domains.len(),
                    dv == domains@.map_values(|d: &str| d@),
                    domain_chars@ == domain@,
                    found == (exists|m: int| 0 <= m < j && dv[m] == domain@),
                decreases domains.len() - j,
            {
                let d = chars_of(domains[j]);
                assert(d@ == dv[j as int]);
                if same(d.as_slice(), domain_chars.as_slice()) {
                    found = true;
                }
                j = j + 1;
            }
            assert(found == dv.contains(domain@));
            if found {
                let host = table[k].1.to_owned();
                return Ok(Server { host, port: table[k].2 });
            }
            k = k + 1;
        }
        let mut m = String::new();
        push_str(&mut m, "Enter the outgoing mail (SMTP) server for ");
        push_str(&mut m, domain.as_str());
        push_str(&mut m, " in Settings.");
        Err(m)
    }
}

/// The sender's domain as the provider is looked up by: what follows the last `@`, small.
pub open spec fn sender_domain(from: Seq<char>) -> Seq<char> {
    lowercase(after_last(trim(from), '@'))
}

/// With no server written in, the provider follows from the sender's domain: Gmail,
/// QQ, 163 and 126 at port 465, Outlook.com and iCloud at 587, Yahoo at 465; any other
/// domain is asked for in Settings, with the domain named.
pub proof fn law_known_providers_by_domain(to: Seq<char>, from: Seq<char>, server: Seq<char>)
    requires
        trim(server).len() == 0,
    ensures
        ({
            let d = sender_domain(from);
            let r = server_of(to, from, server);
            &&& (d == "gmail.com"@ || d == "googlemail.com"@) ==> r == Ok::<(Seq<char>, u16), Seq<char>>(("smtp.gmail.com"@, 465u16))
            &&& (d == "qq.com"@ || d == "foxmail.com"@) ==> r == Ok::<(Seq<char>, u16), Seq<char>>(("smtp.qq.com"@, 465u16))
            &&& d == "163.com"@ ==> r == Ok::<(Seq<char>, u16), Seq<char>>(("smtp.163.com"@, 465u16))
            &&& d == "126.com"@ ==> r == Ok::<(Seq<char>, u16), Seq<char>>(("smtp.126.com"@, 465u16))
            &&& (d == "outlook.com"@ || d == "hotmail.com"@ || d == "live.com"@ || d == "msn.com"@) ==> r == Ok::<
                (Seq<char>, u16),
                Seq<char>,
            >(("smtp-mail.outlook.com"@, 587u16))
            &&& (d == "icloud.com"@ || d == "me.com"@ || d == "mac.com"@) ==> r == Ok::<(Seq<char>, u16), Seq<char>>(
                ("smtp.mail.me.com"@, 587u16),
            )
            &&& d == "yahoo.com"@ ==> r == Ok::<(Seq<char>, u16), Seq<char>>(("smtp.mail.yahoo.com"@, 465u16))
            &&& (forall|k: int| 0 <= k < known_servers().len() ==> !(#[trigger] known_servers()[k]).0.contains(d))
                ==> r == Err::<(Seq<char>, u16), Seq<char>>(unknown_domain_error(d))
        }),
{
    let d = sender_domain(from);
    let t = known_servers();
    lemma_known_domains_differ();
    assert(server_of(to, from, server) == match known_server(d, t) {
        Some(found) => Ok(found),
        None => Err(unknown_domain_error(d)),
    });
    assert forall|k: int| 0 <= k < t.len() && (#[trigger] t[k]).0.contains(d) implies known_server(d, t) == Some(
        (t[k].1, t[k].2),
    ) by {
        lemma_provider_at(d, k);
    }
    if forall|k: int| 0 <= k < t.len() ==> !(#[trigger] t[k]).0.contains(d) {
        lemma_no_provider(d, t);
    }
    if d == "gmail.com"@ || d == "googlemail.com"@ {
        assert(t[0].0.contains(d)) by { if d == "gmail.com"@ { assert(t[0].0[0] == d); } else { assert(t[0].0[1] == d); } }
    }
    if d == "qq.com"@ || d == "foxmail.com"@ {
        assert(t[1].0.contains(d)) by { if d == "qq.com"@ { assert(t[1].0[0] == d); } else { assert(t[1].0[1] == d); } }
    }
    if d == "163.com"@ {
        assert(t[2].0[0] == d);
    }
    if d == "126.com"@ {
        assert(t[3].0[0] == d);
    }
    if d == "outlook.com"@ || d == "hotmail.com"@ || d == "live.com"@ || d == "msn.com"@ {
        assert(t[4].0.contains(d)) by {
            if d == "outlook.com"@ { assert(t[4].0[0] == d); } else if d == "hotmail.com"@ { assert(t[4].0[1] == d); } else if d == "live.com"@ { assert(t[4].0[2] == d); } else { assert(t[4].0[3] == d); }
        }
    }
    if d == "icloud.com"@ || d == "me.com"@ || d == "mac.com"@ {
        assert(t[5].0.contains(d)) by {
            if d == "icloud.com"@ { assert(t[5].0[0] == d); } else if d == "me.com"@ { assert(t[5].0[1] == d); } else { assert(t[5].0[2] == d); }
        }
    }
    if d == "yahoo.com"@ {
        assert(t[6].0[0] == d);
    }
}

/// No domain is listed for two providers.
proof fn lemma_known_domains_differ()
    ensures
        forall|i: int, j: int, d: Seq<char>|
            0 <= i < known_servers().len() && 0 <= j < known_servers().len() && i != j
                && #[trigger] known_servers()[i].0.contains(d) ==> !#[trigger] known_servers()[j].0.contains(d),
{
    reveal_strlit("gmail.com");
    reveal_strlit("googlemail.com");
    reveal_strlit("qq.com");
    reveal_strlit("foxmail.com");
    reveal_strlit("163.com");
    reveal_strlit("126.com");
    reveal_strlit("outlook.com");
    reveal_strlit("hotmail.com");
    reveal_strlit("live.com");
    reveal_strlit("msn.com");
    reveal_strlit("icloud.com");
    reveal_strlit("me.com");
    reveal_strlit("mac.com");
    reveal_strlit("yahoo.com");
    let t = known_servers();
    assert forall|i: int, j: int, d: Seq<char>|
        0 <= i < t.len() && 0 <= j < t.len() && i != j && #[trigger] t[i].0.contains(d) implies !#[trigger] t[j].0.contains(d) by {
        let a = choose|a: int| 0 <= a < t[i].0.len() && t[i].0[a] == d;
        if t[j].0.contains(d) {
            let b = choose|b: int| 0 <= b < t[j].0.len() && t[j].0[b] == d;
            assert(t[i].0[a] == t[j].0[b]);
            assert(t[i].0[a][0] == t[j].0[b][0]);
            assert(t[i].0[a].len() == t[j].0[b].len());
            assert(t[i].0[a][1] == t[j].0[b][1]);
        }
    }
}

/// The provider that lists a domain is the one it is looked up as.
proof fn lemma_provider_at(d: Seq<char>, k: int)
    requires
        0 <= k < known_servers().len(),
        known_servers()[k].0.contains(d),
    ensures
        known_server(d, known_servers()) == Some((known_servers()[k].1, known_servers()[k].2)),
{
    lemma_known_domains_differ();
    let t = known_servers();
    assert(forall|j: int| 0 <= j < k ==> !t[j].0.contains(d));
    lemma_known_server_at(d, t, k);
}

proof fn lemma_known_server_at(d: Seq<char>, t: Seq<(Seq<Seq<char>>, Seq<char>, u16)>, k: int)
    requires
        0 <= k < t.len(),
        t[k].0.contains(d),
        forall|j: int| 0 <= j < k ==> !(#[trigger] t[j]).0.contains(d),
    ensures
        known_server(d, t) == Some((t[k].1, t[k].2)),
    decreases k,
{
    if k > 0 {
        assert(!t[0].0.contains(d));
        assert forall|j: int| 0 <= j < k - 1 implies !(#[trigger] t.drop_first()[j]).0.contains(d) by {
            assert(t.drop_first()[j] == t[j + 1]);
        }
        lemma_known_server_at(d, t.drop_first(), k - 1);
    }
}

proof fn lemma_no_provider(d: Seq<char>, t: Seq<(Seq<Seq<char>>, Seq<char>, u16)>)
    requires
        forall|k: int| 0 <= k < t.len() ==> !(#[trigger] t[k]).0.contains(d),
    ensures
        known_server(d, t) is None,
    decreases t.len(),
{
    if t.len() > 0 {
        assert(!t[0].0.contains(d));
        assert forall|k: int| 0 <= k < t.len() - 1 implies !(#[trigger] t.drop_first()[k]).0.contains(d) by {
            assert(t.drop_first()[k] == t[k + 1]);
        }
        lemma_no_provider(d, t.drop_first());
    }
}

// ---------------------------------------------------------------------------------------
// The subject line.

/// The name for what `chrono::NaiveDate::parse_from_str(day, "%Y-%m-%d")` accepts.
pub uninterp spec fn is_iso_date(day: Seq<char>) -> bool;

/// `chrono::NaiveDate::parse_from_str(day, "%Y-%m-%d").is_ok()`.
#[verifier::external_body]
fn parses_as_date(day: &str) -> (r: bool)
    ensures
        r == is_iso_date(day@),
{
    chrono::NaiveDate::parse_from_str(day, "%Y-%m-%d").is_ok()
}

/// The day at the front of `when`: its first ten bytes, when they end on a character
/// boundary and read as a date.
pub open spec fn day_of(when: Seq<char>) -> Option<Seq<char>> {
    let bytes = encode_utf8(when);
    if is_char_boundary(bytes, 10) {
        let day = decode_utf8(bytes.subrange(0, 10));
        if is_iso_date(day) {
            Some(day)
        } else {
            None
        }
    } else {
        None
    }
}

/// Characters a heading's numbering is written in: "1." and "一、".
pub open spec fn numbering_char(c: char) -> bool {
    is_ascii_digit(c) || c == '一' || c == '二' || c == '三' || c == '四' || c == '五' || c == '六' || c
        == '七' || c == '八' || c == '九' || c == '十'
}

/// What stands between a heading's number and its text.
pub open spec fn numbering_separator(c: char) -> bool {
    c == '.' || c == '、' || c == ')' || c == '）' || c == ':' || c == '：' || c == ' '
}

pub open spec fn skip_numbering(s: Seq<char>) -> Seq<char>
    decreases s.len(),
{
    if s.len() > 0 && numbering_char(s[0]) {
        skip_numbering(s.drop_first())
    } else {
        s
    }
}

pub open spec fn skip_separators(s: Seq<char>) -> Seq<char>
    decreases s.len(),
{
    if s.len() > 0 && numbering_separator(s[0]) {
        skip_separators(s.drop_first())
    } else {
        s
    }
}

/// The text of a `#` or `##` heading: without the template's numbering and without
/// emphasis marks.
pub open spec fn heading_text(line: Seq<char>) -> Option<Seq<char>> {
    let l = trim_start(line);
    let rest = if starts_with(l, seq!['#', ' ']) {
        Some(l.skip(2))
    } else if starts_with(l, seq!['#', '#', ' ']) {
        Some(l.skip(3))
    } else {
        None
    };
    match rest {
        Some(t) => Some(trim(without_chars(skip_separators(skip_numbering(trim(t))), seq!['*', '_', '`']))),
        None => None,
    }
}

pub open spec fn headings(ls: Seq<Seq<char>>) -> Seq<Seq<char>>
    decreases ls.len(),
{
    if ls.len() == 0 {
        Seq::empty()
    } else {
        let before = headings(ls.drop_last());
        match heading_text(ls.last()) {
            Some(t) => before.push(t),
            None => before,
        }
    }
}

/// Words that say nothing about what a meeting was about.
pub open spec fn empty_words() -> Seq<Seq<char>> {
    seq![
        "meeting"@, "minutes"@, "summary"@, "overview"@, "discussion"@, "key"@, "points"@, "notes"@,
        "of"@, "the"@, "会议"@, "纪要"@, "记录"@, "总结"@, "概述"@, "概要"@, "讨论"@, "要点"@, "年"@,
        "月"@, "日"@,
    ]
}

fn empty_word_table() -> (t: Vec<&'static str>)
    ensures
        t@.map_values(|w: &str| w@) == empty_words(),
{
    let t = vec![
        "meeting", "minutes", "summary", "overview", "discussion", "key", "points", "notes", "of",
        "the", "会议", "纪要", "记录", "总结", "概述", "概要", "讨论", "要点", "年", "月", "日",
    ];
    assert(t@.map_values(|w: &str| w@) =~= empty_words());
    t
}

pub open spec fn strip_words(s: Seq<char>, ws: Seq<Seq<char>>) -> Seq<char>
    decreases ws.len(),
{
    if ws.len() == 0 {
        s
    } else {
        strip_words(replace_all(s, ws[0], Seq::empty()), ws.drop_first())
    }
}

/// At least two letters are left once the empty words are taken out.
pub open spec fn says_something_of(text: Seq<char>) -> bool {
    alphabetic_count(strip_words(lowercase(text), empty_words())) >= 2
}

pub open spec fn first_saying(candidates: Seq<Seq<char>>) -> Option<Seq<char>>
    decreases candidates.len(),
{
    if candidates.len() == 0 {
        None
    } else if says_something_of(candidates[0]) {
        Some(candidates[0])
    } else {
        first_saying(candidates.drop_first())
    }
}

/// The name the user gave the meeting; else the first heading of the minutes that says
/// something; else "Meeting".
pub open spec fn main_topic_of(title: Seq<char>, minutes: Seq<char>) -> Seq<char> {
    match first_saying(seq![trim(title)] + headings(lines(minutes))) {
        Some(t) => t,
        None => "Meeting"@,
    }
}

/// "Minutes 2026-09-21: Budget and revenue".
pub open spec fn subject_of(title: Seq<char>, when: Seq<char>, minutes: Seq<char>) -> Seq<char> {
    match day_of(when) {
        Some(day) => "Minutes "@ + day + ": "@ + main_topic_of(title, minutes),
        None => "Minutes: "@ + main_topic_of(title, minutes),
    }
}

fn count_alphabetic(s: &[char]) -> (r: usize)
    ensures
        r == alphabetic_count(s@),
{
    let mut n: usize = 0;
    let mut i: usize = 0;
    while i < s.len()
        invariant
            i <= s.len(),
            n == alphabetic_count(s@.take(i as int)),
            n <= i,
        decreases s.len() - i,
    {
        assert(s@.take(i + 1).drop_last() == s@.take(i as int));
        if is_alphabetic(s[i]) {
            n = n + 1;
        }
        i = i + 1;
    }
    assert(s@.take(s.len() as int) == s@);
    n
}

fn says_something(text: &[char]) -> (r: bool)
    ensures
        r == says_something_of(text@),
{
    let t = string_of(text);
    let lower = to_lowercase(t.as_str());
    let mut rest = chars_of(lower.as_str());
    let table = empty_word_table();
    let ghost tv = table@.map_values(|w: &str| w@);
    let empty: Vec<char> = Vec::new();
    let mut i: usize = 0;
    assert(tv.skip(0) == tv);
    while i < table.len()
        invariant
            i <= table.len(),
            tv == table@.map_values(|w: &str| w@),
            tv == empty_words(),
            empty@ == Seq::<char>::empty(),
            strip_words(lowercase(text@), tv) == strip_words(rest@, tv.skip(i as int)),
        decreases table.len() - i,
    {
        assert(tv.skip(i as int).drop_first() == tv.skip(i + 1));
        assert(tv.skip(i as int)[0] == tv[i as int]);
        let word = chars_of(table[i]);
        rest = replaced(rest.as_slice(), word.as_slice(), empty.as_slice());
        i = i + 1;
    }
    assert(tv.skip(table.len() as int) == Seq::<Seq<char>>::empty());
    count_alphabetic(rest.as_slice()) >= 2
}

fn is_numbering_char(c: char) -> (r: bool)
    ensures
        r == numbering_char(c),
{
    ('0' <= c && c <= '9') || c == '一' || c == '二' || c == '三' || c == '四' || c == '五' || c == '六'
        || c == '七' || c == '八' || c == '九' || c == '十'
}

fn is_numbering_separator(c: char) -> (r: bool)
    ensures
        r == numbering_separator(c),
{
    c == '.' || c == '、' || c == ')' || c == '）' || c == ':' || c == '：' || c == ' '
}

proof fn lemma_skip_numbering(s: Seq<char>, i: int)
    requires
        0 <= i <= s.len(),
        forall|j: int| 0 <= j < i ==> numbering_char(#[trigger] s[j]),
    ensures
        skip_numbering(s) == skip_numbering(s.skip(i)),
    decreases i,
{
    if i > 0 {
        lemma_skip_numbering(s.drop_first(), i - 1);
        assert(s.drop_first().skip(i - 1) == s.skip(i));
    } else {
        assert(s.skip(0) == s);
    }
}

proof fn lemma_skip_separators(s: Seq<char>, i: int)
    requires
        0 <= i <= s.len(),
        forall|j: int| 0 <= j < i ==> numbering_separator(#[trigger] s[j]),
    ensures
        skip_separators(s) == skip_separators(s.skip(i)),
    decreases i,
{
    if i > 0 {
        lemma_skip_separators(s.drop_first(), i - 1);
        assert(s.drop_first().skip(i - 1) == s.skip(i));
    } else {
        assert(s.skip(0) == s);
    }
}

fn heading(line: &[char]) -> (r: Option<Vec<char>>)
    ensures
        match heading_text(line@) {
            Some(t) => r matches Some(v) && v@ == t,
            None => r is None,
        },
{
    let start = trim_start_at(line);
    let l = slice_of(line, start, line.len());
    assert(l@ == line@.skip(start as int));
    let one = vec!['#', ' '];
    let two = vec!['#', '#', ' '];
    assert(one@ == seq!['#', ' ']);
    assert(two@ == seq!['#', '#', ' ']);
    let rest = if matches_at(l.as_slice(), one.as_slice(), 0) {
        slice_of(l.as_slice(), 2, l.len())
    } else if matches_at(l.as_slice(), two.as_slice(), 0) {
        slice_of(l.as_slice(), 3, l.len())
    } else {
        return None;
    };
    let (a, b) = trim_bounds(rest.as_slice());
    let t = slice_of(rest.as_slice(), a, b);
    let mut i: usize = 0;
    while i < t.len() && is_numbering_char(t[i])
        invariant
            i <= t.len(),
            forall|j: int| 0 <= j < i ==> numbering_char(#[trigger] t@[j]),
        decreases t.len() - i,
    {
        i = i + 1;
    }
    proof {
        lemma_skip_numbering(t@, i as int);
    }
    let u = slice_of(t.as_slice(), i, t.len());
    assert(u@ == t@.skip(i as int));
    assert(skip_numbering(u@) == u@);
    let mut k: usize = 0;
    while k < u.len() && is_numbering_separator(u[k])
        invariant
            k <= u.len(),
            forall|j: int| 0 <= j < k ==> numbering_separator(#[trigger] u@[j]),
        decreases u.len() - k,
    {
        k = k + 1;
    }
    proof {
        lemma_skip_separators(u@, k as int);
    }
    let w = slice_of(u.as_slice(), k, u.len());
    assert(w@ == u@.skip(k as int));
    assert(skip_separators(w@) == w@);
    let marks = vec!['*', '_', '`'];
    assert(marks@ == seq!['*', '_', '`']);
    let x = remove_chars(w.as_slice(), marks.as_slice());
    let (c, d) = trim_bounds(x.as_slice());
    Some(slice_of(x.as_slice(), c, d))
}

/// The name the user gave the meeting; else the first heading of the minutes that says
/// something. Models like to open with the title they were handed or a section name
/// ("Overview"), and those say nothing.
pub fn main_topic(title: &str, minutes_markdown: &str) -> (r: String)
    ensures
        r@ == main_topic_of(title@, minutes_markdown@),
{
    let title_chars = chars_of(title);
    let (a, b) = trim_bounds(title_chars.as_slice());
    let t = slice_of(title_chars.as_slice(), a, b);
    let ghost candidates = seq![trim(title@)] + headings(lines(minutes_markdown@));
    assert(candidates.drop_first() =~= headings(lines(minutes_markdown@)));
    if says_something(t.as_slice()) {
        return string_of(t.as_slice());
    }
    assert(first_saying(candidates) == first_saying(headings(lines(minutes_markdown@))));
    let md = chars_of(minutes_markdown);
    let ls = split_lines(md.as_slice());
    let ghost lv = ls@.map_values(|l: Vec<char>| l@);
    let mut i: usize = 0;
    assert(lv.skip(0) == lv);
    while i < ls.len()
        invariant
            i <= ls.len(),
            lv == ls@.map_values(|l: Vec<char>| l@),
            lv == lines(minutes_markdown@),
            first_saying(candidates) == first_saying(headings(lv.skip(i as int))),
            main_topic_of(title@, minutes_markdown@) == match first_saying(candidates) {
                Some(t) => t,
                None => "Meeting"@,
            },
        decreases ls.len() - i,
    {
        let ghost rest = lv.skip(i as int);
        proof {
            lemma_headings_front(rest);
            assert(rest[0] == lv[i as int]);
            assert(rest.drop_first() == lv.skip(i + 1));
        }
        match heading(ls[i].as_slice()) {
            Some(h) => {
                assert(headings(rest) == seq![h@] + headings(lv.skip(i + 1)));
                assert((seq![h@] + headings(lv.skip(i + 1)))[0] == h@);
                assert((seq![h@] + headings(lv.skip(i + 1))).drop_first() == headings(lv.skip(i + 1)));
                if says_something(h.as_slice()) {
                    return string_of(h.as_slice());
                }
            },
            None => {
                assert(headings(rest) == headings(lv.skip(i + 1)));
            },
        }
        i = i + 1;
    }
    assert(lv.skip(ls.len() as int) == Seq::<Seq<char>>::empty());
    "Meeting".to_owned()
}

proof fn lemma_headings_front(ls: Seq<Seq<char>>)
    requires
        ls.len() > 0,
    ensures
        headings(ls) == (match heading_text(ls[0]) {
            Some(t) => seq![t],
            None => Seq::<Seq<char>>::empty(),
        }) + headings(ls.drop_first()),
{
    lemma_headings_split(ls, 1);
    assert(ls.take(1).drop_last() == Seq::<Seq<char>>::empty());
    assert(headings(Seq::<Seq<char>>::empty()) == Seq::<Seq<char>>::empty());
    match heading_text(ls[0]) {
        Some(t) => {
            assert(headings(ls.take(1)) == Seq::<Seq<char>>::empty().push(t));
            assert(Seq::<Seq<char>>::empty().push(t) == seq![t]);
        },
        None => {
            assert(headings(ls.take(1)) == Seq::<Seq<char>>::empty());
        },
    }
    assert(ls.take(1).last() == ls[0]);
    assert(ls.skip(1) == ls.drop_first());
}

proof fn lemma_headings_split(ls: Seq<Seq<char>>, i: int)
    requires
        0 <= i <= ls.len(),
    ensures
        headings(ls) == headings(ls.take(i)) + headings(ls.skip(i)),
    decreases ls.len(),
{
    if i == ls.len() {
        assert(ls.take(i) == ls);
        assert(ls.skip(i) == Seq::<Seq<char>>::empty());
        assert(headings(ls) + Seq::<Seq<char>>::empty() == headings(ls));
    } else {
        lemma_headings_split(ls.drop_last(), i);
        assert(ls.drop_last().take(i) == ls.take(i));
        assert(ls.skip(i).drop_last() == ls.drop_last().skip(i));
        assert(ls.skip(i).last() == ls.last());
    }
}

/// "Minutes 2026-09-21: Budget and revenue". The day is enough in a subject line; what
/// tells one meeting's mail from another's is what the meeting was about.
pub fn subject(title: &str, when: &str, minutes_markdown: &str) -> (r: String)
    ensures
        r@ == subject_of(title@, when@, minutes_markdown@),
{
    let topic = main_topic(title, minutes_markdown);
    proof {
        vstd::utf8::encode_utf8_valid_utf8(when@);
    }
    let mut r = String::new();
    if when.is_char_boundary(10) {
        let (day, _) = when.split_at(10);
        assert(day.spec_bytes() =~= encode_utf8(when@).subrange(0, 10));
        proof {
            vstd::utf8::encode_utf8_decode_utf8(day@);
        }
        assert(decode_utf8(encode_utf8(day@)) == day@);
        assert(day@ == decode_utf8(encode_utf8(when@).subrange(0, 10)));
        if parses_as_date(day) {
            push_str(&mut r, "Minutes ");
            push_str(&mut r, day);
            push_str(&mut r, ": ");
            push_str(&mut r, topic.as_str());
            return r;
        }
    }
    push_str(&mut r, "Minutes: ");
    push_str(&mut r, topic.as_str());
    r
}

// ---------------------------------------------------------------------------------------
// The message.

/// HTML-escapes `&`, `<` and `>`.
pub open spec fn escape_of(text: Seq<char>) -> Seq<char> {
    replace_all(
        replace_all(replace_all(text, seq!['&'], "&amp;"@), seq!['<'], "&lt;"@),
        seq!['>'],
        "&gt;"@,
    )
}

pub fn escape(text: &str) -> (r: String)
    ensures
        r@ == escape_of(text@),
{
    let v = chars_of(text);
    let amp = vec!['&'];
    let lt = vec!['<'];
    let gt = vec!['>'];
    let a = chars_of("&amp;");
    let b = chars_of("&lt;");
    let c = chars_of("&gt;");
    let x = replaced(v.as_slice(), amp.as_slice(), a.as_slice());
    let y = replaced(x.as_slice(), lt.as_slice(), b.as_slice());
    let z = replaced(y.as_slice(), gt.as_slice(), c.as_slice());
    assert(amp@ == seq!['&']);
    assert(lt@ == seq!['<']);
    assert(gt@ == seq!['>']);
    string_of(z.as_slice())
}

/// The HTML pulldown-cmark writes for `markdown`, with tables on and any raw HTML in it
/// turned into text.
pub uninterp spec fn markdown_html(markdown: Seq<char>) -> Seq<char>;

/// pulldown-cmark's `Parser` (tables on, raw HTML passed on as text) and `html::push_html`.
#[verifier::external_body]
fn markdown_to_html(markdown: &str) -> (r: String)
    ensures
        r@ == markdown_html(markdown@),
{
    let parser = Parser::new_ext(markdown, Options::ENABLE_TABLES).map(|event| match event {
        Event::Html(raw) => Event::Text(raw),
        Event::InlineHtml(raw) => Event::Text(raw),
        other => other,
    });
    let mut out = String::new();
    html::push_html(&mut out, parser);
    out
}

pub open spec fn styled_table() -> Seq<char> {
    "<table style=\"border-collapse:collapse\" border=\"1\" cellpadding=\"6\">"@
}

/// Markdown to HTML for the mail body, tables given borders. Minutes come from a language
/// model, so any raw HTML in them is shown as text rather than passed through.
pub open spec fn render_html_of(markdown: Seq<char>) -> Seq<char> {
    replace_all(markdown_html(markdown), "<table>"@, styled_table())
}

pub fn render_html(markdown: &str) -> (r: String)
    ensures
        r@ == render_html_of(markdown@),
{
    let html = markdown_to_html(markdown);
    proof {
        reveal_strlit("<table>");
    }
    replace_in(
        html.as_str(),
        "<table>",
        "<table style=\"border-collapse:collapse\" border=\"1\" cellpadding=\"6\">",
    )
}

/// The plain-text body of the minutes mail.
pub open spec fn plain_body_of(title: Seq<char>, when: Seq<char>, minutes: Seq<char>) -> Seq<char> {
    title + "\n"@ + when + "\n\n"@ + minutes + "\n\n-- \nSent by ZillaNote from this computer."@
}

/// The HTML body of the minutes mail.
pub open spec fn html_body_of(title: Seq<char>, when: Seq<char>, minutes: Seq<char>) -> Seq<char> {
    "<div style=\"font:15px/1.55 -apple-system,'Segoe UI','PingFang SC','Microsoft YaHei',sans-serif;color:#1f1d1a;max-width:720px\"><h1 style=\"font-size:20px;margin:0 0 2px\">"@
        + escape_of(title) + "</h1><p style=\"color:#77726b;margin:0 0 18px;font-size:13px\">"@
        + escape_of(when) + "</p>"@ + render_html_of(minutes)
        + "<p style=\"color:#9a958d;font-size:12px;margin-top:28px\">Sent by ZillaNote from this computer.</p></div>"@
}

/// The two bodies of the minutes mail: plain text, then HTML.
pub fn minutes_bodies(title: &str, when: &str, minutes_markdown: &str) -> (r: (String, String))
    ensures
        r.0@ == plain_body_of(title@, when@, minutes_markdown@),
        r.1@ == html_body_of(title@, when@, minutes_markdown@),
{
    let mut plain = String::new();
    push_str(&mut plain, title);
    push_str(&mut plain, "\n");
    push_str(&mut plain, when);
    push_str(&mut plain, "\n\n");
    push_str(&mut plain, minutes_markdown);
    push_str(&mut plain, "\n\n-- \nSent by ZillaNote from this computer.");
    let mut html = String::new();
    push_str(
        &mut html,
        "<div style=\"font:15px/1.55 -apple-system,'Segoe UI','PingFang SC','Microsoft YaHei',sans-serif;color:#1f1d1a;max-width:720px\"><h1 style=\"font-size:20px;margin:0 0 2px\">",
    );
    let t = escape(title);
    push_str(&mut html, t.as_str());
    push_str(&mut html, "</h1><p style=\"color:#77726b;margin:0 0 18px;font-size:13px\">");
    let w = escape(when);
    push_str(&mut html, w.as_str());
    push_str(&mut html, "</p>");
    let body = render_html(minutes_markdown);
    push_str(&mut html, body.as_str());
    push_str(
        &mut html,
        "<p style=\"color:#9a958d;font-size:12px;margin-top:28px\">Sent by ZillaNote from this computer.</p></div>",
    );
    (plain, html)
}

/// The name for whether lettre reads `text` as a mailbox (`Mailbox::from_str`).
pub uninterp spec fn mailbox_parses(text: Seq<char>) -> bool;

/// A mailbox lettre read, with the text it was read from.
pub struct Address {
    pub text: String,
    pub mailbox: Mailbox,
}

/// `Mailbox::from_str`; the text read is kept beside the mailbox.
#[verifier::external_body]
fn parse_mailbox(text: &str) -> (r: Option<Address>)
    ensures
        r is Some == mailbox_parses(text@),
        r matches Some(a) ==> a.text@ == text@,
{
    match text.parse::<Mailbox>() {
        Ok(mailbox) => Some(Address { text: text.to_string(), mailbox }),
        Err(_) => None,
    }
}

/// The minutes mail lettre built, with what it was built from: the texts the sender and
/// the recipient were read from, the subject, the plain-text body and the HTML body.
pub struct MinutesMail {
    pub message: Message,
    pub parts: Ghost<(Seq<char>, Seq<char>, Seq<char>, Seq<char>, Seq<char>)>,
}

/// lettre's `Message::builder()` with the sender, the recipient, the subject and the two
/// bodies as `multipart/alternative`, its error as text. With exactly one sender and one
/// recipient set, lettre's `build` has nothing to refuse (it fails only on a missing or
/// doubled sender or no recipient), so the result is `Ok`, and it records what lettre was
/// given, in that order. What the message holds beyond that is not stated: `Message` is
/// opaque, and it carries the time it was built.
#[verifier::external_body]
fn build_message(from: Address, to: Address, subject: String, plain: String, html: String) -> (r: Result<
    MinutesMail,
    String,
>)
    ensures
        r is Ok,
        r->Ok_0.parts@ == (from.text@, to.text@, subject@, plain@, html@),
{
    let parts = Ghost((from.text@, to.text@, subject@, plain@, html@));
    let built = Message::builder()
        .from(from.mailbox)
        .to(to.mailbox)
        .subject(subject)
        .multipart(MultiPart::alternative_plain_html(plain, html));
    match built {
        Ok(message) => Ok(MinutesMail { message, parts }),
        Err(error) => Err(error.to_string()),
    }
}

/// How the sender is named on the mail.
pub open spec fn sender_text(from: Seq<char>) -> Seq<char> {
    "ZillaNote <"@ + trim(from) + ">"@
}

pub open spec fn address_error(address: Seq<char>) -> Seq<char> {
    "\""@ + address + "\" is not an email address."@
}

/// What the minutes mail is made of, in the order lettre is given it: the sender as it is
/// named on the mail, the recipient's address, the subject, the plain-text body and the
/// HTML body.
pub fn minutes_parts(settings: &EmailSettings, title: &str, when: &str, minutes_markdown: &str) -> (r: (
    String,
    String,
    String,
    String,
    String,
))
    ensures
        r.0@ == sender_text(settings.from@),
        r.1@ == trim(settings.to@),
        r.2@ == subject_of(title@, when@, minutes_markdown@),
        r.3@ == plain_body_of(title@, when@, minutes_markdown@),
        r.4@ == html_body_of(title@, when@, minutes_markdown@),
{
    let from_address = trimmed(settings.from.as_str());
    let mut sender = String::new();
    push_str(&mut sender, "ZillaNote <");
    push_str(&mut sender, from_address.as_str());
    push_str(&mut sender, ">");
    let to_address = trimmed(settings.to.as_str());
    let (plain, html) = minutes_bodies(title, when, minutes_markdown);
    (sender, to_address, subject(title, when, minutes_markdown), plain, html)
}

fn address_refused(address: &str) -> (r: String)
    ensures
        r@ == address_error(address@),
{
    let mut e = String::new();
    push_str(&mut e, "\"");
    push_str(&mut e, address);
    push_str(&mut e, "\" is not an email address.");
    e
}

/// The minutes as a mail from the settings' sender to their recipient, built from
/// [`minutes_parts`]. A sender or a recipient that is not an email address is refused
/// before anything is built; otherwise the mail is made from those parts, in their order.
pub fn minutes_message(settings: &EmailSettings, title: &str, when: &str, minutes_markdown: &str) -> (r: Result<
    MinutesMail,
    String,
>)
    ensures
        r is Ok <==> mailbox_parses(sender_text(settings.from@)) && mailbox_parses(trim(settings.to@)),
        r matches Ok(m) ==> m.parts@ == (
            sender_text(settings.from@),
            trim(settings.to@),
            subject_of(title@, when@, minutes_markdown@),
            plain_body_of(title@, when@, minutes_markdown@),
            html_body_of(title@, when@, minutes_markdown@),
        ),
        !mailbox_parses(sender_text(settings.from@)) ==> (r matches Err(e) && e@ == address_error(
            trim(settings.from@),
        )),
        mailbox_parses(sender_text(settings.from@)) && !mailbox_parses(trim(settings.to@)) ==> (r matches Err(
            e,
        ) && e@ == address_error(trim(settings.to@))),
{
    let (sender, to_address, subject, plain, html) = minutes_parts(settings, title, when, minutes_markdown);
    let from = match parse_mailbox(sender.as_str()) {
        Some(m) => m,
        None => {
            let from_address = trimmed(settings.from.as_str());
            return Err(address_refused(from_address.as_str()));
        },
    };
    let to = match parse_mailbox(to_address.as_str()) {
        Some(m) => m,
        None => return Err(address_refused(to_address.as_str())),
    };
    build_message(from, to, subject, plain, html)
}

// ---------------------------------------------------------------------------------------
// When sending fails.

/// What to do about a refused password, which differs by provider.
pub open spec fn advice_of(host: Seq<char>) -> Seq<char> {
    if host == "smtp.gmail.com"@ {
        "Gmail never takes the Google password here, only an app password: turn on 2-Step Verification, then make one at https://myaccount.google.com/apppasswords."@
    } else if host == "smtp.qq.com"@ || host == "smtp.163.com"@ || host == "smtp.126.com"@ {
        "It takes an authorization code, not the login password: switch on SMTP in the mailbox's settings on the web, which hands out the code."@
    } else {
        "Most providers take an app password here, not the login password."@
    }
}

pub fn advice(host: &str) -> (r: &'static str)
    ensures
        r@ == advice_of(host@),
{
    let h = chars_of(host);
    let gmail = chars_of("smtp.gmail.com");
    let qq = chars_of("smtp.qq.com");
    let n163 = chars_of("smtp.163.com");
    let n126 = chars_of("smtp.126.com");
    if same(h.as_slice(), gmail.as_slice()) {
        "Gmail never takes the Google password here, only an app password: turn on 2-Step Verification, then make one at https://myaccount.google.com/apppasswords."
    } else if same(h.as_slice(), qq.as_slice()) || same(h.as_slice(), n163.as_slice()) || same(
        h.as_slice(),
        n126.as_slice(),
    ) {
        "It takes an authorization code, not the login password: switch on SMTP in the mailbox's settings on the web, which hands out the code."
    } else {
        "Most providers take an app password here, not the login password."
    }
}

/// Servers refuse a login with 535, and Gmail with 534 when it wants an app password.
pub open spec fn login_refused(detail: Seq<char>) -> bool {
    contains(detail, "(534)"@) || contains(detail, "(535)"@) || contains(lowercase(detail), "authentication"@)
        || contains(lowercase(detail), "password"@) || contains(lowercase(detail), "credentials"@)
}

/// A refused login gets advice; anything else is passed on as it came.
pub open spec fn explain_of(host: Seq<char>, port: u16, detail: Seq<char>) -> Seq<char> {
    if login_refused(detail) {
        host + " did not accept the address or password. "@ + advice_of(host) + " ("@ + detail + ")"@
    } else {
        "Could not send through "@ + host + ":"@ + decimal(port as nat) + ": "@ + detail
    }
}

pub fn explain(server: &Server, detail: &str) -> (r: String)
    ensures
        r@ == explain_of(server.host@, server.port, detail@),
{
    let d = chars_of(detail);
    let lower_string = to_lowercase(detail);
    let lower = chars_of(lower_string.as_str());
    let c534 = chars_of("(534)");
    let c535 = chars_of("(535)");
    let w1 = chars_of("authentication");
    let w2 = chars_of("password");
    let w3 = chars_of("credentials");
    let refused = has(d.as_slice(), c534.as_slice()) || has(d.as_slice(), c535.as_slice()) || has(
        lower.as_slice(),
        w1.as_slice(),
    ) || has(lower.as_slice(), w2.as_slice()) || has(lower.as_slice(), w3.as_slice());
    let mut r = String::new();
    if refused {
        push_str(&mut r, server.host.as_str());
        push_str(&mut r, " did not accept the address or password. ");
        push_str(&mut r, advice(server.host.as_str()));
        push_str(&mut r, " (");
        push_str(&mut r, detail);
        push_str(&mut r, ")");
    } else {
        push_str(&mut r, "Could not send through ");
        push_str(&mut r, server.host.as_str());
        push_str(&mut r, ":");
        push_decimal(&mut r, server.port as u64);
        push_str(&mut r, ": ");
        push_str(&mut r, detail);
    }
    r
}

/// Google shows an app password as four groups of four letters, and that is how it gets
/// pasted.
pub open spec fn google_groups(groups: Seq<Seq<char>>) -> bool {
    groups.len() == 4 && forall|i: int|
        0 <= i < 4 ==> (#[trigger] groups[i]).len() == 4 && forall|j: int|
            0 <= j < 4 ==> is_ascii_alpha(#[trigger] groups[i][j])
}

/// The password to log in with: the sixteen letters of a grouped Google app password, or
/// what was typed, trimmed.
pub open spec fn password_of(typed: Seq<char>) -> Seq<char> {
    let t = trim(typed);
    let groups = words(t);
    if google_groups(groups) {
        groups[0] + groups[1] + groups[2] + groups[3]
    } else {
        t
    }
}

fn four_letters(group: &[char]) -> (r: bool)
    ensures
        r == (group@.len() == 4 && forall|j: int| 0 <= j < 4 ==> is_ascii_alpha(#[trigger] group@[j])),
{
    if group.len() != 4 {
        return false;
    }
    let mut j: usize = 0;
    while j < 4
        invariant
            j <= 4,
            group@.len() == 4,
            forall|k: int| 0 <= k < j ==> is_ascii_alpha(#[trigger] group@[k]),
        decreases 4 - j,
    {
        let c = group[j];
        if !(('A' <= c && c <= 'Z') || ('a' <= c && c <= 'z')) {
            return false;
        }
        j = j + 1;
    }
    true
}

pub fn password(settings: &EmailSettings) -> (r: String)
    ensures
        r@ == password_of(settings.password@),
{
    let v = chars_of(settings.password.as_str());
    let (a, b) = trim_bounds(v.as_slice());
    let typed = slice_of(v.as_slice(), a, b);
    let groups = split_words(typed.as_slice());
    let ghost gv = groups@.map_values(|w: Vec<char>| w@);
    if groups.len() == 4 && four_letters(groups[0].as_slice()) && four_letters(groups[1].as_slice())
        && four_letters(groups[2].as_slice()) && four_letters(groups[3].as_slice()) {
        assert(google_groups(gv)) by {
            assert forall|i: int| 0 <= i < 4 implies (#[trigger] gv[i]).len() == 4 && forall|j: int|
                0 <= j < 4 ==> is_ascii_alpha(#[trigger] gv[i][j]) by {
                assert(gv[i] == groups@[i]@);
            }
        }
        let mut r = string_of(groups[0].as_slice());
        crate::text::push_chars(&mut r, groups[1].as_slice());
        crate::text::push_chars(&mut r, groups[2].as_slice());
        crate::text::push_chars(&mut r, groups[3].as_slice());
        r
    } else {
        proof {
            if google_groups(gv) {
                assert(gv[0] == groups@[0]@);
                assert(gv[1] == groups@[1]@);
                assert(gv[2] == groups@[2]@);
                assert(gv[3] == groups@[3]@);
                assert(false);
            }
        }
        string_of(typed.as_slice())
    }
}

} // verus!
