//! How a transcript reads as text: one line per segment, `[mm:ss] Speaker: text`. The same
//! form is shown to the user and given to the language model, so the times in the minutes
//! can be looked up.

use vstd::prelude::*;

use crate::text::{decimal, join, push_decimal, push_str};

verus! {

/// One line of a transcript: the whole second it starts at, who spoke if that is known,
/// and what was said.
pub struct Line {
    pub start_second: u64,
    pub speaker: Option<String>,
    pub text: String,
}

/// `n` with at least two digits, a leading zero added below ten.
pub open spec fn two_digits(n: nat) -> Seq<char> {
    if n < 10 {
        seq!['0'] + decimal(n)
    } else {
        decimal(n)
    }
}

/// A time given in whole seconds: `mm:ss` in the first hour, `h:mm:ss` from then on.
pub open spec fn clock_of(total: nat) -> Seq<char> {
    if total / 3600 == 0 {
        two_digits(total / 60) + seq![':'] + two_digits(total % 60)
    } else {
        decimal(total / 3600) + seq![':'] + two_digits((total % 3600) / 60) + seq![':'] + two_digits(total % 60)
    }
}

fn push_two_digits(s: &mut String, n: u64)
    ensures
        final(s)@ == old(s)@ + two_digits(n as nat),
{
    if n < 10 {
        push_str(s, "0");
        proof {
            reveal_strlit("0");
        }
    }
    push_decimal(s, n);
}

/// The time a line is shown at, from the whole seconds since the recording began.
pub fn clock(total_seconds: u64) -> (r: String)
    ensures
        r@ == clock_of(total_seconds as nat),
{
    let mut r = String::new();
    let hours = total_seconds / 3600;
    proof {
        reveal_strlit(":");
    }
    if hours == 0 {
        push_two_digits(&mut r, total_seconds / 60);
        push_str(&mut r, ":");
        push_two_digits(&mut r, total_seconds % 60);
    } else {
        push_decimal(&mut r, hours);
        push_str(&mut r, ":");
        push_two_digits(&mut r, (total_seconds % 3600) / 60);
        push_str(&mut r, ":");
        push_two_digits(&mut r, total_seconds % 60);
    }
    r
}

/// `[time] Speaker: text`, or `[time] text` when nobody was named.
pub open spec fn line_of(start_second: nat, speaker: Option<Seq<char>>, text: Seq<char>) -> Seq<char> {
    match speaker {
        Some(name) => seq!['['] + clock_of(start_second) + "] "@ + name + ": "@ + text,
        None => seq!['['] + clock_of(start_second) + "] "@ + text,
    }
}

/// The lines as text, one after the other.
pub open spec fn lines_of(lines: Seq<Line>) -> Seq<Seq<char>> {
    lines.map_values(
        |l: Line|
            line_of(
                l.start_second as nat,
                match l.speaker {
                    Some(name) => Some(name@),
                    None => None,
                },
                l.text@,
            ),
    )
}

fn push_line(s: &mut String, line: &Line)
    ensures
        final(s)@ == old(s)@ + line_of(
            line.start_second as nat,
            match line.speaker {
                Some(name) => Some(name@),
                None => None,
            },
            line.text@,
        ),
{
    proof {
        reveal_strlit("[");
        reveal_strlit("] ");
        reveal_strlit(": ");
    }
    push_str(s, "[");
    let time = clock(line.start_second);
    push_str(s, time.as_str());
    push_str(s, "] ");
    match &line.speaker {
        Some(name) => {
            push_str(s, name.as_str());
            push_str(s, ": ");
        },
        None => {},
    }
    push_str(s, line.text.as_str());
    proof {
        match &line.speaker {
            Some(name) => {
                assert(final(s)@ =~= old(s)@ + (seq!['['] + clock_of(line.start_second as nat) + "] "@ + name@
                    + ": "@ + line.text@));
            },
            None => {
                assert(final(s)@ =~= old(s)@ + (seq!['['] + clock_of(line.start_second as nat) + "] "@
                    + line.text@));
            },
        }
    }
}

/// The whole transcript as text: its lines with a line break between each two.
pub fn transcript_text(lines: &[Line]) -> (r: String)
    ensures
        r@ == join(lines_of(lines@), seq!['\n']),
{
    let ghost all = lines_of(lines@);
    let mut r = String::new();
    let mut i: usize = 0;
    while i < lines.len()
        invariant
            i <= lines@.len(),
            all == lines_of(lines@),
            r@ == join(all.take(i as int), seq!['\n']),
        decreases lines.len() - i,
    {
        if i > 0 {
            push_str(&mut r, "\n");
            proof {
                reveal_strlit("\n");
            }
        }
        push_line(&mut r, &lines[i]);
        proof {
            assert(all.take(i + 1).drop_last() == all.take(i as int));
            assert(all.take(i + 1).last() == all[i as int]);
            if i == 0 {
                assert(all.take(1).len() == 1);
            }
        }
        i = i + 1;
    }
    assert(all.take(lines.len() as int) == all);
    r
}

} // verus!
