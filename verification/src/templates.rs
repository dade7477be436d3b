//! What the language model is told. The system prompt is the user's to edit in Settings;
//! this is what it starts as, and what "Reset" brings back. The templates say what shape
//! the minutes take.

use vstd::prelude::*;

use crate::text::{chars_of, contains, occurs_at, same, starts_with};

verus! {

pub const DEFAULT_SYSTEM_PROMPT: &'static str = "\
You write meeting minutes from a transcript made by automatic speech recognition.

Rules:
- Use only what the transcript says. Never invent attendees, decisions, owners, dates or numbers. If something is unclear or missing, say so or leave it out.
- The transcript contains recognition errors. Fix obvious mis-hearings from context, but never guess a name or a figure.
- Write in the main language of the transcript. Keep names, product terms and English words used inside Chinese speech exactly as they were spoken.
- Speakers may appear as labels such as \"Speaker 1\" or \"Me\". Never turn a label into a real name unless the transcript states the name.
- An action item gets an owner only when that person clearly committed to it in the transcript. Otherwise write \"unassigned\".
- Times in square brackets such as [12:34] mark where something was said. Keep them where the template asks for them.
- Output Markdown only, with no preamble and no closing remarks.";

#[derive(Debug, Clone, Copy, PartialEq, Eq)]
pub struct Template {
    pub id: &'static str,
    pub name: &'static str,
    pub description: &'static str,
    pub prompt: &'static str,
}

pub const DEFAULT_TEMPLATE: &'static str = "discussion";

/// The templates, the default first.
pub open spec fn template_list() -> Seq<Template> {
    seq![Template {
        id: "discussion",
        name: "Discussion flow",
        description: "A summary that follows the conversation in the order it happened.",
        prompt: "\
Summarize this conversation in the order it happened, keeping the essential content.

## Summary
Three to five sentences: what the conversation was about and where it ended up.

## Discussion
One short section per topic, in the order the topics came up. Give each a `###` heading that names the topic, followed by the time it starts, like `### Pricing [12:34]`. Under it, the essential points: what was said, the reasoning, any disagreement, and what was concluded. Prefer substance over completeness; leave out small talk.

## Open points
Questions left unanswered or things to be settled later. Leave this section out if there are none.",
    },
    Template {
        id: "business",
        name: "Business meeting",
        description: "Decisions, action items with owners and dates, and open questions.",
        prompt: "\
Write the minutes of this business meeting.

## Overview
Two to four sentences: the purpose of the meeting and its outcome.

## Key discussion points
Bullets grouped by topic, with the facts, figures and arguments that mattered.

## Decisions
Each decision as one bullet, with the reason if one was given. Write \"None recorded\" if nothing was decided.

## Action items
A table with the columns Action, Owner and Due. List an owner only if that person clearly committed to the action; otherwise write \"unassigned\". List a due date only if one was said. Write \"None recorded\" if there are none.

## Open questions
What was raised and not resolved.

## Follow-ups
The next meeting, or material someone promised to send, if either was mentioned.",
    },
    Template {
        id: "interview",
        name: "Interview",
        description: "Each question with a faithful account of the answer.",
        prompt: "\
Capture this interview so that someone who was not there knows what was asked and answered.

## Context
Who is interviewing whom and about what, as far as the transcript says.

## Questions and answers
Every substantive question in order. For each one:
**Q:** the question, made concise. Add the time it was asked, like [05:12].
**A:** a faithful account of the answer: the concrete examples, numbers, reasoning and experience described. Quote a sentence word for word, in quotation marks, when the wording itself matters.

## Key takeaways
The five or so most important things learned, as bullets.

## Follow-ups
Questions that were left unanswered, and anything either side promised to do.",
    }]
}

/// The first template in `list` with the id `id`, if any.
pub open spec fn found_in(list: Seq<Template>, id: Seq<char>) -> Option<Template>
    decreases list.len(),
{
    if list.len() == 0 {
        None
    } else if list[0].id@ == id {
        Some(list[0])
    } else {
        found_in(list.drop_first(), id)
    }
}

/// The template with the id `id`, or the default for an id that names none.
pub open spec fn template_found(id: Seq<char>) -> Template {
    match found_in(template_list(), id) {
        Some(t) => t,
        None => template_list()[0],
    }
}

/// The templates, the default first.
pub fn templates() -> (r: Vec<Template>)
    ensures
        r@ == template_list(),
{
    let r = vec![Template {
        id: "discussion",
        name: "Discussion flow",
        description: "A summary that follows the conversation in the order it happened.",
        prompt: "\
Summarize this conversation in the order it happened, keeping the essential content.

## Summary
Three to five sentences: what the conversation was about and where it ended up.

## Discussion
One short section per topic, in the order the topics came up. Give each a `###` heading that names the topic, followed by the time it starts, like `### Pricing [12:34]`. Under it, the essential points: what was said, the reasoning, any disagreement, and what was concluded. Prefer substance over completeness; leave out small talk.

## Open points
Questions left unanswered or things to be settled later. Leave this section out if there are none.",
    },
    Template {
        id: "business",
        name: "Business meeting",
        description: "Decisions, action items with owners and dates, and open questions.",
        prompt: "\
Write the minutes of this business meeting.

## Overview
Two to four sentences: the purpose of the meeting and its outcome.

## Key discussion points
Bullets grouped by topic, with the facts, figures and arguments that mattered.

## Decisions
Each decision as one bullet, with the reason if one was given. Write \"None recorded\" if nothing was decided.

## Action items
A table with the columns Action, Owner and Due. List an owner only if that person clearly committed to the action; otherwise write \"unassigned\". List a due date only if one was said. Write \"None recorded\" if there are none.

## Open questions
What was raised and not resolved.

## Follow-ups
The next meeting, or material someone promised to send, if either was mentioned.",
    },
    Template {
        id: "interview",
        name: "Interview",
        description: "Each question with a faithful account of the answer.",
        prompt: "\
Capture this interview so that someone who was not there knows what was asked and answered.

## Context
Who is interviewing whom and about what, as far as the transcript says.

## Questions and answers
Every substantive question in order. For each one:
**Q:** the question, made concise. Add the time it was asked, like [05:12].
**A:** a faithful account of the answer: the concrete examples, numbers, reasoning and experience described. Quote a sentence word for word, in quotation marks, when the wording itself matters.

## Key takeaways
The five or so most important things learned, as bullets.

## Follow-ups
Questions that were left unanswered, and anything either side promised to do.",
    }];
    assert(r@ =~= template_list());
    r
}

pub fn template(id: &str) -> (r: Template)
    ensures
        r == template_found(id@),
        (exists|i: int| 0 <= i < template_list().len() && template_list()[i].id@ == id@) ==> (r.id@ == id@
            && exists|i: int|
            0 <= i < template_list().len() && r == template_list()[i] && forall|j: int|
                0 <= j < i ==> template_list()[j].id@ != id@),
        !(exists|i: int| 0 <= i < template_list().len() && template_list()[i].id@ == id@) ==> r
            == template_list()[0],
{
    let list = templates();
    let wanted = chars_of(id);
    let mut i: usize = 0;
    assert(template_list().skip(0) == template_list());
    while i < list.len()
        invariant
            i <= list.len(),
            list@ == template_list(),
            wanted@ == id@,
            forall|j: int| 0 <= j < i ==> template_list()[j].id@ != id@,
            found_in(template_list(), id@) == found_in(template_list().skip(i as int), id@),
        decreases list.len() - i,
    {
        assert(template_list().skip(i as int)[0] == template_list()[i as int]);
        assert(template_list().skip(i as int).drop_first() == template_list().skip(i + 1));
        let candidate = chars_of(list[i].id);
        if same(candidate.as_slice(), wanted.as_slice()) {
            return list[i];
        }
        i = i + 1;
    }
    assert(template_list().skip(list.len() as int).len() == 0);
    list[0]
}

/// Each template gives the minutes its own form: "business" asks for the minutes of a
/// business meeting with its decisions and action items, "interview" for the questions
/// and answers of an interview, and "discussion" for a summary in the order things came up.
pub proof fn law_templates_give_their_own_form()
    ensures
        template_found("business"@).id@ == "business"@,
        starts_with(template_found("business"@).prompt@, "Write the minutes of this business meeting."@),
        contains(template_found("business"@).prompt@, "## Decisions"@),
        contains(template_found("business"@).prompt@, "## Action items"@),
        template_found("interview"@).id@ == "interview"@,
        starts_with(template_found("interview"@).prompt@, "Capture this interview"@),
        contains(template_found("interview"@).prompt@, "## Questions and answers"@),
        template_found("discussion"@).id@ == "discussion"@,
        starts_with(template_found("discussion"@).prompt@, "Summarize this conversation"@),
        contains(template_found("discussion"@).prompt@, "## Discussion"@),
{
    reveal_strlit("discussion");
    reveal_strlit("business");
    reveal_strlit("interview");
    reveal_strlit("\
Summarize this conversation in the order it happened, keeping the essential content.

## Summary
Three to five sentences: what the conversation was about and where it ended up.

## Discussion
One short section per topic, in the order the topics came up. Give each a `###` heading that names the topic, followed by the time it starts, like `### Pricing [12:34]`. Under it, the essential points: what was said, the reasoning, any disagreement, and what was concluded. Prefer substance over completeness; leave out small talk.

## Open points
Questions left unanswered or things to be settled later. Leave this section out if there are none.");
    reveal_strlit("\
Write the minutes of this business meeting.

## Overview
Two to four sentences: the purpose of the meeting and its outcome.

## Key discussion points
Bullets grouped by topic, with the facts, figures and arguments that mattered.

## Decisions
Each decision as one bullet, with the reason if one was given. Write \"None recorded\" if nothing was decided.

## Action items
A table with the columns Action, Owner and Due. List an owner only if that person clearly committed to the action; otherwise write \"unassigned\". List a due date only if one was said. Write \"None recorded\" if there are none.

## Open questions
What was raised and not resolved.

## Follow-ups
The next meeting, or material someone promised to send, if either was mentioned.");
    reveal_strlit("\
Capture this interview so that someone who was not there knows what was asked and answered.

## Context
Who is interviewing whom and about what, as far as the transcript says.

## Questions and answers
Every substantive question in order. For each one:
**Q:** the question, made concise. Add the time it was asked, like [05:12].
**A:** a faithful account of the answer: the concrete examples, numbers, reasoning and experience described. Quote a sentence word for word, in quotation marks, when the wording itself matters.

## Key takeaways
The five or so most important things learned, as bullets.

## Follow-ups
Questions that were left unanswered, and anything either side promised to do.");
    reveal_strlit("Write the minutes of this business meeting.");
    reveal_strlit("## Decisions");
    reveal_strlit("## Action items");
    reveal_strlit("Capture this interview");
    reveal_strlit("## Questions and answers");
    reveal_strlit("Summarize this conversation");
    reveal_strlit("## Discussion");
    let list = template_list();
    reveal_with_fuel(found_in, 4);
    assert(list.drop_first()[0] == list[1]);
    assert(list.drop_first().drop_first()[0] == list[2]);
    let d = list[0].prompt@;
    let b = list[1].prompt@;
    let i = list[2].prompt@;
    assert(template_found("discussion"@) == list[0]);
    assert(list[0].id@ == "discussion"@);
    assert(list[1].id@ == "business"@);
    assert(list[2].id@ == "interview"@);
    assert("discussion"@.len() == 10 && "business"@.len() == 8 && "interview"@.len() == 9);
    assert(list[0].id@ != "business"@);
    assert(found_in(list, "business"@) == found_in(list.drop_first(), "business"@));
    assert(template_found("business"@) == list[1]);
    assert(list[1].id@ != "interview"@) by {
        assert(list[1].id@[0] == 'b');
        assert("interview"@[0] == 'i');
    }
    assert(found_in(list, "interview"@) == found_in(list.drop_first(), "interview"@));
    assert(found_in(list.drop_first(), "interview"@) == found_in(list.drop_first().drop_first(), "interview"@));
    assert(template_found("interview"@) == list[2]);
    assert(b.subrange(0, 43) =~= "Write the minutes of this business meeting."@);
    assert(b.subrange(230, 242) =~= "## Decisions"@);
    assert(occurs_at(b, "## Decisions"@, 230));
    assert(b.subrange(353, 368) =~= "## Action items"@);
    assert(occurs_at(b, "## Action items"@, 353));
    assert(i.subrange(0, 22) =~= "Capture this interview"@);
    assert(i.subrange(177, 201) =~= "## Questions and answers"@);
    assert(occurs_at(i, "## Questions and answers"@, 177));
    assert(d.subrange(0, 27) =~= "Summarize this conversation"@);
    assert(d.subrange(178, 191) =~= "## Discussion"@);
    assert(occurs_at(d, "## Discussion"@, 178));
}

} // verus!
