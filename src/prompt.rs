//! The system prompt's placeholders and the messages sent to a model.
use vstd::prelude::*;
use crate::memory::{by_time, joined_set, line_view, shown_for, Memory, Sender};

verus! {

/// Hard limit on the length of a chat line, in bytes.
pub const MAX_LINE_LENGTH: usize = 300;

/// A message as sent to a model: its role and its text.
#[derive(Debug)]
pub struct Message {
    pub role: String,
    pub content: String,
}

/// `s` with every non-overlapping occurrence of `pat`, from the left, replaced by `to`;
/// an empty `pat` occurs before every character and at the end.
pub open spec fn replace_all(s: Seq<char>, pat: Seq<char>, to: Seq<char>) -> Seq<char>
    decreases s.len(),
{
    if pat.len() == 0 {
        if s.len() == 0 {
            to
        } else {
            to + seq![s[0]] + replace_all(s.subrange(1, s.len() as int), pat, to)
        }
    } else if s.len() < pat.len() {
        s
    } else if s.subrange(0, pat.len() as int) == pat {
        to + replace_all(s.subrange(pat.len() as int, s.len() as int), pat, to)
    } else {
        seq![s[0]] + replace_all(s.subrange(1, s.len() as int), pat, to)
    }
}

/// Relies on `str::replace`: replaces all non-overlapping matches of `from`, scanning
/// from the left.
#[verifier::external_body]
pub(crate) fn replace_text(s: &str, from: &str, to: &str) -> (r: String)
    ensures
        r@ == replace_all(s@, from@, to@),
{
    s.replace(from, to)
}

/// The decimal digits of `n`, most significant first, without leading zeros.
pub open spec fn decimal_text(n: nat) -> Seq<char>
    decreases n,
{
    if n < 10 {
        seq![('0' as u8 + n) as char]
    } else {
        decimal_text(n / 10) + seq![('0' as u8 + (n % 10)) as char]
    }
}

/// Relies on `usize`'s `to_string` (its `Display`): the number in decimal digits.
#[verifier::external_body]
fn decimal(n: usize) -> (r: String)
    ensures
        r@ == decimal_text(n as nat),
{
    n.to_string()
}

/// The prompt with each `{MAX_LINE_LENGTH}` replaced by the line limit in decimal.
pub fn format_prompt(prompt: &str) -> (r: String)
    ensures
        r@ == replace_all(prompt@, "{MAX_LINE_LENGTH}"@, decimal_text(MAX_LINE_LENGTH as nat)),
{
    let limit = decimal(MAX_LINE_LENGTH);
    proof { reveal_strlit("{MAX_LINE_LENGTH}"); }
    replace_text(prompt, "{MAX_LINE_LENGTH}", limit.as_str())
}

/// The role name of a sender, as sent to a model.
pub open spec fn role_text(s: Sender) -> Seq<char> {
    match s {
        Sender::User => "user"@,
        Sender::Assistant => "assistant"@,
    }
}

/// The messages for a query of `sender` in channel `receiver`: the system prompt with its
/// placeholders filled in, then what the users joined with `sender` said there, in order
/// of time, then the query itself.
pub fn build_prompt(query: &str, sender: &str, receiver: &str, memory: &Memory, system_prompt: &str) -> (r: Vec<Message>)
    requires
        memory.wf(),
    ensures
        r@.len() >= 2,
        r@[0].role@ == "system"@,
        r@[0].content@ == replace_all(system_prompt@, "{MAX_LINE_LENGTH}"@, decimal_text(MAX_LINE_LENGTH as nat)),
        r@.last().role@ == "user"@,
        r@.last().content@ == query@,
        exists|lines: Seq<(Sender, Seq<char>, i64)>| {
            &&& lines.len() + 2 == r@.len()
            &&& by_time(lines)
            &&& (exists|us: Seq<Seq<char>>| us.to_set() == joined_set(memory.sets_of(receiver@), sender@)
                && lines.to_multiset() == shown_for(memory.history(), us, receiver@).to_multiset())
            &&& forall|i: int| 0 <= i < lines.len() ==> (#[trigger] r@[i + 1]).role@ == role_text(lines[i].0)
                && r@[i + 1].content@ == lines[i].1
        },
{
    let mut v: Vec<Message> = Vec::new();
    v.push(Message { role: "system".to_string(), content: format_prompt(system_prompt) });
    let history = memory.joined_history(sender, receiver);
    let ghost lines = history@.map_values(|t: (Sender, String, i64)| line_view(t));
    let mut i: usize = 0;
    while i < history.len()
        invariant
            i <= history@.len(),
            lines == history@.map_values(|t: (Sender, String, i64)| line_view(t)),
            v@.len() == i + 1,
            v@[0].role@ == "system"@,
            v@[0].content@ == replace_all(system_prompt@, "{MAX_LINE_LENGTH}"@, decimal_text(MAX_LINE_LENGTH as nat)),
            forall|k: int| 0 <= k < i ==> (#[trigger] v@[k + 1]).role@ == role_text(lines[k].0) && v@[k + 1].content@ == lines[k].1,
        decreases history@.len() - i,
    {
        let line = &history[i];
        let role = line.0.as_str().to_string();
        proof {
            reveal_strlit("user");
            reveal_strlit("assistant");
        }
        v.push(Message { role, content: line.1.clone() });
        proof {
            assert(v@[i + 1 as int].content@ == lines[i as int].1);
        }
        i = i + 1;
    }
    v.push(Message { role: "user".to_string(), content: query.to_string() });
    proof {
        reveal_strlit("user");
        reveal_strlit("system");
        assert forall|k: int| 0 <= k < lines.len() implies (#[trigger] v@[k + 1]).role@ == role_text(lines[k].0)
            && v@[k + 1].content@ == lines[k].1 by {
        }
    }
    v
}

} // verus!
