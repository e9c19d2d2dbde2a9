//! Turning a conversation into the one prompt string the model sees.
//!
//! Protocol-neutral on purpose. Two compatibility adapters need this, and the
//! same conversation must give the same text whichever wire format a client
//! happens to speak. Adapters parse their own types, validate their own rules,
//! and hand over a list of `Turn`s.
//!
//! ```text
//! System: be terse
//!
//! User: hello
//!
//! Assistant: hi
//!
//! User: and again
//!
//! Assistant:
//! ```
//!
//! Plain English role labels, a blank line between turns, and a trailing prime
//! without a space after the colon, because the tokenizer merges a leading
//! space into the following token. A trailing assistant turn is a continuation,
//! not a new turn: the transcript ends with its text.
use vstd::prelude::*;

verus! {

/// Who is speaking.
#[derive(Debug, Clone, Copy, PartialEq, Eq, Structural)]
pub enum Role {
    System,
    User,
    Assistant,
}

impl Role {
    /// The label a turn of this role starts with.
    pub open spec fn label_text(self) -> Seq<char> {
        match self {
            Role::System => "System:"@,
            Role::User => "User:"@,
            Role::Assistant => "Assistant:"@,
        }
    }

    /// The label a turn of this role starts with.
    pub fn label(self) -> (s: &'static str)
        ensures
            s@ == self.label_text(),
    {
        match self {
            Role::System => "System:",
            Role::User => "User:",
            Role::Assistant => "Assistant:",
        }
    }
}

/// One turn of a conversation, already flattened to text by the adapter.
#[derive(Debug, PartialEq)]
pub struct Turn {
    pub role: Role,
    pub text: String,
}

/// What a turn is: who speaks, and what.
pub ghost struct TurnView {
    pub role: Role,
    pub text: Seq<char>,
}

impl View for Turn {
    type V = TurnView;

    open spec fn view(&self) -> TurnView {
        TurnView { role: self.role, text: self.text@ }
    }
}

impl Clone for Turn {
    fn clone(&self) -> (t: Self)
        ensures
            t@ == self@,
    {
        Turn { role: self.role, text: self.text.clone() }
    }
}

impl Turn {
    /// A turn of `text`.
    pub fn new(role: Role, text: &str) -> (t: Self)
        ensures
            t@ == (TurnView { role, text: text@ }),
    {
        Turn { role, text: text.to_owned() }
    }
}

/// The turns of a list, by what they are.
pub open spec fn views(turns: Seq<Turn>) -> Seq<TurnView> {
    turns.map_values(|t: Turn| t@)
}

/// One turn as it stands in the transcript: its label, and its text if it has
/// any.
pub open spec fn turn_text(t: TurnView) -> Seq<char> {
    if t.text.len() == 0 {
        t.role.label_text()
    } else {
        t.role.label_text() + seq![' '] + t.text
    }
}

/// The turns in order, a blank line between each two.
pub open spec fn transcript(turns: Seq<TurnView>) -> Seq<char>
    decreases turns.len(),
{
    if turns.len() == 0 {
        Seq::empty()
    } else if turns.len() == 1 {
        turn_text(turns[0])
    } else {
        transcript(turns.drop_last()) + "\n\n"@ + turn_text(turns.last())
    }
}

/// Whether the last turn is one the model is to continue.
pub open spec fn continues(turns: Seq<TurnView>) -> bool {
    turns.len() > 0 && turns.last().role == Role::Assistant
}

/// The prompt of a conversation: its transcript, primed for the assistant
/// unless the assistant spoke last.
pub open spec fn prompt_of(turns: Seq<TurnView>) -> Seq<char> {
    if continues(turns) {
        transcript(turns)
    } else {
        transcript(turns) + "\n\nAssistant:"@
    }
}

proof fn lemma_transcript_not_empty(turns: Seq<TurnView>)
    requires
        turns.len() > 0,
    ensures
        transcript(turns).len() > 0,
{
    reveal_strlit("System:");
    reveal_strlit("User:");
    reveal_strlit("Assistant:");
}

/// The exact prompt submitted to the model.
///
/// Total and deterministic: the same turns always give the same string.
pub fn serialize(turns: &[Turn]) -> (out: String)
    ensures
        out@ == prompt_of(views(turns@)),
{
    let mut out = String::new();
    let ghost all = views(turns@);
    let mut i: usize = 0;
    while i < turns.len()
        invariant
            i <= turns@.len(),
            all == views(turns@),
            out@ == transcript(all.take(i as int)),
        decreases turns@.len() - i,
    {
        proof {
            if i > 0 {
                lemma_transcript_not_empty(all.take(i as int));
            }
            assert(all.take(i + 1).drop_last() =~= all.take(i as int));
            assert(all.take(i + 1).last() == turns@[i as int]@);
        }
        let ghost before = out@;
        if i > 0 {
            out.append("\n\n");
        }
        out.append(turns[i].role.label());
        if !turns[i].text.as_str().is_empty() {
            out.push(' ');
            out.append(turns[i].text.as_str());
        }
        proof {
            let t = turns@[i as int]@;
            if i > 0 {
                assert(out@ =~= before + "\n\n"@ + turn_text(t));
            } else {
                assert(out@ =~= turn_text(t));
            }
        }
        i += 1;
    }
    assert(all.take(i as int) =~= all);
    let primed: bool = turns.len() > 0 && turns[turns.len() - 1].role == Role::Assistant;
    if !primed {
        out.append("\n\nAssistant:");
    }
    out
}

/// A turn added to a conversation adds to its transcript: what was there stays
/// as it was.
pub proof fn law_transcript_grows_at_the_end(turns: Seq<TurnView>, next: TurnView)
    ensures
        transcript(turns.push(next)) == if turns.len() == 0 {
            turn_text(next)
        } else {
            transcript(turns) + "\n\n"@ + turn_text(next)
        },
{
    assert(turns.push(next).drop_last() =~= turns);
}

/// Unless the assistant spoke last, the prompt ends with the bare prime: the
/// colon is its last character.
pub proof fn law_prime_has_no_trailing_space(turns: Seq<TurnView>)
    requires
        !continues(turns),
    ensures
        prompt_of(turns).last() == ':',
{
    reveal_strlit("\n\nAssistant:");
}

/// A trailing assistant turn is carried on: the prompt ends with its text.
pub proof fn law_trailing_assistant_turn_is_continued(turns: Seq<TurnView>)
    requires
        continues(turns),
    ensures
        prompt_of(turns) == transcript(turns),
        ({
            let t = turns.last().text;
            let p = prompt_of(turns);
            t.len() > 0 ==> p.len() >= t.len() && p.skip(p.len() - t.len()) == t
        }),
{
    let t = turns.last().text;
    let p = prompt_of(turns);
    if t.len() > 0 {
        assert(p.skip(p.len() - t.len()) =~= t);
    }
}

/// Where a piece stands in a text.
pub open spec fn stands(whole: Seq<char>, piece: Seq<char>, at: int) -> bool {
    0 <= at && at + piece.len() <= whole.len() && whole.subrange(at, at + piece.len() as int) == piece
}

/// Every turn stands in the prompt: its label, and behind the label and one space
/// its text, word for word.
pub proof fn law_every_turn_is_in_the_prompt(turns: Seq<TurnView>, i: int)
    requires
        0 <= i < turns.len(),
    ensures
        exists|at: int|
            {
                &&& #[trigger] stands(prompt_of(turns), turns[i].role.label_text(), at)
                &&& turns[i].text.len() > 0 ==> {
                    let end = at + turns[i].role.label_text().len();
                    prompt_of(turns)[end] == ' ' && stands(prompt_of(turns), turns[i].text, end + 1)
                }
            },
{
    let at = lemma_turn_at(turns, i);
    let p = prompt_of(turns);
    let t = transcript(turns);
    let label = turns[i].role.label_text();
    let whole = turn_text(turns[i]);
    assert(t.subrange(at, at + whole.len() as int) == whole);
    assert(p.subrange(at, at + whole.len() as int) =~= whole);
    assert(p.subrange(at, at + label.len() as int) =~= whole.subrange(0, label.len() as int));
    assert(whole.subrange(0, label.len() as int) =~= label);
    assert(stands(p, label, at));
    if turns[i].text.len() > 0 {
        let text = turns[i].text;
        let off = label.len() as int + 1;
        assert(whole[label.len() as int] == ' ');
        assert(p[at + label.len()] == p.subrange(at, at + whole.len() as int)[label.len() as int]);
        assert(p.subrange(at + off, at + off + text.len()) =~= whole.subrange(off, off + text.len()));
        assert(whole.subrange(off, off + text.len()) =~= text);
    }
}

proof fn lemma_turn_at(turns: Seq<TurnView>, i: int) -> (at: int)
    requires
        0 <= i < turns.len(),
    ensures
        stands(transcript(turns), turn_text(turns[i]), at),
    decreases turns.len(),
{
    let t = transcript(turns);
    let last = turn_text(turns.last());
    if i == turns.len() - 1 {
        let at = t.len() - last.len();
        assert(t.subrange(at, at + last.len() as int) =~= last);
        at
    } else {
        let at = lemma_turn_at(turns.drop_last(), i);
        let piece = turn_text(turns[i]);
        assert(t.subrange(at, at + piece.len() as int) =~= transcript(turns.drop_last()).subrange(
            at,
            at + piece.len() as int,
        ));
        at
    }
}

/// The assistant is asked to speak exactly where it did not speak last: otherwise
/// the prompt ends with its label, set off by a blank line.
pub proof fn law_the_assistant_is_asked(turns: Seq<TurnView>)
    requires
        turns.len() > 0,
    ensures
        turns.last().role != Role::Assistant ==> {
            let p = prompt_of(turns);
            let ask = "\n\n"@ + Role::Assistant.label_text();
            stands(p, ask, p.len() - ask.len()) && p.take(p.len() - ask.len()) == transcript(turns)
        },
        turns.last().role == Role::Assistant ==> prompt_of(turns) == transcript(turns),
{
    reveal_strlit("\n\nAssistant:");
    reveal_strlit("\n\n");
    reveal_strlit("Assistant:");
    let p = prompt_of(turns);
    let ask = "\n\n"@ + Role::Assistant.label_text();
    if turns.last().role != Role::Assistant {
        assert(ask =~= "\n\nAssistant:"@);
        assert(p.subrange(p.len() - ask.len(), p.len() as int) =~= ask);
        assert(p.take(p.len() - ask.len()) =~= transcript(turns));
    }
}

/// No two roles have the same label, so that a transcript tells who speaks.
pub proof fn law_labels_are_distinct(a: Role, b: Role)
    ensures
        a.label_text() == b.label_text() ==> a == b,
{
    reveal_strlit("System:");
    reveal_strlit("User:");
    reveal_strlit("Assistant:");
    assert("System:"@.len() == 7);
    assert("User:"@.len() == 5);
    assert("Assistant:"@.len() == 10);
}

} // verus!
