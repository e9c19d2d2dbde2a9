//! What the adapters exchange with the generation service.
use vstd::prelude::*;

verus! {

/// Why generation stopped.
#[derive(Debug, Clone, Copy, PartialEq, Eq, Structural)]
pub enum FinishReason {
    Length,
    Cancelled,
}

/// One item of a generation in progress.
#[derive(Debug, Clone)]
pub enum StreamItem {
    /// The text that one token adds. Empty where the token ends inside a
    /// character.
    Token { text: String },
    /// The end: why, what the service calls that, how many tokens there were,
    /// and the text still buffered by the decoder.
    Done { reason: FinishReason, name: String, generated: usize, tail: String },
    /// Generation failed.
    Failed(String),
}

/// What an item says.
pub ghost enum ItemView {
    Token { text: Seq<char> },
    Done { reason: FinishReason, name: Seq<char>, generated: nat, tail: Seq<char> },
    Failed(Seq<char>),
}

impl View for StreamItem {
    type V = ItemView;

    open spec fn view(&self) -> ItemView {
        match self {
            StreamItem::Token { text } => ItemView::Token { text: text@ },
            StreamItem::Done { reason, name, generated, tail } => ItemView::Done {
                reason: *reason,
                name: name@,
                generated: *generated as nat,
                tail: tail@,
            },
            StreamItem::Failed(e) => ItemView::Failed(e@),
        }
    }
}

impl ItemView {
    /// The text an item adds to the completion.
    pub open spec fn added(self) -> Seq<char> {
        match self {
            ItemView::Token { text } => text,
            ItemView::Done { tail, .. } => tail,
            ItemView::Failed(_) => Seq::empty(),
        }
    }
}

/// Why the service did not take a request.
#[derive(Debug, Clone)]
pub enum SubmitError {
    Tokenise(String),
    Invalid(String),
    TooLarge(String),
    Sampling(String),
    QueueFull(String),
    Unavailable(String),
}

impl SubmitError {
    /// The service's own words.
    pub open spec fn text(self) -> Seq<char> {
        match self {
            SubmitError::Tokenise(m) => m@,
            SubmitError::Invalid(m) => m@,
            SubmitError::TooLarge(m) => m@,
            SubmitError::Sampling(m) => m@,
            SubmitError::QueueFull(m) => m@,
            SubmitError::Unavailable(m) => m@,
        }
    }

    /// The service's own words.
    pub fn message(&self) -> (m: &str)
        ensures
            m@ == self.text(),
    {
        match self {
            SubmitError::Tokenise(m) => m.as_str(),
            SubmitError::Invalid(m) => m.as_str(),
            SubmitError::TooLarge(m) => m.as_str(),
            SubmitError::Sampling(m) => m.as_str(),
            SubmitError::QueueFull(m) => m.as_str(),
            SubmitError::Unavailable(m) => m.as_str(),
        }
    }
}

/// A completion that is put together before it is sent.
#[derive(Debug)]
pub struct Collector {
    text: String,
    generated: usize,
    finish: Option<(FinishReason, String)>,
}

/// What has been collected.
pub ghost struct CollectorView {
    pub text: Seq<char>,
    pub generated: nat,
    pub finish: Option<(FinishReason, Seq<char>)>,
}

impl View for Collector {
    type V = CollectorView;

    closed spec fn view(&self) -> CollectorView {
        CollectorView {
            text: self.text@,
            generated: self.generated as nat,
            finish: match self.finish {
                Some(f) => Some((f.0, f.1@)),
                None => None,
            },
        }
    }
}

impl CollectorView {
    /// Nothing collected yet.
    pub open spec fn empty() -> CollectorView {
        CollectorView { text: Seq::empty(), generated: 0, finish: None }
    }

    /// The collection after one more item.
    pub open spec fn with(self, item: ItemView) -> CollectorView {
        match item {
            ItemView::Token { text } => CollectorView { text: self.text + text, ..self },
            ItemView::Done { reason, name, generated, tail } => CollectorView {
                text: self.text + tail,
                generated,
                finish: Some((reason, name)),
            },
            ItemView::Failed(_) => self,
        }
    }
}

/// What a run of items adds up to.
pub open spec fn collected(items: Seq<ItemView>) -> CollectorView
    decreases items.len(),
{
    if items.len() == 0 {
        CollectorView::empty()
    } else {
        collected(items.drop_last()).with(items.last())
    }
}

/// Whether a collection goes on.
#[derive(Debug)]
pub enum Collected {
    /// Wait for the next item.
    More,
    /// The completion is there.
    Finished,
    /// Generation failed, in the service's words.
    Failed(String),
}

impl Collector {
    /// Nothing collected yet.
    pub fn new() -> (c: Self)
        ensures
            c@ == CollectorView::empty(),
    {
        Collector { text: String::new(), generated: 0, finish: None }
    }

    /// Take one item.
    pub fn push(&mut self, item: StreamItem) -> (p: Collected)
        ensures
            final(self)@ == old(self)@.with(item@),
            match item@ {
                ItemView::Token { .. } => p is More,
                ItemView::Done { .. } => p is Finished,
                ItemView::Failed(e) => p matches Collected::Failed(m) && m@ == e,
            },
    {
        match item {
            StreamItem::Token { text } => {
                self.text.append(text.as_str());
                Collected::More
            },
            StreamItem::Done { reason, name, generated, tail } => {
                self.text.append(tail.as_str());
                self.generated = generated;
                self.finish = Some((reason, name));
                Collected::Finished
            },
            StreamItem::Failed(e) => Collected::Failed(e),
        }
    }

    /// Tokens generated; zero unless the end was seen.
    pub fn generated(&self) -> (n: usize)
        ensures
            n == self@.generated,
    {
        self.generated
    }

    /// The text, and why generation stopped where the end was seen.
    pub fn into_parts(self) -> (p: (String, usize, Option<(FinishReason, String)>))
        ensures
            p.0@ == self@.text,
            p.1 == self@.generated,
            match p.2 {
                Some(f) => self@.finish == Some((f.0, f.1@)),
                None => self@.finish is None,
            },
    {
        (self.text, self.generated, self.finish)
    }
}

/// What one item gives by itself: a token its text, the end its tail, its count
/// and its reason, a failure nothing.
pub proof fn law_items_are_taken(text: Seq<char>, reason: FinishReason, name: Seq<char>, n: nat)
    ensures
        collected(seq![ItemView::Token { text }]).text == text,
        collected(seq![ItemView::Token { text }]).finish is None,
        collected(seq![ItemView::Token { text }]).generated == 0,
        collected(seq![ItemView::Done { reason, name, generated: n, tail: text }]).text == text,
        collected(seq![ItemView::Done { reason, name, generated: n, tail: text }]).generated == n,
        collected(seq![ItemView::Done { reason, name, generated: n, tail: text }]).finish == Some(
            (reason, name),
        ),
        collected(seq![ItemView::Failed(text)]) == collected(Seq::empty()),
        collected(Seq::empty()).text.len() == 0,
        collected(Seq::empty()).finish is None,
{
    let token = seq![ItemView::Token { text }];
    let done = seq![ItemView::Done { reason, name, generated: n, tail: text }];
    let failed = seq![ItemView::Failed(text)];
    assert(token.drop_last() =~= Seq::empty());
    assert(done.drop_last() =~= Seq::empty());
    assert(failed.drop_last() =~= Seq::empty());
    let none = collected(Seq::empty());
    assert(collected(token) == none.with(token.last()));
    assert(collected(done) == none.with(done.last()));
    assert(collected(failed) == none.with(failed.last()));
    assert(none.text + text =~= text);
}

/// The text of a run of items is the text of its first part and then that of
/// its second; its count and its reason are those of the last end in it.
pub proof fn law_runs_are_joined(a: Seq<ItemView>, b: Seq<ItemView>)
    ensures
        collected(a + b).text == collected(a).text + collected(b).text,
        collected(b).finish is Some ==> collected(a + b).finish == collected(b).finish
            && collected(a + b).generated == collected(b).generated,
        collected(b).finish is None ==> collected(a + b).finish == collected(a).finish
            && collected(a + b).generated == collected(a).generated,
    decreases b.len(),
{
    if b.len() == 0 {
        assert(a + b =~= a);
        assert(collected(b) == CollectorView::empty());
        assert(collected(a).text + collected(b).text =~= collected(a).text);
    } else {
        law_runs_are_joined(a, b.drop_last());
        assert((a + b).drop_last() =~= a + b.drop_last());
        assert((a + b).last() == b.last());
        assert(collected(a + b) == collected(a + b.drop_last()).with(b.last()));
        assert(collected(b) == collected(b.drop_last()).with(b.last()));
        assert(collected(a + b).text =~= collected(a).text + collected(b).text);
    }
}

} // verus!
