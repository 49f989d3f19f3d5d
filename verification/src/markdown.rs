//! Documents as streams of markdown tokens.
//!
//! The `pulldown-cmark` parser, as `mdbook-markdown` sets it up, cuts a
//! document into events, and `pulldown-cmark-to-cmark` writes events back
//! as markdown. An event is opaque to the verifier: a [`Token`] carries it
//! through, and the two questions that are asked of an event are answered by
//! wrappers whose answers are named here. What the parser and the serializer
//! return is named too: of the four wrappers nothing is proved.
use vstd::prelude::*;
use mdbook_markdown::pulldown_cmark::{Event, LinkType, Tag, TagEnd};
use pulldown_cmark_to_cmark::Error;

verus! {

#[verifier::external_type_specification]
#[verifier::external_body]
pub struct ExEvent<'a>(Event<'a>);

#[verifier::external_type_specification]
#[verifier::external_body]
pub struct ExRenderError(Error);

/// How the parser reads a document.
pub struct MarkdownOptions {
    /// Whether quotes, dashes and dots become curly quotes, dashes and
    /// ellipses.
    pub smart_punctuation: bool,
    /// Whether definition lists are read.
    pub definition_lists: bool,
    /// Whether admonitions are read.
    pub admonitions: bool,
}

impl Default for MarkdownOptions {
    fn default() -> (options: MarkdownOptions)
        ensures
            options.smart_punctuation,
            options.definition_lists,
            options.admonitions,
    {
        MarkdownOptions { smart_punctuation: true, definition_lists: true, admonitions: true }
    }
}

/// One piece of a document.
pub enum Token {
    /// An event, as the parser gave it.
    Parsed(Event<'static>),
    /// A run of plain text.
    Text(String),
    /// The start of an inline link to the destination that it holds, with no
    /// title.
    LinkStart(String),
    /// The end of a link.
    LinkEnd,
}

/// A [`Token`], with the text that it holds as a sequence of characters.
pub enum TokenView {
    Parsed(Event<'static>),
    Text(Seq<char>),
    LinkStart(Seq<char>),
    LinkEnd,
}

impl DeepView for Token {
    type V = TokenView;

    open spec fn deep_view(&self) -> TokenView {
        match self {
            Token::Parsed(event) => TokenView::Parsed(*event),
            Token::Text(text) => TokenView::Text(text@),
            Token::LinkStart(dest) => TokenView::LinkStart(dest@),
            Token::LinkEnd => TokenView::LinkEnd,
        }
    }
}

/// The elements of a document that matter when text is rewritten.
#[derive(Debug, Clone, Copy, PartialEq, Eq, Structural)]
pub enum Region {
    Link,
    CodeBlock,
    HtmlBlock,
    /// Any other element.
    Other,
}

/// What an event does to the element that it stands in.
#[derive(Debug, Clone, Copy, PartialEq, Eq, Structural)]
pub enum Boundary {
    /// The event starts an element.
    Start(Region),
    /// The event ends an element.
    End(Region),
    /// The event neither starts nor ends an element.
    Within,
}

/// The events that the parser reads from `text` under the three options,
/// each as a [`TokenView::Parsed`].
pub uninterp spec fn markdown_tokens(
    text: Seq<char>,
    smart_punctuation: bool,
    definition_lists: bool,
    admonitions: bool,
) -> Seq<TokenView>;

/// The markdown that the serializer writes for `tokens`, or its error.
pub uninterp spec fn rendered(tokens: Seq<TokenView>) -> Result<Seq<char>, Error>;

/// Whether `event` starts or ends an element, and which.
pub uninterp spec fn boundary_of(event: Event<'static>) -> Boundary;

/// The text of `event` where it is an `Event::Text`.
pub uninterp spec fn text_within(event: Event<'static>) -> Option<Seq<char>>;

/// Calls `new_cmark_parser` with the three options set on the default
/// `MarkdownOptions`, and collects the events, each made to own its text.
/// The result is named, not described.
#[verifier::external_body]
pub(crate) fn parse_markdown(text: &str, options: &MarkdownOptions) -> (tokens: Vec<Token>)
    ensures
        tokens.deep_view() == markdown_tokens(
            text@,
            options.smart_punctuation,
            options.definition_lists,
            options.admonitions,
        ),
{
    let mut outside = mdbook_markdown::MarkdownOptions::default();
    outside.smart_punctuation = options.smart_punctuation;
    outside.definition_lists = options.definition_lists;
    outside.admonitions = options.admonitions;
    let events = mdbook_markdown::new_cmark_parser(text, &outside);
    events.map(|event| Token::Parsed(event.into_static())).collect()
}

/// Calls `cmark` on the events that the tokens stand for, and returns what
/// it wrote. The result is named, not described.
#[verifier::external_body]
pub(crate) fn render(tokens: &Vec<Token>) -> (text: Result<String, Error>)
    ensures
        match text {
            Ok(text) => rendered(tokens.deep_view()) == Ok::<Seq<char>, Error>(text@),
            Err(error) => rendered(tokens.deep_view()) == Err::<Seq<char>, Error>(error),
        },
{
    let events = tokens.iter().map(|token| match token {
        Token::Parsed(event) => event.clone(),
        Token::Text(text) => Event::Text(text.clone().into()),
        Token::LinkStart(dest) => Event::Start(Tag::Link {
            link_type: LinkType::Inline,
            dest_url: dest.clone().into(),
            title: "".into(),
            id: "".into(),
        }),
        Token::LinkEnd => Event::End(TagEnd::Link),
    });
    let mut buf = String::new();
    pulldown_cmark_to_cmark::cmark(events, &mut buf).map(|_| buf)
}

/// Tells the variants of `Event`, `Tag` and `TagEnd` apart.
#[verifier::external_body]
pub(crate) fn event_boundary(event: &Event<'static>) -> (result: Boundary)
    ensures
        result == boundary_of(*event),
{
    match event {
        Event::Start(Tag::Link { .. }) => Boundary::Start(Region::Link),
        Event::Start(Tag::CodeBlock(_)) => Boundary::Start(Region::CodeBlock),
        Event::Start(Tag::HtmlBlock) => Boundary::Start(Region::HtmlBlock),
        Event::Start(_) => Boundary::Start(Region::Other),
        Event::End(TagEnd::Link) => Boundary::End(Region::Link),
        Event::End(TagEnd::CodeBlock) => Boundary::End(Region::CodeBlock),
        Event::End(TagEnd::HtmlBlock) => Boundary::End(Region::HtmlBlock),
        Event::End(_) => Boundary::End(Region::Other),
        _ => Boundary::Within,
    }
}

/// Copies the text out of an `Event::Text`.
#[verifier::external_body]
pub(crate) fn event_text(event: &Event<'static>) -> (result: Option<String>)
    ensures
        result.deep_view() == text_within(*event),
{
    match event {
        Event::Text(text) => Some(text.to_string()),
        _ => None,
    }
}

} // verus!
