//! Links from bare issue references, such as `#123`, to the issue tracker.
use vstd::prelude::*;
use vstd::string::*;
use crate::markdown::{
    boundary_of, event_boundary, event_text, markdown_tokens, parse_markdown, render, rendered,
    text_within, Boundary, MarkdownOptions, Region, Token, TokenView,
};
use crate::stability::{lemma_linked_twice, lemma_unchanged_without_reference, quiet};
use crate::text::{chars_of, join_range, join_with};
use crate::urls::{
    as_text, is_on_supported_host, on_supported_host, parse, parsed, path_fits, path_segments,
    replace_path, segments_of, text_of, with_path,
};

verus! {

/// Whether `c` is one of the ten ASCII digits.
pub open spec fn is_digit(c: char) -> bool {
    '0' <= c && c <= '9'
}

/// Whether a `#` stands at `i` in `text` with a digit right behind it.
pub open spec fn is_reference_at(text: Seq<char>, i: int) -> bool {
    0 <= i && i + 1 < text.len() && text[i] == '#' && is_digit(text[i + 1])
}

/// Whether `text` refers to an issue anywhere.
pub open spec fn has_reference(text: Seq<char>) -> bool {
    exists|i: int| is_reference_at(text, i)
}

/// The place of the first issue reference in `text` at or behind `from`;
/// the length of `text` where there is none.
pub open spec fn next_reference(text: Seq<char>, from: int) -> int
    decreases text.len() - from,
{
    if from < 0 || from >= text.len() {
        text.len() as int
    } else if is_reference_at(text, from) {
        from
    } else {
        next_reference(text, from + 1)
    }
}

/// The end of the run of digits that starts at `from` in `text`.
pub open spec fn digits_end(text: Seq<char>, from: int) -> int
    decreases text.len() - from,
{
    if 0 <= from < text.len() && is_digit(text[from]) {
        digits_end(text, from + 1)
    } else {
        from
    }
}

/// A piece of a text that is cut at its issue references.
pub enum Piece {
    /// Text that refers to no issue.
    Plain(String),
    /// A reference to an issue: the digits behind the `#`.
    Reference(String),
}

/// A [`Piece`], with its text as a sequence of characters.
pub enum PieceView {
    Plain(Seq<char>),
    Reference(Seq<char>),
}

impl DeepView for Piece {
    type V = PieceView;

    open spec fn deep_view(&self) -> PieceView {
        match self {
            Piece::Plain(text) => PieceView::Plain(text@),
            Piece::Reference(digits) => PieceView::Reference(digits@),
        }
    }
}

/// `text` from `from` on, cut at its issue references: the text before the
/// first reference, the reference, the text between it and the next one,
/// and so on. Text stands before every reference, be it empty; no text
/// stands behind a reference that ends `text`.
pub open spec fn pieces_of(text: Seq<char>, from: int) -> Seq<PieceView>
    decreases text.len() - from,
    via pieces_of_decreases
{
    if from < 0 || from >= text.len() {
        Seq::empty()
    } else {
        let at = next_reference(text, from);
        if at >= text.len() {
            seq![PieceView::Plain(text.subrange(from, text.len() as int))]
        } else {
            let end = digits_end(text, at + 1);
            seq![
                PieceView::Plain(text.subrange(from, at)),
                PieceView::Reference(text.subrange(at + 1, end)),
            ] + pieces_of(text, end)
        }
    }
}

#[via_fn]
proof fn pieces_of_decreases(text: Seq<char>, from: int) {
    if 0 <= from < text.len() {
        lemma_next_reference(text, from);
        let at = next_reference(text, from);
        if at < text.len() {
            lemma_digits_end(text, at + 1);
        }
    }
}

/// `next_reference` finds the first reference at or behind `from`.
pub proof fn lemma_next_reference(text: Seq<char>, from: int)
    requires
        0 <= from <= text.len(),
    ensures
        from <= next_reference(text, from) <= text.len(),
        next_reference(text, from) < text.len() ==> is_reference_at(
            text,
            next_reference(text, from),
        ),
        forall|i: int| from <= i < next_reference(text, from) ==> !is_reference_at(text, i),
    decreases text.len() - from,
{
    if from < text.len() && !is_reference_at(text, from) {
        lemma_next_reference(text, from + 1);
    }
}

/// `digits_end` finds the end of the run of digits that starts at `from`.
pub proof fn lemma_digits_end(text: Seq<char>, from: int)
    requires
        0 <= from <= text.len(),
    ensures
        from <= digits_end(text, from) <= text.len(),
        forall|i: int| from <= i < digits_end(text, from) ==> is_digit(text[i]),
        digits_end(text, from) < text.len() ==> !is_digit(text[digits_end(text, from)]),
    decreases text.len() - from,
{
    if from < text.len() && is_digit(text[from]) {
        lemma_digits_end(text, from + 1);
    }
}

/// A text refers to an issue exactly where `next_reference` finds a
/// reference in it.
pub proof fn lemma_has_reference(text: Seq<char>)
    ensures
        has_reference(text) <==> next_reference(text, 0) < text.len(),
{
    lemma_next_reference(text, 0);
    if has_reference(text) {
        let i = choose|i: int| is_reference_at(text, i);
        assert(is_reference_at(text, i));
    }
}

/// Whether `c` is one of the ten ASCII digits.
pub fn is_ascii_digit(c: char) -> (digit: bool)
    ensures
        digit == is_digit(c),
{
    '0' <= c && c <= '9'
}

/// Cuts `text` at its issue references.
pub fn split_references(text: &str) -> (pieces: Vec<Piece>)
    ensures
        pieces.deep_view() == pieces_of(text@, 0),
{
    let chars = chars_of(text);
    let n = chars.len();
    let mut pieces: Vec<Piece> = Vec::new();
    let mut from: usize = 0;
    proof {
        assert(pieces.deep_view() =~= Seq::<PieceView>::empty());
    }
    while from < n
        invariant
            from <= n,
            n == text@.len(),
            chars@ == text@,
            pieces_of(text@, 0) == pieces.deep_view() + pieces_of(text@, from as int),
        decreases n - from,
    {
        let mut at: usize = from;
        while at < n && !(chars[at] == '#' && at + 1 < n && is_ascii_digit(chars[at + 1]))
            invariant
                from <= at <= n,
                n == text@.len(),
                chars@ == text@,
                next_reference(text@, from as int) == next_reference(text@, at as int),
            decreases n - at,
        {
            at = at + 1;
        }
        let ghost before = pieces.deep_view();
        let plain = text.substring_char(from, at);
        pieces.push(Piece::Plain(String::from_str(plain)));
        if at < n {
            let mut end: usize = at + 1;
            while end < n && is_ascii_digit(chars[end])
                invariant
                    at < end <= n,
                    n == text@.len(),
                    chars@ == text@,
                    digits_end(text@, at + 1) == digits_end(text@, end as int),
                decreases n - end,
            {
                end = end + 1;
            }
            let digits = text.substring_char(at + 1, end);
            pieces.push(Piece::Reference(String::from_str(digits)));
            proof {
                assert(pieces.deep_view() =~= before + seq![
                    PieceView::Plain(text@.subrange(from as int, at as int)),
                    PieceView::Reference(text@.subrange(at + 1, end as int)),
                ]);
            }
            from = end;
        } else {
            proof {
                assert(pieces.deep_view() =~= before + seq![
                    PieceView::Plain(text@.subrange(from as int, n as int)),
                ]);
            }
            from = n;
        }
    }
    proof {
        assert(pieces_of(text@, n as int) =~= Seq::<PieceView>::empty());
    }
    pieces
}

/// Why the issue references of a document could not be linked.
#[derive(Debug, Clone, Copy, PartialEq, Eq, Structural)]
pub enum LinkError {
    /// The origin URL of the document is no absolute URL.
    MalformedOrigin,
    /// The origin URL of the document is not on the supported host, or has
    /// no path to take a repository from.
    UnsupportedHost,
    /// The URL of an issue is too long to be written.
    TooLong,
    /// The document cannot be written back as markdown.
    Unrenderable,
}

/// The path of issue `number` of the repository that holds the file with
/// these path segments: the first two segments, `issues` and the number.
pub open spec fn issues_path_of(segments: Seq<Seq<char>>, number: Seq<char>) -> Seq<char> {
    join_with(segments.subrange(0, if segments.len() < 2 { segments.len() as int } else { 2 }), "/"@)
        + "/issues/"@ + number
}

/// The path of issue `num` of the repository that holds the file with these
/// path segments.
pub fn issues_path(segments: &Vec<String>, num: &str) -> (path: String)
    ensures
        path@ == issues_path_of(segments.deep_view(), num@),
{
    let upto = if segments.len() < 2 { segments.len() } else { 2 };
    let mut path = join_range(segments, 0, upto, "/");
    path.append("/issues/");
    path.append(num);
    path
}

/// The URL of issue `number` of the repository that holds the file at
/// `file_url`.
pub open spec fn issue_address(number: Seq<char>, file_url: Seq<char>) -> Result<
    Seq<char>,
    LinkError,
> {
    match parsed(file_url) {
        Err(_) => Err(LinkError::MalformedOrigin),
        Ok(file) => if on_supported_host(file) && segments_of(file) is Some {
            let path = issues_path_of(segments_of(file)->0, number);
            if path_fits(file, path) {
                Ok(text_of(with_path(file, path)))
            } else {
                Err(LinkError::TooLong)
            }
        } else {
            Err(LinkError::UnsupportedHost)
        },
    }
}

/// The URL of issue `num` of the repository that holds the file at
/// `file_url`.
pub fn as_issue_url(num: &str, file_url: &str) -> (result: Result<String, LinkError>)
    ensures
        match result {
            Ok(url) => issue_address(num@, file_url@) == Ok::<Seq<char>, LinkError>(url@),
            Err(error) => issue_address(num@, file_url@) == Err::<Seq<char>, LinkError>(error),
        },
{
    let file = match parse(file_url) {
        Ok(file) => file,
        Err(_) => {
            return Err(LinkError::MalformedOrigin);
        },
    };
    if !is_on_supported_host(&file) {
        return Err(LinkError::UnsupportedHost);
    }
    match path_segments(&file) {
        Some(segments) => {
            let path = issues_path(&segments, num);
            match replace_path(&file, path.as_str()) {
                Some(url) => Ok(String::from_str(as_text(&url))),
                None => Err(LinkError::TooLong),
            }
        },
        None => Err(LinkError::UnsupportedHost),
    }
}

/// What a token means to the pass that links issue references.
pub enum Role {
    /// The token starts a link, a code block or a block of raw markup.
    Enter,
    /// The token ends one of them.
    Leave,
    /// The token is a run of text.
    Text(Seq<char>),
    /// Any other token.
    Other,
}

/// Whether text inside `region` is kept from being read for issue
/// references.
pub open spec fn protects(region: Region) -> bool {
    region == Region::Link || region == Region::CodeBlock || region == Region::HtmlBlock
}

/// What `token` means to the pass.
pub open spec fn role_of(token: TokenView) -> Role {
    match token {
        TokenView::Parsed(event) => match boundary_of(event) {
            Boundary::Start(region) => if protects(region) {
                Role::Enter
            } else {
                Role::Other
            },
            Boundary::End(region) => if protects(region) {
                Role::Leave
            } else {
                Role::Other
            },
            Boundary::Within => match text_within(event) {
                Some(text) => Role::Text(text),
                None => Role::Other,
            },
        },
        TokenView::Text(text) => Role::Text(text),
        TokenView::LinkStart(_) => Role::Enter,
        TokenView::LinkEnd => Role::Leave,
    }
}

/// The tokens that stand for `pieces` in a document that came from
/// `origin`: a run of text for each plain piece, and for each reference a
/// link to the issue around the reference as it was written. The first
/// reference whose URL cannot be made gives the error.
pub open spec fn linked_pieces(pieces: Seq<PieceView>, origin: Seq<char>) -> Result<
    Seq<TokenView>,
    LinkError,
>
    decreases pieces.len(),
{
    if pieces.len() == 0 {
        Ok(Seq::empty())
    } else {
        match linked_pieces(pieces.drop_last(), origin) {
            Err(error) => Err(error),
            Ok(tokens) => match pieces.last() {
                PieceView::Plain(text) => Ok(tokens.push(TokenView::Text(text))),
                PieceView::Reference(digits) => match issue_address(digits, origin) {
                    Err(error) => Err(error),
                    Ok(dest) => Ok(
                        tokens + seq![
                            TokenView::LinkStart(dest),
                            TokenView::Text(seq!['#'] + digits),
                            TokenView::LinkEnd,
                        ],
                    ),
                },
            },
        }
    }
}

/// How far the pass has come.
pub struct Pass {
    /// Whether the pass stands inside a link, a code block or a block of raw
    /// markup.
    pub protected: bool,
    /// Whether an issue reference was linked.
    pub changed: bool,
    /// The tokens written so far.
    pub out: Seq<TokenView>,
}

/// The pass before the first token.
pub open spec fn start() -> Pass {
    Pass { protected: false, changed: false, out: Seq::empty() }
}

/// The pass after `token`. Text outside protected regions is cut at its
/// issue references and written as [`linked_pieces`] says; every other token
/// is written as it came.
pub open spec fn step(pass: Pass, token: TokenView, origin: Seq<char>) -> Result<Pass, LinkError> {
    match role_of(token) {
        Role::Enter => Ok(Pass { protected: true, changed: pass.changed, out: pass.out.push(token) }),
        Role::Leave => Ok(
            Pass { protected: false, changed: pass.changed, out: pass.out.push(token) },
        ),
        Role::Text(text) => if pass.protected {
            Ok(Pass { protected: true, changed: pass.changed, out: pass.out.push(token) })
        } else {
            match linked_pieces(pieces_of(text, 0), origin) {
                Err(error) => Err(error),
                Ok(tokens) => Ok(
                    Pass {
                        protected: false,
                        changed: pass.changed || has_reference(text),
                        out: pass.out + tokens,
                    },
                ),
            }
        },
        Role::Other => Ok(
            Pass { protected: pass.protected, changed: pass.changed, out: pass.out.push(token) },
        ),
    }
}

/// The pass after `tokens`, or the error of the first token that it could
/// not take.
pub open spec fn run(tokens: Seq<TokenView>, origin: Seq<char>) -> Result<Pass, LinkError>
    decreases tokens.len(),
{
    if tokens.len() == 0 {
        Ok(start())
    } else {
        match run(tokens.drop_last(), origin) {
            Err(error) => Err(error),
            Ok(pass) => step(pass, tokens.last(), origin),
        }
    }
}

/// `tokens` with the issue references of their text linked, for a document
/// that came from `origin`; `None` where they hold no reference to link.
pub open spec fn linked(tokens: Seq<TokenView>, origin: Seq<char>) -> Result<
    Option<Seq<TokenView>>,
    LinkError,
> {
    match run(tokens, origin) {
        Err(error) => Err(error),
        Ok(pass) => if pass.changed {
            Ok(Some(pass.out))
        } else {
            Ok(None)
        },
    }
}

/// The markdown of `tokens` with their issue references linked; `None`
/// where they hold no reference to link.
pub open spec fn written_with_links(tokens: Seq<TokenView>, origin: Seq<char>) -> Result<
    Option<Seq<char>>,
    LinkError,
> {
    match linked(tokens, origin) {
        Err(error) => Err(error),
        Ok(None) => Ok(None),
        Ok(Some(tokens)) => match rendered(tokens) {
            Ok(text) => Ok(Some(text)),
            Err(_) => Err(LinkError::Unrenderable),
        },
    }
}

/// The document `content` with its issue references linked, read under the
/// three options; `None` where it holds no reference to link.
pub open spec fn issues_linked(
    content: Seq<char>,
    origin: Seq<char>,
    smart_punctuation: bool,
    definition_lists: bool,
    admonitions: bool,
) -> Result<Option<Seq<char>>, LinkError> {
    written_with_links(
        markdown_tokens(content, smart_punctuation, definition_lists, admonitions),
        origin,
    )
}

/// Once the pass has failed, it fails in the same way on any longer
/// document.
pub proof fn lemma_run_fails_on(tokens: Seq<TokenView>, upto: int, origin: Seq<char>)
    requires
        0 <= upto <= tokens.len(),
        run(tokens.subrange(0, upto), origin) is Err,
    ensures
        run(tokens, origin) == run(tokens.subrange(0, upto), origin),
    decreases tokens.len() - upto,
{
    if upto < tokens.len() {
        assert(tokens.subrange(0, upto + 1).drop_last() =~= tokens.subrange(0, upto));
        lemma_run_fails_on(tokens, upto + 1, origin);
    } else {
        assert(tokens.subrange(0, upto) =~= tokens);
    }
}

/// Once a piece cannot be linked, no longer list of pieces can.
pub proof fn lemma_linked_pieces_fails_on(pieces: Seq<PieceView>, upto: int, origin: Seq<char>)
    requires
        0 <= upto <= pieces.len(),
        linked_pieces(pieces.subrange(0, upto), origin) is Err,
    ensures
        linked_pieces(pieces, origin) == linked_pieces(pieces.subrange(0, upto), origin),
    decreases pieces.len() - upto,
{
    if upto < pieces.len() {
        assert(pieces.subrange(0, upto + 1).drop_last() =~= pieces.subrange(0, upto));
        lemma_linked_pieces_fails_on(pieces, upto + 1, origin);
    } else {
        assert(pieces.subrange(0, upto) =~= pieces);
    }
}

/// A text refers to an issue exactly where cutting it gives more than one
/// piece.
pub proof fn lemma_pieces_count(text: Seq<char>)
    ensures
        has_reference(text) <==> pieces_of(text, 0).len() >= 2,
{
    lemma_has_reference(text);
    lemma_next_reference(text, 0);
}

/// Writes the tokens that stand for `pieces` behind those of `out`.
pub fn link_pieces(pieces: Vec<Piece>, source_url: &str, out: &mut Vec<Token>) -> (result: Result<
    (),
    LinkError,
>)
    ensures
        match result {
            Ok(_) => linked_pieces(pieces.deep_view(), source_url@) matches Ok(tokens)
                && final(out).deep_view() == old(out).deep_view() + tokens,
            Err(error) => linked_pieces(pieces.deep_view(), source_url@) == Err::<
                Seq<TokenView>,
                LinkError,
            >(error),
        },
{
    let ghost all = pieces@;
    let ghost views = pieces.deep_view();
    let ghost before = out.deep_view();
    proof {
        assert(views.subrange(0, 0) =~= Seq::<PieceView>::empty());
        assert(before + Seq::<TokenView>::empty() =~= before);
    }
    for piece in it: pieces.into_iter()
        invariant
            it.seq() == all,
            views == pieces.deep_view(),
            views.len() == all.len(),
            forall|i: int| 0 <= i < all.len() ==> views[i] == all[i].deep_view(),
            linked_pieces(views.subrange(0, it.index() as int), source_url@) matches Ok(tokens)
                && out.deep_view() == before + tokens,
    {
        let ghost index = it.index() as int;
        let ghost upto = views.subrange(0, index + 1);
        let ghost done = linked_pieces(views.subrange(0, index), source_url@)->Ok_0;
        let ghost written = out.deep_view();
        proof {
            assert(upto.drop_last() =~= views.subrange(0, index));
            assert(upto.last() == piece.deep_view());
        }
        match piece {
            Piece::Plain(text) => {
                out.push(Token::Text(text));
                proof {
                    assert(out.deep_view() =~= written.push(TokenView::Text(text@)));
                    assert(out.deep_view() =~= before + done.push(TokenView::Text(text@)));
                }
            },
            Piece::Reference(digits) => {
                let url = match as_issue_url(digits.as_str(), source_url) {
                    Ok(url) => url,
                    Err(error) => {
                        proof {
                            assert(linked_pieces(upto, source_url@) == Err::<
                                Seq<TokenView>,
                                LinkError,
                            >(error));
                            lemma_linked_pieces_fails_on(views, index + 1, source_url@);
                        }
                        return Err(error);
                    },
                };
                let mut visible = String::from_str("#");
                visible.append(digits.as_str());
                proof {
                    reveal_strlit("#");
                    assert(visible@ =~= seq!['#'] + digits@);
                }
                let ghost dest = url@;
                out.push(Token::LinkStart(url));
                out.push(Token::Text(visible));
                out.push(Token::LinkEnd);
                proof {
                    let triple = seq![
                        TokenView::LinkStart(dest),
                        TokenView::Text(seq!['#'] + digits@),
                        TokenView::LinkEnd,
                    ];
                    assert(out.deep_view() =~= written + triple);
                    assert(out.deep_view() =~= before + (done + triple));
                }
            },
        }
    }
    proof {
        assert(views.subrange(0, all.len() as int) =~= views);
    }
    Ok(())
}

/// Links the issue references in the text of `tokens`, for a document that
/// came from `source_url`. Text inside links, code blocks and blocks of raw
/// markup is left alone. Returns `None` where no reference was found.
pub fn link_tokens(tokens: Vec<Token>, source_url: &str) -> (result: Result<
    Option<Vec<Token>>,
    LinkError,
>)
    ensures
        match result {
            Ok(out) => linked(tokens.deep_view(), source_url@) == Ok::<
                Option<Seq<TokenView>>,
                LinkError,
            >(out.deep_view()),
            Err(error) => linked(tokens.deep_view(), source_url@) == Err::<
                Option<Seq<TokenView>>,
                LinkError,
            >(error),
        },
        quiet(tokens.deep_view(), false) ==> result == Ok::<Option<Vec<Token>>, LinkError>(None),
        result matches Ok(Some(out)) ==> linked(out.deep_view(), source_url@) == Ok::<
            Option<Seq<TokenView>>,
            LinkError,
        >(None),
{
    proof {
        if quiet(tokens.deep_view(), false) {
            lemma_unchanged_without_reference(tokens.deep_view(), source_url@);
        }
        if run(tokens.deep_view(), source_url@) is Ok {
            lemma_linked_twice(tokens.deep_view(), source_url@);
        }
    }
    let ghost all = tokens@;
    let ghost views = tokens.deep_view();
    // Text in links, code and raw markup is not read.
    let mut in_tag = false;
    let mut changed = false;
    let mut new_tokens: Vec<Token> = Vec::new();
    proof {
        assert(views.subrange(0, 0) =~= Seq::<TokenView>::empty());
        assert(new_tokens.deep_view() =~= Seq::<TokenView>::empty());
    }
    for token in it: tokens.into_iter()
        invariant
            it.seq() == all,
            views == tokens.deep_view(),
            quiet(views, false) ==> linked(views, source_url@) == Ok::<
                Option<Seq<TokenView>>,
                LinkError,
            >(None),
            views.len() == all.len(),
            forall|i: int| 0 <= i < all.len() ==> views[i] == all[i].deep_view(),
            run(views.subrange(0, it.index() as int), source_url@) == Ok::<Pass, LinkError>(
                Pass { protected: in_tag, changed: changed, out: new_tokens.deep_view() },
            ),
    {
        let ghost index = it.index() as int;
        let ghost upto = views.subrange(0, index + 1);
        let ghost written = new_tokens.deep_view();
        proof {
            assert(upto.drop_last() =~= views.subrange(0, index));
            assert(upto.last() == token.deep_view());
        }
        let found = match &token {
            Token::Parsed(event) => match event_boundary(event) {
                Boundary::Start(region) => {
                    if is_protected(region) {
                        in_tag = true;
                    }
                    None
                },
                Boundary::End(region) => {
                    if is_protected(region) {
                        in_tag = false;
                    }
                    None
                },
                Boundary::Within => if in_tag {
                    None
                } else {
                    event_text(event)
                },
            },
            Token::Text(text) => if in_tag {
                None
            } else {
                Some(text.clone())
            },
            Token::LinkStart(_) => {
                in_tag = true;
                None
            },
            Token::LinkEnd => {
                in_tag = false;
                None
            },
        };
        match found {
            Some(text) => {
                let pieces = split_references(text.as_str());
                proof {
                    lemma_pieces_count(text@);
                }
                if pieces.len() >= 2 {
                    changed = true;
                }
                match link_pieces(pieces, source_url, &mut new_tokens) {
                    Ok(_) => {},
                    Err(error) => {
                        proof {
                            assert(run(upto, source_url@) == Err::<Pass, LinkError>(error));
                            lemma_run_fails_on(views, index + 1, source_url@);
                        }
                        return Err(error);
                    },
                }
            },
            None => {
                new_tokens.push(token);
                proof {
                    assert(new_tokens.deep_view() =~= written.push(upto.last()));
                }
            },
        }
    }
    proof {
        assert(views.subrange(0, all.len() as int) =~= views);
    }
    if changed {
        Ok(Some(new_tokens))
    } else {
        Ok(None)
    }
}

/// Whether text inside `region` is kept from being read for issue
/// references.
pub fn is_protected(region: Region) -> (protected: bool)
    ensures
        protected == protects(region),
{
    match region {
        Region::Link => true,
        Region::CodeBlock => true,
        Region::HtmlBlock => true,
        Region::Other => false,
    }
}

/// Links the issue references in `content`, a document that came from
/// `source_url`. Returns `None` where `content` holds no reference to link.
pub fn link_issues(content: &str, source_url: &str, markdown_options: &MarkdownOptions) -> (result:
    Result<Option<String>, LinkError>)
    ensures
        match result {
            Ok(text) => issues_linked(
                content@,
                source_url@,
                markdown_options.smart_punctuation,
                markdown_options.definition_lists,
                markdown_options.admonitions,
            ) == Ok::<Option<Seq<char>>, LinkError>(text.deep_view()),
            Err(error) => issues_linked(
                content@,
                source_url@,
                markdown_options.smart_punctuation,
                markdown_options.definition_lists,
                markdown_options.admonitions,
            ) == Err::<Option<Seq<char>>, LinkError>(error),
        },
        quiet(
            markdown_tokens(
                content@,
                markdown_options.smart_punctuation,
                markdown_options.definition_lists,
                markdown_options.admonitions,
            ),
            false,
        ) ==> result == Ok::<Option<String>, LinkError>(None),
{
    let tokens = parse_markdown(content, markdown_options);
    link_parsed(tokens, source_url)
}

/// Links the issue references in the text of `tokens` and writes the
/// result as markdown. Returns `None` where `tokens` hold no reference to
/// link: nothing is written then.
pub fn link_parsed(tokens: Vec<Token>, source_url: &str) -> (result: Result<
    Option<String>,
    LinkError,
>)
    ensures
        match result {
            Ok(text) => written_with_links(tokens.deep_view(), source_url@) == Ok::<
                Option<Seq<char>>,
                LinkError,
            >(text.deep_view()),
            Err(error) => written_with_links(tokens.deep_view(), source_url@) == Err::<
                Option<Seq<char>>,
                LinkError,
            >(error),
        },
        quiet(tokens.deep_view(), false) ==> result == Ok::<Option<String>, LinkError>(None),
{
    match link_tokens(tokens, source_url) {
        Err(error) => Err(error),
        Ok(None) => Ok(None),
        Ok(Some(new_tokens)) => match render(&new_tokens) {
            Ok(text) => Ok(Some(text)),
            Err(_) => Err(LinkError::Unrenderable),
        },
    }
}

} // verus!
