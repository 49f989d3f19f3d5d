//! What the pass that links issue references leaves alone: documents
//! without a reference in their plain text, and its own output.
use vstd::prelude::*;
use crate::issue_link::{
    digits_end, has_reference, is_reference_at, issue_address, issues_linked, lemma_digits_end,
    lemma_has_reference, lemma_next_reference, linked, linked_pieces, next_reference, pieces_of,
    role_of, run, LinkError, PieceView, Role,
};
use crate::markdown::{markdown_tokens, TokenView};

verus! {

/// Whether the pass stands inside a protected region after `tokens`, when
/// it stood so, or not, before them.
pub open spec fn protected_after(tokens: Seq<TokenView>, before: bool) -> bool
    decreases tokens.len(),
{
    if tokens.len() == 0 {
        before
    } else {
        match role_of(tokens.last()) {
            Role::Enter => true,
            Role::Leave => false,
            _ => protected_after(tokens.drop_last(), before),
        }
    }
}

/// Whether no text of `tokens` outside protected regions refers to an
/// issue, when the pass stood inside one, or not, before them.
pub open spec fn quiet(tokens: Seq<TokenView>, before: bool) -> bool
    decreases tokens.len(),
{
    if tokens.len() == 0 {
        true
    } else {
        quiet(tokens.drop_last(), before) && match role_of(tokens.last()) {
            Role::Text(text) => protected_after(tokens.drop_last(), before) || !has_reference(text),
            _ => true,
        }
    }
}

/// Whether no plain piece of `pieces` refers to an issue.
pub open spec fn clean(pieces: Seq<PieceView>) -> bool {
    forall|i: int|
        0 <= i < pieces.len() ==> match #[trigger] pieces[i] {
            PieceView::Plain(text) => !has_reference(text),
            PieceView::Reference(_) => true,
        }
}

pub proof fn lemma_protected_after_append(a: Seq<TokenView>, b: Seq<TokenView>, before: bool)
    ensures
        protected_after(a + b, before) == protected_after(b, protected_after(a, before)),
    decreases b.len(),
{
    if b.len() == 0 {
        assert(a + b =~= a);
    } else {
        assert((a + b).drop_last() =~= a + b.drop_last());
        assert((a + b).last() == b.last());
        lemma_protected_after_append(a, b.drop_last(), before);
    }
}

/// A document is quiet exactly where each of its texts either stands inside
/// a protected region or refers to no issue.
pub proof fn lemma_quiet_means(tokens: Seq<TokenView>)
    ensures
        quiet(tokens, false) <==> forall|i: int|
            0 <= i < tokens.len() ==> match role_of(#[trigger] tokens[i]) {
                Role::Text(text) => protected_after(tokens.subrange(0, i), false) || !has_reference(
                    text,
                ),
                _ => true,
            },
    decreases tokens.len(),
{
    if tokens.len() > 0 {
        let init = tokens.drop_last();
        let last = tokens.len() - 1;
        lemma_quiet_means(init);
        assert(tokens.subrange(0, last) =~= init);
        assert forall|i: int| 0 <= i < init.len() implies tokens.subrange(0, i) == init.subrange(
            0,
            i,
        ) && tokens[i] == init[i] by {
            assert(tokens.subrange(0, i) =~= init.subrange(0, i));
        }
        if quiet(tokens, false) {
            assert forall|i: int| 0 <= i < tokens.len() implies match role_of(
                #[trigger] tokens[i],
            ) {
                Role::Text(text) => protected_after(tokens.subrange(0, i), false) || !has_reference(
                    text,
                ),
                _ => true,
            } by {
                if i < last {
                    assert(tokens[i] == init[i]);
                }
            }
        } else {
            if quiet(init, false) {
                assert(tokens[last] == tokens.last());
            } else {
                let i = choose|i: int|
                    0 <= i < init.len() && !(match role_of(#[trigger] init[i]) {
                        Role::Text(text) => protected_after(init.subrange(0, i), false)
                            || !has_reference(text),
                        _ => true,
                    });
                assert(tokens[i] == init[i]);
            }
        }
    }
}

/// What a single token does to the pass.
pub proof fn lemma_single(token: TokenView, before: bool)
    ensures
        protected_after(seq![token], before) == match role_of(token) {
            Role::Enter => true,
            Role::Leave => false,
            _ => before,
        },
        quiet(seq![token], before) == match role_of(token) {
            Role::Text(text) => before || !has_reference(text),
            _ => true,
        },
{
    let one = seq![token];
    assert(one.drop_last() =~= Seq::<TokenView>::empty());
    assert(one.last() == token);
    assert(protected_after(one.drop_last(), before) == before);
    assert(quiet(one.drop_last(), before));
}

pub proof fn lemma_quiet_append(a: Seq<TokenView>, b: Seq<TokenView>, before: bool)
    ensures
        quiet(a + b, before) == (quiet(a, before) && quiet(b, protected_after(a, before))),
    decreases b.len(),
{
    if b.len() == 0 {
        assert(a + b =~= a);
    } else {
        assert((a + b).drop_last() =~= a + b.drop_last());
        assert((a + b).last() == b.last());
        lemma_quiet_append(a, b.drop_last(), before);
        lemma_protected_after_append(a, b.drop_last(), before);
    }
}

/// A piece of `text` that ends where `next_reference` says, or at the end of
/// `text`, refers to no issue.
pub proof fn lemma_plain_piece(text: Seq<char>, from: int)
    requires
        0 <= from <= text.len(),
    ensures
        !has_reference(text.subrange(from, next_reference(text, from))),
{
    lemma_next_reference(text, from);
    let at = next_reference(text, from);
    let piece = text.subrange(from, at);
    if has_reference(piece) {
        let i = choose|i: int| is_reference_at(piece, i);
        assert(is_reference_at(text, from + i));
    }
}

/// No plain piece of a text that is cut at its issue references refers to an
/// issue.
pub proof fn lemma_pieces_clean(text: Seq<char>, from: int)
    ensures
        clean(pieces_of(text, from)),
    decreases text.len() - from,
{
    if 0 <= from < text.len() {
        lemma_next_reference(text, from);
        lemma_plain_piece(text, from);
        let at = next_reference(text, from);
        if at < text.len() {
            lemma_digits_end(text, at + 1);
            let end = digits_end(text, at + 1);
            lemma_pieces_clean(text, end);
            let head = seq![
                PieceView::Plain(text.subrange(from, at)),
                PieceView::Reference(text.subrange(at + 1, end)),
            ];
            let rest = pieces_of(text, end);
            assert forall|i: int| 0 <= i < (head + rest).len() implies match #[trigger] (head
                + rest)[i] {
                PieceView::Plain(text) => !has_reference(text),
                PieceView::Reference(_) => true,
            } by {
                if i >= 2 {
                    assert((head + rest)[i] == rest[i - 2]);
                }
            }
        }
    }
}

/// The tokens that stand for pieces refer to no issue in plain text, where
/// no plain piece does, and end outside any protected region.
pub proof fn lemma_linked_pieces_quiet(pieces: Seq<PieceView>, origin: Seq<char>)
    requires
        clean(pieces),
        linked_pieces(pieces, origin) is Ok,
    ensures
        quiet(linked_pieces(pieces, origin)->Ok_0, false),
        !protected_after(linked_pieces(pieces, origin)->Ok_0, false),
    decreases pieces.len(),
{
    if pieces.len() > 0 {
        let init = pieces.drop_last();
        assert forall|i: int| 0 <= i < init.len() implies match #[trigger] init[i] {
            PieceView::Plain(text) => !has_reference(text),
            PieceView::Reference(_) => true,
        } by {
            assert(init[i] == pieces[i]);
        }
        lemma_linked_pieces_quiet(init, origin);
        let tokens = linked_pieces(init, origin)->Ok_0;
        match pieces.last() {
            PieceView::Plain(text) => {
                let token = TokenView::Text(text);
                assert(tokens.push(token).drop_last() =~= tokens);
                assert(pieces[pieces.len() - 1] == pieces.last());
            },
            PieceView::Reference(digits) => {
                let dest = issue_address(digits, origin)->Ok_0;
                let open = seq![TokenView::LinkStart(dest)];
                let shown = seq![TokenView::Text(seq!['#'] + digits)];
                let close = seq![TokenView::LinkEnd];
                assert(linked_pieces(pieces, origin)->Ok_0 =~= tokens + open + shown + close);
                lemma_single(TokenView::LinkStart(dest), false);
                lemma_single(TokenView::Text(seq!['#'] + digits), true);
                lemma_single(TokenView::LinkEnd, true);
                lemma_quiet_append(tokens, open, false);
                lemma_protected_after_append(tokens, open, false);
                lemma_quiet_append(tokens + open, shown, false);
                lemma_protected_after_append(tokens + open, shown, false);
                lemma_quiet_append(tokens + open + shown, close, false);
                lemma_protected_after_append(tokens + open + shown, close, false);
            },
        }
    }
}

/// A text without a reference is cut into nothing, or into itself.
pub proof fn lemma_pieces_without_reference(text: Seq<char>, origin: Seq<char>)
    requires
        !has_reference(text),
    ensures
        linked_pieces(pieces_of(text, 0), origin) is Ok,
{
    lemma_has_reference(text);
    lemma_next_reference(text, 0);
    let pieces = pieces_of(text, 0);
    if pieces.len() > 0 {
        assert(pieces =~= seq![PieceView::Plain(text.subrange(0, text.len() as int))]);
        assert(pieces.drop_last() =~= Seq::<PieceView>::empty());
        assert(linked_pieces(pieces.drop_last(), origin) is Ok);
        assert(pieces.last() is Plain);
    }
}

/// Where no text of a document outside links, code blocks and raw markup
/// has a `#` with a digit behind it, the pass finds nothing to link, and
/// does not even read the origin URL.
pub proof fn lemma_quiet_run(tokens: Seq<TokenView>, origin: Seq<char>)
    requires
        quiet(tokens, false),
    ensures
        run(tokens, origin) matches Ok(pass) && !pass.changed && pass.protected
            == protected_after(tokens, false),
    decreases tokens.len(),
{
    if tokens.len() > 0 {
        lemma_quiet_run(tokens.drop_last(), origin);
        match role_of(tokens.last()) {
            Role::Text(text) => {
                if !protected_after(tokens.drop_last(), false) {
                    lemma_pieces_without_reference(text, origin);
                }
            },
            _ => {},
        }
    }
}

/// Documents without an issue reference in their plain text are unchanged.
pub proof fn lemma_unchanged_without_reference(tokens: Seq<TokenView>, origin: Seq<char>)
    requires
        quiet(tokens, false),
    ensures
        linked(tokens, origin) == Ok::<Option<Seq<TokenView>>, LinkError>(None),
{
    lemma_quiet_run(tokens, origin);
}

/// A document whose tokens hold no issue reference in their plain text is
/// unchanged, whatever its origin.
pub proof fn lemma_document_unchanged_without_reference(
    content: Seq<char>,
    origin: Seq<char>,
    smart_punctuation: bool,
    definition_lists: bool,
    admonitions: bool,
)
    requires
        quiet(markdown_tokens(content, smart_punctuation, definition_lists, admonitions), false),
    ensures
        issues_linked(content, origin, smart_punctuation, definition_lists, admonitions) == Ok::<
            Option<Seq<char>>,
            LinkError,
        >(None),
{
    lemma_unchanged_without_reference(
        markdown_tokens(content, smart_punctuation, definition_lists, admonitions),
        origin,
    );
}

/// What the pass has written holds no issue reference in plain text, and
/// ends inside a protected region exactly where the pass does.
pub proof fn lemma_run_is_quiet(tokens: Seq<TokenView>, origin: Seq<char>)
    requires
        run(tokens, origin) is Ok,
    ensures
        quiet(run(tokens, origin)->Ok_0.out, false),
        protected_after(run(tokens, origin)->Ok_0.out, false) == run(
            tokens,
            origin,
        )->Ok_0.protected,
    decreases tokens.len(),
{
    if tokens.len() > 0 {
        lemma_run_is_quiet(tokens.drop_last(), origin);
        let before = run(tokens.drop_last(), origin)->Ok_0;
        let after = run(tokens, origin)->Ok_0;
        let token = tokens.last();
        match role_of(token) {
            Role::Text(text) => {
                if before.protected {
                    assert(after.out.drop_last() =~= before.out);
                } else {
                    let written = linked_pieces(pieces_of(text, 0), origin)->Ok_0;
                    lemma_pieces_clean(text, 0);
                    lemma_linked_pieces_quiet(pieces_of(text, 0), origin);
                    lemma_quiet_append(before.out, written, false);
                    lemma_protected_after_append(before.out, written, false);
                }
            },
            _ => {
                assert(after.out.drop_last() =~= before.out);
            },
        }
    }
}

/// Linking is idempotent: in what the pass has written, a second pass finds
/// nothing to link.
pub proof fn lemma_linked_twice(tokens: Seq<TokenView>, origin: Seq<char>)
    requires
        run(tokens, origin) is Ok,
    ensures
        linked(run(tokens, origin)->Ok_0.out, origin) == Ok::<
            Option<Seq<TokenView>>,
            LinkError,
        >(None),
{
    lemma_run_is_quiet(tokens, origin);
    lemma_unchanged_without_reference(run(tokens, origin)->Ok_0.out, origin);
}

} // verus!
