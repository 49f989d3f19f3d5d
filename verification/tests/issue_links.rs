use typst_extra_docs::issue_link::{
    as_issue_url, is_ascii_digit, is_protected, issues_path, link_issues, link_parsed,
    link_pieces, link_tokens, split_references, LinkError, Piece,
};
use typst_extra_docs::markdown::Region;
use typst_extra_docs::markdown::{MarkdownOptions, Token};

const SOURCE_URL: &str = "https://github.com/typst/hayagriva/blob/a137441/CHANGELOG.md";

#[test]
fn test_as_issue_url() {
    let issue_url = as_issue_url("123", SOURCE_URL).unwrap();
    assert_eq!(issue_url, "https://github.com/typst/hayagriva/issues/123");
}

#[test]
fn test_link_issues() {
    let content = r#"
`chapter#361` (#361, #383)

offline ([#2089](https://github.com/typst/typst/issues/2089 "Typst documentation available offline? · Issue #2089 · typst/typst"))
"#;
    let expected = r#"
`chapter#361` ([\#361](https://github.com/typst/hayagriva/issues/361), [\#383](https://github.com/typst/hayagriva/issues/383))

offline ([\#2089](https://github.com/typst/typst/issues/2089 "Typst documentation available offline? · Issue #2089 · typst/typst"))
"#.strip_prefix("\n").unwrap().strip_suffix("\n").unwrap().to_string();

    let actual = link_issues(content, SOURCE_URL, &Default::default());
    if let Ok(Some(actual)) = actual {
        assert_eq!(actual, expected);

        let again = link_issues(&actual, SOURCE_URL, &Default::default());
        assert!(matches!(again, Ok(None)));
    } else {
        panic!("link_issues failed: {:?}", actual);
    }
}

#[test]
fn issue_link_test_unchanged() {
    for content in &[
        r#"offline ([#2089](https://github.com/typst/typst/issues/2089 "Typst documentation available offline? · Issue #2089 · typst/typst"))"#,
        r"function (https://github.com/rust-lang/rust/blob/e1d0de82cc40b666b88d4a6d2c9dcbc81d7ed27f/src/librustc_back/rpath.rs#L116-L158)",
    ] {
        let actual = link_issues(content, SOURCE_URL, &Default::default());
        assert!(
            matches!(actual, Ok(None)),
            "expected unchanged, got {:?}",
            actual
        );
    }
}

fn plain(text: &str) -> (bool, String) {
    (false, text.to_string())
}

fn reference(digits: &str) -> (bool, String) {
    (true, digits.to_string())
}

fn cut(text: &str) -> Vec<(bool, String)> {
    split_references(text)
        .into_iter()
        .map(|piece| match piece {
            Piece::Plain(text) => (false, text),
            Piece::Reference(digits) => (true, digits),
        })
        .collect()
}

#[test]
fn text_is_cut_at_its_references() {
    assert_eq!(cut(""), vec![]);
    assert_eq!(cut("no reference"), vec![plain("no reference")]);
    assert_eq!(
        cut("see #12 and #345."),
        vec![plain("see "), reference("12"), plain(" and "), reference("345"), plain(".")]
    );
    assert_eq!(cut("#7"), vec![plain(""), reference("7")]);
    assert_eq!(
        cut("#12#34"),
        vec![plain(""), reference("12"), plain(""), reference("34")]
    );
    assert_eq!(cut("##1x"), vec![plain("#"), reference("1"), plain("x")]);
}

#[test]
fn hash_without_digit_is_plain_text() {
    assert_eq!(cut("rpath.rs#L116-L158"), vec![plain("rpath.rs#L116-L158")]);
    assert_eq!(cut("a # 1"), vec![plain("a # 1")]);
    assert_eq!(cut("trailing #"), vec![plain("trailing #")]);
    assert_eq!(cut("#"), vec![plain("#")]);
    assert_eq!(cut("#\u{0661}"), vec![plain("#\u{0661}")]);
    assert_eq!(cut("é#1é"), vec![plain("é"), reference("1"), plain("é")]);
}

fn shape(tokens: &[Token]) -> Vec<String> {
    tokens
        .iter()
        .map(|token| match token {
            Token::Parsed(event) => format!("parsed {:?}", event),
            Token::Text(text) => format!("text {}", text),
            Token::LinkStart(dest) => format!("link {}", dest),
            Token::LinkEnd => String::from("end"),
        })
        .collect()
}

#[test]
fn references_in_text_tokens_are_linked() {
    let tokens = vec![Token::Text(String::from("fixes #5, #6"))];
    let linked = link_tokens(tokens, SOURCE_URL).unwrap().unwrap();
    assert_eq!(
        shape(&linked),
        vec![
            "text fixes ",
            "link https://github.com/typst/hayagriva/issues/5",
            "text #5",
            "end",
            "text , ",
            "link https://github.com/typst/hayagriva/issues/6",
            "text #6",
            "end",
        ]
    );
}

#[test]
fn linking_twice_changes_nothing() {
    let tokens = vec![
        Token::Text(String::from("#1 then")),
        Token::LinkStart(String::from("https://example.com/")),
        Token::Text(String::from("#2")),
        Token::LinkEnd,
        Token::Text(String::from("and #3")),
    ];
    let once = link_tokens(tokens, SOURCE_URL).unwrap().unwrap();
    assert_eq!(
        shape(&once),
        vec![
            "text ",
            "link https://github.com/typst/hayagriva/issues/1",
            "text #1",
            "end",
            "text  then",
            "link https://example.com/",
            "text #2",
            "end",
            "text and ",
            "link https://github.com/typst/hayagriva/issues/3",
            "text #3",
            "end",
        ]
    );
    assert!(matches!(link_tokens(once, SOURCE_URL), Ok(None)));
}

#[test]
fn tokens_without_reference_are_unchanged() {
    let tokens = vec![
        Token::Text(String::from("nothing here")),
        Token::LinkStart(String::from("https://example.com/")),
        Token::Text(String::from("#2")),
        Token::LinkEnd,
        Token::Text(String::from("rpath.rs#L116")),
    ];
    assert!(matches!(link_tokens(tokens, SOURCE_URL), Ok(None)));
    assert!(matches!(link_tokens(Vec::new(), SOURCE_URL), Ok(None)));
}

#[test]
fn origin_is_only_read_where_a_reference_is_found() {
    let options = MarkdownOptions::default();
    assert!(matches!(link_issues("no reference", "not a url", &options), Ok(None)));
    assert!(matches!(
        link_issues("see #1", "not a url", &options),
        Err(LinkError::MalformedOrigin)
    ));
    assert!(matches!(
        link_issues("see #1", "https://gitlab.com/a/b/-/blob/main/c.md", &options),
        Err(LinkError::UnsupportedHost)
    ));
    assert!(matches!(
        link_issues("see #1", "mailto:someone@github.com", &options),
        Err(LinkError::UnsupportedHost)
    ));
}

#[test]
fn references_in_code_blocks_and_raw_markup_are_left_alone() {
    let options = MarkdownOptions::default();
    let content = "```\nsee #1\n```\n\n<div>\n#2\n</div>\n";
    assert!(matches!(link_issues(content, SOURCE_URL, &options), Ok(None)));
}

#[test]
fn default_options_enable_everything() {
    let options = MarkdownOptions::default();
    assert!(options.smart_punctuation);
    assert!(options.definition_lists);
    assert!(options.admonitions);
}

#[test]
fn issue_url_keeps_owner_and_repository_only() {
    assert_eq!(
        as_issue_url("42", "https://github.com/typst/typst/blob/main/docs/dev/architecture.md"),
        Ok(String::from("https://github.com/typst/typst/issues/42"))
    );
    assert_eq!(
        as_issue_url("1", "https://github.com/typst"),
        Ok(String::from("https://github.com/typst/issues/1"))
    );
    assert_eq!(as_issue_url("1", "nonsense"), Err(LinkError::MalformedOrigin));
    assert_eq!(
        as_issue_url("1", "https://example.com/a/b/blob/main/c.md"),
        Err(LinkError::UnsupportedHost)
    );
}

#[test]
fn unbalanced_tokens_cannot_be_written() {
    let tokens = vec![Token::Text(String::from("#1")), Token::LinkEnd];
    assert_eq!(link_parsed(tokens, SOURCE_URL), Err(LinkError::Unrenderable));
}

#[test]
fn tokens_are_written_as_markdown() {
    let tokens = vec![Token::Text(String::from("see #12"))];
    assert_eq!(
        link_parsed(tokens, SOURCE_URL),
        Ok(Some(String::from("see [\\#12](https://github.com/typst/hayagriva/issues/12)")))
    );
    let tokens = vec![Token::Text(String::from("see nothing"))];
    assert_eq!(link_parsed(tokens, SOURCE_URL), Ok(None));
}

#[test]
fn issue_url_that_is_too_long_is_refused() {
    let digits = "1".repeat(0x1000_0000);
    assert_eq!(as_issue_url(&digits, SOURCE_URL), Err(LinkError::TooLong));
}

#[test]
fn issues_path_keeps_two_segments() {
    let segments: Vec<String> = ["typst", "hayagriva", "blob", "a137441", "CHANGELOG.md"]
        .iter()
        .map(|segment| segment.to_string())
        .collect();
    assert_eq!(issues_path(&segments, "123"), "typst/hayagriva/issues/123");
    assert_eq!(issues_path(&segments[..1].to_vec(), "7"), "typst/issues/7");
    assert_eq!(issues_path(&Vec::new(), "7"), "/issues/7");
}

#[test]
fn pieces_become_text_and_links() {
    let pieces = vec![
        Piece::Plain(String::from("a")),
        Piece::Reference(String::from("9")),
    ];
    let mut out = vec![Token::LinkEnd];
    assert_eq!(link_pieces(pieces, SOURCE_URL, &mut out), Ok(()));
    assert_eq!(
        shape(&out),
        vec![
            "end",
            "text a",
            "link https://github.com/typst/hayagriva/issues/9",
            "text #9",
            "end",
        ]
    );
    let mut out = Vec::new();
    assert_eq!(
        link_pieces(vec![Piece::Reference(String::from("9"))], "nonsense", &mut out),
        Err(LinkError::MalformedOrigin)
    );
}

#[test]
fn digits_are_the_ten_ascii_digits() {
    assert!(is_ascii_digit('0'));
    assert!(is_ascii_digit('9'));
    assert!(!is_ascii_digit('/'));
    assert!(!is_ascii_digit(':'));
    assert!(!is_ascii_digit('a'));
    assert!(!is_ascii_digit('\u{0661}'));
}

#[test]
fn links_code_blocks_and_raw_markup_are_protected() {
    assert!(is_protected(Region::Link));
    assert!(is_protected(Region::CodeBlock));
    assert!(is_protected(Region::HtmlBlock));
    assert!(!is_protected(Region::Other));
}
