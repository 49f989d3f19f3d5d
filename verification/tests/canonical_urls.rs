use typst_extra_docs::remap::{
    as_main, get_repo, local_link, resolve, root_path, switch_to_main, RemapError,
};
use url::Url;

fn strings(parts: &[&str]) -> Vec<String> {
    parts.iter().map(|part| part.to_string()).collect()
}

fn host() -> Option<String> {
    Some(String::from("github.com"))
}

#[test]
fn revision_of_a_file_url_becomes_main() {
    let url = Url::parse("https://github.com/typst/typst/blob/701c7f9/docs/dev/architecture.md").unwrap();
    assert_eq!(
        as_main(&url),
        Some(String::from("https://github.com/typst/typst/blob/main/docs/dev/architecture.md"))
    );
    let url = Url::parse("https://github.com/typst/typst/blob/701c7f9/README.md?plain=1#usage").unwrap();
    assert_eq!(
        as_main(&url),
        Some(String::from("https://github.com/typst/typst/blob/main/README.md?plain=1#usage"))
    );
}

#[test]
fn canonical_url_is_its_own_canonical_url() {
    for text in &[
        "https://github.com/typst/typst/blob/701c7f9/README.md",
        "https://github.com/typst/typst/blob/main/README.md",
        "https://github.com/typst/typst/tree/701c7f9/docs",
        "https://repology.org/project/typst/versions",
    ] {
        let once = as_main(&Url::parse(text).unwrap()).unwrap();
        let twice = as_main(&Url::parse(&once).unwrap()).unwrap();
        assert_eq!(once, twice);
    }
}

#[test]
fn other_urls_are_their_own_canonical_url() {
    for text in &[
        "https://repology.org/project/typst/versions",
        "https://gitlab.com/typst/typst/blob/701c7f9/README.md",
        "https://github.com/typst/typst/tree/701c7f9/README.md",
        "https://github.com/typst/typst/blob/701c7f9",
        "https://github.com/typst/typst",
        "https://github.com/",
        "mailto:someone@github.com",
    ] {
        assert_eq!(as_main(&Url::parse(text).unwrap()), Some(text.to_string()));
    }
}

#[test]
fn switch_to_main_needs_host_layout_and_length() {
    let file = strings(&["typst", "typst", "blob", "701c7f9", "README.md"]);
    assert_eq!(
        switch_to_main(&host(), Some(file.clone())),
        Some(strings(&["typst", "typst", "blob", "main", "README.md"]))
    );
    assert_eq!(switch_to_main(&None, Some(file.clone())), None);
    assert_eq!(switch_to_main(&Some(String::from("example.com")), Some(file)), None);
    assert_eq!(switch_to_main(&host(), None), None);
    assert_eq!(
        switch_to_main(&host(), Some(strings(&["typst", "typst", "blob", "701c7f9"]))),
        None
    );
    assert_eq!(
        switch_to_main(&host(), Some(strings(&["typst", "typst", "tree", "701c7f9", "docs"]))),
        None
    );
    assert_eq!(
        switch_to_main(&host(), Some(strings(&["a", "b", "blob", "main", ""]))),
        Some(strings(&["a", "b", "blob", "main", ""]))
    );
}

#[test]
fn root_path_keeps_four_segments() {
    assert_eq!(
        root_path(&strings(&["typst", "typst", "blob", "701c7f9", "docs", "a.md"])),
        "typst/typst/blob/701c7f9/"
    );
    assert_eq!(root_path(&strings(&["typst", "typst"])), "typst/typst/");
    assert_eq!(root_path(&strings(&[""])), "/");
    assert_eq!(root_path(&Vec::new()), "/");
}

#[test]
fn repository_root_of_a_file_url() {
    let file = Url::parse("https://github.com/typst/typst/blob/701c7f9/docs/dev/architecture.md").unwrap();
    assert_eq!(
        get_repo(&file).map(|root| root.to_string()),
        Ok(String::from("https://github.com/typst/typst/blob/701c7f9/"))
    );
    let elsewhere = Url::parse("https://example.com/typst/typst/blob/701c7f9/a.md").unwrap();
    assert_eq!(get_repo(&elsewhere), Err(RemapError::SourceOutsideRepository));
    let mail = Url::parse("mailto:someone@github.com").unwrap();
    assert_eq!(get_repo(&mail), Err(RemapError::SourceOutsideRepository));
}

#[test]
fn destinations_are_resolved_against_the_origin() {
    let origin = Url::parse("https://github.com/typst/typst/blob/701c7f9/docs/dev/architecture.md").unwrap();
    let text = |result: Result<(Url, bool), RemapError>| result.map(|(url, forced)| (url.to_string(), forced));
    assert_eq!(
        text(resolve(&origin, "https://example.com/a?b#c")),
        Ok((String::from("https://example.com/a?b#c"), false))
    );
    assert_eq!(
        text(resolve(&origin, "/tests")),
        Ok((String::from("https://github.com/typst/typst/blob/701c7f9/tests"), true))
    );
    assert_eq!(
        text(resolve(&origin, "../README.md#top")),
        Ok((String::from("https://github.com/typst/typst/blob/701c7f9/docs/README.md#top"), true))
    );
    assert_eq!(
        text(resolve(&origin, "")),
        Ok((String::from("https://github.com/typst/typst/blob/701c7f9/docs/dev/architecture.md"), true))
    );
    assert_eq!(text(resolve(&origin, "https://[::1")), Err(RemapError::InvalidDestination));
}

#[test]
fn unresolvable_destinations_are_errors() {
    let elsewhere = Url::parse("https://example.com/docs/a.md").unwrap();
    assert_eq!(resolve(&elsewhere, "/tests"), Err(RemapError::SourceOutsideRepository));
    let mail = Url::parse("mailto:someone@github.com").unwrap();
    assert_eq!(resolve(&mail, "b.md"), Err(RemapError::UnresolvableDestination));
}

#[test]
fn local_link_puts_the_anchor_back() {
    assert_eq!(
        local_link("packages/manifest.md", "packages/index.md", &Some(String::from("local-packages"))),
        "./index.md#local-packages"
    );
    assert_eq!(local_link("packages/manifest.md", "packages/index.md", &None), "./index.md");
    assert_eq!(
        local_link("typst/index.md", "license/typst/LICENSE", &Some(String::new())),
        "../license/typst/LICENSE#"
    );
}

#[test]
fn repository_root_that_is_too_long_is_refused() {
    let owner = "o".repeat(0x1000_0000);
    let file = Url::parse(&format!("https://github.com/{}/r/blob/1/a.md", owner)).unwrap();
    assert_eq!(get_repo(&file), Err(RemapError::TooLong));
    assert_eq!(as_main(&file), None);
}
