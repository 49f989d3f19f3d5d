use typst_extra_docs::remap::{Metadata, RemapError, Remapper};

fn build_remapper() -> Remapper {
    let entries = [
        ("typst/index.md", "https://github.com/typst/typst/blob/701c7f9b2853857cde6f4dd76763b9bb118aff14/README.md"),
        ("typst/dev/architecture.md", "https://github.com/typst/typst/blob/701c7f9b2853857cde6f4dd76763b9bb118aff14/docs/dev/architecture.md"),
        ("hayagriva/index.md", "https://github.com/typst/hayagriva/blob/a137441413a5907c15ced44d1502dfb9fa1a3014/README.md"),
        ("hayagriva/file-format.md", "https://github.com/typst/hayagriva/blob/a137441413a5907c15ced44d1502dfb9fa1a3014/docs/file-format.md"),
        ("hayagriva/selectors.md", "https://github.com/typst/hayagriva/blob/a137441413a5907c15ced44d1502dfb9fa1a3014/docs/selectors.md"),
        ("packages/index.md", "https://github.com/typst/packages/blob/8f21d920ae6389359e4734335a107cca0f57c181/README.md"),
        ("packages/manifest.md", "https://github.com/typst/packages/blob/8f21d920ae6389359e4734335a107cca0f57c181/docs/manifest.md"),
        ("packages/categories.md", "https://github.com/typst/packages/blob/8f21d920ae6389359e4734335a107cca0f57c181/docs/CATEGORIES.md"),
        ("packages/disciplines.md", "https://github.com/typst/packages/blob/8f21d920ae6389359e4734335a107cca0f57c181/docs/DISCIPLINES.md"),
        ("license/typst/LICENSE", "https://github.com/typst/typst/blob/701c7f9b2853857cde6f4dd76763b9bb118aff14/LICENSE"),
    ];
    let map = entries
        .iter()
        .map(|(file, url)| (file.to_string(), url.to_string()))
        .collect();
    let meta = Metadata { map };
    match Remapper::new(&meta) {
        Ok(remapper) => remapper,
        Err(error) => panic!("valid URL: {:?}", error),
    }
}

#[test]
fn remap_test_unchanged() {
    let remapper = build_remapper();

    for unchanged in &[
        "https://repology.org/project/typst/versions",
        "https://github.com/typst/typst/blob/main/CONTRIBUTING.md",
    ] {
        assert_eq!(remapper.remap_link(unchanged, "typst/index.md"), Ok(None));
    }
}

#[test]
fn test_rel_to_rel() {
    let remapper = build_remapper();

    assert_eq!(
        remapper.remap_link("../README.md#local-packages", "packages/manifest.md"),
        Ok(Some(String::from("./index.md#local-packages")))
    );
}

#[test]
fn test_abs_to_rel() {
    let remapper = build_remapper();

    assert_eq!(
        remapper.remap_link(
            "https://github.com/typst/packages/blob/main/docs/CATEGORIES.md",
            "packages/manifest.md",
        ),
        Ok(Some(String::from("./categories.md")))
    );
    assert_eq!(
        remapper.remap_link(
            "https://github.com/typst/hayagriva/blob/main/docs/file-format.md#entry-type",
            "hayagriva/selectors.md",
        ),
        Ok(Some(String::from("./file-format.md#entry-type")))
    );
    assert_eq!(
        remapper.remap_link(
            "https://github.com/typst/typst/blob/main/LICENSE",
            "typst/index.md",
        ),
        Ok(Some(String::from("../license/typst/LICENSE")))
    );
}

#[test]
fn test_rel_to_abs() {
    let remapper = build_remapper();

    assert_eq!(
        remapper.remap_link("/tests", "typst/dev/architecture.md"),
        Ok(Some(String::from(
            "https://github.com/typst/typst/blob/701c7f9b2853857cde6f4dd76763b9bb118aff14/tests"
        )))
    );
}

#[test]
fn anchor_only_destination_is_left_alone() {
    let remapper = build_remapper();
    assert_eq!(remapper.remap_link("#usage", "typst/index.md"), Ok(None));
    assert_eq!(remapper.remap_link("#usage", "not/in/the/corpus.md"), Ok(None));
    assert_eq!(remapper.remap_link("#", "packages/manifest.md"), Ok(None));
}

#[test]
fn unknown_source_is_left_alone() {
    let remapper = build_remapper();
    assert_eq!(remapper.remap_link("../README.md", "unknown.md"), Ok(None));
    assert_eq!(remapper.remap_link("/tests", "unknown.md"), Ok(None));
}

#[test]
fn malformed_origin_is_refused() {
    let meta = Metadata {
        map: vec![
            (String::from("a.md"), String::from("https://github.com/o/r/blob/1/a.md")),
            (String::from("b.md"), String::from("not a url")),
        ],
    };
    assert!(matches!(Remapper::new(&meta), Err(RemapError::MalformedOrigin)));
}

#[test]
fn invalid_destination_is_an_error() {
    let remapper = build_remapper();
    assert_eq!(
        remapper.remap_link("https://[::1", "typst/index.md"),
        Err(RemapError::InvalidDestination)
    );
}

#[test]
fn absolutized_destination_is_left_alone_afterwards() {
    let remapper = build_remapper();
    let once = remapper
        .remap_link("/tests#running", "typst/dev/architecture.md")
        .unwrap()
        .unwrap();
    assert_eq!(
        once,
        "https://github.com/typst/typst/blob/701c7f9b2853857cde6f4dd76763b9bb118aff14/tests#running"
    );
    assert_eq!(remapper.remap_link(&once, "typst/dev/architecture.md"), Ok(None));
}

#[test]
fn unmatched_relative_destination_is_made_absolute() {
    let remapper = build_remapper();
    assert_eq!(
        remapper.remap_link("../Cargo.toml", "packages/manifest.md"),
        Ok(Some(String::from(
            "https://github.com/typst/packages/blob/8f21d920ae6389359e4734335a107cca0f57c181/Cargo.toml"
        )))
    );
}

#[test]
fn link_to_the_document_itself_is_local() {
    let remapper = build_remapper();
    assert_eq!(
        remapper.remap_link("manifest.md#version", "packages/manifest.md"),
        Ok(Some(String::from("./manifest.md#version")))
    );
}

#[test]
fn later_entry_of_a_path_counts() {
    let meta = Metadata {
        map: vec![
            (String::from("a.md"), String::from("https://github.com/o/r/blob/1/old/a.md")),
            (String::from("b.md"), String::from("https://github.com/o/r/blob/1/b.md")),
            (String::from("a.md"), String::from("https://github.com/o/r/blob/2/new/a.md")),
        ],
    };
    let remapper = Remapper::new(&meta).ok().unwrap();
    assert_eq!(
        remapper.remap_link("../b.md", "a.md"),
        Ok(Some(String::from("./b.md")))
    );
    assert_eq!(
        remapper.remap_link("https://github.com/o/r/blob/main/old/a.md", "b.md"),
        Ok(Some(String::from("./a.md")))
    );
}

#[test]
fn root_relative_destination_needs_a_repository() {
    let meta = Metadata {
        map: vec![(String::from("a.md"), String::from("https://example.com/docs/a.md"))],
    };
    let remapper = Remapper::new(&meta).ok().unwrap();
    assert_eq!(
        remapper.remap_link("/tests", "a.md"),
        Err(RemapError::SourceOutsideRepository)
    );
    assert_eq!(
        remapper.remap_link("b.md", "a.md"),
        Ok(Some(String::from("https://example.com/docs/b.md")))
    );
}

#[test]
fn destination_without_a_base_to_join_is_an_error() {
    let meta = Metadata {
        map: vec![(String::from("a.md"), String::from("mailto:someone@github.com"))],
    };
    let remapper = Remapper::new(&meta).ok().unwrap();
    assert_eq!(
        remapper.remap_link("b.md", "a.md"),
        Err(RemapError::UnresolvableDestination)
    );
}

#[test]
fn empty_metadata_remaps_nothing() {
    let remapper = Remapper::new(&Metadata { map: Vec::new() }).ok().unwrap();
    assert_eq!(remapper.remap_link("../README.md", "a.md"), Ok(None));
}
