//! The index of the corpus, and the remapping of link destinations to files
//! of the corpus.
use vstd::prelude::*;
use vstd::string::*;
use vstd::hash_map::StringHashMap;
use url::Url;
use crate::relative::{make_relative, relative_path};
use crate::text::{after_first, join_range, join_with, same_text, starts_with_char};
use crate::urls::{
    as_text, domain, domain_of, fragment, fragment_fits, fragment_of, is_on_supported_host,
    is_relative_without_base, is_supported_host, join, joined, lacks_base, on_supported_host,
    parse, parsed, path_fits, path_segments, replace_fragment, replace_path, segments_of,
    supported_host, text_of, with_fragment, with_path,
};

verus! {

/// Why a destination could not be remapped, or the index not be built.
#[derive(Debug, Clone, Copy, PartialEq, Eq, Structural)]
pub enum RemapError {
    /// An origin URL of the metadata is no absolute URL.
    MalformedOrigin,
    /// The destination is neither an absolute URL nor a reference that can
    /// be read relative to one.
    InvalidDestination,
    /// The destination starts at the root of the repository, and the origin
    /// URL of the source document names no repository.
    SourceOutsideRepository,
    /// The destination cannot be resolved against the origin URL of the
    /// source document.
    UnresolvableDestination,
    /// A URL is too long to be rewritten.
    TooLong,
}

/// Whether a URL with this domain and these path segments names a file of a
/// repository: `OWNER/REPO/blob/REVISION/` and at least one more segment, on
/// the supported host.
pub open spec fn is_file_layout(
    domain: Option<Seq<char>>,
    segments: Option<Seq<Seq<char>>>,
) -> bool {
    &&& domain == Some(supported_host())
    &&& segments is Some
    &&& segments->0.len() >= 5
    &&& segments->0[2] == "blob"@
}

/// The path segments of a file URL with `main` in place of the revision;
/// those of any other URL as they are.
pub open spec fn main_segments(domain: Option<Seq<char>>, segments: Seq<Seq<char>>) -> Seq<
    Seq<char>,
> {
    if is_file_layout(domain, Some(segments)) {
        segments.update(3, "main"@)
    } else {
        segments
    }
}

/// Naming `main` in place of the revision changes nothing when done again.
pub proof fn lemma_main_segments_idempotent(domain: Option<Seq<char>>, segments: Seq<Seq<char>>)
    ensures
        main_segments(domain, main_segments(domain, segments)) == main_segments(domain, segments),
{
    if is_file_layout(domain, Some(segments)) {
        let once = segments.update(3, "main"@);
        assert(is_file_layout(domain, Some(once)));
        assert(once.update(3, "main"@) =~= once);
    }
}

/// The path segments of a URL that names no file of a repository are left
/// as they are.
pub proof fn lemma_main_segments_elsewhere(domain: Option<Seq<char>>, segments: Seq<Seq<char>>)
    requires
        !is_file_layout(domain, Some(segments)),
    ensures
        main_segments(domain, segments) == segments,
{
}

/// For a file URL, its path segments with `main` in place of the revision;
/// for any other URL, `None`.
pub fn switch_to_main(domain: &Option<String>, segments: Option<Vec<String>>) -> (switched: Option<
    Vec<String>,
>)
    ensures
        switched.deep_view() == if is_file_layout(domain.deep_view(), segments.deep_view()) {
            Some(main_segments(domain.deep_view(), segments.deep_view()->0))
        } else {
            None
        },
{
    if !is_supported_host(domain) {
        return None;
    }
    match segments {
        Some(mut segments) => {
            if segments.len() >= 5 && same_text(segments[2].as_str(), "blob") {
                let ghost before = segments.deep_view();
                proof {
                    assert(before[2] == segments[2]@);
                }
                segments.set(3, String::from_str("main"));
                proof {
                    assert(segments.deep_view() =~= before.update(3, "main"@));
                }
                Some(segments)
            } else {
                proof {
                    if segments.len() >= 5 {
                        assert(segments.deep_view()[2] == segments[2]@);
                    }
                }
                None
            }
        },
        None => None,
    }
}

/// The URL that stands for `url` when URLs are looked up: a file URL with
/// `main` in place of its revision, any other URL as it is. `None` where the
/// URL is too long for its path to be set.
pub open spec fn canonical(url: Url) -> Option<Url> {
    if is_file_layout(domain_of(url), segments_of(url)) {
        let path = join_with(main_segments(domain_of(url), segments_of(url)->0), "/"@);
        if path_fits(url, path) {
            Some(with_path(url, path))
        } else {
            None
        }
    } else {
        Some(url)
    }
}

/// The text of `canonical(url)`.
pub open spec fn canonical_text(url: Url) -> Option<Seq<char>> {
    match canonical(url) {
        Some(main) => Some(text_of(main)),
        None => None,
    }
}

/// A URL that names no file of a repository is its own canonical URL.
pub proof fn lemma_canonical_elsewhere(url: Url)
    requires
        !is_file_layout(domain_of(url), segments_of(url)),
    ensures
        canonical(url) == Some(url),
{
}

/// The text under which `url` is looked up: see [`canonical`].
pub fn as_main(url: &Url) -> (key: Option<String>)
    ensures
        key.deep_view() == canonical_text(*url),
{
    let name = domain(url);
    let segments = path_segments(url);
    match switch_to_main(&name, segments) {
        Some(switched) => {
            let path = join_range(&switched, 0, switched.len(), "/");
            proof {
                assert(switched.deep_view().subrange(0, switched.len() as int)
                    =~= switched.deep_view());
            }
            match replace_path(url, path.as_str()) {
                Some(main) => Some(String::from_str(as_text(&main))),
                None => None,
            }
        },
        None => Some(String::from_str(as_text(url))),
    }
}

/// The path of the root of a repository, taken from the path segments of
/// one of its file URLs: the first four segments, each followed by `/`.
pub open spec fn root_path_of(segments: Seq<Seq<char>>) -> Seq<char> {
    join_with(segments.subrange(0, if segments.len() < 4 { segments.len() as int } else { 4 }), "/"@)
        + "/"@
}

/// The path of the root of the repository that holds the file with these
/// path segments.
pub fn root_path(segments: &Vec<String>) -> (path: String)
    ensures
        path@ == root_path_of(segments.deep_view()),
{
    let upto = if segments.len() < 4 { segments.len() } else { 4 };
    let mut path = join_range(segments, 0, upto, "/");
    path.append("/");
    path
}

/// The URL of the root of the repository that holds the file at `file`.
pub open spec fn repo_of(file: Url) -> Result<Url, RemapError> {
    if on_supported_host(file) && segments_of(file) is Some {
        let path = root_path_of(segments_of(file)->0);
        if path_fits(file, path) {
            Ok(with_path(file, path))
        } else {
            Err(RemapError::TooLong)
        }
    } else {
        Err(RemapError::SourceOutsideRepository)
    }
}

/// The URL of the root of the repository that holds the file at `file`:
/// `file` with nothing in its path after `OWNER/REPO/blob/REVISION/`.
pub fn get_repo(file: &Url) -> (root: Result<Url, RemapError>)
    ensures
        root == repo_of(*file),
{
    if !is_on_supported_host(file) {
        return Err(RemapError::SourceOutsideRepository);
    }
    match path_segments(file) {
        Some(segments) => {
            let path = root_path(&segments);
            match replace_path(file, path.as_str()) {
                Some(root) => Ok(root),
                None => Err(RemapError::TooLong),
            }
        },
        None => Err(RemapError::SourceOutsideRepository),
    }
}

/// The absolute URL that `destination` stands for in a document that came
/// from `origin`, and whether it had to be made absolute. An absolute URL
/// stands for itself; a destination that starts with `/` is read from the
/// root of the repository of `origin`; any other reference is read relative
/// to `origin`.
pub open spec fn resolved(origin: Url, destination: Seq<char>) -> Result<(Url, bool), RemapError> {
    match parsed(destination) {
        Ok(url) => Ok((url, false)),
        Err(error) => if !lacks_base(error) {
            Err(RemapError::InvalidDestination)
        } else if destination.len() > 0 && destination[0] == '/' {
            match repo_of(origin) {
                Ok(root) => match joined(root, destination.skip(1)) {
                    Ok(url) => Ok((url, true)),
                    Err(_) => Err(RemapError::UnresolvableDestination),
                },
                Err(error) => Err(error),
            }
        } else {
            match joined(origin, destination) {
                Ok(url) => Ok((url, true)),
                Err(_) => Err(RemapError::UnresolvableDestination),
            }
        },
    }
}

/// Resolves `destination` as [`resolved`] says.
pub fn resolve(origin: &Url, destination: &str) -> (result: Result<(Url, bool), RemapError>)
    ensures
        result == resolved(*origin, destination@),
{
    match parse(destination) {
        Ok(url) => Ok((url, false)),
        Err(error) => {
            if !is_relative_without_base(&error) {
                Err(RemapError::InvalidDestination)
            } else if starts_with_char(destination, '/') {
                match get_repo(origin) {
                    Ok(root) => match join(&root, after_first(destination)) {
                        Ok(url) => Ok((url, true)),
                        Err(_) => Err(RemapError::UnresolvableDestination),
                    },
                    Err(error) => Err(error),
                }
            } else {
                match join(origin, destination) {
                    Ok(url) => Ok((url, true)),
                    Err(_) => Err(RemapError::UnresolvableDestination),
                }
            }
        },
    }
}

/// `path`, followed by `#` and the anchor where there is one.
pub open spec fn with_anchor(path: Seq<char>, anchor: Option<Seq<char>>) -> Seq<char> {
    match anchor {
        Some(anchor) => path + seq!['#'] + anchor,
        None => path,
    }
}

/// The destination that leads from the document at `source` to the document
/// at `target`, and there to `anchor`.
pub fn local_link(source: &str, target: &str, anchor: &Option<String>) -> (link: String)
    ensures
        link@ == with_anchor(relative_path(source@, target@), anchor.deep_view()),
{
    let mut link = make_relative(source, target).unwrap();
    match anchor {
        Some(anchor) => {
            proof {
                reveal_strlit("#");
                assert("#"@ =~= seq!['#']);
            }
            link.append("#");
            link.append(anchor.as_str());
        },
        None => {},
    }
    link
}

/// The documents of the corpus: the path of each, from the root of the
/// corpus, and the URL of the file that it was made from. Where a path
/// occurs twice, the later entry counts.
pub struct Metadata {
    pub map: Vec<(String, String)>,
}

/// What a [`Remapper`] knows of the corpus.
pub struct CorpusIndex {
    /// The path of the document that was made from a file, by the text of
    /// the canonical URL of that file.
    pub files: Map<Seq<char>, Seq<char>>,
    /// The origin URL of a document, by its path.
    pub origins: Map<Seq<char>, Url>,
}

impl CorpusIndex {
    /// Whether the two tables fit together: every file that is found by its
    /// URL is a document with an origin, and every document is found by the
    /// canonical URL of its origin.
    pub open spec fn is_consistent(self) -> bool {
        &&& forall|key: Seq<char>|
            self.files.contains_key(key) ==> self.origins.contains_key(#[trigger] self.files[key])
        &&& forall|path: Seq<char>| #[trigger]
            self.origins.contains_key(path) ==> canonical_text(self.origins[path]) is Some
                && self.files.contains_key(canonical_text(self.origins[path])->0)
    }
}

/// The index of the documents in `entries`, or the error of the first entry
/// that cannot be indexed.
pub open spec fn indexed(entries: Seq<(Seq<char>, Seq<char>)>) -> Result<CorpusIndex, RemapError>
    decreases entries.len(),
{
    if entries.len() == 0 {
        Ok(CorpusIndex { files: Map::empty(), origins: Map::empty() })
    } else {
        match indexed(entries.drop_last()) {
            Err(error) => Err(error),
            Ok(index) => match parsed(entries.last().1) {
                Err(_) => Err(RemapError::MalformedOrigin),
                Ok(origin) => match canonical_text(origin) {
                    None => Err(RemapError::TooLong),
                    Some(key) => Ok(
                        CorpusIndex {
                            files: index.files.insert(key, entries.last().0),
                            origins: index.origins.insert(entries.last().0, origin),
                        },
                    ),
                },
            },
        }
    }
}

/// What becomes of `destination` in the document at `source`: `Ok(None)`
/// where it stays as it is, `Ok(Some(..))` with the destination to write in
/// its place.
pub open spec fn remapped(index: CorpusIndex, destination: Seq<char>, source: Seq<char>) -> Result<
    Option<Seq<char>>,
    RemapError,
> {
    if destination.len() > 0 && destination[0] == '#' {
        Ok(None)
    } else if !index.origins.contains_key(source) {
        Ok(None)
    } else {
        match resolved(index.origins[source], destination) {
            Err(error) => Err(error),
            Ok((url, forced)) => {
                let anchor = fragment_of(url);
                let bare = if anchor is Some {
                    with_fragment(url, None)
                } else {
                    url
                };
                match canonical_text(bare) {
                    None => Err(RemapError::TooLong),
                    Some(key) => if index.files.contains_key(key) {
                        Ok(Some(with_anchor(relative_path(source, index.files[key]), anchor)))
                    } else if !forced {
                        Ok(None)
                    } else if fragment_fits(bare, anchor) {
                        Ok(Some(text_of(with_fragment(bare, anchor))))
                    } else {
                        Err(RemapError::TooLong)
                    },
                }
            },
        }
    }
}

/// A destination that starts with `#` leads into the page that holds it and
/// stays as it is, whatever the document and whatever the index.
pub proof fn lemma_anchor_stays(index: CorpusIndex, destination: Seq<char>, source: Seq<char>)
    requires
        destination.len() > 0,
        destination[0] == '#',
    ensures
        remapped(index, destination, source) == Ok::<Option<Seq<char>>, RemapError>(None),
{
}

/// The index of a corpus, built once and read thereafter.
pub struct Remapper {
    /// From the text of a canonical URL to the document made from that file.
    url_to_file: StringHashMap<String>,
    /// From a document to its origin URL.
    file_to_url: StringHashMap<Url>,
}

impl View for Remapper {
    type V = CorpusIndex;

    closed spec fn view(&self) -> CorpusIndex {
        CorpusIndex {
            files: self.url_to_file@.map_values(|file: String| file@),
            origins: self.file_to_url@,
        }
    }
}

impl Remapper {
    /// Indexes the documents of `meta`. Fails on the first entry whose
    /// origin URL is no absolute URL, or is too long to be made canonical.
    pub fn new(meta: &Metadata) -> (result: Result<Remapper, RemapError>)
        ensures
            match result {
                Ok(remapper) => indexed(meta.map.deep_view()) == Ok::<CorpusIndex, RemapError>(
                    remapper@,
                ),
                Err(error) => indexed(meta.map.deep_view()) == Err::<CorpusIndex, RemapError>(
                    error,
                ),
            },
            result matches Ok(remapper) ==> remapper@.is_consistent(),
    {
        proof {
            lemma_indexed_consistent(meta.map.deep_view());
        }
        let ghost entries = meta.map.deep_view();
        let mut url_to_file: StringHashMap<String> = StringHashMap::new();
        let mut file_to_url: StringHashMap<Url> = StringHashMap::new();
        let mut i: usize = 0;
        proof {
            assert(entries.subrange(0, 0) =~= Seq::empty());
            assert(url_to_file@.map_values(|file: String| file@) =~= Map::empty());
        }
        while i < meta.map.len()
            invariant
                i <= meta.map.len(),
                entries == meta.map.deep_view(),
                indexed(entries.subrange(0, i as int)) == Ok::<CorpusIndex, RemapError>(
                    CorpusIndex {
                        files: url_to_file@.map_values(|file: String| file@),
                        origins: file_to_url@,
                    },
                ),
            decreases meta.map.len() - i,
        {
            let ghost upto = entries.subrange(0, i + 1);
            proof {
                assert(upto.drop_last() =~= entries.subrange(0, i as int));
                assert(upto.last() == entries[i as int]);
                assert(entries[i as int] == (meta.map[i as int].0@, meta.map[i as int].1@));
                assert(entries.subrange(0, meta.map.len() as int) =~= entries);
            }
            let file = &meta.map[i].0;
            let url_str = &meta.map[i].1;
            let url = match parse(url_str.as_str()) {
                Ok(url) => url,
                Err(_) => {
                    proof {
                        lemma_indexed_fails_on(entries, i + 1);
                    }
                    return Err(RemapError::MalformedOrigin);
                },
            };
            let key = match as_main(&url) {
                Some(key) => key,
                None => {
                    proof {
                        lemma_indexed_fails_on(entries, i + 1);
                    }
                    return Err(RemapError::TooLong);
                },
            };
            let ghost files = url_to_file@.map_values(|file: String| file@);
            url_to_file.insert(key, file.clone());
            file_to_url.insert(file.clone(), url);
            proof {
                assert(url_to_file@.map_values(|file: String| file@) =~= files.insert(key@, file@));
            }
            i = i + 1;
        }
        proof {
            assert(entries.subrange(0, meta.map.len() as int) =~= entries);
        }
        Ok(Remapper { url_to_file, file_to_url })
    }

    /// The destination to write in place of `dst_url` in the document at
    /// `src_file`, or `None` where `dst_url` stays as it is.
    pub fn remap_link(&self, dst_url: &str, src_file: &str) -> (result: Result<
        Option<String>,
        RemapError,
    >)
        ensures
            match result {
                Ok(link) => remapped(self@, dst_url@, src_file@) == Ok::<
                    Option<Seq<char>>,
                    RemapError,
                >(link.deep_view()),
                Err(error) => remapped(self@, dst_url@, src_file@) == Err::<
                    Option<Seq<char>>,
                    RemapError,
                >(error),
            },
            dst_url@.len() > 0 && dst_url@[0] == '#' ==> result == Ok::<
                Option<String>,
                RemapError,
            >(None),
    {
        // A link into the page itself needs no remapping.
        if starts_with_char(dst_url, '#') {
            return Ok(None);
        }
        // Only links from known documents are remapped.
        let src_url = match self.file_to_url.get(src_file) {
            Some(src_url) => src_url,
            None => {
                return Ok(None);
            },
        };
        let (dst_url, forced) = match resolve(src_url, dst_url) {
            Ok(resolution) => resolution,
            Err(error) => {
                return Err(error);
            },
        };
        // The anchor is kept apart while the file is looked up.
        let anchor = fragment(&dst_url);
        let bare = if anchor.is_some() {
            replace_fragment(&dst_url, None).unwrap()
        } else {
            dst_url
        };
        let key = match as_main(&bare) {
            Some(key) => key,
            None => {
                return Err(RemapError::TooLong);
            },
        };
        match self.url_to_file.get(key.as_str()) {
            Some(dst_file) => Ok(Some(local_link(src_file, dst_file.as_str(), &anchor))),
            None => {
                if !forced {
                    Ok(None)
                } else {
                    let anchor_text = match &anchor {
                        Some(anchor) => Some(anchor.as_str()),
                        None => None,
                    };
                    match replace_fragment(&bare, anchor_text) {
                        Some(url) => Ok(Some(String::from_str(as_text(&url)))),
                        None => Err(RemapError::TooLong),
                    }
                }
            },
        }
    }
}

/// The two tables of an index fit together.
pub proof fn lemma_indexed_consistent(entries: Seq<(Seq<char>, Seq<char>)>)
    ensures
        indexed(entries) matches Ok(index) ==> index.is_consistent(),
    decreases entries.len(),
{
    if entries.len() > 0 {
        lemma_indexed_consistent(entries.drop_last());
        if indexed(entries) is Ok {
            let before = indexed(entries.drop_last())->Ok_0;
            let after = indexed(entries)->Ok_0;
            let path = entries.last().0;
            let origin = parsed(entries.last().1)->Ok_0;
            let key = canonical_text(origin)->0;
            assert(after.files == before.files.insert(key, path));
            assert(after.origins == before.origins.insert(path, origin));
            assert forall|other: Seq<char>| after.files.contains_key(other) implies after.origins.contains_key(
                #[trigger] after.files[other],
            ) by {
                if other != key {
                    assert(before.files.contains_key(other));
                    assert(before.origins.contains_key(before.files[other]));
                }
            }
            assert forall|other: Seq<char>| #[trigger]
                after.origins.contains_key(other) implies canonical_text(after.origins[other]) is Some
                && after.files.contains_key(canonical_text(after.origins[other])->0) by {
                if other != path {
                    assert(before.origins.contains_key(other));
                }
            }
        }
    }
}

/// Once an entry cannot be indexed, no longer list of entries can.
pub proof fn lemma_indexed_fails_on(entries: Seq<(Seq<char>, Seq<char>)>, upto: int)
    requires
        0 <= upto <= entries.len(),
        indexed(entries.subrange(0, upto)) is Err,
    ensures
        indexed(entries) == indexed(entries.subrange(0, upto)),
    decreases entries.len() - upto,
{
    if upto < entries.len() {
        assert(entries.subrange(0, upto + 1).drop_last() =~= entries.subrange(0, upto));
        lemma_indexed_fails_on(entries, upto + 1);
    } else {
        assert(entries.subrange(0, upto) =~= entries);
    }
}

} // verus!
