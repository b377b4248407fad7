//! Resolution of textual install sources. A source is a local file path, an
//! `http(s)` URL, or the aliased release-lookup scheme; downloads are cached
//! for the lifetime of one run, keyed by the hex digest of the source URL, so
//! a source referenced twice is fetched from the network at most once.

use vstd::prelude::*;
use crate::record::Metadata;

verus! {

/// What `url::Url::parse` finds in a source string, as a pure function of the
/// string: scheme, host, path, and the normalized textual form.
pub uninterp spec fn url_parts_of(s: Seq<char>) -> Option<
    (Seq<char>, Option<Seq<char>>, Seq<char>, Seq<char>),
>;

/// Relies on url::Url::parse and its scheme/host_str/path/as_str accessors:
/// parsing is a pure function of the input string and the accessors only read
/// parts of the parsed value.
#[verifier::external_body]
fn parse_url_parts(s: &String) -> (r: Option<(String, Option<String>, String, String)>)
    ensures
        r.deep_view() == url_parts_of(s@),
{
    match url::Url::parse(s.as_str()) {
        Ok(u) => Some((
            u.scheme().to_owned(),
            u.host_str().map(|h| h.to_owned()),
            u.path().to_owned(),
            u.as_str().to_owned(),
        )),
        Err(_) => None,
    }
}

/// Hex digest that `sha256::digest` computes for a string: a pure function of
/// the input characters.
pub uninterp spec fn sha256_hex_of(s: Seq<char>) -> Seq<char>;

/// Relies on sha256::digest: deterministic hex digest of the input string.
#[verifier::external_body]
fn sha256_hex(s: &String) -> (r: String)
    ensures
        r@ == sha256_hex_of(s@),
{
    sha256::digest(s.as_str())
}

/// Hex digest that `sha256::digest_bytes` computes: a pure function of the
/// input bytes.
pub uninterp spec fn sha256_hex_of_bytes(b: Seq<u8>) -> Seq<char>;

/// Relies on sha256::digest: deterministic hex digest of the input bytes.
#[verifier::external_body]
pub(crate) fn sha256_hex_bytes(b: &Vec<u8>) -> (r: String)
    ensures
        r@ == sha256_hex_of_bytes(b@),
{
    sha256::digest(b.as_slice())
}

/// Where one textual install source leads.
#[derive(Debug)]
pub enum SourceKind {
    /// A local archive path, absolute or relative to the working directory.
    LocalFile(String),
    /// A direct download, named by the normalized URL.
    Web(String),
    /// The aliased release-lookup scheme for the localized game package.
    AliasGame,
    /// A URL whose scheme (or alias host) is not supported; carries the text
    /// reported to the user.
    Unknown(String),
}

/// How `item` is acquired: a non-URL is a local path; `file` URLs name their
/// path; `http(s)` URLs are downloaded; the alias scheme with host `game`
/// resolves through the release lookup; anything else is unsupported.
pub fn classify_source(item: &String) -> (r: SourceKind)
    ensures
        match url_parts_of(item@) {
            None => r matches SourceKind::LocalFile(p) && p@ == item@,
            Some(q) => {
                if q.0 == "file"@ {
                    r matches SourceKind::LocalFile(p) && p@ == q.2
                } else if q.0 == "http"@ || q.0 == "https"@ {
                    r matches SourceKind::Web(u) && u@ == q.3
                } else if q.0 == "localizedkorabli"@ {
                    if q.1 == Some("game"@) {
                        r is AliasGame
                    } else {
                        r matches SourceKind::Unknown(s) && s@ == "localized_korabli"@
                    }
                } else {
                    r matches SourceKind::Unknown(s) && s@ == q.0
                }
            },
        },
{
    match parse_url_parts(item) {
        None => SourceKind::LocalFile(item.clone()),
        Some((scheme, host, path, normalized)) => {
            if scheme == String::from_str("file") {
                SourceKind::LocalFile(path)
            } else if scheme == String::from_str("http") || scheme == String::from_str("https") {
                SourceKind::Web(normalized)
            } else if scheme == String::from_str("localizedkorabli") {
                let host_is_game = match host {
                    Some(h) => h == String::from_str("game"),
                    None => false,
                };
                if host_is_game {
                    SourceKind::AliasGame
                } else {
                    SourceKind::Unknown(String::from_str("localized_korabli"))
                }
            } else {
                SourceKind::Unknown(scheme)
            }
        },
    }
}

/// The characters after the last `/` of `s` (all of `s` when it has none).
pub open spec fn after_last_slash(s: Seq<char>) -> Seq<char>
    decreases s.len(),
{
    if s.len() == 0 {
        seq![]
    } else if s.last() == '/' {
        seq![]
    } else {
        after_last_slash(s.drop_last()).push(s.last())
    }
}

/// Outcome of reading a release-lookup redirect target.
#[derive(Debug)]
pub enum AliasVersion {
    /// The last path segment of the redirect URL: the latest release tag.
    Version(String),
    /// The redirect target does not parse as a URL.
    NotAUrl,
    /// The redirect target has no path segments to take a tag from.
    NoSegments,
}

/// The latest release tag named by a redirect `location` value: the last path
/// segment of that URL.
pub fn alias_version_from_location(location: &String) -> (r: AliasVersion)
    ensures
        match url_parts_of(location@) {
            None => r is NotAUrl,
            Some(q) => {
                if q.2.len() > 0 && q.2[0] == '/' {
                    r matches AliasVersion::Version(v) && v@ == after_last_slash(q.2)
                } else {
                    r is NoSegments
                }
            },
        },
{
    match parse_url_parts(location) {
        None => AliasVersion::NotAUrl,
        Some((_scheme, _host, path, _normalized)) => {
            let n = path.as_str().unicode_len();
            if n == 0 {
                return AliasVersion::NoSegments;
            }
            if !(path.as_str().get_char(0) == '/') {
                return AliasVersion::NoSegments;
            }
            let mut start: usize = 0;
            let mut i: usize = 0;
            while i < n
                invariant
                    n == path@.len(),
                    start <= i <= n,
                    after_last_slash(path@.take(i as int)) == path@.subrange(
                        start as int,
                        i as int,
                    ),
                decreases n - i,
            {
                let c = path.as_str().get_char(i);
                proof {
                    assert(path@.take(i + 1 as int).drop_last() =~= path@.take(i as int));
                    assert(path@.take(i + 1 as int).last() == path@[i as int]);
                }
                if c == '/' {
                    start = i + 1;
                    proof {
                        assert(after_last_slash(path@.take(i + 1 as int)) =~= path@.subrange(
                            i + 1 as int,
                            i + 1 as int,
                        ));
                    }
                } else {
                    proof {
                        assert(after_last_slash(path@.take(i + 1 as int)) =~= path@.subrange(
                            start as int,
                            i + 1 as int,
                        ));
                    }
                }
                i = i + 1;
            }
            proof {
                assert(path@.take(n as int) =~= path@);
            }
            let v = path.as_str().substring_char(start, n);
            AliasVersion::Version(String::from_str(v))
        },
    }
}

/// The concrete download URL for release tag `version` of the localized game
/// package.
pub fn alias_game_download_url(version: &String) -> (u: String)
    ensures
        u@ == "https://github.com/LocalizedKorabli/Korabli-LESTA-L10N/releases/download/"@
            + version@ + "/"@ + version@ + ".mod.zip"@,
{
    let mut u = String::from_str(
        "https://github.com/LocalizedKorabli/Korabli-LESTA-L10N/releases/download/",
    );
    u.append(version.as_str());
    u.append("/");
    u.append(version.as_str());
    u.append(".mod.zip");
    u
}

/// The fixed descriptor injected for the localized game package: the alias
/// lookup supplies metadata instead of relying on the archive's own.
pub fn alias_game_metadata(version: &String) -> (m: Metadata)
    ensures
        m@.id == "localized_korabli_game"@,
        m@.name == "澪刻•战舰世界莱服本地化"@,
        m@.description
            == "战舰世界俄服汉化（船舶世界；Мир Корабли；Мир кораблей；Mir Korabli；World of Warships；WOWS；莱服；毛服；LESTA；本地化；中文化；中文补丁）"@,
        m@.version == version@,
        m@.update == "localizedkorabli://game"@,
        m@.url == "https://github.com/LocalizedKorabli/Korabli-LESTA-L10N"@,
        m@.authors == seq!["北斗余晖"@],
    {
    let mut authors: Vec<String> = Vec::new();
    authors.push(String::from_str("北斗余晖"));
    let m = Metadata {
        id: String::from_str("localized_korabli_game"),
        name: String::from_str("澪刻•战舰世界莱服本地化"),
        description: String::from_str(
            "战舰世界俄服汉化（船舶世界；Мир Корабли；Мир кораблей；Mir Korabli；World of Warships；WOWS；莱服；毛服；LESTA；本地化；中文化；中文补丁）",
        ),
        version: version.clone(),
        authors,
        url: String::from_str("https://github.com/LocalizedKorabli/Korabli-LESTA-L10N"),
        update: String::from_str("localizedkorabli://game"),
    };
    proof {
        assert(m.authors.deep_view() =~= seq!["北斗余晖"@]);
    }
    m
}

/// The download cache of one run: the digests of the URLs whose content is
/// already on local disk.
pub struct DownloadCache {
    keys: Vec<String>,
}

impl View for DownloadCache {
    type V = Seq<Seq<char>>;

    closed spec fn view(&self) -> Seq<Seq<char>> {
        self.keys.deep_view()
    }
}

/// The contract of one cache query: a fetch is needed exactly when the URL's
/// digest was not yet cached, and afterwards it is cached.
pub open spec fn cache_query_post(
    pre: Seq<Seq<char>>,
    post: Seq<Seq<char>>,
    url: Seq<char>,
    fetch: bool,
) -> bool {
    &&& fetch <==> !pre.contains(sha256_hex_of(url))
    &&& post == if fetch {
        pre.push(sha256_hex_of(url))
    } else {
        pre
    }
}

impl DownloadCache {
    /// An empty cache: nothing downloaded yet in this run.
    pub fn new() -> (c: DownloadCache)
        ensures
            c@.len() == 0,
    {
        let c = DownloadCache { keys: Vec::new() };
        proof {
            assert(c@ =~= Seq::<Seq<char>>::empty());
        }
        c
    }

    /// The cache key for a source URL: the hex digest of its text, which also
    /// names the downloaded copy on local disk.
    pub fn cache_key(url: &String) -> (k: String)
        ensures
            k@ == sha256_hex_of(url@),
    {
        sha256_hex(url)
    }

    /// Whether `url` still has to be fetched from the network; records the
    /// fetch, so later queries for the same URL are answered from the cache.
    pub fn needs_fetch(&mut self, url: &String) -> (fetch: bool)
        ensures
            cache_query_post(old(self)@, final(self)@, url@, fetch),
    {
        let key = sha256_hex(url);
        let mut i: usize = 0;
        while i < self.keys.len()
            invariant
                i <= self.keys.len(),
                key@ == sha256_hex_of(url@),
                forall|j: int| 0 <= j < i ==> self@[j] != key@,
                self@ == old(self)@,
            decreases self.keys.len() - i,
        {
            if self.keys[i] == key {
                proof {
                    assert(self@[i as int] == key@);
                }
                return false;
            }
            i = i + 1;
        }
        proof {
            assert(!old(self)@.contains(key@));
        }
        let ghost before = self@;
        self.keys.push(key);
        proof {
            assert(self@ =~= before.push(sha256_hex_of(url@)));
        }
        true
    }
}

/// Law: a download source referenced twice in one run is fetched from the
/// network at most once. Whatever the first query for a URL did, a second
/// query for the same URL on the resulting cache is answered from the cache.
pub proof fn lemma_fetch_at_most_once(
    c0: Seq<Seq<char>>,
    c1: Seq<Seq<char>>,
    c2: Seq<Seq<char>>,
    url: Seq<char>,
    fetch1: bool,
    fetch2: bool,
)
    requires
        cache_query_post(c0, c1, url, fetch1),
        cache_query_post(c1, c2, url, fetch2),
    ensures
        !fetch2,
        c2 == c1,
{
    if fetch1 {
        assert(c1 == c0.push(sha256_hex_of(url)));
        assert(c1[c1.len() - 1] == sha256_hex_of(url));
        assert(c1.contains(sha256_hex_of(url)));
    }
}

} // verus!
