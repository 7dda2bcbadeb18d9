//! What the read API answers: the shape of its responses, the list of
//! agents, and the rules by which a request path names a static asset.

use vstd::prelude::*;
use vstd::string::*;
use vstd::utf8::{
    encode_utf8, encode_utf8_valid_utf8, is_char_boundary, pop_first_scalar, valid_utf8,
};
use crate::key::{last_of, lemma_last_unique};
use crate::sample::Sample;
use crate::text::{bytes_eq, find_last, lacks};

verus! {

/// The slash.
pub const SLASH: u8 = 47;

/// The dot.
pub const DOT: u8 = 46;

/// How long a client may keep a static asset, as the `Cache-Control` header
/// says it: a week.
pub const ASSET_CACHE_CONTROL: &'static str = "public, max-age=604800";

/// An agent as the list of agents shows it.
#[derive(Debug, Clone, PartialEq, Eq)]
pub struct AgentInfo {
    pub agent_id: String,
    /// Timestamp of the agent's latest sample.
    pub last_seen: i64,
    pub hostname: String,
}

/// The parameters of a history query.
#[derive(Debug, Clone, Copy, PartialEq, Eq, Structural)]
pub struct HistoryQuery {
    /// Greatest number of samples to return.
    pub limit: usize,
}

/// The limit of a history query that names none.
pub fn default_limit() -> (limit: usize)
    ensures
        limit == 100,
{
    100
}

impl HistoryQuery {
    /// The query for the given limit, or for the default limit where none
    /// is given.
    pub fn from_param(limit: Option<usize>) -> (query: HistoryQuery)
        ensures
            query.limit == match limit {
                Some(given) => given,
                None => 100,
            },
    {
        match limit {
            Some(given) => HistoryQuery { limit: given },
            None => HistoryQuery { limit: default_limit() },
        }
    }
}

/// The envelope of every response.
#[derive(Debug, Clone, PartialEq, Eq)]
pub struct ApiResponse<T> {
    pub success: bool,
    pub data: Option<T>,
    pub message: Option<String>,
}

impl<T> ApiResponse<T> {
    /// A response that succeeded, with its data.
    pub fn ok(data: T) -> (response: Self)
        ensures
            response.success,
            response.data == Some(data),
            response.message is None,
    {
        ApiResponse { success: true, data: Some(data), message: None }
    }

    /// A response that failed, with the reason.
    pub fn error(message: String) -> (response: ApiResponse<()>)
        ensures
            !response.success,
            response.data is None,
            response.message == Some(message),
    {
        ApiResponse { success: false, data: None, message: Some(message) }
    }
}

/// What the list of agents shows of a sample.
pub open spec fn info_of(sample: Sample) -> (Seq<char>, int, Seq<char>) {
    (sample.agent_id@, sample.timestamp as int, sample.hostname@)
}

/// What an entry of the list of agents holds.
pub open spec fn info_view(info: AgentInfo) -> (Seq<char>, int, Seq<char>) {
    (info.agent_id@, info.last_seen as int, info.hostname@)
}

/// The entries for the agents that have a latest sample, in the order of
/// the agents.
pub open spec fn infos_of(latest: Seq<Option<Sample>>) -> Seq<(Seq<char>, int, Seq<char>)>
    decreases latest.len(),
{
    if latest.len() == 0 {
        Seq::empty()
    } else {
        let head = infos_of(latest.drop_last());
        match latest.last() {
            Some(sample) => head.push(info_of(sample)),
            None => head,
        }
    }
}

/// What each entry of a list of agents holds.
pub open spec fn info_views(infos: Seq<AgentInfo>) -> Seq<(Seq<char>, int, Seq<char>)> {
    Seq::new(infos.len(), |i: int| info_view(infos[i]))
}

/// The entry of the list of agents for an agent with this latest sample.
pub fn agent_info(latest: &Sample) -> (info: AgentInfo)
    ensures
        info_view(info) == info_of(*latest),
{
    AgentInfo {
        agent_id: latest.agent_id.clone(),
        last_seen: latest.timestamp,
        hostname: latest.hostname.clone(),
    }
}

/// The list of agents: an entry for each agent that has a latest sample,
/// in the order of the agents. An agent without one is left out.
pub fn list_agents(latest: &Vec<Option<Sample>>) -> (infos: Vec<AgentInfo>)
    ensures
        info_views(infos@) == infos_of(latest@),
{
    let mut infos: Vec<AgentInfo> = Vec::new();
    let mut i: usize = 0;
    assert(latest@.take(0) =~= Seq::<Option<Sample>>::empty());
    assert(info_views(infos@) =~= infos_of(latest@.take(0)));
    while i < latest.len()
        invariant
            i <= latest.len(),
            info_views(infos@) == infos_of(latest@.take(i as int)),
        decreases latest.len() - i,
    {
        let ghost before = infos@;
        proof {
            assert(latest@.take(i as int + 1).drop_last() =~= latest@.take(i as int));
            assert(latest@.take(i as int + 1).last() == latest@[i as int]);
        }
        match &latest[i] {
            Some(sample) => {
                infos.push(agent_info(sample));
                assert(info_views(infos@) =~= info_views(before).push(info_of(*sample)));
            },
            None => {},
        }
        i += 1;
    }
    assert(latest@.take(latest@.len() as int) =~= latest@);
    infos
}

/// The answer to a query for the latest sample of an agent: the sample, or
/// nothing where the agent is not known, which the caller reports as not
/// found.
pub fn get_agent_metrics(latest: Option<Sample>) -> (response: Option<ApiResponse<Sample>>)
    ensures
        match latest {
            Some(sample) => response == Some(
                ApiResponse { success: true, data: Some(sample), message: None },
            ),
            None => response is None,
        },
{
    match latest {
        Some(sample) => Some(ApiResponse::ok(sample)),
        None => None,
    }
}

/// The answer to a query for the history of an agent: the samples, or
/// nothing where there are none, which the caller reports as not found.
pub fn get_agent_history(history: Vec<Sample>) -> (response: Option<ApiResponse<Vec<Sample>>>)
    ensures
        if history@.len() == 0 {
            response is None
        } else {
            response == Some(ApiResponse { success: true, data: Some(history), message: None })
        },
{
    if history.len() == 0 {
        None
    } else {
        Some(ApiResponse::ok(history))
    }
}

/// A path without its leading slashes.
pub open spec fn without_leading_slashes(path: Seq<u8>) -> Seq<u8>
    decreases path.len(),
{
    if path.len() > 0 && path[0] == SLASH {
        without_leading_slashes(path.drop_first())
    } else {
        path
    }
}

/// The name of the start page.
pub open spec fn index_page() -> Seq<u8> {
    encode_utf8("index.html"@)
}

/// The asset that a path of the asset routes names: the start page for the
/// empty path and for the single slash, otherwise the path without its
/// leading slashes.
pub open spec fn static_asset(path: Seq<u8>) -> Seq<u8> {
    if path.len() == 0 || path == seq![SLASH] {
        index_page()
    } else {
        without_leading_slashes(path)
    }
}

/// The asset that the path of any other request names: the path without
/// its leading slashes, and the start page where nothing is left or a
/// directory is named.
pub open spec fn embedded_asset(path: Seq<u8>) -> Seq<u8> {
    let name = without_leading_slashes(path);
    if name.len() == 0 || name.last() == SLASH {
        index_page()
    } else {
        name
    }
}

/// What follows the last dot of a path; the whole path where it has none.
pub open spec fn extension(path: Seq<u8>) -> Seq<u8> {
    if lacks(path, DOT) {
        path
    } else {
        path.subrange(last_of(path, DOT) + 1, path.len() as int)
    }
}

/// The media type that goes with an extension.
pub open spec fn mime_of_extension(ext: Seq<u8>) -> Seq<char> {
    if ext == encode_utf8("html"@) {
        "text/html"@
    } else if ext == encode_utf8("css"@) {
        "text/css"@
    } else if ext == encode_utf8("js"@) {
        "application/javascript"@
    } else if ext == encode_utf8("json"@) {
        "application/json"@
    } else if ext == encode_utf8("png"@) {
        "image/png"@
    } else if ext == encode_utf8("jpg"@) || ext == encode_utf8("jpeg"@) {
        "image/jpeg"@
    } else if ext == encode_utf8("svg"@) {
        "image/svg+xml"@
    } else if ext == encode_utf8("ico"@) {
        "image/x-icon"@
    } else {
        "application/octet-stream"@
    }
}

/// The media type of a static asset, by the extension of its path.
pub fn get_mime_type(path: &str) -> (mime: &'static str)
    ensures
        mime@ == mime_of_extension(extension(encode_utf8(path@))),
{
    let bytes = path.as_bytes();
    let ext = match find_last(bytes, DOT) {
        Some(at) => {
            proof {
                lemma_last_unique(bytes@, DOT, at as int);
            }
            vstd::slice::slice_subrange(bytes, at + 1, bytes.len())
        },
        None => bytes,
    };
    if bytes_eq(ext, "html".as_bytes()) {
        "text/html"
    } else if bytes_eq(ext, "css".as_bytes()) {
        "text/css"
    } else if bytes_eq(ext, "js".as_bytes()) {
        "application/javascript"
    } else if bytes_eq(ext, "json".as_bytes()) {
        "application/json"
    } else if bytes_eq(ext, "png".as_bytes()) {
        "image/png"
    } else if bytes_eq(ext, "jpg".as_bytes()) || bytes_eq(ext, "jpeg".as_bytes()) {
        "image/jpeg"
    } else if bytes_eq(ext, "svg".as_bytes()) {
        "image/svg+xml"
    } else if bytes_eq(ext, "ico".as_bytes()) {
        "image/x-icon"
    } else {
        "application/octet-stream"
    }
}

/// Behind a run of ASCII bytes at the start of a string a character begins.
proof fn lemma_ascii_run_boundary(bytes: Seq<u8>, at: int)
    requires
        valid_utf8(bytes),
        0 <= at <= bytes.len(),
        forall|j: int| 0 <= j < at ==> #[trigger] bytes[j] < 0x80,
    ensures
        is_char_boundary(bytes, at),
    decreases at,
{
    if at > 0 {
        assert(bytes[0] < 0x80);
        let rest = pop_first_scalar(bytes);
        assert(rest =~= bytes.subrange(1, bytes.len() as int));
        assert forall|j: int| 0 <= j < at - 1 implies #[trigger] rest[j] < 0x80 by {
            assert(rest[j] == bytes[j + 1]);
        }
        lemma_ascii_run_boundary(rest, at - 1);
    }
}

/// Dropping the slashes at the start of a path gives what dropping them
/// one by one gives.
proof fn lemma_leading_slashes(path: Seq<u8>, at: int)
    requires
        0 <= at <= path.len(),
        forall|j: int| 0 <= j < at ==> #[trigger] path[j] == SLASH,
        at < path.len() ==> path[at] != SLASH,
    ensures
        without_leading_slashes(path) == path.subrange(at, path.len() as int),
    decreases at,
{
    if at == 0 {
        assert(path.subrange(0, path.len() as int) =~= path);
    } else {
        assert(path[0] == SLASH);
        let rest = path.drop_first();
        assert forall|j: int| 0 <= j < at - 1 implies #[trigger] rest[j] == SLASH by {
            assert(rest[j] == path[j + 1]);
        }
        lemma_leading_slashes(rest, at - 1);
        assert(rest.subrange(at - 1, rest.len() as int) =~= path.subrange(at, path.len() as int));
    }
}

/// A path without its leading slashes.
pub fn trim_leading_slashes<'a>(path: &'a str) -> (name: &'a str)
    ensures
        encode_utf8(name@) == without_leading_slashes(encode_utf8(path@)),
{
    let bytes = path.as_bytes();
    let mut at: usize = 0;
    while at < bytes.len() && bytes[at] == SLASH
        invariant
            at <= bytes@.len(),
            forall|j: int| 0 <= j < at ==> #[trigger] bytes@[j] == SLASH,
        decreases bytes@.len() - at,
    {
        at += 1;
    }
    proof {
        encode_utf8_valid_utf8(path@);
        lemma_ascii_run_boundary(bytes@, at as int);
        lemma_leading_slashes(bytes@, at as int);
    }
    let (_, name) = path.split_at(at);
    name
}

/// The asset that a path of the asset routes names.
pub fn static_asset_path<'a>(path: &'a str) -> (name: &'a str)
    ensures
        encode_utf8(name@) == static_asset(encode_utf8(path@)),
{
    let bytes = path.as_bytes();
    if bytes.len() == 0 || (bytes.len() == 1 && bytes[0] == SLASH) {
        proof {
            if bytes@.len() == 1 {
                assert(bytes@ =~= seq![SLASH]);
            }
        }
        "index.html"
    } else {
        trim_leading_slashes(path)
    }
}

/// The asset that the path of any other request names.
pub fn embedded_asset_path<'a>(path: &'a str) -> (name: &'a str)
    ensures
        encode_utf8(name@) == embedded_asset(encode_utf8(path@)),
{
    let name = trim_leading_slashes(path);
    let bytes = name.as_bytes();
    if bytes.len() == 0 || bytes[bytes.len() - 1] == SLASH {
        "index.html"
    } else {
        name
    }
}

/// What a request for a static asset is answered with.
#[derive(Debug, Clone, Copy, PartialEq, Eq, Structural)]
pub enum AssetChoice {
    /// The asset itself.
    Asset,
    /// The start page, in place of an asset that does not exist.
    StartPage,
    /// Nothing: not found.
    NotFound,
}

/// Chooses the answer to a request for a static asset: the asset where it
/// exists; otherwise the start page, where the route falls back to it and
/// it exists; otherwise nothing.
pub fn choose_asset(asset_exists: bool, falls_back: bool, start_page_exists: bool) -> (choice:
    AssetChoice)
    ensures
        choice == if asset_exists {
            AssetChoice::Asset
        } else if falls_back && start_page_exists {
            AssetChoice::StartPage
        } else {
            AssetChoice::NotFound
        },
{
    if asset_exists {
        AssetChoice::Asset
    } else if falls_back && start_page_exists {
        AssetChoice::StartPage
    } else {
        AssetChoice::NotFound
    }
}

/// `mime_guess::from_path` followed by `first_or_octet_stream`: the first
/// media type that the crate's table holds for the extension of the path,
/// or `application/octet-stream`. What counts as the extension follows the
/// path rules of the platform, so nothing is claimed of the result.
#[verifier::external_body]
fn guess_mime(path: &str) -> String {
    mime_guess::from_path(path).first_or_octet_stream().as_ref().to_string()
}

/// The media type of the start page.
pub const START_PAGE_TYPE: &'static str = "text/html";

/// The media type that goes out with the answer of an asset route: that of
/// the asset by its extension, that of the start page, or none where
/// nothing is found.
pub fn static_content_type(choice: AssetChoice, name: &str) -> (mime: Option<&'static str>)
    ensures
        match choice {
            AssetChoice::Asset => mime is Some && mime->0@ == mime_of_extension(
                extension(encode_utf8(name@)),
            ),
            AssetChoice::StartPage => mime is Some && mime->0@ == START_PAGE_TYPE@,
            AssetChoice::NotFound => mime is None,
        },
{
    match choice {
        AssetChoice::Asset => Some(get_mime_type(name)),
        AssetChoice::StartPage => Some(START_PAGE_TYPE),
        AssetChoice::NotFound => None,
    }
}

/// The media type that goes out with the answer to any other request: that
/// of the asset as `mime_guess` gives it for the path, that of the start
/// page, or none where nothing is found.
pub fn embedded_content_type(choice: AssetChoice, path: &str) -> (mime: Option<String>)
    ensures
        match choice {
            AssetChoice::Asset => mime is Some,
            AssetChoice::StartPage => mime is Some && mime->0@ == START_PAGE_TYPE@,
            AssetChoice::NotFound => mime is None,
        },
{
    match choice {
        AssetChoice::Asset => Some(guess_mime(path)),
        AssetChoice::StartPage => Some(String::from_str(START_PAGE_TYPE)),
        AssetChoice::NotFound => None,
    }
}

} // verus!
