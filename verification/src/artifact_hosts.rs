//! The fixed IronHub download whitelist.
//!
//! Two fixed lists, deliberately not configurable at runtime:
//!
//! - the URL prefixes ([`url_prefix_table`]): every URL an IronHub request
//!   *starts* at (the catalog manifest, a private manifest, every artifact)
//!   must begin with one of them;
//! - the exact hosts ([`ironhub_host_table`]) that make up the network policy
//!   granted to IronHub downloads. Every redirect hop is re-authorized against
//!   that policy, so a hop may land on these hosts only, with no wildcards.
use vstd::prelude::*;

use crate::text;
use crate::text::{chars_of, has_encoded_separator_in, same_text, starts_with};

verus! {

/// Why a URL is not on the whitelist, worded without echoing the URL (a
/// private manifest URL carries an access token).
#[derive(Debug, Clone, Copy, PartialEq, Eq, Structural)]
pub enum WhitelistRejection {
    Host,
    Path,
}

/// The parts of a parsed absolute URL that the whitelist reads.
#[derive(Debug)]
pub struct DownloadUrl {
    pub scheme: String,
    pub username: String,
    pub password: Option<String>,
    pub port: Option<u16>,
    pub host: Option<String>,
    pub path: String,
}

/// The mathematical value of a [`DownloadUrl`].
pub ghost struct DownloadUrlView {
    pub scheme: Seq<char>,
    pub username: Seq<char>,
    pub password: Option<Seq<char>>,
    pub port: Option<u16>,
    pub host: Option<Seq<char>>,
    pub path: Seq<char>,
}

pub open spec fn text_view(text: Option<String>) -> Option<Seq<char>> {
    match text {
        Some(t) => Some(t@),
        None => None,
    }
}

impl View for DownloadUrl {
    type V = DownloadUrlView;

    open spec fn view(&self) -> DownloadUrlView {
        DownloadUrlView {
            scheme: self.scheme@,
            username: self.username@,
            password: text_view(self.password),
            port: self.port,
            host: text_view(self.host),
            path: self.path@,
        }
    }
}

pub open spec fn url_view(url: Option<DownloadUrl>) -> Option<DownloadUrlView> {
    match url {
        Some(u) => Some(u@),
        None => None,
    }
}

/// What WHATWG URL parsing, as the `url` crate performs it, makes of `text`:
/// `None` where `text` is no absolute URL, else the parts of the parsed URL.
pub uninterp spec fn parsed_download_url(text: Seq<char>) -> Option<DownloadUrlView>;

/// Calls `url::Url::parse` on `text` and, on success, reads the parsed URL's
/// `scheme()`, `username()`, `password()`, `port()`, `host_str()` and `path()`.
/// Trusted: the result is what the `url` crate computes from `text` alone,
/// named by `parsed_download_url`; the normalisation that the crate performs
/// (lower-cased scheme and host, resolved dot segments, omitted default port)
/// is left inside that name.
#[verifier::external_body]
fn parse_with_url_crate(text: &str) -> (parsed: Option<DownloadUrl>)
    ensures
        url_view(parsed) == parsed_download_url(text@),
{
    match url::Url::parse(text) {
        Ok(url) => Some(
            DownloadUrl {
                scheme: url.scheme().to_owned(),
                username: url.username().to_owned(),
                password: url.password().map(str::to_owned),
                port: url.port(),
                host: url.host_str().map(str::to_owned),
                path: url.path().to_owned(),
            },
        ),
        Err(_) => None,
    }
}

impl DownloadUrl {
    /// Parses `text` as an absolute URL; `None` where it is none.
    pub fn parse(text: &str) -> (parsed: Option<DownloadUrl>)
        ensures
            url_view(parsed) == parsed_download_url(text@),
    {
        parse_with_url_crate(text)
    }
}

/// `(host, path prefix)` pairs a starting URL must match: `https`, no user
/// information, the default port, this exact host, and a path beginning with
/// the prefix. Comparison is case-sensitive.
pub open spec fn url_prefix_table() -> Seq<(Seq<char>, Seq<char>)> {
    seq![
        // Upstream IronHub: the signed catalog and its artifact proxy.
        ("hub.ironclaw.com"@, "/"@),
        // The Naomi catalog, published as release assets of one repository.
        ("github.com"@, "/CjS77/naomi-addons/releases/download/"@),
    ]
}

/// Exact hosts an IronHub download or any of its redirect hops may reach.
/// GitHub answers a release-asset download with a redirect to one of the two
/// `githubusercontent.com` hosts.
pub open spec fn ironhub_host_table() -> Seq<Seq<char>> {
    seq![
        "hub.ironclaw.com"@,
        "github.com"@,
        "release-assets.githubusercontent.com"@,
        "objects.githubusercontent.com"@,
    ]
}

/// The URL prefixes of [`url_prefix_table`], as owned text.
pub fn ironhub_url_prefixes() -> (prefixes: Vec<(String, String)>)
    ensures
        prefixes@.len() == url_prefix_table().len(),
        forall|i: int|
            0 <= i < prefixes@.len() ==> (#[trigger] prefixes@[i].0@, prefixes@[i].1@)
                == url_prefix_table()[i],
{
    let mut prefixes: Vec<(String, String)> = Vec::new();
    prefixes.push(("hub.ironclaw.com".to_owned(), "/".to_owned()));
    prefixes.push(("github.com".to_owned(), "/CjS77/naomi-addons/releases/download/".to_owned()));
    prefixes
}

/// The hosts of [`ironhub_host_table`], as owned text.
pub fn ironhub_hosts() -> (hosts: Vec<String>)
    ensures
        hosts@.len() == ironhub_host_table().len(),
        forall|i: int| 0 <= i < hosts@.len() ==> #[trigger] hosts@[i]@ == ironhub_host_table()[i],
{
    let mut hosts: Vec<String> = Vec::new();
    hosts.push("hub.ironclaw.com".to_owned());
    hosts.push("github.com".to_owned());
    hosts.push("release-assets.githubusercontent.com".to_owned());
    hosts.push("objects.githubusercontent.com".to_owned());
    hosts
}

/// `https`, no user name, no password and the scheme's default port.
pub open spec fn is_plain_https(url: DownloadUrlView) -> bool {
    &&& url.scheme == "https"@
    &&& url.username.len() == 0
    &&& url.password is None
    &&& url.port is None
}

/// Some whitelist entry names exactly `host`.
pub open spec fn host_is_listed(host: Seq<char>) -> bool {
    exists|i: int| 0 <= i < url_prefix_table().len() && (#[trigger] url_prefix_table()[i]).0 == host
}

/// Some whitelist entry names exactly `host` and its path prefix begins `path`.
pub open spec fn path_is_listed(host: Seq<char>, path: Seq<char>) -> bool {
    exists|i: int|
        0 <= i < url_prefix_table().len() && (#[trigger] url_prefix_table()[i]).0 == host
            && url_prefix_table()[i].1.is_prefix_of(path)
}

/// Whether a URL is a whitelisted starting point for an IronHub request, and if
/// not, which of its parts puts it off the whitelist.
pub open spec fn whitelist_verdict(url: DownloadUrlView) -> Result<(), WhitelistRejection> {
    if !is_plain_https(url) {
        Err(WhitelistRejection::Host)
    } else {
        match url.host {
            None => Err(WhitelistRejection::Host),
            Some(host) => if !host_is_listed(host) {
                Err(WhitelistRejection::Host)
            } else if text::has_encoded_separator(url.path) {
                // The URL parser resolves dot segments and backslashes; an
                // encoded separator is the one way left for a path to leave its
                // prefix after the server decodes it.
                Err(WhitelistRejection::Path)
            } else if path_is_listed(host, url.path) {
                Ok(())
            } else {
                Err(WhitelistRejection::Path)
            },
        }
    }
}

/// Checks a parsed URL against the whitelist.
pub fn check_download_url(url: &DownloadUrl) -> (verdict: Result<(), WhitelistRejection>)
    ensures
        verdict == whitelist_verdict(url@),
{
    if !same_text(url.scheme.as_str(), "https") || !url.username.as_str().is_empty()
        || url.password.is_some() || url.port.is_some() {
        return Err(WhitelistRejection::Host);
    }
    let host = match &url.host {
        Some(host) => host,
        None => {
            return Err(WhitelistRejection::Host);
        },
    };
    let prefixes = ironhub_url_prefixes();
    let mut listed = false;
    for i in 0..prefixes.len()
        invariant
            prefixes@.len() == url_prefix_table().len(),
            forall|k: int|
                0 <= k < prefixes@.len() ==> (#[trigger] prefixes@[k].0@, prefixes@[k].1@)
                    == url_prefix_table()[k],
            listed == exists|k: int| 0 <= k < i && (#[trigger] url_prefix_table()[k]).0 == host@,
    {
        if prefixes[i].0 == *host {
            listed = true;
        }
    }
    if !listed {
        return Err(WhitelistRejection::Host);
    }
    let path = chars_of(url.path.as_str());
    if has_encoded_separator_in(&path) {
        return Err(WhitelistRejection::Path);
    }
    for i in 0..prefixes.len()
        invariant
            path@ == url.path@,
            is_plain_https(url@),
            url@.host == Some(host@),
            host_is_listed(host@),
            !text::has_encoded_separator(url.path@),
            prefixes@.len() == url_prefix_table().len(),
            forall|k: int|
                0 <= k < prefixes@.len() ==> (#[trigger] prefixes@[k].0@, prefixes@[k].1@)
                    == url_prefix_table()[k],
            forall|k: int|
                0 <= k < i ==> !((#[trigger] url_prefix_table()[k]).0 == host@
                    && url_prefix_table()[k].1.is_prefix_of(url.path@)),
    {
        if prefixes[i].0 == *host {
            let prefix = chars_of(prefixes[i].1.as_str());
            if starts_with(&path, &prefix) {
                assert(url_prefix_table()[i as int].1.is_prefix_of(url.path@));
                return Ok(());
            }
        }
    }
    Err(WhitelistRejection::Path)
}

/// The scheme a network target admits.
#[derive(Debug, Clone, Copy, PartialEq, Eq, Structural)]
pub enum NetworkScheme {
    Http,
    Https,
}

/// One target a network policy lets a request reach: a scheme (any where
/// `None`), a host pattern, and a port (the scheme's default where `None`).
#[derive(Debug)]
pub struct NetworkTargetPattern {
    pub scheme: Option<NetworkScheme>,
    pub host_pattern: String,
    pub port: Option<u16>,
}

/// The network policy granted to an invocation.
#[derive(Debug)]
pub struct NetworkPolicy {
    pub allowed_targets: Vec<NetworkTargetPattern>,
    pub deny_private_ip_ranges: bool,
    pub max_egress_bytes: Option<u64>,
}

/// The host patterns of a policy's targets, in order.
pub open spec fn policy_host_patterns(policy: NetworkPolicy) -> Seq<Seq<char>> {
    policy.allowed_targets@.map_values(|target: NetworkTargetPattern| target.host_pattern@)
}

/// `policy` is the fixed IronHub download policy: one `https` target on the
/// default port for each host of [`ironhub_host_table`], in that order,
/// private address ranges denied and no byte limit.
pub open spec fn is_artifact_policy(policy: NetworkPolicy) -> bool {
    &&& policy_host_patterns(policy) == ironhub_host_table()
    &&& forall|i: int|
        0 <= i < policy.allowed_targets@.len() ==> {
            &&& (#[trigger] policy.allowed_targets@[i]).scheme == Some(NetworkScheme::Https)
            &&& policy.allowed_targets@[i].port is None
        }
    &&& policy.deny_private_ip_ranges
    &&& policy.max_egress_bytes is None
}

/// No host of the IronHub policy is a wildcard pattern.
pub proof fn lemma_ironhub_hosts_are_exact()
    ensures
        forall|i: int|
            0 <= i < ironhub_host_table().len() ==> !(#[trigger] ironhub_host_table()[i]).contains(
                '*',
            ),
{
    reveal_strlit("hub.ironclaw.com");
    reveal_strlit("github.com");
    reveal_strlit("release-assets.githubusercontent.com");
    reveal_strlit("objects.githubusercontent.com");
    assert forall|i: int| 0 <= i < ironhub_host_table().len() implies !(
    #[trigger] ironhub_host_table()[i]).contains('*') by {
        let host = ironhub_host_table()[i];
        assert forall|j: int| 0 <= j < host.len() implies host[j] != '*' by {}
    }
}

/// The network policy granted to IronHub downloads: the exact hosts of
/// [`ironhub_host_table`] over `https` on the default port, nothing else.
pub fn artifact_network_policy() -> (policy: NetworkPolicy)
    ensures
        is_artifact_policy(policy),
        forall|i: int|
            0 <= i < policy.allowed_targets@.len() ==> !(
            #[trigger] policy.allowed_targets@[i]).host_pattern@.contains('*'),
{
    let hosts = ironhub_hosts();
    let mut allowed_targets: Vec<NetworkTargetPattern> = Vec::new();
    for i in 0..hosts.len()
        invariant
            hosts@.len() == ironhub_host_table().len(),
            forall|k: int| 0 <= k < hosts@.len() ==> #[trigger] hosts@[k]@ == ironhub_host_table()[k],
            allowed_targets@.len() == i,
            forall|k: int|
                0 <= k < i ==> {
                    &&& (#[trigger] allowed_targets@[k]).host_pattern@ == ironhub_host_table()[k]
                    &&& allowed_targets@[k].scheme == Some(NetworkScheme::Https)
                    &&& allowed_targets@[k].port is None
                },
    {
        allowed_targets.push(
            NetworkTargetPattern {
                scheme: Some(NetworkScheme::Https),
                host_pattern: hosts[i].clone(),
                port: None,
            },
        );
    }
    let policy = NetworkPolicy {
        allowed_targets,
        deny_private_ip_ranges: true,
        max_egress_bytes: None,
    };
    assert(policy_host_patterns(policy) =~= ironhub_host_table());
    proof {
        lemma_ironhub_hosts_are_exact();
    }
    policy
}

/// Every host that a whitelisted starting URL names is granted by the IronHub
/// policy over `https` on the default port, so a whitelisted URL can always be
/// fetched.
pub proof fn lemma_whitelisted_host_is_granted(url: DownloadUrlView, policy: NetworkPolicy)
    requires
        whitelist_verdict(url) is Ok,
        is_artifact_policy(policy),
    ensures
        url.host is Some,
        exists|i: int|
            0 <= i < policy.allowed_targets@.len() && (#[trigger] policy.allowed_targets@[i]).host_pattern@
                == url.host->0 && policy.allowed_targets@[i].scheme == Some(NetworkScheme::Https)
                && policy.allowed_targets@[i].port is None,
{
    let host = url.host->0;
    let k = choose|k: int| 0 <= k < url_prefix_table().len() && (#[trigger] url_prefix_table()[k]).0 == host;
    let i: int = if k == 0 { 0 } else { 1 };
    assert(policy_host_patterns(policy).len() == policy.allowed_targets@.len());
    assert(ironhub_host_table()[i] == url_prefix_table()[k].0);
    assert(policy_host_patterns(policy)[i] == policy.allowed_targets@[i].host_pattern@);
    assert(policy.allowed_targets@[i].host_pattern@ == host);
}

/// A whitelisted starting URL, written out as `https://` + host + path, begins
/// with `https://hub.ironclaw.com/` or with
/// `https://github.com/CjS77/naomi-addons/releases/download/`.
pub proof fn lemma_whitelisted_url_starts_with_a_listed_prefix(url: DownloadUrlView)
    requires
        whitelist_verdict(url) is Ok,
    ensures
        url.host is Some,
        "https://hub.ironclaw.com/"@.is_prefix_of("https://"@ + url.host->0 + url.path)
            || "https://github.com/CjS77/naomi-addons/releases/download/"@.is_prefix_of(
            "https://"@ + url.host->0 + url.path,
        ),
{
    let host = url.host->0;
    let full = "https://"@ + host + url.path;
    let k = choose|k: int|
        0 <= k < url_prefix_table().len() && (#[trigger] url_prefix_table()[k]).0 == host
            && url_prefix_table()[k].1.is_prefix_of(url.path);
    let (h, p) = url_prefix_table()[k];
    let listed = "https://"@ + h + p;
    assert(listed.is_prefix_of(full)) by {
        assert forall|j: int| 0 <= j < listed.len() implies listed[j] == full[j] by {
            if j >= ("https://"@ + h).len() {
                assert(p[j - ("https://"@ + h).len()] == url.path[j - ("https://"@ + h).len()]);
            }
        }
        assert(listed =~= full.subrange(0, listed.len() as int));
    }
    reveal_strlit("https://");
    reveal_strlit("hub.ironclaw.com");
    reveal_strlit("/");
    reveal_strlit("https://hub.ironclaw.com/");
    reveal_strlit("github.com");
    reveal_strlit("/CjS77/naomi-addons/releases/download/");
    reveal_strlit("https://github.com/CjS77/naomi-addons/releases/download/");
    if k == 0 {
        assert(listed =~= "https://hub.ironclaw.com/"@);
    } else {
        assert(listed =~= "https://github.com/CjS77/naomi-addons/releases/download/"@);
    }
}

/// The whitelist over a URL's parts, with nothing but the parts themselves:
/// a URL is accepted exactly when it is `https` with no user name, no
/// password and the default port, it names `hub.ironclaw.com` with a path
/// under `/` or `github.com` with a path under
/// `/CjS77/naomi-addons/releases/download/`, and its path holds no `%`
/// followed by `2f` or `5c` (in either case). It is refused for its host
/// exactly when the first part or the host fails, and for its path otherwise.
/// Nothing else about the path (its length, its other characters) matters.
pub proof fn lemma_whitelist_verdict_by_parts(url: DownloadUrlView)
    ensures
        whitelist_verdict(url) == Ok::<(), WhitelistRejection>(()) <==> {
            &&& url.scheme == "https"@
            &&& url.username.len() == 0
            &&& url.password is None
            &&& url.port is None
            &&& (url.host == Some("hub.ironclaw.com"@) && "/"@.is_prefix_of(url.path) || url.host
                == Some("github.com"@) && "/CjS77/naomi-addons/releases/download/"@.is_prefix_of(
                url.path,
            ))
            &&& !exists|i: int|
                0 <= i && i + 2 < url.path.len() && #[trigger] url.path[i] == '%' && (url.path[i + 1]
                    == '2' && (url.path[i + 2] == 'f' || url.path[i + 2] == 'F') || url.path[i + 1]
                    == '5' && (url.path[i + 2] == 'c' || url.path[i + 2] == 'C'))
        },
        whitelist_verdict(url) == Err::<(), WhitelistRejection>(WhitelistRejection::Host) <==> !{
            &&& url.scheme == "https"@
            &&& url.username.len() == 0
            &&& url.password is None
            &&& url.port is None
            &&& (url.host == Some("hub.ironclaw.com"@) || url.host == Some("github.com"@))
        },
        whitelist_verdict(url) is Ok || whitelist_verdict(url) == Err::<(), WhitelistRejection>(
            WhitelistRejection::Host,
        ) || whitelist_verdict(url) == Err::<(), WhitelistRejection>(WhitelistRejection::Path),
{
    text::lemma_encoded_separator_is_percent_escape(url.path);
    if let Some(host) = url.host {
        assert(host_is_listed(host) <==> (host == "hub.ironclaw.com"@ || host == "github.com"@))
            by {
            if host == "hub.ironclaw.com"@ {
                assert(url_prefix_table()[0].0 == host);
            }
            if host == "github.com"@ {
                assert(url_prefix_table()[1].0 == host);
            }
        }
        assert(path_is_listed(host, url.path) <==> (host == "hub.ironclaw.com"@
            && "/"@.is_prefix_of(url.path) || host == "github.com"@
            && "/CjS77/naomi-addons/releases/download/"@.is_prefix_of(url.path))) by {
            if host == "hub.ironclaw.com"@ && "/"@.is_prefix_of(url.path) {
                assert(url_prefix_table()[0].0 == host);
            }
            if host == "github.com"@ && "/CjS77/naomi-addons/releases/download/"@.is_prefix_of(
                url.path,
            ) {
                assert(url_prefix_table()[1].0 == host);
            }
        }
    }
}

} // verus!
