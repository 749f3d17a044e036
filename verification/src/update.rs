//! Self-update decisions: which release asset fits the platform, what the
//! release API reported as the latest tag, whether that tag is newer than the
//! running version, where to download it, and how to restart afterwards.
use vstd::prelude::*;

use crate::text::{chars_of, find, find_from, same_text};
use crate::version::{
    is_semver, lemma_version_order_antisymmetric, lemma_version_order_chains, pre_release, semver_numbers,
    version_newer, version_order,
};

verus! {

// ---------------------------------------------------------------------------
// Versions
// ---------------------------------------------------------------------------

/// The version named by `remote` is newer than the one named by `current`.
pub open spec fn newer_spec(remote: Seq<char>, current: Seq<char>) -> bool {
    version_order(remote, current) > 0
}

/// Compares versions: whether `remote` names a later version than
/// `current`. Leading `v`s are ignored. A semantic version
/// (`MAJOR.MINOR.PATCH[-pre][+build]`) is read by semver precedence: its
/// three numbers, then a pre-release ranks below the release and two
/// pre-releases compare by their identifiers; build metadata does not count.
/// Any other string is read as the numbers of its dot-separated pieces that
/// parse as a `u32`, the others skipped. Numbers compare in order, a missing
/// one counting as 0.
pub fn is_newer(remote: &str, current: &str) -> (b: bool)
    ensures
        b == newer_spec(remote@, current@),
{
    version_newer(remote, current)
}

// ---------------------------------------------------------------------------
// Laws of the version order
// ---------------------------------------------------------------------------

/// No version is newer than itself.
pub proof fn lemma_newer_irreflexive(v: Seq<char>)
    ensures
        !newer_spec(v, v),
{
    lemma_version_order_antisymmetric(v, v);
}

/// Of two versions, at most one is newer than the other.
pub proof fn lemma_newer_asymmetric(a: Seq<char>, b: Seq<char>)
    ensures
        newer_spec(a, b) ==> !newer_spec(b, a),
{
    lemma_version_order_antisymmetric(a, b);
}

/// Newer-than is transitive.
pub proof fn lemma_newer_transitive(a: Seq<char>, b: Seq<char>, c: Seq<char>)
    requires
        newer_spec(a, b),
        newer_spec(b, c),
    ensures
        newer_spec(a, c),
{
    lemma_version_order_chains(a, b, c);
}

/// Of two semantic versions with the same `MAJOR.MINOR.PATCH`, a
/// pre-release is older than the release.
pub proof fn lemma_prerelease_older(a: Seq<char>, b: Seq<char>)
    requires
        is_semver(a),
        is_semver(b),
        semver_numbers(a) == semver_numbers(b),
        pre_release(a) is Some,
        pre_release(b) is None,
    ensures
        newer_spec(b, a),
        !newer_spec(a, b),
{
    lemma_version_order_antisymmetric(a, b);
    lemma_version_order_antisymmetric(a, a);
}

// ---------------------------------------------------------------------------
// Release metadata
// ---------------------------------------------------------------------------

/// The repository whose releases carry the game's binaries.
pub open spec fn download_prefix() -> Seq<char> {
    "https://github.com/storozhenko98/tt/releases/download/"@
}

/// The release asset built for operating system `os` and architecture `arch`.
pub open spec fn asset_for(os: Seq<char>, arch: Seq<char>) -> Option<Seq<char>> {
    if os == "macos"@ && arch == "aarch64"@ {
        Some("tt-darwin-arm64"@)
    } else if os == "macos"@ && arch == "x86_64"@ {
        Some("tt-darwin-x64"@)
    } else if os == "linux"@ && arch == "x86_64"@ {
        Some("tt-linux-x64"@)
    } else {
        None
    }
}

/// The name of the release asset for this platform, if one is published.
pub fn asset_name(os: &str, arch: &str) -> (r: Option<&'static str>)
    ensures
        match r {
            Some(a) => asset_for(os@, arch@) == Some(a@),
            None => asset_for(os@, arch@) is None,
        },
{
    if same_text(os, "macos") && same_text(arch, "aarch64") {
        Some("tt-darwin-arm64")
    } else if same_text(os, "macos") && same_text(arch, "x86_64") {
        Some("tt-darwin-x64")
    } else if same_text(os, "linux") && same_text(arch, "x86_64") {
        Some("tt-linux-x64")
    } else {
        None
    }
}

/// The tag that a release API response names: the text between the first two
/// double quotes after the first `"tag_name":` in `body`.
pub open spec fn release_tag(body: Seq<char>) -> Option<Seq<char>> {
    match find_from(body, "\"tag_name\":"@, 0) {
        None => None,
        Some(m) => match find_from(body, "\""@, m + "\"tag_name\":"@.len()) {
            None => None,
            Some(q) => match find_from(body, "\""@, q + 1) {
                None => None,
                Some(e) => Some(body.subrange(q + 1, e)),
            },
        },
    }
}

/// Extracts the latest release tag from the body of a release API response.
pub fn parse_latest_tag(body: &str) -> (r: Option<String>)
    ensures
        match r {
            Some(t) => release_tag(body@) == Some(t@),
            None => release_tag(body@) is None,
        },
{
    let cs = chars_of(body);
    let marker = chars_of("\"tag_name\":");
    let quote = chars_of("\"");
    let m = match find(&cs, &marker, 0) {
        Some(m) => m,
        None => return None,
    };
    proof {
        crate::text::lemma_find_from_found(cs@, marker@, 0, m as int);
    }
    let n = cs.len();
    let q = match find(&cs, &quote, m + marker.len()) {
        Some(q) => q,
        None => return None,
    };
    proof {
        crate::text::lemma_find_from_found(cs@, quote@, m + marker@.len(), q as int);
        reveal_strlit("\"");
    }
    let e = match find(&cs, &quote, q + 1) {
        Some(e) => e,
        None => return None,
    };
    proof {
        crate::text::lemma_find_from_found(cs@, quote@, q + 1, e as int);
    }
    let tag = body.substring_char(q + 1, e);
    Some(tag.to_owned())
}

/// The address from which the asset `asset` of release `tag` is downloaded.
pub fn download_url(tag: &str, asset: &str) -> (url: String)
    ensures
        url@ == download_prefix() + tag@ + "/"@ + asset@,
{
    let mut url = "https://github.com/storozhenko98/tt/releases/download/".to_owned();
    url.append(tag);
    url.append("/");
    url.append(asset);
    url
}

/// What a self-update does once a newer release is known.
pub struct UpdatePlan {
    /// The running version, as a tag (`v` and the version).
    pub current: String,
    /// Where the new binary is downloaded from.
    pub url: String,
}

/// Decides whether to update from the running `version` to the release
/// `tag`, whose binary for this platform is `asset`: an update is planned
/// exactly when `tag` is newer than `v` followed by `version`.
pub fn plan_update(asset: &str, tag: &str, version: &str) -> (r: Option<UpdatePlan>)
    ensures
        r is Some <==> newer_spec(tag@, "v"@ + version@),
        r matches Some(p) ==> {
            &&& p.current@ == "v"@ + version@
            &&& p.url@ == download_prefix() + tag@ + "/"@ + asset@
        },
{
    let mut current = "v".to_owned();
    current.append(version);
    if !is_newer(tag, current.as_str()) {
        return None;
    }
    Some(UpdatePlan { current, url: download_url(tag, asset) })
}

// ---------------------------------------------------------------------------
// Restart
// ---------------------------------------------------------------------------

/// The arguments for restarting the game after an update: those it was
/// started with, `args`, without the first, which names the program.
pub fn exec(args: &Vec<String>) -> (rest: Vec<String>)
    requires
        args.len() >= 1,
    ensures
        rest.len() == args.len() - 1,
        forall|i: int| 0 <= i < rest.len() ==> #[trigger] rest[i] == args[i + 1],
{
    let mut rest: Vec<String> = Vec::new();
    let mut i: usize = 1;
    while i < args.len()
        invariant
            1 <= i <= args.len(),
            rest.len() == i - 1,
            forall|j: int| 0 <= j < rest.len() ==> #[trigger] rest[j] == args[j + 1],
        decreases args.len() - i,
    {
        rest.push(args[i].clone());
        i = i + 1;
    }
    rest
}

} // verus!
