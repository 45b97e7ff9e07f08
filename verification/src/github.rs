//! Dataset releases: which release asset to use, the names of cached files,
//! and the retry policy for transient download failures.

use vstd::prelude::*;

use crate::error::Error;
use crate::text::{
    append_chars, chars_of, contains, ends_with, has_infix, has_suffix, lower_seq, opt_text, string_of,
    to_ascii_lowercase, trim, trimmed,
};

verus! {

/// Identifier for a dataset release to download.
#[derive(Debug, Clone)]
pub enum DatasetRelease {
    /// The latest published release.
    Latest,
    /// A release identified by its Git tag (for example `e6c3`).
    Tag(String),
}

impl Default for DatasetRelease {
    fn default() -> (r: Self)
        ensures
            r is Latest,
    {
        DatasetRelease::Latest
    }
}

impl DatasetRelease {
    /// The latest published release.
    pub fn latest() -> (r: Self)
        ensures
            r is Latest,
    {
        DatasetRelease::Latest
    }

    /// The release with tag `tag`.
    pub fn tag(tag: &str) -> (r: Self)
        ensures
            r matches DatasetRelease::Tag(t) && t@ == tag@,
    {
        DatasetRelease::Tag(tag.to_owned())
    }

    /// How the release is shown to users: `latest`, or `tag` and the tag.
    pub fn to_string(&self) -> (r: String)
        ensures
            match self {
                DatasetRelease::Latest => r@ == "latest"@,
                DatasetRelease::Tag(t) => r@ == "tag "@ + t@,
            },
    {
        match self {
            DatasetRelease::Latest => "latest".to_owned(),
            DatasetRelease::Tag(t) => crate::text::concat_str("tag ", t.as_str()),
        }
    }
}

// ---------------------------------------------------------------------------
// Release assets
// ---------------------------------------------------------------------------

/// An asset of a published release.
#[derive(Debug, Clone)]
pub struct ReleaseAsset {
    pub name: String,
    pub browser_download_url: String,
    pub content_type: Option<String>,
}

/// A published release: its tag and assets.
#[derive(Debug, Clone)]
pub struct ReleaseResponse {
    pub tag_name: String,
    pub assets: Vec<ReleaseAsset>,
}

/// What a release asset holds.
#[derive(Debug, Clone, Copy, PartialEq, Eq, Structural)]
pub enum AssetKind {
    /// A SQLite database.
    Database,
    /// A zip archive holding the database.
    Archive,
    /// A CSV file of ship data.
    ShipCsv,
}

/// An asset chosen for download.
#[derive(Debug, Clone)]
pub struct AssetInfo {
    pub name: String,
    pub download_url: String,
    pub kind: AssetKind,
}

/// The kind of an asset with name `name` and content type `content_type`.
///
/// The name is compared in ASCII lowercase: `.db` and `.sqlite` names are
/// databases, names ending in `ship_data.csv` or containing `ship_data` are
/// ship data, `.zip` names are archives, and so is any asset whose content
/// type contains `zip`.
pub open spec fn asset_kind(name: Seq<char>, content_type: Option<Seq<char>>) -> Option<AssetKind> {
    let n = lower_seq(name);
    if has_suffix(n, ".db"@) || has_suffix(n, ".sqlite"@) {
        Some(AssetKind::Database)
    } else if has_suffix(n, "ship_data.csv"@) || has_infix(n, "ship_data"@) {
        Some(AssetKind::ShipCsv)
    } else if has_suffix(n, ".zip"@) {
        Some(AssetKind::Archive)
    } else if content_type matches Some(ct) && has_infix(ct, "zip"@) {
        Some(AssetKind::Archive)
    } else {
        None
    }
}

/// The kind of a release asset.
pub open spec fn kind_of(a: ReleaseAsset) -> Option<AssetKind> {
    asset_kind(a.name@, opt_text(a.content_type))
}

/// `info` names asset `a` as an asset of kind `k`.
pub open spec fn describes(info: AssetInfo, a: ReleaseAsset, k: AssetKind) -> bool {
    &&& info.name@ == a.name@
    &&& info.download_url@ == a.browser_download_url@
    &&& info.kind == k
}

/// Classify a release asset.
pub fn classify_asset(asset: &ReleaseAsset) -> (r: Option<AssetKind>)
    ensures
        r == kind_of(*asset),
{
    let raw = chars_of(asset.name.as_str());
    let name = to_ascii_lowercase(raw.as_slice());
    let n = name.as_slice();
    if ends_with(n, chars_of(".db").as_slice()) || ends_with(n, chars_of(".sqlite").as_slice()) {
        return Some(AssetKind::Database);
    }
    if ends_with(n, chars_of("ship_data.csv").as_slice()) || contains(n, chars_of("ship_data").as_slice()) {
        return Some(AssetKind::ShipCsv);
    }
    if ends_with(n, chars_of(".zip").as_slice()) {
        return Some(AssetKind::Archive);
    }
    match &asset.content_type {
        Some(ct) => {
            let c = chars_of(ct.as_str());
            if contains(c.as_slice(), chars_of("zip").as_slice()) {
                return Some(AssetKind::Archive);
            }
        },
        None => {},
    }
    None
}

fn describe(asset: &ReleaseAsset, kind: AssetKind) -> (r: AssetInfo)
    ensures
        describes(r, *asset, kind),
{
    AssetInfo { name: asset.name.clone(), download_url: asset.browser_download_url.clone(), kind }
}

/// Choose the dataset asset of a release: the first database asset, or
/// failing that the last archive asset.
pub fn select_dataset_asset(release: &ReleaseResponse) -> (r: Option<AssetInfo>)
    ensures
        match r {
            Some(info) => exists|i: int| 0 <= i < release.assets@.len() && #[trigger] describes(info, release.assets@[i], info.kind) && {
                ||| info.kind == AssetKind::Database && kind_of(release.assets@[i]) == Some(AssetKind::Database)
                    && forall|j: int| 0 <= j < i ==> kind_of(#[trigger] release.assets@[j]) != Some(AssetKind::Database)
                ||| info.kind == AssetKind::Archive && kind_of(release.assets@[i]) == Some(AssetKind::Archive)
                    && (forall|j: int| 0 <= j < release.assets@.len() ==> kind_of(#[trigger] release.assets@[j]) != Some(AssetKind::Database))
                    && (forall|j: int| i < j < release.assets@.len() ==> kind_of(#[trigger] release.assets@[j]) != Some(AssetKind::Archive))
            },
            None => forall|j: int| 0 <= j < release.assets@.len() ==> kind_of(#[trigger] release.assets@[j]) != Some(AssetKind::Database)
                && kind_of(release.assets@[j]) != Some(AssetKind::Archive),
        },
{
    let mut archive: Option<AssetInfo> = None;
    let ghost mut archive_at: int = 0;
    let mut k: usize = 0;
    while k < release.assets.len()
        invariant
            k <= release.assets@.len(),
            forall|j: int| 0 <= j < k ==> kind_of(#[trigger] release.assets@[j]) != Some(AssetKind::Database),
            match archive {
                Some(info) => 0 <= archive_at < k && describes(info, release.assets@[archive_at], AssetKind::Archive)
                    && kind_of(release.assets@[archive_at]) == Some(AssetKind::Archive)
                    && forall|j: int| archive_at < j < k ==> kind_of(#[trigger] release.assets@[j]) != Some(AssetKind::Archive),
                None => forall|j: int| 0 <= j < k ==> kind_of(#[trigger] release.assets@[j]) != Some(AssetKind::Archive),
            },
        decreases release.assets@.len() - k,
    {
        let asset = &release.assets[k];
        match classify_asset(asset) {
            Some(AssetKind::Database) => {
                let info = describe(asset, AssetKind::Database);
                proof {
                    assert(describes(info, release.assets@[k as int], info.kind));
                }
                return Some(info);
            },
            Some(AssetKind::Archive) => {
                archive = Some(describe(asset, AssetKind::Archive));
                proof {
                    archive_at = k as int;
                }
            },
            _ => {},
        }
        k = k + 1;
    }
    proof {
        if let Some(info) = &archive {
            assert(describes(*info, release.assets@[archive_at], info.kind));
        }
    }
    archive
}

/// Choose the ship data asset of a release: the first one.
pub fn select_ship_asset(release: &ReleaseResponse) -> (r: Option<AssetInfo>)
    ensures
        match r {
            Some(info) => exists|i: int| 0 <= i < release.assets@.len()
                && #[trigger] describes(info, release.assets@[i], AssetKind::ShipCsv)
                && kind_of(release.assets@[i]) == Some(AssetKind::ShipCsv)
                && forall|j: int| 0 <= j < i ==> kind_of(#[trigger] release.assets@[j]) != Some(AssetKind::ShipCsv),
            None => forall|j: int| 0 <= j < release.assets@.len() ==> kind_of(#[trigger] release.assets@[j]) != Some(AssetKind::ShipCsv),
        },
{
    let mut k: usize = 0;
    while k < release.assets.len()
        invariant
            k <= release.assets@.len(),
            forall|j: int| 0 <= j < k ==> kind_of(#[trigger] release.assets@[j]) != Some(AssetKind::ShipCsv),
        decreases release.assets@.len() - k,
    {
        let asset = &release.assets[k];
        if let Some(AssetKind::ShipCsv) = classify_asset(asset) {
            let info = describe(asset, AssetKind::ShipCsv);
            return Some(info);
        }
        k = k + 1;
    }
    None
}

// ---------------------------------------------------------------------------
// Names of cached files
// ---------------------------------------------------------------------------

/// A character kept in a file name component; others become `_`.
pub open spec fn sanitize_char(c: char) -> char {
    if ('a' <= c <= 'z') || ('A' <= c <= 'Z') || ('0' <= c <= '9') || c == '.' || c == '-' || c == '_' {
        c
    } else {
        '_'
    }
}

/// A file name component made safe.
pub open spec fn sanitized(s: Seq<char>) -> Seq<char> {
    s.map_values(|c: char| sanitize_char(c))
}

/// Replace every character other than ASCII letters, digits, `.`, `-` and
/// `_` by `_`.
pub fn sanitize_component(raw: &str) -> (r: String)
    ensures
        r@ == sanitized(raw@),
{
    let v = chars_of(raw);
    let mut out: Vec<char> = Vec::new();
    let mut k: usize = 0;
    while k < v.len()
        invariant
            k <= v@.len(),
            v@ == raw@,
            out@ == sanitized(raw@.take(k as int)),
        decreases v@.len() - k,
    {
        let c = v[k];
        let keep = ('a' <= c && c <= 'z') || ('A' <= c && c <= 'Z') || ('0' <= c && c <= '9') || c == '.' || c == '-'
            || c == '_';
        out.push(if keep { c } else { '_' });
        k = k + 1;
        proof {
            assert(sanitized(raw@.take(k as int)) =~= sanitized(raw@.take(k - 1)).push(sanitize_char(raw@[k - 1])));
        }
    }
    proof {
        assert(raw@.take(raw@.len() as int) =~= raw@);
    }
    string_of(out.as_slice())
}

/// File name of a dataset target: its own name, or `static_data.db` when
/// it has none.
pub open spec fn target_name(file_name: Option<Seq<char>>) -> Seq<char> {
    match file_name {
        Some(n) => n,
        None => "static_data.db"@,
    }
}

/// File name of the dataset target whose final component is `file_name`.
pub fn target_dataset_filename(file_name: Option<&str>) -> (r: String)
    ensures
        r@ == target_name(match file_name {
            Some(n) => Some(n@),
            None => None,
        }),
{
    match file_name {
        Some(n) => n.to_owned(),
        None => "static_data.db".to_owned(),
    }
}

/// Name under which a release asset is cached: the sanitized release tag, a
/// `-`, and the sanitized asset name (for an archive, the target's file name).
pub fn cache_file_name(asset: &AssetInfo, release: &ReleaseResponse, target_file_name: Option<&str>) -> (r: String)
    ensures
        r@ == sanitized(release.tag_name@) + "-"@ + match asset.kind {
            AssetKind::Archive => target_name(match target_file_name {
                Some(n) => Some(n@),
                None => None,
            }),
            _ => sanitized(asset.name@),
        },
{
    let tag = sanitize_component(release.tag_name.as_str());
    let rest = match asset.kind {
        AssetKind::Archive => target_dataset_filename(target_file_name),
        _ => sanitize_component(asset.name.as_str()),
    };
    let mut v = chars_of(tag.as_str());
    append_chars(&mut v, chars_of("-").as_slice());
    append_chars(&mut v, chars_of(rest.as_str()).as_slice());
    string_of(v.as_slice())
}

// ---------------------------------------------------------------------------
// Retrying transient failures
// ---------------------------------------------------------------------------

/// Retries after the first attempt; at most this many plus one attempts are made.
pub const HTTP_MAX_RETRIES: usize = 3;
/// Delay before the first retry, in milliseconds.
pub const HTTP_INITIAL_BACKOFF_MS: u64 = 300;
/// Upper bound on the delay between attempts, in milliseconds.
pub const HTTP_MAX_BACKOFF_MS: u64 = 5000;

/// The delay after `backoff`: doubled (saturating), capped at the maximum.
pub open spec fn next_backoff_spec(backoff: u64) -> u64 {
    let doubled: int = if backoff * 2 > u64::MAX { u64::MAX as int } else { backoff * 2 };
    if doubled < HTTP_MAX_BACKOFF_MS { doubled as u64 } else { HTTP_MAX_BACKOFF_MS }
}

/// The delay that follows `backoff`.
pub fn next_backoff(backoff: u64) -> (r: u64)
    ensures
        r == next_backoff_spec(backoff),
{
    let doubled: u64 = if backoff > u64::MAX / 2 { u64::MAX } else { backoff * 2 };
    if doubled < HTTP_MAX_BACKOFF_MS {
        doubled
    } else {
        HTTP_MAX_BACKOFF_MS
    }
}

/// Where a sequence of attempts stands: attempts made so far, less one, and
/// the delay before the next retry.
#[derive(Debug, Clone, Copy, PartialEq, Eq, Structural)]
pub struct RetryState {
    pub attempt: usize,
    pub backoff_ms: u64,
}

/// What follows a failed attempt in state `s` (see `RetryState::on_failure`).
pub open spec fn retry_step(s: RetryState, transient: bool) -> Option<(u64, RetryState)> {
    if s.attempt >= HTTP_MAX_RETRIES || !transient {
        None
    } else {
        Some((s.backoff_ms, RetryState { attempt: (s.attempt + 1) as usize, backoff_ms: next_backoff_spec(s.backoff_ms) }))
    }
}

/// The state after `k` transient failures in a row, starting from a new
/// state; `None` once the retries are given up.
pub open spec fn state_after(k: nat) -> Option<RetryState>
    decreases k,
{
    if k == 0 {
        Some(RetryState { attempt: 0, backoff_ms: HTTP_INITIAL_BACKOFF_MS })
    } else {
        match state_after((k - 1) as nat) {
            Some(s) => match retry_step(s, true) {
                Some((_, next)) => Some(next),
                None => None,
            },
            None => None,
        }
    }
}

/// However often a transient failure recurs, at most `HTTP_MAX_RETRIES`
/// retries follow the first attempt, and no delay exceeds
/// `HTTP_MAX_BACKOFF_MS`.
pub proof fn lemma_retries_bounded(k: nat)
    ensures
        state_after(k) matches Some(s) ==> s.attempt == k && k <= HTTP_MAX_RETRIES && s.backoff_ms <= HTTP_MAX_BACKOFF_MS,
        k > HTTP_MAX_RETRIES ==> state_after(k) is None,
    decreases k,
{
    if k > 0 {
        lemma_retries_bounded((k - 1) as nat);
    }
}

impl RetryState {
    /// The state before the first attempt.
    pub fn new() -> (r: Self)
        ensures
            r.attempt == 0,
            r.backoff_ms == HTTP_INITIAL_BACKOFF_MS,
    {
        RetryState { attempt: 0, backoff_ms: HTTP_INITIAL_BACKOFF_MS }
    }

    /// Whether the last attempt has been made: no retry follows whatever
    /// the failure.
    pub fn exhausted(&self) -> (r: bool)
        ensures
            r == (self.attempt >= HTTP_MAX_RETRIES),
            r ==> retry_step(*self, true) is None && retry_step(*self, false) is None,
    {
        self.attempt >= HTTP_MAX_RETRIES
    }

    /// What follows a failed attempt: `None` to give up (the last attempt
    /// was made, or the error is not transient), or the delay to wait and the
    /// state for the next attempt.
    pub fn on_failure(&self, transient: bool) -> (r: Option<(u64, RetryState)>)
        ensures
            r == retry_step(*self, transient),
    {
        if self.attempt >= HTTP_MAX_RETRIES || !transient {
            None
        } else {
            Some((self.backoff_ms, RetryState { attempt: self.attempt + 1, backoff_ms: next_backoff(self.backoff_ms) }))
        }
    }
}

/// Whether a failed release lookup is worth retrying: any failure without a
/// status (network, timeout) and server errors; not a 404 or another status.
pub fn release_error_is_transient(status: Option<u16>) -> (r: bool)
    ensures
        r == match status {
            None => true,
            Some(s) => 500 <= s <= 599,
        },
{
    match status {
        None => true,
        Some(s) => 500 <= s && s <= 599,
    }
}

/// Whether a failed download is worth retrying: I/O errors while streaming,
/// failures without a status, and server errors.
pub fn download_error_is_transient(status: Option<u16>, is_io: bool) -> (r: bool)
    ensures
        r == (is_io || match status {
            None => true,
            Some(s) => 500 <= s <= 599,
        }),
{
    if is_io {
        return true;
    }
    match status {
        None => true,
        Some(s) => 500 <= s && s <= 599,
    }
}

/// The error for a failed release lookup when it has a meaning of its own: a
/// 404 for a tagged release means that release does not exist.
pub fn release_not_found(release: &DatasetRelease, status: Option<u16>) -> (r: Option<Error>)
    ensures
        match release {
            DatasetRelease::Tag(t) => if status == Some(404u16) {
                r matches Some(Error::DatasetReleaseNotFound { tag }) && tag@ == t@
            } else {
                r is None
            },
            DatasetRelease::Latest => r is None,
        },
{
    match release {
        DatasetRelease::Tag(t) => {
            if status == Some(404u16) {
                Some(Error::DatasetReleaseNotFound { tag: t.clone() })
            } else {
                None
            }
        },
        DatasetRelease::Latest => None,
    }
}

/// The release tag when it can be known without asking the release
/// service: a tagged release is its tag; for the latest release, a
/// non-blank override tag (trimmed) wins, and a local dataset source stands
/// for `latest`. `None` means the service must be asked.
pub fn resolve_release_tag_locally(release: &DatasetRelease, override_tag: Option<&str>, local_source: bool) -> (r: Option<String>)
    ensures
        match release {
            DatasetRelease::Tag(t) => r matches Some(x) && x@ == t@,
            DatasetRelease::Latest => match override_tag {
                Some(o) if trimmed(o@).len() > 0 => r matches Some(x) && x@ == trimmed(o@),
                _ => if local_source {
                    r matches Some(x) && x@ == "latest"@
                } else {
                    r is None
                },
            },
        },
{
    match release {
        DatasetRelease::Tag(t) => Some(t.clone()),
        DatasetRelease::Latest => {
            if let Some(o) = override_tag {
                let t = trim(chars_of(o).as_slice());
                if t.len() > 0 {
                    return Some(string_of(t.as_slice()));
                }
            }
            if local_source {
                Some("latest".to_owned())
            } else {
                None
            }
        },
    }
}

/// What to do with a cached ship data file.
#[derive(Debug, Clone, Copy, PartialEq, Eq, Structural)]
pub enum ShipCacheAction {
    /// The cached file is current.
    UseCached,
    /// The cached file is kept and its missing checksum sidecar written.
    WriteSidecar,
    /// The file is downloaded again.
    Download,
}

/// Decide about a cached ship data file from whether it exists, the
/// checksum recorded beside it, and its actual checksum (`None` when that
/// could not be computed).
pub fn ship_cache_action(cached_exists: bool, recorded: Option<String>, actual: Option<String>) -> (r: ShipCacheAction)
    ensures
        r == if !cached_exists {
            ShipCacheAction::Download
        } else {
            match (recorded, actual) {
                (Some(e), Some(a)) => if a@ == e@ { ShipCacheAction::UseCached } else { ShipCacheAction::Download },
                (Some(_), None) => ShipCacheAction::Download,
                (None, Some(_)) => ShipCacheAction::WriteSidecar,
                (None, None) => ShipCacheAction::Download,
            }
        },
{
    if !cached_exists {
        return ShipCacheAction::Download;
    }
    match (recorded, actual) {
        (Some(e), Some(a)) => {
            if a == e {
                ShipCacheAction::UseCached
            } else {
                ShipCacheAction::Download
            }
        },
        (Some(_), None) => ShipCacheAction::Download,
        (None, Some(_)) => ShipCacheAction::WriteSidecar,
        (None, None) => ShipCacheAction::Download,
    }
}

} // verus!
