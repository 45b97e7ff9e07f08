//! Dataset files: their paths, the release marker written beside a
//! downloaded dataset, and whether a cached dataset is still current.

use vstd::prelude::*;

use crate::github::DatasetRelease;
use crate::spatial::spatial_index_path;
use crate::text::{
    append_chars, chars_of, equal_chars, has_prefix, lines_of, skip_chars, split_lines, starts_with, string_of, trim,
    trimmed,
};

verus! {

/// Paths to dataset files.
#[derive(Debug, Clone)]
pub struct DatasetPaths {
    /// Path to the SQLite database file.
    pub database: String,
    /// Path to the spatial index file, if it exists.
    pub spatial_index: Option<String>,
    /// Path to the cached ship data CSV, if present.
    pub ship_data: Option<String>,
}

impl DatasetPaths {
    /// Paths for a database; the spatial index beside it is listed when it
    /// exists (`index_exists`).
    pub fn for_database(database: String, index_exists: bool) -> (r: Self)
        ensures
            r.database@ == database@,
            index_exists ==> (r.spatial_index matches Some(p) && p@ == database@ + ".spatial.bin"@),
            !index_exists ==> r.spatial_index is None,
            r.ship_data is None,
    {
        Self::for_database_with_ship(database, index_exists, None)
    }

    /// Paths for a database and an optional cached ship data CSV.
    pub fn for_database_with_ship(database: String, index_exists: bool, ship_data: Option<String>) -> (r: Self)
        ensures
            r.database@ == database@,
            index_exists ==> (r.spatial_index matches Some(p) && p@ == database@ + ".spatial.bin"@),
            !index_exists ==> r.spatial_index is None,
            r.ship_data == ship_data,
    {
        let spatial_index = if index_exists {
            Some(spatial_index_path(database.as_str()))
        } else {
            None
        };
        DatasetPaths { database, spatial_index, ship_data }
    }
}

/// The data directory as given by the platform; on this platform no
/// normalization applies.
pub fn normalize_data_dir(path: &str) -> (r: String)
    ensures
        r@ == path@,
{
    path.to_owned()
}

/// Normalization of a data directory, as used by the tests.
pub fn test_normalize_data_dir(path: &str) -> (r: String)
    ensures
        r@ == path@,
{
    normalize_data_dir(path)
}

/// Bound on the number of collapses applied to one data directory.
pub const MAX_NORMALIZATION_ITERATIONS: usize = 100;

/// Two path components are equal up to ASCII case.
pub open spec fn same_component(a: Seq<char>, b: Seq<char>) -> bool {
    crate::text::lower_seq(a) == crate::text::lower_seq(b)
}

/// One collapse: when the component just above the last one repeats the
/// one above it, drop it.
pub open spec fn collapse_once(c: Seq<Seq<char>>) -> Option<Seq<Seq<char>>> {
    if c.len() >= 3 && same_component(c[c.len() - 2], c[c.len() - 3]) {
        Some(c.remove(c.len() - 2))
    } else {
        None
    }
}

/// Up to `n` collapses, stopping at the first that does not apply.
pub open spec fn collapse_times(c: Seq<Seq<char>>, n: nat) -> Seq<Seq<char>>
    decreases n,
{
    if n == 0 {
        c
    } else {
        match collapse_once(c) {
            Some(d) => collapse_times(d, (n - 1) as nat),
            None => c,
        }
    }
}

/// The text of each component.
pub open spec fn component_texts(c: Seq<String>) -> Seq<Seq<char>> {
    c.map_values(|s: String| s@)
}

fn same_component_exec(a: &String, b: &String) -> (r: bool)
    ensures
        r == same_component(a@, b@),
{
    let la = crate::text::to_ascii_lowercase(chars_of(a.as_str()).as_slice());
    let lb = crate::text::to_ascii_lowercase(chars_of(b.as_str()).as_slice());
    equal_chars(la.as_slice(), lb.as_slice())
}

/// Collapse duplicate consecutive directory names that the platform's data
/// directory can contain (such as `evefrontier\evefrontier\data`), given the
/// path's components; at most `MAX_NORMALIZATION_ITERATIONS` collapses.
pub fn normalize_windows_data_dir(components: Vec<String>) -> (r: Vec<String>)
    ensures
        component_texts(r@) == collapse_times(component_texts(components@), MAX_NORMALIZATION_ITERATIONS as nat),
{
    let mut current = components;
    let mut iterations: usize = 0;
    while iterations < MAX_NORMALIZATION_ITERATIONS
        invariant
            iterations <= MAX_NORMALIZATION_ITERATIONS,
            collapse_times(component_texts(components@), MAX_NORMALIZATION_ITERATIONS as nat)
                == collapse_times(component_texts(current@), (MAX_NORMALIZATION_ITERATIONS - iterations) as nat),
        decreases MAX_NORMALIZATION_ITERATIONS - iterations,
    {
        let n = current.len();
        if n < 3 || !same_component_exec(&current[n - 2], &current[n - 3]) {
            proof {
                assert(collapse_once(component_texts(current@)) is None);
            }
            return current;
        }
        let ghost before = current@;
        current.remove(n - 2);
        proof {
            assert(component_texts(current@) =~= component_texts(before).remove(n - 2));
        }
        iterations = iterations + 1;
    }
    current
}

/// Once no collapse applies, further rounds change nothing.
proof fn lemma_collapse_stable(c: Seq<Seq<char>>, k: nat, m: nat)
    requires
        k <= m,
        collapse_once(collapse_times(c, k)) is None,
    ensures
        collapse_times(c, m) == collapse_times(c, k),
    decreases k,
{
    if k > 0 {
        match collapse_once(c) {
            Some(d) => lemma_collapse_stable(d, (k - 1) as nat, (m - 1) as nat),
            None => {},
        }
    }
}

/// Normalizing twice is normalizing once, for a path that needs fewer than
/// `MAX_NORMALIZATION_ITERATIONS` collapses (after `k` of them none
/// applies); a path to which no collapse applies (`k == 0`) is its own
/// normalization.
pub proof fn lemma_normalization_idempotent(c: Seq<Seq<char>>, k: nat)
    requires
        k < MAX_NORMALIZATION_ITERATIONS,
        collapse_once(collapse_times(c, k)) is None,
    ensures
        collapse_times(collapse_times(c, MAX_NORMALIZATION_ITERATIONS as nat), MAX_NORMALIZATION_ITERATIONS as nat)
            == collapse_times(c, MAX_NORMALIZATION_ITERATIONS as nat),
        k == 0 ==> collapse_times(c, MAX_NORMALIZATION_ITERATIONS as nat) == c,
{
    let n = MAX_NORMALIZATION_ITERATIONS as nat;
    lemma_collapse_stable(c, k, n);
    let d = collapse_times(c, n);
    assert(collapse_once(d) is None);
    assert(collapse_times(d, n) == d);
}

// ---------------------------------------------------------------------------
// Release markers
// ---------------------------------------------------------------------------

/// How the dataset beside a marker was requested.
#[derive(Debug, Clone, Copy, PartialEq, Eq, Structural)]
pub enum MarkerRequest {
    Latest,
    Tag,
}

/// Text of a request kind in a marker.
pub open spec fn request_text(r: MarkerRequest) -> Seq<char> {
    match r {
        MarkerRequest::Latest => "latest"@,
        MarkerRequest::Tag => "tag"@,
    }
}

/// The request kind whose (trimmed) text is `t`.
pub open spec fn request_from(t: Seq<char>) -> Option<MarkerRequest> {
    if t == "latest"@ {
        Some(MarkerRequest::Latest)
    } else if t == "tag"@ {
        Some(MarkerRequest::Tag)
    } else {
        None
    }
}

impl MarkerRequest {
    /// Text of the request kind.
    pub fn as_str(&self) -> (r: &'static str)
        ensures
            r@ == request_text(*self),
    {
        match self {
            MarkerRequest::Latest => "latest",
            MarkerRequest::Tag => "tag",
        }
    }

    /// Read a request kind: `latest` or `tag`, around white space.
    pub fn parse(s: &str) -> (r: Option<MarkerRequest>)
        ensures
            r == request_from(trimmed(s@)),
    {
        let t = trim(chars_of(s).as_slice());
        if equal_chars(t.as_slice(), chars_of("latest").as_slice()) {
            Some(MarkerRequest::Latest)
        } else if equal_chars(t.as_slice(), chars_of("tag").as_slice()) {
            Some(MarkerRequest::Tag)
        } else {
            None
        }
    }
}

/// Contents of the release marker written beside a downloaded dataset.
#[derive(Debug, Clone)]
pub struct ReleaseMarker {
    /// How the dataset was requested.
    pub requested: MarkerRequest,
    /// The release tag it resolved to.
    pub resolved_tag: String,
    /// Directory where companion assets were cached, if recorded.
    pub cache_dir: Option<String>,
}

/// A marker seen as plain values: request, tag and cache directory.
pub type MarkerFields = (MarkerRequest, Seq<char>, Option<Seq<char>>);

impl ReleaseMarker {
    pub open spec fn fields(&self) -> MarkerFields {
        (self.requested, self.resolved_tag@, match self.cache_dir {
            Some(d) => Some(d@),
            None => None,
        })
    }

    /// A marker for `release` resolved to `tag` (trimmed).
    pub fn new(release: &DatasetRelease, tag: &str) -> (r: Self)
        ensures
            r.requested == (match release {
                DatasetRelease::Latest => MarkerRequest::Latest,
                DatasetRelease::Tag(_) => MarkerRequest::Tag,
            }),
            r.resolved_tag@ == trimmed(tag@),
            r.cache_dir is None,
    {
        let requested = match release {
            DatasetRelease::Latest => MarkerRequest::Latest,
            DatasetRelease::Tag(_) => MarkerRequest::Tag,
        };
        let t = trim(chars_of(tag).as_slice());
        ReleaseMarker { requested, resolved_tag: string_of(t.as_slice()), cache_dir: None }
    }

    /// Text of the marker file.
    pub fn format(&self) -> (r: String)
        ensures
            r@ == marker_text(self.fields()),
    {
        let mut v = chars_of("requested=");
        append_chars(&mut v, chars_of(self.requested.as_str()).as_slice());
        append_chars(&mut v, chars_of("\nresolved=").as_slice());
        append_chars(&mut v, chars_of(self.resolved_tag.as_str()).as_slice());
        append_chars(&mut v, chars_of("\n").as_slice());
        match &self.cache_dir {
            Some(d) => {
                append_chars(&mut v, chars_of("cache_dir=").as_slice());
                append_chars(&mut v, chars_of(d.as_str()).as_slice());
                append_chars(&mut v, chars_of("\n").as_slice());
            },
            None => {},
        }
        string_of(v.as_slice())
    }
}

/// Text of a marker file.
pub open spec fn marker_text(m: MarkerFields) -> Seq<char> {
    "requested="@ + request_text(m.0) + "\nresolved="@ + m.1 + "\n"@ + match m.2 {
        Some(d) => "cache_dir="@ + d + "\n"@,
        None => Seq::empty(),
    }
}

/// What the lines of a marker have set so far: request (the last
/// `requested=` line decides, an unknown value clearing it), tag and cache
/// directory (the last non-blank values).
pub type MarkerScan = (Option<MarkerRequest>, Option<Seq<char>>, Option<Seq<char>>);

/// The effect of one marker line.
pub open spec fn scan_line(st: MarkerScan, line: Seq<char>) -> MarkerScan {
    if has_prefix(line, "requested="@) {
        (request_from(trimmed(line.skip(10))), st.1, st.2)
    } else if has_prefix(line, "resolved="@) {
        let t = trimmed(line.skip(9));
        if t.len() > 0 {
            (st.0, Some(t), st.2)
        } else {
            st
        }
    } else if has_prefix(line, "cache_dir="@) {
        let t = trimmed(line.skip(10));
        if t.len() > 0 {
            (st.0, st.1, Some(t))
        } else {
            st
        }
    } else {
        st
    }
}

/// The effect of a sequence of marker lines.
pub open spec fn scan_lines(lines: Seq<Seq<char>>) -> MarkerScan
    decreases lines.len(),
{
    if lines.len() == 0 {
        (None, None, None)
    } else {
        scan_line(scan_lines(lines.drop_last()), lines.last())
    }
}

/// Reading a marker file: a request and a tag, or failing those the whole
/// trimmed text taken as a tag; nothing for blank text.
pub open spec fn parse_marker(s: Seq<char>) -> Option<MarkerFields> {
    if trimmed(s).len() == 0 {
        None
    } else {
        let st = scan_lines(split_lines(s));
        match (st.0, st.1) {
            (Some(r), Some(t)) => Some((r, t, st.2)),
            _ => Some((MarkerRequest::Tag, trimmed(s), None)),
        }
    }
}

/// Value of a line after a prefix, trimmed.
fn trimmed_after(line: &[char], n: usize) -> (r: Vec<char>)
    requires
        n <= line@.len(),
    ensures
        r@ == trimmed(line@.skip(n as int)),
{
    let rest = skip_chars(line, n);
    trim(rest.as_slice())
}

impl ReleaseMarker {
    /// Read a marker file's text.
    pub fn from_str(s: &str) -> (r: Result<ReleaseMarker, ()>)
        ensures
            match parse_marker(s@) {
                Some(f) => r matches Ok(m) && m.fields() == f,
                None => r is Err,
            },
    {
        let all = chars_of(s);
        let whole = trim(all.as_slice());
        if whole.len() == 0 {
            return Err(());
        }
        let lines = lines_of(all.as_slice());
        let ghost views = lines@.map_values(|l: Vec<char>| l@);
        let mut requested: Option<MarkerRequest> = None;
        let mut resolved: Option<Vec<char>> = None;
        let mut cache_dir: Option<Vec<char>> = None;
        let p_req = chars_of("requested=");
        let p_res = chars_of("resolved=");
        let p_dir = chars_of("cache_dir=");
        let mut k: usize = 0;
        while k < lines.len()
            invariant
                k <= lines@.len(),
                views == lines@.map_values(|l: Vec<char>| l@),
                views == split_lines(s@),
                p_req@ == "requested="@,
                p_res@ == "resolved="@,
                p_dir@ == "cache_dir="@,
                scan_lines(views.take(k as int)) == (requested, match resolved {
                    Some(v) => Some(v@),
                    None => None,
                }, match cache_dir {
                    Some(v) => Some(v@),
                    None => None,
                }),
            decreases lines@.len() - k,
        {
            let line = lines[k].as_slice();
            proof {
                reveal_strlit("requested=");
                reveal_strlit("resolved=");
                reveal_strlit("cache_dir=");
                assert(views.take(k + 1).drop_last() =~= views.take(k as int));
                assert(views.take(k + 1).last() == line@);
            }
            if starts_with(line, p_req.as_slice()) {
                let v = trimmed_after(line, 10);
                requested = MarkerRequest::parse(string_of(v.as_slice()).as_str());
                proof {
                    assert(trimmed(v@) == v@) by {
                        crate::text::lemma_trimmed_idempotent(line@.skip(10));
                    }
                }
            } else if starts_with(line, p_res.as_slice()) {
                let v = trimmed_after(line, 9);
                if v.len() > 0 {
                    resolved = Some(v);
                }
            } else if starts_with(line, p_dir.as_slice()) {
                let v = trimmed_after(line, 10);
                if v.len() > 0 {
                    cache_dir = Some(v);
                }
            }
            k = k + 1;
        }
        proof {
            assert(views.take(lines@.len() as int) =~= views);
        }
        match (requested, resolved) {
            (Some(r), Some(t)) => {
                let dir = match cache_dir {
                    Some(d) => Some(string_of(d.as_slice())),
                    None => None,
                };
                Ok(ReleaseMarker { requested: r, resolved_tag: string_of(t.as_slice()), cache_dir: dir })
            },
            _ => Ok(ReleaseMarker { requested: MarkerRequest::Tag, resolved_tag: string_of(whole.as_slice()), cache_dir: None }),
        }
    }
}

// ---------------------------------------------------------------------------
// Reading back a written marker
// ---------------------------------------------------------------------------

/// A value that a marker line can carry and give back: non-empty, with
/// nothing to trim and no line break.
pub open spec fn is_marker_value(v: Seq<char>) -> bool {
    &&& v.len() > 0
    &&& trimmed(v) == v
    &&& forall|i: int| 0 <= i < v.len() ==> #[trigger] v[i] != '\n'
}

proof fn lemma_request_text(r: MarkerRequest)
    ensures
        trimmed(request_text(r)) == request_text(r),
        request_from(request_text(r)) == Some(r),
        request_text(r).len() > 0,
        !is_white_space_last(request_text(r)),
        forall|i: int| 0 <= i < request_text(r).len() ==> #[trigger] request_text(r)[i] != '\n',
{
    reveal_strlit("latest");
    reveal_strlit("tag");
    crate::text::lemma_trimmed_plain(request_text(r));
    if r == MarkerRequest::Tag {
        assert("tag"@ != "latest"@);
    }
}

/// The last character of non-empty `s` is not white space.
pub open spec fn is_white_space_last(s: Seq<char>) -> bool {
    s.len() > 0 && crate::text::is_white_space(s.last())
}

/// A line `p + v` with `p` one of the marker prefixes.
proof fn lemma_line_no_newline(p: Seq<char>, v: Seq<char>)
    requires
        forall|i: int| 0 <= i < p.len() ==> #[trigger] p[i] != '\n',
        forall|i: int| 0 <= i < v.len() ==> #[trigger] v[i] != '\n',
    ensures
        forall|i: int| 0 <= i < (p + v).len() ==> #[trigger] (p + v)[i] != '\n',
{
    assert forall|i: int| 0 <= i < (p + v).len() implies #[trigger] (p + v)[i] != '\n' by {
        if i < p.len() {
            assert((p + v)[i] == p[i]);
        } else {
            assert((p + v)[i] == v[i - p.len()]);
        }
    }
}

/// The lines of a marker's text.
pub open spec fn marker_lines(m: MarkerFields) -> Seq<Seq<char>> {
    let l1 = "requested="@ + request_text(m.0);
    let l2 = "resolved="@ + m.1;
    match m.2 {
        Some(d) => seq![l1, l2, "cache_dir="@ + d],
        None => seq![l1, l2],
    }
}

#[verifier::rlimit(50)]
#[verifier::spinoff_prover]
proof fn lemma_marker_text_lines(m: MarkerFields)
    requires
        is_marker_value(m.1),
        m.2 matches Some(d) ==> is_marker_value(d),
    ensures
        split_lines(marker_text(m)) == marker_lines(m),
{
    reveal_strlit("requested=");
    reveal_strlit("resolved=");
    reveal_strlit("cache_dir=");
    reveal_strlit("\nresolved=");
    reveal_strlit("\n");
    lemma_request_text(m.0);
    let p1 = "requested="@;
    let p2 = "resolved="@;
    let p3 = "cache_dir="@;
    let l1 = p1 + request_text(m.0);
    let l2 = p2 + m.1;
    let tail: Seq<char> = match m.2 {
        Some(d) => p3 + d + seq!['\n'],
        None => Seq::empty(),
    };
    let text = marker_text(m);
    assert(text =~= l1 + seq!['\n'] + (l2 + seq!['\n'] + tail));
    lemma_line_no_newline(p1, request_text(m.0));
    lemma_line_no_newline(p2, m.1);
    crate::text::lemma_split_lines_cons(l1, l2 + seq!['\n'] + tail);
    crate::text::lemma_split_lines_cons(l2, tail);
    assert(strip_cr_id(l1)) by {
        assert(l1.last() == request_text(m.0).last());
    }
    assert(strip_cr_id(l2)) by {
        assert(l2.last() == m.1.last());
        crate::text::lemma_trimmed_plain_last(m.1);
    }
    match m.2 {
        Some(d) => {
            let l3 = p3 + d;
            lemma_line_no_newline(p3, d);
            assert(tail =~= l3 + seq!['\n'] + Seq::<char>::empty());
            crate::text::lemma_split_lines_cons(l3, Seq::<char>::empty());
            assert(strip_cr_id(l3)) by {
                assert(l3.last() == d.last());
                crate::text::lemma_trimmed_plain_last(d);
            }
            assert(split_lines(text) =~= seq![l1, l2, l3]);
        },
        None => {
            assert(split_lines(text) =~= seq![l1, l2]);
        },
    }
}

#[verifier::rlimit(50)]
#[verifier::spinoff_prover]
proof fn lemma_marker_scan(m: MarkerFields)
    requires
        is_marker_value(m.1),
        m.2 matches Some(d) ==> is_marker_value(d),
    ensures
        scan_lines(marker_lines(m)) == (Some(m.0), Some(m.1), m.2),
{
    reveal_strlit("requested=");
    reveal_strlit("resolved=");
    reveal_strlit("cache_dir=");
    lemma_request_text(m.0);
    let p1 = "requested="@;
    let p2 = "resolved="@;
    let p3 = "cache_dir="@;
    let l1 = p1 + request_text(m.0);
    let l2 = p2 + m.1;
    assert(l1.skip(10) =~= request_text(m.0));
    assert(crate::text::has_prefix(l1, p1)) by {
        assert(l1.subrange(0, 10) =~= p1);
    }
    assert(!crate::text::has_prefix(l2, p1)) by {
        if l2.len() >= 10 {
            assert(l2.subrange(0, 10)[2] != p1[2]);
        }
    }
    assert(crate::text::has_prefix(l2, p2)) by {
        assert(l2.subrange(0, 9) =~= p2);
    }
    assert(l2.skip(9) =~= m.1);
    let st1 = scan_line((None, None, None), l1);
    assert(st1 == (Some(m.0), None::<Seq<char>>, None::<Seq<char>>));
    let st2 = scan_line(st1, l2);
    assert(st2 == (Some(m.0), Some(m.1), None::<Seq<char>>));
    assert(seq![l1, l2].drop_last() =~= seq![l1]);
    assert(seq![l1].drop_last() =~= Seq::<Seq<char>>::empty());
    assert(scan_lines(Seq::<Seq<char>>::empty()) == (None::<MarkerRequest>, None::<Seq<char>>, None::<Seq<char>>));
    assert(scan_lines(seq![l1]) == st1);
    assert(scan_lines(seq![l1, l2]) == st2);
    match m.2 {
        Some(d) => {
            let l3 = p3 + d;
            assert(!crate::text::has_prefix(l3, p1)) by {
                assert(l3.subrange(0, 10)[0] != p1[0]);
            }
            assert(!crate::text::has_prefix(l3, p2)) by {
                assert(l3.subrange(0, 9)[0] != p2[0]);
            }
            assert(crate::text::has_prefix(l3, p3)) by {
                assert(l3.subrange(0, 10) =~= p3);
            }
            assert(l3.skip(10) =~= d);
            assert(seq![l1, l2, l3].drop_last() =~= seq![l1, l2]);
            assert(scan_line(st2, l3) == (Some(m.0), Some(m.1), Some(d)));
            assert(scan_lines(seq![l1, l2, l3]) == scan_line(st2, l3));
        },
        None => {},
    }
}

/// Reading the text of a marker whose tag and cache directory are marker
/// values gives back that marker.
pub proof fn lemma_marker_roundtrip(m: MarkerFields)
    requires
        is_marker_value(m.1),
        m.2 matches Some(d) ==> is_marker_value(d),
    ensures
        parse_marker(marker_text(m)) == Some(m),
{
    reveal_strlit("requested=");
    let text = marker_text(m);
    assert(text[0] == 'r');
    crate::text::lemma_leading_ws_index(text, 0);
    crate::text::lemma_trailing_ws_bound(text);
    assert(crate::text::trailing_ws(text) < text.len()) by {
        if crate::text::trailing_ws(text) >= text.len() {
            assert(crate::text::is_white_space(text[0]));
        }
    }
    lemma_marker_text_lines(m);
    lemma_marker_scan(m);
}

/// A line's carriage-return stripping leaves it unchanged.
pub open spec fn strip_cr_id(l: Seq<char>) -> bool {
    crate::text::strip_cr(l) == l
}

// ---------------------------------------------------------------------------
// Whether a cached dataset is current
// ---------------------------------------------------------------------------

/// Whether a cached dataset can be used as it is.
#[derive(Debug, Clone)]
pub enum CacheState {
    /// The cached dataset is current.
    Fresh,
    /// The cached dataset must be downloaded again; the tag it should have,
    /// when known.
    Stale { resolved_tag: Option<String> },
}

/// Whether judging the cache needs the tag the latest release currently
/// resolves to: only for the latest release over a marker that also
/// records the latest release.
pub fn needs_latest_tag(release: &DatasetRelease, marker: &Option<ReleaseMarker>) -> (r: bool)
    ensures
        r == (release is Latest && (match marker {
            Some(m) => m.requested == MarkerRequest::Latest,
            None => false,
        })),
{
    match (release, marker) {
        (DatasetRelease::Latest, Some(m)) => m.requested == MarkerRequest::Latest,
        _ => false,
    }
}

/// Judge a cached dataset by its release marker.
///
/// For a tagged release the dataset is current when the marker records
/// that tag. For the latest release it is current when the marker records a
/// latest request resolved to the tag the latest release has now
/// (`current_latest`); when that tag could not be learned (`None`) the cached
/// dataset is taken as current.
pub fn evaluate_cache_state(release: &DatasetRelease, marker: &Option<ReleaseMarker>, current_latest: &Option<String>) -> (r: CacheState)
    ensures
        match release {
            DatasetRelease::Tag(expected) => match marker {
                Some(m) if m.resolved_tag@ == expected@ => r is Fresh,
                _ => r matches CacheState::Stale { resolved_tag: Some(t) } && t@ == expected@,
            },
            DatasetRelease::Latest => match marker {
                Some(m) if m.requested == MarkerRequest::Latest => match current_latest {
                    Some(cur) => if m.resolved_tag@ == cur@ {
                        r is Fresh
                    } else {
                        r matches CacheState::Stale { resolved_tag: Some(t) } && t@ == cur@
                    },
                    None => r is Fresh,
                },
                _ => r matches CacheState::Stale { resolved_tag: None },
            },
        },
{
    match release {
        DatasetRelease::Latest => match marker {
            Some(m) => {
                if m.requested == MarkerRequest::Latest {
                    match current_latest {
                        Some(cur) => {
                            if m.resolved_tag == *cur {
                                CacheState::Fresh
                            } else {
                                CacheState::Stale { resolved_tag: Some(cur.clone()) }
                            }
                        },
                        None => CacheState::Fresh,
                    }
                } else {
                    CacheState::Stale { resolved_tag: None }
                }
            },
            None => CacheState::Stale { resolved_tag: None },
        },
        DatasetRelease::Tag(expected) => match marker {
            Some(m) => {
                if m.resolved_tag == *expected {
                    CacheState::Fresh
                } else {
                    CacheState::Stale { resolved_tag: Some(expected.clone()) }
                }
            },
            None => CacheState::Stale { resolved_tag: Some(expected.clone()) },
        },
    }
}

} // verus!
