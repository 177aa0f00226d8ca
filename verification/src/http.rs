//! Rules of the HTTP layer that do not depend on the server framework:
//! conditional requests, bearer tokens, rate limiting and frontend asset paths.

use vstd::prelude::*;
use crate::config::absolutized;
use crate::domain::{ErrorCode, ServiceError, STATUS_UNAUTHORIZED};
use crate::text::{
    chars_of, contains_seq, join_chars, joined, lemma_split_joined, split_chars, split_on, starts_with, string_of,
    trim_chars, trim_spec, trim_str, CharClass,
};
use crate::trusted::{guess_mime, guessed_mime, opt_string_view};

verus! {

/// Content Security Policy of entry documents.
pub const ENTRY_CSP: &'static str = "default-src 'none'; script-src 'unsafe-inline'; img-src 'self' data: blob:; media-src 'self' data:; style-src 'self' 'unsafe-inline'; font-src 'self' data:; frame-ancestors 'self'; base-uri 'none'; form-action 'none'; connect-src 'none'";

/// Whether an `If-None-Match` header value names `etag` (or `*`) among its
/// comma-separated candidates.
pub open spec fn etag_listed(if_none_match: Seq<char>, etag: Seq<char>) -> bool {
    let parts = split_on(if_none_match, ',');
    exists|k: int| 0 <= k < parts.len() && ({
        let c = trim_spec(#[trigger] parts[k], CharClass::Whitespace);
        c == etag || c == "*"@
    })
}

/// A request whose `If-None-Match` lists candidates separated by commas
/// holds the tag when any one of them, wherever it stands in the list, is
/// the tag or `*` once trimmed of whitespace.
pub proof fn law_any_listed_candidate_matches(candidates: Seq<Seq<char>>, etag: Seq<char>, k: int)
    requires
        0 <= k < candidates.len(),
        forall|i: int| 0 <= i < candidates.len() ==> !(#[trigger] candidates[i]).contains(','),
        trim_spec(candidates[k], CharClass::Whitespace) == etag || trim_spec(candidates[k], CharClass::Whitespace) == "*"@,
    ensures
        etag_listed(joined(candidates, seq![',']), etag),
{
    lemma_split_joined(candidates, ',');
    let parts = split_on(joined(candidates, seq![',']), ',');
    assert(parts[k] == candidates[k]);
}

pub fn etag_matches(if_none_match: &str, etag: &str) -> (b: bool)
    ensures
        b == etag_listed(if_none_match@, etag@),
{
    let h = chars_of(if_none_match);
    let parts = split_chars(&h, ',');
    let e = chars_of(etag);
    let star = chars_of("*");
    let mut k: usize = 0;
    while k < parts.len()
        invariant
            k <= parts@.len(),
            parts@.len() == split_on(if_none_match@, ',').len(),
            forall|i: int| 0 <= i < parts@.len() ==> #[trigger] parts@[i]@ == split_on(if_none_match@, ',')[i],
            e@ == etag@,
            star@ == "*"@,
            forall|i: int| 0 <= i < k ==> !({
                let c = trim_spec(#[trigger] split_on(if_none_match@, ',')[i], CharClass::Whitespace);
                c == etag@ || c == "*"@
            }),
        decreases parts@.len() - k,
    {
        let c = trim_chars(&parts[k], CharClass::Whitespace);
        if crate::text::compare_chars(&c, &e) == 0 || crate::text::compare_chars(&c, &star) == 0 {
            assert(parts@[k as int]@ == split_on(if_none_match@, ',')[k as int]);
            return true;
        }
        k += 1;
    }
    false
}

/// The token of an `Authorization: Bearer <token>` header, trimmed.
pub open spec fn bearer_of(header: Option<Seq<char>>) -> Option<Seq<char>> {
    match header {
        Some(h) => if "Bearer "@.is_prefix_of(h) {
            Some(trim_spec(h.skip("Bearer "@.len() as int), CharClass::Whitespace))
        } else {
            None
        },
        None => None,
    }
}

pub fn bearer_token(header: Option<&str>) -> (r: Option<String>)
    ensures
        opt_string_view(r) == bearer_of(match header { Some(h) => Some(h@), None => None }),
{
    let h = match header {
        Some(h) => chars_of(h),
        None => {
            return None;
        },
    };
    let prefix = chars_of("Bearer ");
    if !starts_with(&h, &prefix) {
        return None;
    }
    let mut rest: Vec<char> = Vec::new();
    let mut k = prefix.len();
    while k < h.len()
        invariant
            prefix@.len() <= k <= h@.len(),
            rest@ == h@.subrange(prefix@.len() as int, k as int),
        decreases h@.len() - k,
    {
        rest.push(h[k]);
        k += 1;
    }
    assert(rest@ == h@.skip(prefix@.len() as int));
    let t = trim_chars(&rest, CharClass::Whitespace);
    Some(string_of(&t))
}

/// Paths that belong to the API and are never served as frontend assets.
pub open spec fn is_reserved_route(path: Seq<char>) -> bool {
    path == "api"@ || "api/"@.is_prefix_of(path) || path == "healthz"@ || path == "readyz"@
        || path == "metrics"@ || "metrics/"@.is_prefix_of(path)
}

pub fn reserved_route_path(path: &str) -> (b: bool)
    ensures
        b == is_reserved_route(path@),
{
    let p = chars_of(path);
    let api_dir = chars_of("api/");
    let metrics_dir = chars_of("metrics/");
    let s = path.to_owned();
    s == "api".to_owned() || starts_with(&p, &api_dir) || s == "healthz".to_owned() || s
        == "readyz".to_owned() || s == "metrics".to_owned() || starts_with(&p, &metrics_dir)
}

/// The components kept from a relative path: empty and `.` pieces dropped.
pub open spec fn kept_components(parts: Seq<Seq<char>>) -> Seq<Seq<char>>
    decreases parts.len(),
{
    if parts.len() == 0 {
        seq![]
    } else {
        let k = kept_components(parts.drop_last());
        if parts.last().len() == 0 || parts.last() == "."@ {
            k
        } else {
            k.push(parts.last())
        }
    }
}

/// A request path read as a path inside the asset directory: rooted paths
/// and `..` are refused, `.` and empty components dropped, and an empty
/// result refused.
pub open spec fn sanitized_path(path: Seq<char>) -> Option<Seq<char>> {
    let parts = split_on(path, '/');
    if path.len() > 0 && path[0] == '/' {
        None
    } else if exists|k: int| 0 <= k < parts.len() && #[trigger] parts[k] == ".."@ {
        None
    } else {
        let kept = kept_components(parts);
        if kept.len() == 0 { None } else { Some(joined(kept, "/"@)) }
    }
}

pub fn sanitize_relative_path(path: &str) -> (r: Option<String>)
    ensures
        opt_string_view(r) == sanitized_path(path@),
{
    let p = chars_of(path);
    if p.len() > 0 && p[0] == '/' {
        return None;
    }
    let parts = split_chars(&p, '/');
    let ghost pv = split_on(path@, '/');
    let dot = chars_of(".");
    let dotdot = chars_of("..");
    let mut kept: Vec<Vec<char>> = Vec::new();
    let mut k: usize = 0;
    #[verifier::loop_isolation(false)]
    while k < parts.len()
        invariant
            k <= parts@.len(),
            parts@.len() == pv.len(),
            forall|i: int| 0 <= i < parts@.len() ==> #[trigger] parts@[i]@ == pv[i],
            dot@ == "."@,
            dotdot@ == ".."@,
            forall|i: int| 0 <= i < k ==> pv[i] != ".."@,
            kept@.map_values(|v: Vec<char>| v@) == kept_components(pv.take(k as int)),
        decreases parts@.len() - k,
    {
        proof {
            assert(pv.take(k + 1).drop_last() =~= pv.take(k as int));
            assert(pv.take(k + 1).last() == pv[k as int]);
            assert(parts@[k as int]@ == pv[k as int]);
        }
        if crate::text::compare_chars(&parts[k], &dotdot) == 0 {
            assert(pv[k as int] == ".."@);
            return None;
        }
        if parts[k].len() == 0 || crate::text::compare_chars(&parts[k], &dot) == 0 {
        } else {
            let ghost before = kept@.map_values(|v: Vec<char>| v@);
            kept.push(parts[k].clone());
            assert(kept@.map_values(|v: Vec<char>| v@) =~= before.push(pv[k as int]));
        }
        k += 1;
    }
    assert(pv.take(parts@.len() as int) =~= pv);
    if kept.len() == 0 {
        return None;
    }
    let slash = chars_of("/");
    let j = join_chars(&kept, &slash);
    Some(string_of(&j))
}

/// Whether the last file name component of `path` has an extension (a `.`
/// after its first character), as `Path::extension` reports.
pub open spec fn has_extension(path: Seq<char>) -> bool {
    let kept = kept_components(split_on(path, '/'));
    kept.len() > 0 && kept.last() != ".."@ && exists|i: int| 0 < i < kept.last().len() && kept.last()[i] == '.'
}

pub fn path_has_extension(path: &str) -> (b: bool)
    ensures
        b == has_extension(path@),
{
    let p = chars_of(path);
    let parts = split_chars(&p, '/');
    let ghost pv = split_on(path@, '/');
    let dot = chars_of(".");
    let mut last: Vec<char> = Vec::new();
    let mut any = false;
    let mut k: usize = 0;
    while k < parts.len()
        invariant
            k <= parts@.len(),
            parts@.len() == pv.len(),
            forall|i: int| 0 <= i < parts@.len() ==> #[trigger] parts@[i]@ == pv[i],
            dot@ == "."@,
            any == (kept_components(pv.take(k as int)).len() > 0),
            any ==> last@ == kept_components(pv.take(k as int)).last(),
        decreases parts@.len() - k,
    {
        proof {
            assert(pv.take(k + 1).drop_last() =~= pv.take(k as int));
            assert(pv.take(k + 1).last() == pv[k as int]);
            assert(parts@[k as int]@ == pv[k as int]);
        }
        if !(parts[k].len() == 0 || crate::text::compare_chars(&parts[k], &dot) == 0) {
            last = parts[k].clone();
            any = true;
        }
        k += 1;
    }
    assert(pv.take(parts@.len() as int) =~= pv);
    if !any {
        return false;
    }
    let dotdot = chars_of("..");
    if crate::text::compare_chars(&last, &dotdot) == 0 {
        return false;
    }
    let mut i: usize = 1;
    #[verifier::loop_isolation(false)]
    while i < last.len()
        invariant
            1 <= i <= last@.len() || (i == 1 && last@.len() == 0),
            forall|j: int| 0 < j < i && j < last@.len() ==> last@[j] != '.',
        decreases last@.len() - i,
    {
        if last[i] == '.' {
            return true;
        }
        i += 1;
    }
    false
}

/// A built frontend: the directory that holds `index.html` and its assets.
#[derive(Debug, Clone, PartialEq, Eq)]
pub struct FrontendAssets {
    pub dist_dir: String,
}

/// A file to answer a frontend request with, and whether it is the index page.
#[derive(Debug, Clone, PartialEq, Eq)]
pub struct FrontendAssetPath {
    pub path: String,
    pub is_index: bool,
}

impl FrontendAssets {
    /// Frontend assets in `dist_dir`, when that directory holds `index.html`.
    pub fn new(dist_dir: String, has_index_html: bool) -> (r: Option<Self>)
        ensures
            has_index_html ==> (r matches Some(f) && f.dist_dir == dist_dir),
            !has_index_html ==> r is None,
    {
        if has_index_html {
            Some(FrontendAssets { dist_dir })
        } else {
            None
        }
    }

    pub fn index_path(&self) -> (r: String)
        ensures
            r@ == absolutized(self.dist_dir@, "index.html"@),
    {
        crate::config::absolutize(self.dist_dir.as_str(), "index.html")
    }

    /// The file that a request for `path` would be served from, if its path is acceptable.
    pub fn candidate_file(&self, path: &str) -> (r: Option<String>)
        ensures
            match sanitized_path(path@) {
                Some(rel) => r matches Some(c) && c@ == absolutized(self.dist_dir@, rel),
                None => r is None,
            },
    {
        match sanitize_relative_path(path) {
            Some(rel) => Some(crate::config::absolutize(self.dist_dir.as_str(), rel.as_str())),
            None => None,
        }
    }

    /// Where a frontend request for `path` is answered from: the index page
    /// for the root, the requested file when it exists (`candidate_is_file`),
    /// the index page for an extension-less client route, and nothing otherwise.
    pub fn resolve_asset(&self, path: Option<&str>, candidate_is_file: bool) -> (r: Option<FrontendAssetPath>)
        ensures
            match path {
                None => r matches Some(a) && a.is_index && a.path@ == absolutized(self.dist_dir@, "index.html"@),
                Some(p) => if p@.len() == 0 {
                    r matches Some(a) && a.is_index && a.path@ == absolutized(self.dist_dir@, "index.html"@)
                } else {
                    match sanitized_path(p@) {
                        None => r is None,
                        Some(rel) => if candidate_is_file {
                            r matches Some(a) && !a.is_index && a.path@ == absolutized(self.dist_dir@, rel)
                        } else if !has_extension(p@) {
                            r matches Some(a) && a.is_index && a.path@ == absolutized(self.dist_dir@, "index.html"@)
                        } else {
                            r is None
                        },
                    }
                },
            },
    {
        let p = match path {
            Some(p) => p,
            None => {
                return Some(FrontendAssetPath { path: self.index_path(), is_index: true });
            },
        };
        if p.is_empty() {
            return Some(FrontendAssetPath { path: self.index_path(), is_index: true });
        }
        let candidate = match self.candidate_file(p) {
            Some(c) => c,
            None => {
                return None;
            },
        };
        if candidate_is_file {
            return Some(FrontendAssetPath { path: candidate, is_index: false });
        }
        if !path_has_extension(p) {
            Some(FrontendAssetPath { path: self.index_path(), is_index: true })
        } else {
            None
        }
    }
}

/// `Content-Type` of a frontend file: HTML for the index page, otherwise by extension.
pub fn asset_content_type(path: &str, is_index: bool) -> (r: String)
    ensures
        r@ == if is_index { "text/html; charset=utf-8"@ } else { guessed_mime(path@) },
{
    if is_index {
        "text/html; charset=utf-8".to_owned()
    } else {
        guess_mime(path)
    }
}

/// `Cache-Control` of a frontend file: the index page is revalidated, hashed
/// build assets are immutable, other files are cached for an hour.
pub fn asset_cache_control(path: Option<&str>, is_index: bool) -> (r: &'static str)
    ensures
        r@ == if is_index {
            "no-cache"@
        } else if (match path { Some(p) => "assets/"@.is_prefix_of(p@), None => false }) {
            "public, max-age=31536000, immutable"@
        } else {
            "public, max-age=3600"@
        },
{
    if is_index {
        return "no-cache";
    }
    match path {
        Some(p) => {
            let pc = chars_of(p);
            let assets = chars_of("assets/");
            if starts_with(&pc, &assets) {
                return "public, max-age=31536000, immutable";
            }
        },
        None => {},
    }
    "public, max-age=3600"
}

/// A one-second request window: when it started (milliseconds on a
/// monotonic clock) and how many requests it has let through.
#[derive(Debug, Clone, Copy, PartialEq, Eq)]
pub struct RateWindow {
    pub window_started_at: u64,
    pub count: u64,
}

/// The window after a request at `now_millis` under `limit` requests per
/// second (0: no limit), and whether the request is let through.
pub open spec fn rate_step(w: RateWindow, now_millis: u64, limit: u64) -> (RateWindow, bool) {
    if limit == 0 {
        (w, true)
    } else {
        let restarted = now_millis >= w.window_started_at && now_millis - w.window_started_at >= 1000;
        let start = if restarted { now_millis } else { w.window_started_at };
        let count = if restarted { 0 } else { w.count };
        if count < limit {
            (RateWindow { window_started_at: start, count: (count + 1) as u64 }, true)
        } else {
            (RateWindow { window_started_at: start, count }, false)
        }
    }
}

/// How many of the requests at `times` a window lets through, in order.
pub open spec fn let_through_count(w: RateWindow, times: Seq<u64>, limit: u64) -> nat
    decreases times.len(),
{
    if times.len() == 0 {
        0
    } else {
        let (next, ok) = rate_step(w, times[0], limit);
        let_through_count(next, times.drop_first(), limit) + if ok { 1nat } else { 0nat }
    }
}

/// Whether each of the requests at `times` is let through, in order.
pub open spec fn rate_outcomes(w: RateWindow, times: Seq<u64>, limit: u64) -> Seq<bool>
    decreases times.len(),
{
    if times.len() == 0 {
        seq![]
    } else {
        let (next, ok) = rate_step(w, times[0], limit);
        seq![ok] + rate_outcomes(next, times.drop_first(), limit)
    }
}

/// Within one window (no request a second or more after it started), the
/// requests are let through exactly while the limit leaves room: the first
/// `limit - count` pass, every later one is refused.
pub proof fn law_rate_window_lets_through_first_calls(w: RateWindow, times: Seq<u64>, limit: u64)
    requires
        limit > 0,
        w.count <= limit,
        forall|k: int| 0 <= k < times.len() ==> !(times[k] >= w.window_started_at && times[k] - w.window_started_at >= 1000),
    ensures
        rate_outcomes(w, times, limit).len() == times.len(),
        forall|k: int| 0 <= k < times.len() ==> #[trigger] rate_outcomes(w, times, limit)[k] == (k < limit - w.count),
        forall|k: int| 0 <= k < times.len() && k >= limit - w.count ==> !#[trigger] rate_outcomes(w, times, limit)[k],
        let_through_count(w, times, limit) == if times.len() <= limit - w.count { times.len() as int } else { limit - w.count },
    decreases times.len(),
{
    if times.len() > 0 {
        let (next, ok) = rate_step(w, times[0], limit);
        assert(next.window_started_at == w.window_started_at);
        assert forall|k: int| 0 <= k < times.drop_first().len() implies !(times.drop_first()[k] >= next.window_started_at
            && times.drop_first()[k] - next.window_started_at >= 1000) by {
            assert(times.drop_first()[k] == times[k + 1]);
        }
        law_rate_window_lets_through_first_calls(next, times.drop_first(), limit);
        let rest = rate_outcomes(next, times.drop_first(), limit);
        assert forall|k: int| 0 <= k < times.len() implies #[trigger] rate_outcomes(w, times, limit)[k] == (k < limit - w.count) by {
            if k > 0 {
                assert(rate_outcomes(w, times, limit)[k] == rest[k - 1]);
            }
        }
    }
}

/// Without a limit every request is let through and the window is untouched.
pub proof fn law_rate_unlimited_lets_everything_through(w: RateWindow, times: Seq<u64>)
    ensures
        rate_outcomes(w, times, 0).len() == times.len(),
        forall|k: int| 0 <= k < times.len() ==> #[trigger] rate_outcomes(w, times, 0)[k],
    decreases times.len(),
{
    if times.len() > 0 {
        law_rate_unlimited_lets_everything_through(w, times.drop_first());
        let rest = rate_outcomes(w, times.drop_first(), 0);
        assert forall|k: int| 0 <= k < times.len() implies #[trigger] rate_outcomes(w, times, 0)[k] by {
            if k > 0 {
                assert(rate_outcomes(w, times, 0)[k] == rest[k - 1]);
            }
        }
    }
}

impl RateWindow {
    pub fn new(now_millis: u64) -> (w: Self)
        ensures
            w.window_started_at == now_millis,
            w.count == 0,
    {
        RateWindow { window_started_at: now_millis, count: 0 }
    }

    /// Whether a request at `now_millis` is let through under `limit`
    /// requests per second (0: no limit). A window older than a second is
    /// restarted at `now_millis`.
    pub fn allow(&mut self, now_millis: u64, limit: u64) -> (b: bool)
        ensures
            (*final(self), b) == rate_step(*old(self), now_millis, limit),
            limit == 0 ==> b && *final(self) == *old(self),
            limit > 0 ==> {
                let restarted = now_millis >= old(self).window_started_at && now_millis - old(self).window_started_at >= 1000;
                let start = if restarted { now_millis } else { old(self).window_started_at };
                let count = if restarted { 0 } else { old(self).count };
                &&& final(self).window_started_at == start
                &&& b == (count < limit)
                &&& final(self).count == if count < limit { count + 1 } else { count as int }
            },
    {
        if limit == 0 {
            return true;
        }
        if now_millis >= self.window_started_at && now_millis - self.window_started_at >= 1000 {
            self.window_started_at = now_millis;
            self.count = 0;
        }
        if self.count >= limit {
            return false;
        }
        self.count = self.count + 1;
        true
    }
}

proof fn lemma_split_on_free(s: Seq<char>, c: char)
    ensures
        forall|i: int| 0 <= i < split_on(s, c).len() ==> !(#[trigger] split_on(s, c)[i]).contains(c),
    decreases s.len(),
{
    if s.len() > 0 {
        lemma_split_on_free(s.drop_last(), c);
        crate::text::lemma_split_on_nonempty(s.drop_last(), c);
        let rest = split_on(s.drop_last(), c);
        if s.last() != c {
            let last = rest.last().push(s.last());
            assert(!rest[rest.len() - 1].contains(c));
            assert(!last.contains(c)) by {
                if last.contains(c) {
                    let k = choose|k: int| 0 <= k < last.len() && last[k] == c;
                    if k < last.len() - 1 {
                        assert(rest.last()[k] == c);
                    }
                }
            }
        }
    }
}

proof fn lemma_kept_components_from(parts: Seq<Seq<char>>)
    ensures
        forall|i: int| 0 <= i < kept_components(parts).len() ==> {
            &&& (#[trigger] kept_components(parts)[i]).len() > 0
            &&& kept_components(parts)[i] != "."@
            &&& parts.contains(kept_components(parts)[i])
        },
    decreases parts.len(),
{
    if parts.len() > 0 {
        lemma_kept_components_from(parts.drop_last());
        let k = kept_components(parts.drop_last());
        assert forall|i: int| 0 <= i < kept_components(parts).len() implies {
            &&& (#[trigger] kept_components(parts)[i]).len() > 0
            &&& kept_components(parts)[i] != "."@
            &&& parts.contains(kept_components(parts)[i])
        } by {
            if i < k.len() {
                assert(kept_components(parts)[i] == k[i]);
                let m = choose|m: int| 0 <= m < parts.drop_last().len() && parts.drop_last()[m] == k[i];
                assert(parts[m] == k[i]);
            } else {
                assert(kept_components(parts)[i] == parts.last());
                assert(parts[parts.len() - 1] == parts.last());
            }
        }
    }
}

/// A sanitized asset path stays inside the asset directory: it is made of
/// non-empty components joined by `/`, none of which is `.` or `..` or
/// holds a `/`.
pub proof fn law_sanitized_path_stays_inside(path: Seq<char>)
    ensures
        sanitized_path(path) matches Some(r) ==> exists|parts: Seq<Seq<char>>| {
            &&& r == joined(parts, "/"@)
            &&& parts.len() > 0
            &&& forall|i: int| 0 <= i < parts.len() ==> {
                &&& (#[trigger] parts[i]).len() > 0
                &&& parts[i] != "."@
                &&& parts[i] != ".."@
                &&& !parts[i].contains('/')
            }
        },
{
    let parts = split_on(path, '/');
    if let Some(r) = sanitized_path(path) {
        let kept = kept_components(parts);
        lemma_split_on_free(path, '/');
        lemma_kept_components_from(parts);
        assert forall|i: int| 0 <= i < kept.len() implies {
            &&& (#[trigger] kept[i]).len() > 0
            &&& kept[i] != "."@
            &&& kept[i] != ".."@
            &&& !kept[i].contains('/')
        } by {
            let m = choose|m: int| 0 <= m < parts.len() && parts[m] == kept[i];
            assert(parts[m] != ".."@);
        }
    }
}

/// Whether an admin request may reload the service: reloading must be
/// configured with a token, and the request must carry it as its bearer token.
pub fn authorize_reload(expected_token: Option<&str>, authorization: Option<&str>) -> (r: Result<(), ServiceError>)
    ensures
        match expected_token {
            None => r matches Err(e) && e.is(STATUS_UNAUTHORIZED, ErrorCode::Unauthorized, "admin reload is not configured"@),
            Some(t) => if bearer_of(match authorization { Some(h) => Some(h@), None => None }) == Some(t@) {
                r is Ok
            } else {
                r matches Err(e) && e.is(STATUS_UNAUTHORIZED, ErrorCode::Unauthorized, "invalid admin token"@)
            },
        },
{
    let expected = match expected_token {
        Some(t) => t,
        None => {
            return Err(ServiceError::unauthorized("admin reload is not configured".to_owned()));
        },
    };
    match bearer_token(authorization) {
        Some(token) => {
            if token == expected.to_owned() {
                Ok(())
            } else {
                Err(ServiceError::unauthorized("invalid admin token".to_owned()))
            }
        },
        None => Err(ServiceError::unauthorized("invalid admin token".to_owned())),
    }
}

proof fn lemma_split_on_without_separator(s: Seq<char>, c: char)
    requires
        !s.contains(c),
    ensures
        split_on(s, c) == seq![s],
    decreases s.len(),
{
    if s.len() > 0 {
        assert(!s.drop_last().contains(c)) by {
            if s.drop_last().contains(c) {
                let k = choose|k: int| 0 <= k < s.drop_last().len() && s.drop_last()[k] == c;
                assert(s[k] == c);
            }
        }
        lemma_split_on_without_separator(s.drop_last(), c);
        assert(s.last() != c) by {
            assert(s[s.len() - 1] == s.last());
        }
        assert(s.drop_last().push(s.last()) =~= s);
        assert(split_on(s, c) =~= seq![s]);
    } else {
        assert(s =~= Seq::<char>::empty());
    }
}

/// A request that sends back the entity tag it was given (a tag without
/// commas or surrounding whitespace, as the service's tags are) is answered
/// as not modified.
pub proof fn law_etag_matches_itself(etag: Seq<char>)
    requires
        !etag.contains(','),
        trim_spec(etag, CharClass::Whitespace) == etag,
    ensures
        etag_listed(etag, etag),
{
    lemma_split_on_without_separator(etag, ',');
    assert(split_on(etag, ',')[0] == etag);
}

} // verus!
