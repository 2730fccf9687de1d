//! Request classification for the dashboard server: metric path labels and
//! rate-limit tiers.
use vstd::prelude::*;
use crate::search::block::{json_string_of, push_json_string};
use crate::text::{chars_vec, chars_eq, chars_starts_with, has_prefix, all_digits, is_digit,
    string_from_chars};

pub mod contribute;
pub mod coordinator;
pub mod export;
pub mod health;
pub mod routes_agents;
pub mod routes_audit;
pub mod routes_releases;

verus! {

/// Number of UTF-8 bytes that encode `c`.
pub open spec fn utf8_len(c: char) -> nat {
    if (c as u32) < 0x80 {
        1
    } else if (c as u32) < 0x800 {
        2
    } else if (c as u32) < 0x10000 {
        3
    } else {
        4
    }
}

/// Length in UTF-8 bytes of a character sequence.
pub open spec fn byte_len(s: Seq<char>) -> nat
    decreases s.len(),
{
    if s.len() == 0 { 0 } else { byte_len(s.drop_last()) + utf8_len(s.last()) }
}

/// Number of `-` characters in `s`.
pub open spec fn dash_count(s: Seq<char>) -> nat
    decreases s.len(),
{
    if s.len() == 0 {
        0
    } else {
        dash_count(s.drop_last()) + (if s.last() == '-' { 1nat } else { 0nat })
    }
}

/// The metric label of one path segment: numeric ids become `:id`, 36-byte
/// segments with four dashes (UUIDs) become `:uuid`, everything else is kept.
pub open spec fn norm_segment(seg: Seq<char>) -> Seq<char> {
    if seg.len() == 0 {
        seg
    } else if all_digits(seg) {
        ":id"@
    } else if byte_len(seg) == 36 && dash_count(seg) == 4 {
        ":uuid"@
    } else {
        seg
    }
}

/// Index of the first `/` in `s`, or -1.
pub open spec fn first_slash(s: Seq<char>) -> int
    decreases s.len(),
{
    if s.len() == 0 {
        -1
    } else if s[0] == '/' {
        0
    } else {
        let r = first_slash(s.drop_first());
        if r < 0 { -1 } else { r + 1 }
    }
}

pub proof fn lemma_first_slash_bound(s: Seq<char>)
    ensures
        -1 <= first_slash(s) < s.len(),
        first_slash(s) >= 0 ==> s[first_slash(s)] == '/',
    decreases s.len(),
{
    if s.len() > 0 && s[0] != '/' {
        lemma_first_slash_bound(s.drop_first());
    }
}

proof fn lemma_first_slash_at(s: Seq<char>, k: int)
    requires
        0 <= k < s.len(),
        s[k] == '/',
        forall|j: int| 0 <= j < k ==> s[j] != '/',
    ensures
        first_slash(s) == k,
    decreases k,
{
    if k > 0 {
        lemma_first_slash_at(s.drop_first(), k - 1);
    }
}

proof fn lemma_first_slash_none(s: Seq<char>)
    requires
        forall|j: int| 0 <= j < s.len() ==> s[j] != '/',
    ensures
        first_slash(s) == -1,
    decreases s.len(),
{
    if s.len() > 0 {
        lemma_first_slash_none(s.drop_first());
    }
}

/// A path with every `/`-separated segment replaced by its metric label.
pub open spec fn normalized_path(s: Seq<char>) -> Seq<char>
    decreases s.len(),
{
    let k = first_slash(s);
    if k < 0 {
        norm_segment(s)
    } else {
        proof {
            lemma_first_slash_bound(s);
        }
        norm_segment(s.subrange(0, k)) + seq!['/'] + normalized_path(s.subrange(k + 1, s.len() as int))
    }
}

/// Whether every character of `cs` is an ASCII digit.
fn all_ascii_digits(cs: &[char]) -> (r: bool)
    ensures
        r == all_digits(cs@),
{
    let mut i: usize = 0;
    while i < cs.len()
        invariant
            i <= cs@.len(),
            forall|j: int| 0 <= j < i ==> is_digit(#[trigger] cs@[j]),
        decreases cs@.len() - i,
    {
        if !('0' <= cs[i] && cs[i] <= '9') {
            assert(!is_digit(cs@[i as int]));
            return false;
        }
        i = i + 1;
    }
    true
}

/// Whether the segment is 36 UTF-8 bytes long and holds exactly four dashes.
fn looks_like_uuid(cs: &[char]) -> (r: bool)
    ensures
        r == (byte_len(cs@) == 36 && dash_count(cs@) == 4),
{
    let mut bytes: u64 = 0;
    let mut dashes: u64 = 0;
    let mut i: usize = 0;
    while i < cs.len()
        invariant
            i <= cs@.len(),
            bytes == (if byte_len(cs@.subrange(0, i as int)) > 36 { 37 } else {
                byte_len(cs@.subrange(0, i as int))
            }),
            dashes == dash_count(cs@.subrange(0, i as int)),
            dashes <= i,
        decreases cs@.len() - i,
    {
        let c = cs[i];
        let v = c as u32;
        let w: u64 = if v < 0x80 { 1 } else if v < 0x800 { 2 } else if v < 0x10000 { 3 } else { 4 };
        assert(cs@.subrange(0, i + 1).drop_last() =~= cs@.subrange(0, i as int));
        let nb = bytes + w;
        bytes = if nb > 36 { 37 } else { nb };
        if c == '-' {
            dashes = dashes + 1;
        }
        i = i + 1;
    }
    assert(cs@.subrange(0, cs@.len() as int) =~= cs@);
    bytes == 36 && dashes == 4
}

/// The metric label of the segment `cs`, appended to `out`.
fn push_norm_segment(out: &mut Vec<char>, cs: &[char])
    ensures
        final(out)@ == old(out)@ + norm_segment(cs@),
{
    if cs.len() == 0 {
        assert(old(out)@ + cs@ =~= old(out)@);
    } else if all_ascii_digits(cs) {
        out.push(':');
        out.push('i');
        out.push('d');
        proof { reveal_strlit(":id"); }
        assert(final(out)@ =~= old(out)@ + ":id"@) by {
            assert(":id"@ =~= seq![':', 'i', 'd']);
        }
    } else if looks_like_uuid(cs) {
        out.push(':');
        out.push('u');
        out.push('u');
        out.push('i');
        out.push('d');
        proof { reveal_strlit(":uuid"); }
        assert(final(out)@ =~= old(out)@ + ":uuid"@) by {
            assert(":uuid"@ =~= seq![':', 'u', 'u', 'i', 'd']);
        }
    } else {
        let mut i: usize = 0;
        let ghost start = out@;
        while i < cs.len()
            invariant
                i <= cs@.len(),
                out@ == start + cs@.subrange(0, i as int),
            decreases cs@.len() - i,
        {
            out.push(cs[i]);
            assert(cs@.subrange(0, i + 1) =~= cs@.subrange(0, i as int).push(cs@[i as int]));
            i = i + 1;
        }
        assert(cs@.subrange(0, cs@.len() as int) =~= cs@);
    }
}

/// Normalize a URL path to collapse high-cardinality segments (UUIDs, numeric
/// ids) into placeholders, so metric labels stay bounded.
pub fn normalize_path(path: &str) -> (r: String)
    ensures
        r@ == normalized_path(path@),
{
    let cs = chars_vec(path);
    let n = cs.len();
    let mut out: Vec<char> = Vec::new();
    let mut seg: Vec<char> = Vec::new();
    let mut seg_start: usize = 0;
    let mut i: usize = 0;
    assert(cs@.subrange(0, n as int) =~= cs@);
    assert(out@ + normalized_path(cs@) =~= normalized_path(cs@));
    while i < n
        invariant
            n == cs@.len(),
            cs@ == path@,
            seg_start <= i <= n,
            seg@ == cs@.subrange(seg_start as int, i as int),
            forall|j: int| seg_start <= j < i ==> cs@[j] != '/',
            out@ + normalized_path(cs@.subrange(seg_start as int, n as int)) == normalized_path(cs@),
        decreases n - i,
    {
        if cs[i] == '/' {
            let ghost rest = cs@.subrange(seg_start as int, n as int);
            proof {
                lemma_first_slash_at(rest, i - seg_start);
                assert(rest.subrange(0, i - seg_start) =~= seg@);
                assert(rest.subrange(i - seg_start + 1, rest.len() as int)
                    =~= cs@.subrange(i + 1, n as int));
            }
            let ghost before = out@;
            push_norm_segment(&mut out, seg.as_slice());
            out.push('/');
            assert(out@ + normalized_path(cs@.subrange(i + 1, n as int))
                =~= before + normalized_path(rest));
            seg = Vec::new();
            seg_start = i + 1;
        } else {
            seg.push(cs[i]);
        }
        i = i + 1;
    }
    proof {
        let rest = cs@.subrange(seg_start as int, n as int);
        lemma_first_slash_none(rest);
        assert(rest =~= seg@);
    }
    push_norm_segment(&mut out, seg.as_slice());
    string_from_chars(out.as_slice())
}

/// A character sequence of n characters takes at most 4·n UTF-8 bytes.
proof fn lemma_byte_len_bound(s: Seq<char>)
    ensures
        byte_len(s) <= 4 * s.len(),
    decreases s.len(),
{
    if s.len() > 0 {
        lemma_byte_len_bound(s.drop_last());
    }
}

/// A segment label holds no `/` when the segment holds none, and labelling
/// it again changes nothing.
proof fn lemma_norm_segment_stable(seg: Seq<char>)
    requires
        forall|j: int| 0 <= j < seg.len() ==> seg[j] != '/',
    ensures
        forall|j: int| 0 <= j < norm_segment(seg).len() ==> norm_segment(seg)[j] != '/',
        norm_segment(norm_segment(seg)) == norm_segment(seg),
{
    reveal_strlit(":id");
    reveal_strlit(":uuid");
    let t = norm_segment(seg);
    if seg.len() > 0 && all_digits(seg) {
        assert(!is_digit(t[0]));
        lemma_byte_len_bound(t);
    } else if seg.len() > 0 && byte_len(seg) == 36 && dash_count(seg) == 4 {
        assert(!is_digit(t[0]));
        lemma_byte_len_bound(t);
    }
}

/// Normalizing a path that is already normalized gives it back unchanged:
/// the labels `:id` and `:uuid` are themselves kept as they are.
pub proof fn lemma_normalize_path_idempotent(s: Seq<char>)
    ensures
        normalized_path(normalized_path(s)) == normalized_path(s),
    decreases s.len(),
{
    let k = first_slash(s);
    lemma_first_slash_bound(s);
    if k < 0 {
        lemma_first_slash_none_inv(s);
        lemma_norm_segment_stable(s);
        lemma_first_slash_none(norm_segment(s));
    } else {
        let head = s.subrange(0, k);
        let rest = s.subrange(k + 1, s.len() as int);
        lemma_first_slash_prefix(s);
        lemma_norm_segment_stable(head);
        let a = norm_segment(head);
        let r = normalized_path(rest);
        let n = a + seq!['/'] + r;
        assert(normalized_path(s) == n);
        lemma_first_slash_at(n, a.len() as int);
        assert(n.subrange(0, a.len() as int) =~= a);
        assert(n.subrange(a.len() as int + 1, n.len() as int) =~= r);
        lemma_normalize_path_idempotent(rest);
    }
}

/// The `/`-separated segments of a path, empty ones included.
pub open spec fn path_segments(s: Seq<char>) -> Seq<Seq<char>>
    decreases s.len(),
{
    let k = first_slash(s);
    if k < 0 {
        seq![s]
    } else {
        proof {
            lemma_first_slash_bound(s);
        }
        seq![s.subrange(0, k)] + path_segments(s.subrange(k + 1, s.len() as int))
    }
}

/// A normalized path has the segments of the path, each replaced by its
/// label (`norm_segment`: the segment itself, `:id` or `:uuid`).
pub proof fn lemma_normalize_path_segments(s: Seq<char>)
    ensures
        path_segments(normalized_path(s)) == path_segments(s).map_values(|g: Seq<char>| norm_segment(g)),
    decreases s.len(),
{
    let k = first_slash(s);
    lemma_first_slash_bound(s);
    if k < 0 {
        lemma_first_slash_none_inv(s);
        lemma_norm_segment_stable(s);
        lemma_first_slash_none(norm_segment(s));
        assert(path_segments(s).map_values(|g: Seq<char>| norm_segment(g)) =~= seq![norm_segment(s)]);
    } else {
        let head = s.subrange(0, k);
        let rest = s.subrange(k + 1, s.len() as int);
        lemma_first_slash_prefix(s);
        lemma_norm_segment_stable(head);
        let a = norm_segment(head);
        let r = normalized_path(rest);
        let n = a + seq!['/'] + r;
        assert(normalized_path(s) == n);
        lemma_first_slash_at(n, a.len() as int);
        assert(n.subrange(0, a.len() as int) =~= a);
        assert(n.subrange(a.len() as int + 1, n.len() as int) =~= r);
        lemma_normalize_path_segments(rest);
        assert(path_segments(s).map_values(|g: Seq<char>| norm_segment(g))
            =~= seq![a] + path_segments(rest).map_values(|g: Seq<char>| norm_segment(g)));
    }
}

/// No `/` before the first one.
proof fn lemma_first_slash_prefix(s: Seq<char>)
    requires
        first_slash(s) >= 0,
    ensures
        forall|j: int| 0 <= j < first_slash(s) ==> s[j] != '/',
    decreases s.len(),
{
    if s.len() > 0 && s[0] != '/' {
        lemma_first_slash_prefix(s.drop_first());
        lemma_first_slash_bound(s.drop_first());
        assert forall|j: int| 0 <= j < first_slash(s) implies s[j] != '/' by {
            if j > 0 {
                assert(s[j] == s.drop_first()[j - 1]);
            }
        }
    }
}

/// No `/` at all when there is no first one.
proof fn lemma_first_slash_none_inv(s: Seq<char>)
    requires
        first_slash(s) < 0,
    ensures
        forall|j: int| 0 <= j < s.len() ==> s[j] != '/',
    decreases s.len(),
{
    if s.len() > 0 {
        lemma_first_slash_none_inv(s.drop_first());
        assert forall|j: int| 0 <= j < s.len() implies s[j] != '/' by {
            if j > 0 {
                assert(s[j] == s.drop_first()[j - 1]);
            }
        }
    }
}

/// HTTP request methods.
#[derive(Debug, Clone, Copy, PartialEq, Eq, Structural)]
pub enum HttpMethod {
    Get,
    Post,
    Put,
    Delete,
    Patch,
    Head,
    Options,
    Connect,
    Trace,
    Other,
}

/// Rate limit tiers; each maps to an independent token-bucket limiter.
#[derive(Debug, Clone, Copy, PartialEq, Eq, Structural)]
pub enum RateLimitTier {
    /// GET /api/primes/*, GET /api/stats/*, /healthz, /readyz, /metrics
    PublicRead,
    /// POST /api/v1/operators/register
    PublicWrite,
    /// /api/auth/* and POST /api/v1/operators/rotate-key
    Auth,
    /// /api/v1/nodes/heartbeat, /api/v1/nodes/work, /api/v1/nodes/result
    Operator,
    /// All other routes under /api/
    Admin,
    /// Everything else (static files, /ws, ...)
    Default,
}

/// The rate-limit tier of a request, by method and path.
pub open spec fn rate_tier(m: HttpMethod, p: Seq<char>) -> RateLimitTier {
    if m == HttpMethod::Get && (p == "/healthz"@ || p == "/readyz"@ || p == "/metrics"@) {
        RateLimitTier::PublicRead
    } else if m == HttpMethod::Get && (has_prefix(p, "/api/primes"@) || has_prefix(p, "/api/stats"@)) {
        RateLimitTier::PublicRead
    } else if m == HttpMethod::Post && (p == "/api/v1/operators/register"@ || p == "/api/v1/register"@) {
        RateLimitTier::PublicWrite
    } else if has_prefix(p, "/api/auth/"@) {
        RateLimitTier::Auth
    } else if m == HttpMethod::Post && p == "/api/v1/operators/rotate-key"@ {
        RateLimitTier::Auth
    } else if p == "/api/v1/nodes/heartbeat"@ || p == "/api/v1/nodes/work"@ || p == "/api/v1/nodes/result"@ {
        RateLimitTier::Operator
    } else if p == "/api/v1/worker/heartbeat"@ || p == "/api/v1/work"@ || p == "/api/v1/result"@ {
        RateLimitTier::Operator
    } else if has_prefix(p, "/api/"@) {
        RateLimitTier::Admin
    } else {
        RateLimitTier::Default
    }
}

fn is(cs: &[char], lit: &str) -> (r: bool)
    ensures
        r == (cs@ == lit@),
{
    let l = chars_vec(lit);
    chars_eq(cs, l.as_slice())
}

fn starts(cs: &[char], lit: &str) -> (r: bool)
    ensures
        r == has_prefix(cs@, lit@),
{
    let l = chars_vec(lit);
    chars_starts_with(cs, l.as_slice())
}

/// Classify an incoming request into a rate limit tier by method and path.
pub fn classify_rate_limit(method: HttpMethod, path: &str) -> (t: RateLimitTier)
    ensures
        t == rate_tier(method, path@),
{
    let p = chars_vec(path);
    let p = p.as_slice();
    let get = method == HttpMethod::Get;
    let post = method == HttpMethod::Post;
    if get && (is(p, "/healthz") || is(p, "/readyz") || is(p, "/metrics")) {
        RateLimitTier::PublicRead
    } else if get && (starts(p, "/api/primes") || starts(p, "/api/stats")) {
        RateLimitTier::PublicRead
    } else if post && (is(p, "/api/v1/operators/register") || is(p, "/api/v1/register")) {
        RateLimitTier::PublicWrite
    } else if starts(p, "/api/auth/") {
        RateLimitTier::Auth
    } else if post && is(p, "/api/v1/operators/rotate-key") {
        RateLimitTier::Auth
    } else if is(p, "/api/v1/nodes/heartbeat") || is(p, "/api/v1/nodes/work") || is(p, "/api/v1/nodes/result") {
        RateLimitTier::Operator
    } else if is(p, "/api/v1/worker/heartbeat") || is(p, "/api/v1/work") || is(p, "/api/v1/result") {
        RateLimitTier::Operator
    } else if starts(p, "/api/") {
        RateLimitTier::Admin
    } else {
        RateLimitTier::Default
    }
}

/// Unicode White_Space, the characters that `str::trim` strips.
pub open spec fn is_white_space(c: char) -> bool {
    let u = c as u32;
    ||| 0x09 <= u <= 0x0D
    ||| u == 0x20 || u == 0x85 || u == 0xA0 || u == 0x1680
    ||| 0x2000 <= u <= 0x200A
    ||| u == 0x2028 || u == 0x2029 || u == 0x202F || u == 0x205F || u == 0x3000
}

fn white_space(c: char) -> (r: bool)
    ensures
        r == is_white_space(c),
{
    let u = c as u32;
    (0x09 <= u && u <= 0x0D) || u == 0x20 || u == 0x85 || u == 0xA0 || u == 0x1680
        || (0x2000 <= u && u <= 0x200A) || u == 0x2028 || u == 0x2029 || u == 0x202F
        || u == 0x205F || u == 0x3000
}

/// Number of white-space characters that `s` starts with.
pub open spec fn lead_ws(s: Seq<char>) -> nat
    decreases s.len(),
{
    if s.len() > 0 && is_white_space(s[0]) { 1 + lead_ws(s.drop_first()) } else { 0 }
}

/// Number of white-space characters that `s` ends with.
pub open spec fn trail_ws(s: Seq<char>) -> nat
    decreases s.len(),
{
    if s.len() > 0 && is_white_space(s.last()) { 1 + trail_ws(s.drop_last()) } else { 0 }
}

/// `s` without its leading and then its trailing white space (`str::trim`).
pub open spec fn trimmed(s: Seq<char>) -> Seq<char> {
    let t = s.skip(lead_ws(s) as int);
    t.take(t.len() - trail_ws(t))
}

/// Index of the first comma of `s`, or its length when it has none.
pub open spec fn comma_index(s: Seq<char>) -> nat
    decreases s.len(),
{
    if s.len() > 0 && s[0] != ',' { 1 + comma_index(s.drop_first()) } else { 0 }
}

/// The characters cs[lo..hi] with the white space at both ends removed.
pub(crate) fn trim_range(cs: &Vec<char>, lo: usize, hi: usize) -> (r: String)
    requires
        lo <= hi <= cs@.len(),
    ensures
        r@ == trimmed(cs@.subrange(lo as int, hi as int)),
{
    let ghost s = cs@.subrange(lo as int, hi as int);
    let mut a: usize = lo;
    proof {
        assert(s.skip(0) =~= s);
    }
    while a < hi && white_space(cs[a])
        invariant
            lo <= a <= hi <= cs@.len(),
            s == cs@.subrange(lo as int, hi as int),
            lead_ws(s) == (a - lo) + lead_ws(s.skip(a - lo)),
        decreases hi - a,
    {
        proof {
            let t = s.skip(a - lo);
            assert(t[0] == cs@[a as int]);
            assert(t.drop_first() =~= s.skip(a - lo + 1));
        }
        a = a + 1;
    }
    proof {
        if a < hi {
            assert(s.skip(a - lo)[0] == cs@[a as int]);
        }
        assert(lead_ws(s) == a - lo);
    }
    let ghost t = s.skip(a - lo);
    let mut b: usize = hi;
    proof {
        assert(t =~= cs@.subrange(a as int, hi as int));
    }
    while b > a && white_space(cs[b - 1])
        invariant
            lo <= a <= b <= hi <= cs@.len(),
            t == cs@.subrange(a as int, hi as int),
            trail_ws(t) == (hi - b) + trail_ws(cs@.subrange(a as int, b as int)),
        decreases b - a,
    {
        proof {
            let u = cs@.subrange(a as int, b as int);
            assert(u.last() == cs@[b - 1]);
            assert(u.drop_last() =~= cs@.subrange(a as int, b - 1));
        }
        b = b - 1;
    }
    proof {
        let u = cs@.subrange(a as int, b as int);
        if b > a {
            assert(u.last() == cs@[b - 1]);
        }
        assert(trail_ws(t) == hi - b);
        assert(t.take(t.len() - trail_ws(t)) =~= u);
    }
    let mut out = String::new();
    let mut i: usize = a;
    while i < b
        invariant
            a <= i <= b <= cs@.len(),
            out@ == cs@.subrange(a as int, i as int),
        decreases b - i,
    {
        crate::text::push_char(&mut out, cs[i]);
        proof {
            assert(cs@.subrange(a as int, i + 1) =~= cs@.subrange(a as int, i as int).push(cs@[i as int]));
        }
        i = i + 1;
    }
    out
}

/// The characters of an optional string.
pub open spec fn opt_chars(o: Option<&str>) -> Option<Seq<char>> {
    match o {
        Some(s) => Some(s@),
        None => None,
    }
}

/// The client address used as rate-limit key: the first entry of
/// X-Forwarded-For, trimmed, when that is not empty; else X-Real-Ip, trimmed;
/// else the peer address; else "unknown".
pub open spec fn client_ip(forwarded_for: Option<Seq<char>>, real_ip: Option<Seq<char>>, peer: Option<Seq<char>>) -> Seq<char> {
    let first = match forwarded_for {
        Some(v) => trimmed(v.take(comma_index(v) as int)),
        None => Seq::empty(),
    };
    if first.len() > 0 {
        first
    } else {
        match real_ip {
            Some(r) => trimmed(r),
            None => match peer {
                Some(p) => p,
                None => "unknown"@,
            },
        }
    }
}

/// Extract the client IP for rate-limit keying from the request's
/// X-Forwarded-For and X-Real-Ip header values (those that are text) and the
/// connected peer's address, in that order of preference.
pub fn extract_client_ip(forwarded_for: Option<&str>, real_ip: Option<&str>, peer: Option<&str>) -> (r: String)
    ensures
        r@ == client_ip(opt_chars(forwarded_for), opt_chars(real_ip), opt_chars(peer)),
{
    if let Some(xff) = forwarded_for {
        let cs = chars_vec(xff);
        let mut k: usize = 0;
        proof {
            assert(cs@.skip(0) =~= cs@);
        }
        while k < cs.len() && cs[k] != ','
            invariant
                k <= cs@.len(),
                comma_index(cs@) == k + comma_index(cs@.skip(k as int)),
            decreases cs@.len() - k,
        {
            proof {
                assert(cs@.skip(k as int)[0] == cs@[k as int]);
                assert(cs@.skip(k as int).drop_first() =~= cs@.skip(k + 1));
            }
            k = k + 1;
        }
        proof {
            if k < cs@.len() {
                assert(cs@.skip(k as int)[0] == cs@[k as int]);
            }
            assert(comma_index(cs@) == k);
            assert(cs@.subrange(0, k as int) =~= cs@.take(k as int));
        }
        let first = trim_range(&cs, 0, k);
        if first.unicode_len() > 0 {
            return first;
        }
    }
    if let Some(v) = real_ip {
        let cs = chars_vec(v);
        proof {
            assert(cs@.subrange(0, cs@.len() as int) =~= cs@);
        }
        return trim_range(&cs, 0, cs.len());
    }
    match peer {
        Some(p) => String::from_str(p),
        None => String::from_str("unknown"),
    }
}

// ── rate limits ─────────────────────────────────────────────────────

/// Requests per minute that each tier allows one client.
pub open spec fn tier_quota(tier: RateLimitTier) -> u32 {
    match tier {
        RateLimitTier::PublicRead => 300,
        RateLimitTier::PublicWrite => 30,
        RateLimitTier::Auth => 60,
        RateLimitTier::Operator => 600,
        RateLimitTier::Admin => 180,
        RateLimitTier::Default => 120,
    }
}

/// Requests per minute that the global safety net allows one client.
pub const GLOBAL_QUOTA_PER_MINUTE: u32 = 1000;

/// The per-minute quota of a tier's limiter.
pub fn tier_quota_per_minute(tier: RateLimitTier) -> (q: u32)
    ensures
        q == tier_quota(tier),
{
    match tier {
        RateLimitTier::PublicRead => 300,
        RateLimitTier::PublicWrite => 30,
        RateLimitTier::Auth => 60,
        RateLimitTier::Operator => 600,
        RateLimitTier::Admin => 180,
        RateLimitTier::Default => 120,
    }
}

/// The name of a tier in the `x-ratelimit-tier` header and the body.
pub open spec fn tier_name(tier: RateLimitTier) -> Seq<char> {
    match tier {
        RateLimitTier::PublicRead => "PublicRead"@,
        RateLimitTier::PublicWrite => "PublicWrite"@,
        RateLimitTier::Auth => "Auth"@,
        RateLimitTier::Operator => "Operator"@,
        RateLimitTier::Admin => "Admin"@,
        RateLimitTier::Default => "Default"@,
    }
}

/// The name of a tier.
pub fn tier_label(tier: RateLimitTier) -> (s: &'static str)
    ensures
        s@ == tier_name(tier),
{
    match tier {
        RateLimitTier::PublicRead => "PublicRead",
        RateLimitTier::PublicWrite => "PublicWrite",
        RateLimitTier::Auth => "Auth",
        RateLimitTier::Operator => "Operator",
        RateLimitTier::Admin => "Admin",
        RateLimitTier::Default => "Default",
    }
}

/// The Retry-After a limited client is told: the whole seconds until the
/// next allowed request, at least one.
pub fn retry_after_secs(wait_secs: u64) -> (s: u64)
    ensures
        s == (if wait_secs < 1 { 1 } else { wait_secs }),
{
    if wait_secs < 1 { 1 } else { wait_secs }
}

/// The JSON body of a 429 answer, keys in order:
/// `{"error":"Too many requests","retry_after_secs":N,"tier":"<tier>"}`.
pub open spec fn rate_limited_json(tier: Seq<char>, retry_after: nat) -> Seq<char> {
    "{\"error\":\"Too many requests\",\"retry_after_secs\":"@ + crate::text::decimal(retry_after)
        + ",\"tier\":"@ + json_string_of(tier) + "}"@
}

/// The JSON body of a 429 answer for the tier named `tier` (a tier's name,
/// or `Global` for the safety net).
pub fn rate_limited_body(tier: &str, retry_after: u64) -> (s: String)
    ensures
        s@ == rate_limited_json(tier@, retry_after as nat),
{
    let mut s = String::from_str("{\"error\":\"Too many requests\",\"retry_after_secs\":");
    crate::text::push_decimal(&mut s, retry_after);
    crate::text::push_str(&mut s, ",\"tier\":");
    push_json_string(&mut s, tier);
    crate::text::push_str(&mut s, "}");
    s
}

} // verus!
