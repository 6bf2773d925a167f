//! Decisions of the sharing server that do not touch the share itself:
//! request rate limiting, throttling of the HTTP fallback, planning of byte
//! range replies, metadata version checks and the tracker's connection cap.
use vstd::prelude::*;
use std::collections::VecDeque;
use crate::text::{append_chars, chars_of, decimal, decimal_chars, has_prefix, parse_u64_range, parse_u64_spec};

verus! {

/// Length of the rate-limit window, in nanoseconds.
pub const RATE_LIMIT_WINDOW_NS: u64 = 1_000_000_000;

/// Requests admitted per window.
pub const RATE_LIMIT_MAX: usize = 5000;

/// Largest byte range served in one reply.
pub const MAX_CHUNK_SIZE: u64 = 52428800;

/// Most tracker connections open at once.
pub const TRACKER_MAX_CONNECTIONS: u64 = 200;

/// Oldest and newest metadata versions a download page may ask for.
pub const MIN_SUPPORTED_METADATA_VERSION: u16 = 1;

pub const MAX_SUPPORTED_METADATA_VERSION: u16 = 1;

/// A request seen at `t` no longer counts at `now`: more than the window
/// has passed (time running backwards counts as none passing).
pub open spec fn expired(t: u64, now: u64) -> bool {
    (if now >= t {
        now - t
    } else {
        0
    }) > RATE_LIMIT_WINDOW_NS
}

/// The admitted requests still in the window: the oldest are dropped while
/// they are expired.
pub open spec fn drop_expired(q: Seq<u64>, now: u64) -> Seq<u64>
    decreases q.len(),
{
    if q.len() > 0 && expired(q[0], now) {
        drop_expired(q.drop_first(), now)
    } else {
        q
    }
}

/// Times of the requests admitted in the current window, oldest first.
pub struct RateLimiter {
    window: VecDeque<u64>,
}

impl View for RateLimiter {
    type V = Seq<u64>;

    closed spec fn view(&self) -> Seq<u64> {
        self.window@
    }
}

impl RateLimiter {
    pub fn new() -> (r: Self)
        ensures
            r@ == Seq::<u64>::empty(),
    {
        RateLimiter { window: VecDeque::new() }
    }

    /// Counts a request at `now` (nanoseconds of a monotonic clock) unless
    /// the window already holds `RATE_LIMIT_MAX` requests.
    pub fn enforce_rate_limit(&mut self, now: u64) -> (r: bool)
        ensures
            r == (drop_expired(old(self)@, now).len() < RATE_LIMIT_MAX),
            final(self)@ == if r {
                drop_expired(old(self)@, now).push(now)
            } else {
                drop_expired(old(self)@, now)
            },
            old(self)@.len() <= RATE_LIMIT_MAX ==> final(self)@.len() <= RATE_LIMIT_MAX,
    {
        let ghost q0 = self@;
        proof {
            lemma_drop_expired_len(q0, now);
        }
        loop
            invariant
                drop_expired(self@, now) == drop_expired(q0, now),
            ensures
                drop_expired(self@, now) == drop_expired(q0, now),
                drop_expired(self@, now) == self@,
            decreases self@.len(),
        {
            if self.window.len() == 0 {
                assert(self@.len() == 0);
                break;
            }
            let oldest = self.window[0];
            let age = if now >= oldest {
                now - oldest
            } else {
                0
            };
            if age > RATE_LIMIT_WINDOW_NS {
                let ghost before = self@;
                let _ = self.window.pop_front();
                assert(self@ =~= before.drop_first());
            } else {
                assert(!expired(self@[0], now));
                break;
            }
        }
        if self.window.len() >= RATE_LIMIT_MAX {
            return false;
        }
        self.window.push_back(now);
        true
    }
}

proof fn lemma_drop_expired_len(q: Seq<u64>, now: u64)
    ensures
        drop_expired(q, now).len() <= q.len(),
    decreases q.len(),
{
    if q.len() > 0 && expired(q[0], now) {
        lemma_drop_expired_len(q.drop_first(), now);
    }
}

/// Pause before a byte-range reply, in milliseconds: none without seeders,
/// 50 for one to three, 150 for four to seven, 300 for more.
pub open spec fn throttle_ms(seeding_peers: nat) -> u64 {
    if seeding_peers == 0 {
        0
    } else if seeding_peers <= 3 {
        50
    } else if seeding_peers <= 7 {
        150
    } else {
        300
    }
}

/// How long to slow a web-seed reply down when peers are seeding, in
/// milliseconds.
pub fn compute_http_throttle_delay(seeding_peers: usize) -> (r: u64)
    ensures
        r == throttle_ms(seeding_peers as nat),
{
    if seeding_peers == 0 {
        0
    } else if seeding_peers <= 3 {
        50
    } else if seeding_peers <= 7 {
        150
    } else {
        300
    }
}

/// Whether a metadata request with this (optional) version is served.
pub fn metadata_version_supported(version: Option<u16>) -> (r: bool)
    ensures
        r == match version {
            None => true,
            Some(v) => MIN_SUPPORTED_METADATA_VERSION <= v <= MAX_SUPPORTED_METADATA_VERSION,
        },
{
    match version {
        None => true,
        Some(v) => MIN_SUPPORTED_METADATA_VERSION <= v && v <= MAX_SUPPORTED_METADATA_VERSION,
    }
}

/// Whether the tracker takes one more connection when `current` are open.
pub fn tracker_accepts(current: u64) -> (r: bool)
    ensures
        r == (current < TRACKER_MAX_CONNECTIONS),
{
    current < TRACKER_MAX_CONNECTIONS
}

/// Position of the first `c` in `s`, or its length when there is none.
#[verifier::opaque]
pub open spec fn first_index(s: Seq<char>, c: char) -> int {
    if s.contains(c) {
        choose|i: int| 0 <= i < s.len() && s[i] == c && forall|j: int| 0 <= j < i ==> s[j] != c
    } else {
        s.len() as int
    }
}

/// The first two pieces of `s` cut at `-` (as `split('-')` gives them):
/// the text before the first `-`, and, when there is a `-`, the text after
/// it up to the next one.
pub open spec fn dash_pieces(s: Seq<char>) -> (Seq<char>, Option<Seq<char>>) {
    let i = first_index(s, '-');
    if i < s.len() {
        let rest = s.skip(i + 1);
        (s.take(i), Some(rest.take(first_index(rest, '-'))))
    } else {
        (s, None)
    }
}

pub open spec fn bytes_unit() -> Seq<char> {
    seq!['b', 'y', 't', 'e', 's', '=']
}

/// The start and end named by a `Range` header: `bytes=<start>-<end>`,
/// either number absent or unreadable when it does not parse (an empty
/// end counts as absent).
pub open spec fn range_bounds(header: Option<Seq<char>>) -> (Option<u64>, Option<u64>) {
    match header {
        None => (None, None),
        Some(h) => if has_prefix(h, bytes_unit()) {
            let (a, b) = dash_pieces(h.skip(6));
            (
                parse_u64_spec(a),
                match b {
                    Some(e) => if e.len() > 0 {
                        parse_u64_spec(e)
                    } else {
                        None
                    },
                    None => None,
                },
            )
        } else {
            (None, None)
        },
    }
}

/// How a file request is answered.
pub enum RangePlan {
    /// The whole file, streamed (no usable range start was given).
    Full,
    /// Bytes `start..=end`.
    Partial { start: u64, end: u64 },
    /// 416; with a `Content-Range: bytes */<size>` header when asked.
    Unsatisfiable { content_range: bool },
    /// 413: the range is longer than `MAX_CHUNK_SIZE`.
    TooLarge,
}

/// The reply to a request for a file of `size` bytes with this `Range`
/// header: a start past the end of a non-empty file is refused with the
/// file's size; the end is clamped to the last byte; a start after the end
/// is refused; without a start the whole file is sent; a range longer than
/// `MAX_CHUNK_SIZE` is refused.
pub open spec fn plan_range(header: Option<Seq<char>>, size: u64) -> RangePlan {
    let (s, e) = range_bounds(header);
    let start: u64 = match s {
        Some(v) => v,
        None => 0,
    };
    let last: u64 = if size > 0 {
        (size - 1) as u64
    } else {
        0
    };
    let end0: u64 = match e {
        Some(v) => v,
        None => last,
    };
    let end: u64 = if end0 >= size {
        last
    } else {
        end0
    };
    if start >= size && size > 0 {
        RangePlan::Unsatisfiable { content_range: true }
    } else if start > end {
        RangePlan::Unsatisfiable { content_range: false }
    } else if s is None {
        RangePlan::Full
    } else if end - start + 1 > MAX_CHUNK_SIZE {
        RangePlan::TooLarge
    } else {
        RangePlan::Partial { start, end }
    }
}

fn first_dash(v: &Vec<char>, lo: usize) -> (r: usize)
    requires
        lo <= v.len(),
    ensures
        lo <= r <= v.len(),
        r - lo == first_index(v@.skip(lo as int), '-'),
{
    let ghost s = v@.skip(lo as int);
    proof {
        reveal(first_index);
    }
    let mut i = lo;
    while i < v.len() && v[i] != '-'
        invariant
            lo <= i <= v.len(),
            s == v@.skip(lo as int),
            forall|j: int| 0 <= j < i - lo ==> s[j] != '-',
        decreases v.len() - i,
    {
        i += 1;
    }
    if i < v.len() {
        proof {
            let k = i - lo;
            assert(s[k as int] == '-');
            assert(s.contains('-'));
            let c = choose|c: int| 0 <= c < s.len() && s[c] == '-' && forall|j: int| 0 <= j < c ==> s[j] != '-';
            assert(c == k) by {
                if c < k {
                    assert(s[c] != '-');
                } else if c > k {
                    assert(s[k as int] != '-');
                }
            }
        }
    } else {
        assert(!s.contains('-'));
    }
    i
}

fn starts_with_unit(v: &Vec<char>) -> (r: bool)
    ensures
        r == has_prefix(v@, bytes_unit()),
{
    let unit = vec!['b', 'y', 't', 'e', 's', '='];
    assert(unit@ =~= bytes_unit());
    if v.len() < 6 {
        return false;
    }
    let mut k: usize = 0;
    while k < 6
        invariant
            v.len() >= 6,
            k <= 6,
            unit@ == bytes_unit(),
            forall|j: int| 0 <= j < k ==> v@[j] == unit@[j],
        decreases 6 - k,
    {
        if v[k] != unit[k] {
            assert(v@.subrange(0, 6)[k as int] != bytes_unit()[k as int]);
            return false;
        }
        k += 1;
    }
    assert(v@.subrange(0, 6) =~= bytes_unit());
    true
}

/// The numbers of the first two `-`-separated pieces of `v[from..]`.
fn dash_numbers(v: &Vec<char>, from: usize) -> (r: (Option<u64>, Option<u64>))
    requires
        from <= v.len(),
    ensures
        ({
            let (a, b) = dash_pieces(v@.skip(from as int));
            r == (
                parse_u64_spec(a),
                match b {
                    Some(e) => if e.len() > 0 {
                        parse_u64_spec(e)
                    } else {
                        None
                    },
                    None => None,
                },
            )
        }),
{
    let ghost rest = v@.skip(from as int);
    let d1 = first_dash(v, from);
    assert(v@.subrange(from as int, d1 as int) =~= rest.take(first_index(rest, '-')));
    let start_opt = parse_u64_range(v, from, d1);
    let mut end_opt: Option<u64> = None;
    if d1 < v.len() {
        let d2 = first_dash(v, d1 + 1);
        let ghost rest1 = rest.skip(first_index(rest, '-') + 1);
        assert(rest1 =~= v@.skip(d1 + 1));
        assert(v@.subrange(d1 + 1, d2 as int) =~= rest1.take(first_index(rest1, '-')));
        if d2 > d1 + 1 {
            end_opt = parse_u64_range(v, d1 + 1, d2);
        }
    }
    (start_opt, end_opt)
}

fn header_bounds(h: &str) -> (r: (Option<u64>, Option<u64>))
    ensures
        r == range_bounds(Some(h@)),
{
    let v = chars_of(h);
    if starts_with_unit(&v) {
        dash_numbers(&v, 6)
    } else {
        (None, None)
    }
}

/// Plans the reply to a request for a file of `file_size` bytes, given
/// the request's `Range` header when it has one.
pub fn plan_file_range(range_header: Option<&str>, file_size: u64) -> (r: RangePlan)
    ensures
        r == plan_range(
            match range_header {
                Some(h) => Some(h@),
                None => None,
            },
            file_size,
        ),
{
    let (start_opt, end_opt) = match range_header {
        None => (None, None),
        Some(h) => header_bounds(h),
    };
    let last: u64 = if file_size > 0 {
        file_size - 1
    } else {
        0
    };
    let start: u64 = match start_opt {
        Some(v) => v,
        None => 0,
    };
    let mut end: u64 = match end_opt {
        Some(v) => v,
        None => last,
    };
    if end >= file_size {
        end = last;
    }
    if start >= file_size && file_size > 0 {
        return RangePlan::Unsatisfiable { content_range: true };
    }
    if start > end {
        return RangePlan::Unsatisfiable { content_range: false };
    }
    if start_opt.is_none() {
        return RangePlan::Full;
    }
    if end - start + 1 > MAX_CHUNK_SIZE {
        return RangePlan::TooLarge;
    }
    RangePlan::Partial { start, end }
}

/// `bytes <start>-<end>/<size>`, the `Content-Range` of a partial reply.
pub open spec fn content_range_text(start: u64, end: u64, size: u64) -> Seq<char> {
    "bytes "@ + decimal(start as nat) + "-"@ + decimal(end as nat) + "/"@ + decimal(size as nat)
}

/// The `Content-Range` header of a reply with bytes `start..=end` of a file
/// of `size` bytes.
pub fn partial_content_range(start: u64, end: u64, size: u64) -> (r: String)
    ensures
        r@ == content_range_text(start, end, size),
{
    let mut r = String::new();
    append_chars(&mut r, &chars_of("bytes "));
    append_chars(&mut r, &decimal_chars(start as u128));
    append_chars(&mut r, &chars_of("-"));
    append_chars(&mut r, &decimal_chars(end as u128));
    append_chars(&mut r, &chars_of("/"));
    append_chars(&mut r, &decimal_chars(size as u128));
    r
}

/// `bytes */<size>`, the `Content-Range` of a refused range.
pub fn unsatisfied_content_range(size: u64) -> (r: String)
    ensures
        r@ == "bytes */"@ + decimal(size as nat),
{
    let mut r = String::new();
    append_chars(&mut r, &chars_of("bytes */"));
    append_chars(&mut r, &decimal_chars(size as u128));
    r
}

/// More seeders never shorten the pause, and without seeders there is none.
pub proof fn lemma_throttle_monotone(a: nat, b: nat)
    requires
        a <= b,
    ensures
        throttle_ms(a) <= throttle_ms(b),
        throttle_ms(0) == 0,
        b > 0 ==> throttle_ms(b) > 0,
{
}

/// A byte range planned for a non-empty file lies inside it and is at
/// most `MAX_CHUNK_SIZE` long.
pub proof fn lemma_range_plan_bounds(header: Option<Seq<char>>, size: u64)
    requires
        size > 0,
    ensures
        plan_range(header, size) matches RangePlan::Partial { start, end } ==> start <= end < size
            && end - start + 1 <= MAX_CHUNK_SIZE,
{
}

/// The whole file is sent only when the header gives no start, and a
/// start past the end of a non-empty file is refused with the file's size.
pub proof fn lemma_range_plan_cases(header: Option<Seq<char>>, size: u64)
    ensures
        plan_range(header, size) is Full ==> range_bounds(header).0 is None,
        (range_bounds(header).0 matches Some(start) && start >= size && size > 0) ==> plan_range(
            header,
            size,
        ) == (RangePlan::Unsatisfiable { content_range: true }),
{
}

/// A range the header names inside a non-empty file is served exactly as
/// asked when it is at most `MAX_CHUNK_SIZE` bytes long, and refused as too
/// large only when it is longer; an end past the file is cut to its last
/// byte and the range then judged the same way.
pub proof fn lemma_range_served_as_asked(header: Option<Seq<char>>, size: u64, s: u64, e: u64)
    requires
        range_bounds(header) == (Some(s), Some(e)),
        s <= e,
        s < size,
    ensures
        e < size && e - s + 1 <= MAX_CHUNK_SIZE ==> plan_range(header, size) == (RangePlan::Partial {
            start: s,
            end: e,
        }),
        e < size && e - s + 1 > MAX_CHUNK_SIZE ==> plan_range(header, size) is TooLarge,
        e >= size && size - s <= MAX_CHUNK_SIZE ==> plan_range(header, size) == (RangePlan::Partial {
            start: s,
            end: (size - 1) as u64,
        }),
        e >= size && size - s > MAX_CHUNK_SIZE ==> plan_range(header, size) is TooLarge,
{
}

/// The first `-` of text made of digits, a `-` and digits is the one
/// between them.
proof fn lemma_first_dash(a: Seq<char>, b: Seq<char>)
    requires
        forall|k: int| 0 <= k < a.len() ==> (#[trigger] a[k]) != '-',
        forall|k: int| 0 <= k < b.len() ==> (#[trigger] b[k]) != '-',
    ensures
        first_index(a + seq!['-'] + b, '-') == a.len(),
        first_index(b, '-') == b.len(),
{
    reveal(first_index);
    let x = a + seq!['-'] + b;
    assert(x[a.len() as int] == '-');
    assert(x.contains('-'));
    let i = first_index(x, '-');
    assert(0 <= i < x.len() && x[i] == '-' && forall|j: int| 0 <= j < i ==> x[j] != '-');
    if i < a.len() {
        assert(x[i] == a[i]);
    } else if i > a.len() {
        assert(x[a.len() as int] == '-');
    }
    assert(!b.contains('-'));
}

/// A request for bytes `s` to `e` of a file, written as the header
/// `bytes=<s>-<e>`, is served exactly as asked when the range lies inside
/// the file and is at most `MAX_CHUNK_SIZE` bytes long, and is refused as
/// too large only when it is longer.
pub proof fn lemma_range_header_served(s: u64, e: u64, size: u64)
    requires
        s <= e < size,
    ensures
        ({
            let header = Some("bytes="@ + decimal(s as nat) + "-"@ + decimal(e as nat));
            &&& range_bounds(header) == (Some(s), Some(e))
            &&& e - s + 1 <= MAX_CHUNK_SIZE ==> plan_range(header, size) == (RangePlan::Partial {
                start: s,
                end: e,
            })
            &&& e - s + 1 > MAX_CHUNK_SIZE ==> plan_range(header, size) is TooLarge
        }),
{
    reveal_strlit("bytes=");
    reveal_strlit("-");
    let ds = decimal(s as nat);
    let de = decimal(e as nat);
    let h = "bytes="@ + ds + "-"@ + de;
    crate::text::lemma_parse_decimal(s as nat);
    crate::text::lemma_parse_decimal(e as nat);
    crate::text::lemma_decimal_digits(s as nat);
    crate::text::lemma_decimal_digits(e as nat);
    assert(bytes_unit() =~= "bytes="@);
    assert(h.subrange(0, 6) =~= bytes_unit());
    assert(has_prefix(h, bytes_unit()));
    let x = h.skip(6);
    assert(x =~= ds + seq!['-'] + de);
    assert forall|k: int| 0 <= k < ds.len() implies (#[trigger] ds[k]) != '-' by {
        assert('0' <= ds[k] && ds[k] <= '9');
    }
    assert forall|k: int| 0 <= k < de.len() implies (#[trigger] de[k]) != '-' by {
        assert('0' <= de[k] && de[k] <= '9');
    }
    lemma_first_dash(ds, de);
    assert(x.take(ds.len() as int) =~= ds);
    assert(x.skip(ds.len() as int + 1) =~= de);
    assert(de.take(de.len() as int) =~= de);
    assert(dash_pieces(x) == (ds, Some(de)));
    lemma_range_served_as_asked(Some(h), size, s, e);
}

} // verus!
