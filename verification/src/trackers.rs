//! Tracker URL lists: parsing a comma-separated setting, and the URL of the
//! tracker that the sharing server itself runs.
use vstd::prelude::*;
use crate::text::{append_chars, chars_of, has_prefix, string_from, string_of, trim, trim_bounds};

verus! {

/// `s` cut at every `sep`, as `str::split` does (always at least one piece).
pub open spec fn split_on(s: Seq<char>, sep: char) -> Seq<Seq<char>>
    decreases s.len(),
{
    if s.len() == 0 {
        seq![Seq::<char>::empty()]
    } else {
        let parts = split_on(s.drop_last(), sep);
        if s.last() == sep {
            parts.push(Seq::<char>::empty())
        } else {
            parts.update(parts.len() - 1, parts.last().push(s.last()))
        }
    }
}

pub proof fn lemma_split_nonempty(s: Seq<char>, sep: char)
    ensures
        split_on(s, sep).len() >= 1,
    decreases s.len(),
{
    if s.len() > 0 {
        lemma_split_nonempty(s.drop_last(), sep);
    }
}

pub open spec fn wss_prefix() -> Seq<char> {
    seq!['w', 's', 's', ':', '/', '/']
}

pub open spec fn ws_prefix() -> Seq<char> {
    seq!['w', 's', ':', '/', '/']
}

pub open spec fn https_prefix() -> Seq<char> {
    seq!['h', 't', 't', 'p', 's', ':', '/', '/']
}

pub open spec fn http_prefix() -> Seq<char> {
    seq!['h', 't', 't', 'p', ':', '/', '/']
}

pub open spec fn udp_prefix() -> Seq<char> {
    seq!['u', 'd', 'p', ':', '/', '/']
}

/// A tracker entry that is kept: not empty, and with one of the accepted schemes.
pub open spec fn tracker_ok(t: Seq<char>) -> bool {
    &&& t.len() > 0
    &&& {
        ||| has_prefix(t, wss_prefix())
        ||| has_prefix(t, ws_prefix())
        ||| has_prefix(t, https_prefix())
        ||| has_prefix(t, http_prefix())
        ||| has_prefix(t, udp_prefix())
    }
}

/// The trackers named by a comma-separated setting: each piece trimmed,
/// kept when `tracker_ok`, in the order given.
pub open spec fn tracker_list(raw: Seq<char>) -> Seq<Seq<char>> {
    split_on(raw, ',').map_values(|p: Seq<char>| trim(p)).filter(|t: Seq<char>| tracker_ok(t))
}

fn prefix_at(v: &Vec<char>, a: usize, b: usize, p: &Vec<char>) -> (r: bool)
    requires
        a <= b <= v.len(),
    ensures
        r == has_prefix(v@.subrange(a as int, b as int), p@),
{
    if p.len() > b - a {
        return false;
    }
    let mut i: usize = 0;
    while i < p.len()
        invariant
            a <= b <= v.len(),
            p.len() <= b - a,
            i <= p.len(),
            forall|j: int| 0 <= j < i ==> v@[a + j] == p@[j],
        decreases p.len() - i,
    {
        if v[a + i] != p[i] {
            assert(v@.subrange(a as int, b as int).subrange(0, p@.len() as int)[i as int] != p@[i as int]);
            return false;
        }
        i += 1;
    }
    assert(v@.subrange(a as int, b as int).subrange(0, p@.len() as int) =~= p@);
    true
}

fn accepted(v: &Vec<char>, a: usize, b: usize) -> (r: bool)
    requires
        a <= b <= v.len(),
    ensures
        r == tracker_ok(v@.subrange(a as int, b as int)),
{
    if a == b {
        return false;
    }
    let wss = vec!['w', 's', 's', ':', '/', '/'];
    let ws = vec!['w', 's', ':', '/', '/'];
    let https = vec!['h', 't', 't', 'p', 's', ':', '/', '/'];
    let http = vec!['h', 't', 't', 'p', ':', '/', '/'];
    let udp = vec!['u', 'd', 'p', ':', '/', '/'];
    assert(wss@ =~= wss_prefix());
    assert(ws@ =~= ws_prefix());
    assert(https@ =~= https_prefix());
    assert(http@ =~= http_prefix());
    assert(udp@ =~= udp_prefix());
    prefix_at(v, a, b, &wss) || prefix_at(v, a, b, &ws) || prefix_at(v, a, b, &https)
        || prefix_at(v, a, b, &http) || prefix_at(v, a, b, &udp)
}

/// Parses a comma-separated tracker setting.
pub fn parse_trackers(raw: &str) -> (r: Vec<String>)
    ensures
        r.deep_view() == tracker_list(raw@),
{
    let chars = chars_of(raw);
    let ghost f = |p: Seq<char>| trim(p);
    let ghost ok = |t: Seq<char>| tracker_ok(t);
    let mut r: Vec<String> = Vec::new();
    let mut start: usize = 0;
    let mut i: usize = 0;
    let ghost mut done: Seq<Seq<char>> = Seq::empty();
    assert(chars@.take(0) =~= Seq::<char>::empty());
    while i < chars.len()
        invariant
            start <= i <= chars.len(),
            f == (|p: Seq<char>| trim(p)),
            ok == (|t: Seq<char>| tracker_ok(t)),
            split_on(chars@.take(i as int), ',') == done.push(chars@.subrange(start as int, i as int)),
            r.deep_view() == done.map_values(f).filter(ok),
        decreases chars.len() - i,
    {
        assert(chars@.take(i + 1).drop_last() =~= chars@.take(i as int));
        if chars[i] == ',' {
            let (a, b) = trim_bounds(&chars, start, i);
            let ghost piece = chars@.subrange(start as int, i as int);
            proof {
                assert(done.push(piece).map_values(f) =~= done.map_values(f).push(f(piece)));
                done.map_values(f).lemma_filter_push(f(piece), ok);
            }
            let ghost before = r.deep_view();
            assert(trim(piece) == chars@.subrange(a as int, b as int));
            assert(f(piece) == trim(piece));
            if accepted(&chars, a, b) {
                let t = string_from(&chars, a, b);
                r.push(t);
                assert(r.deep_view() =~= before.push(f(piece)));
            } else {
                assert(!ok(f(piece)));
            }
            proof {
                done = done.push(piece);
            }
            i += 1;
            start = i;
            assert(r.deep_view() =~= done.map_values(f).filter(ok));
            assert(chars@.subrange(start as int, i as int) =~= Seq::<char>::empty());
        } else {
            i += 1;
            assert(chars@.subrange(start as int, i as int) =~= chars@.subrange(
                start as int,
                i - 1,
            ).push(chars@[i - 1]));
        }
    }
    let (a, b) = trim_bounds(&chars, start, i);
    let ghost piece = chars@.subrange(start as int, i as int);
    proof {
        assert(done.push(piece).map_values(f) =~= done.map_values(f).push(f(piece)));
        done.map_values(f).lemma_filter_push(f(piece), ok);
        assert(chars@.take(i as int) =~= raw@);
    }
    let ghost before = r.deep_view();
    assert(f(piece) == chars@.subrange(a as int, b as int));
    if accepted(&chars, a, b) {
        let t = string_from(&chars, a, b);
        r.push(t);
        assert(r.deep_view() =~= before.push(f(piece)));
    }
    assert(r.deep_view() =~= tracker_list(raw@));
    r
}

/// The tracker list used when no setting is given.
pub open spec fn default_tracker_setting() -> Seq<char> {
    "wss://tracker.openwebtorrent.com,wss://tracker.btorrent.xyz,wss://tracker.webtorrent.dev"@
}

/// The trackers named by the tracker setting, or the default list when it is unset.
pub fn trackers_from_setting(value: Option<&str>) -> (r: Vec<String>)
    ensures
        r.deep_view() == tracker_list(
            match value {
                Some(v) => v@,
                None => default_tracker_setting(),
            },
        ),
{
    match value {
        Some(v) => parse_trackers(v),
        None => parse_trackers(
            "wss://tracker.openwebtorrent.com,wss://tracker.btorrent.xyz,wss://tracker.webtorrent.dev",
        ),
    }
}

/// Every occurrence of `pat` in `s`, scanning left to right without
/// overlap, replaced by `rep` (as `str::replace` does).
pub open spec fn replace_all(s: Seq<char>, pat: Seq<char>, rep: Seq<char>) -> Seq<char>
    decreases s.len(),
{
    if pat.len() == 0 || s.len() < pat.len() {
        s
    } else if s.take(pat.len() as int) == pat {
        rep + replace_all(s.skip(pat.len() as int), pat, rep)
    } else {
        seq![s[0]] + replace_all(s.drop_first(), pat, rep)
    }
}

fn matches_at(v: &Vec<char>, i: usize, p: &Vec<char>) -> (r: bool)
    requires
        i <= v.len(),
    ensures
        r == (p.len() <= v.len() - i && v@.subrange(i as int, i + p.len()) == p@),
{
    if p.len() > v.len() - i {
        return false;
    }
    let mut j: usize = 0;
    while j < p.len()
        invariant
            i + p.len() <= v.len(),
            j <= p.len(),
            forall|k: int| 0 <= k < j ==> v@[i + k] == p@[k],
        decreases p.len() - j,
    {
        if v[i + j] != p[j] {
            assert(v@.subrange(i as int, i + p.len())[j as int] != p@[j as int]);
            return false;
        }
        j += 1;
    }
    assert(v@.subrange(i as int, i + p.len()) =~= p@);
    true
}

pub(crate) fn replace_chars(v: &Vec<char>, pat: &Vec<char>, rep: &Vec<char>) -> (r: Vec<char>)
    requires
        pat.len() > 0,
    ensures
        r@ == replace_all(v@, pat@, rep@),
{
    let mut r: Vec<char> = Vec::new();
    let mut i: usize = 0;
    assert(v@.skip(0) =~= v@);
    while i < v.len()
        invariant
            pat.len() > 0,
            i <= v.len(),
            replace_all(v@, pat@, rep@) == r@ + replace_all(v@.skip(i as int), pat@, rep@),
        decreases v.len() - i,
    {
        let ghost rest = v@.skip(i as int);
        if matches_at(v, i, pat) {
            assert(rest.take(pat@.len() as int) =~= v@.subrange(i as int, i + pat@.len()));
            assert(rest.skip(pat@.len() as int) =~= v@.skip(i + pat@.len()));
            let mut k: usize = 0;
            let ghost r0 = r@;
            while k < rep.len()
                invariant
                    k <= rep.len(),
                    r@ == r0 + rep@.take(k as int),
                decreases rep.len() - k,
            {
                r.push(rep[k]);
                k += 1;
                assert(r@ =~= r0 + rep@.take(k as int));
            }
            assert(rep@.take(rep@.len() as int) =~= rep@);
            assert(r@ + replace_all(v@.skip(i + pat@.len()), pat@, rep@) =~= r0 + (rep@
                + replace_all(rest.skip(pat@.len() as int), pat@, rep@)));
            i += pat.len();
        } else {
            proof {
                if rest.len() >= pat@.len() {
                    assert(rest.take(pat@.len() as int) =~= v@.subrange(i as int, i + pat@.len()));
                }
            }
            assert(rest.drop_first() =~= v@.skip(i + 1));
            let ghost r0 = r@;
            r.push(v[i]);
            assert(r@ + replace_all(v@.skip(i + 1), pat@, rep@) =~= r0 + (seq![rest[0]]
                + replace_all(rest.drop_first(), pat@, rep@)));
            i += 1;
        }
    }
    assert(v@.skip(i as int) =~= Seq::<char>::empty());
    assert(r@ + Seq::<char>::empty() =~= r@);
    r
}

/// `/announce` on the sharing server, with `https://` written `wss://` and
/// `http://` written `ws://`.
pub open spec fn builtin_tracker(base_url: Seq<char>) -> Seq<char> {
    replace_all(replace_all(base_url, https_prefix(), wss_prefix()), http_prefix(), ws_prefix())
        + seq!['/', 'a', 'n', 'n', 'o', 'u', 'n', 'c', 'e']
}

/// The WebSocket URL of the tracker that the sharing server at `base_url` runs.
pub fn builtin_tracker_url(base_url: &str) -> (r: String)
    ensures
        r@ == builtin_tracker(base_url@),
{
    let v = chars_of(base_url);
    let https = vec!['h', 't', 't', 'p', 's', ':', '/', '/'];
    let http = vec!['h', 't', 't', 'p', ':', '/', '/'];
    let wss = vec!['w', 's', 's', ':', '/', '/'];
    let ws = vec!['w', 's', ':', '/', '/'];
    assert(wss@ =~= wss_prefix());
    assert(ws@ =~= ws_prefix());
    assert(https@ =~= https_prefix());
    assert(http@ =~= http_prefix());
    let once = replace_chars(&v, &https, &wss);
    let mut twice = replace_chars(&once, &http, &ws);
    let suffix = vec!['/', 'a', 'n', 'n', 'o', 'u', 'n', 'c', 'e'];
    let mut out = string_of(&twice);
    append_chars(&mut out, &suffix);
    assert(suffix@ =~= seq!['/', 'a', 'n', 'n', 'o', 'u', 'n', 'c', 'e']);
    out
}

/// The tracker list handed to downloaders: the built-in tracker first,
/// then the configured ones in order.
pub fn trackers_with_builtin(base_url: &str, external_trackers: &[String]) -> (r: Vec<String>)
    ensures
        r.deep_view() == seq![builtin_tracker(base_url@)] + external_trackers.deep_view(),
{
    let mut all: Vec<String> = Vec::new();
    all.push(builtin_tracker_url(base_url));
    let mut i: usize = 0;
    while i < external_trackers.len()
        invariant
            i <= external_trackers.len(),
            all.deep_view() == seq![builtin_tracker(base_url@)] + external_trackers.deep_view().take(
                i as int,
            ),
        decreases external_trackers.len() - i,
    {
        let t = external_trackers[i].clone();
        let ghost before = all.deep_view();
        all.push(t);
        i += 1;
        assert(all.deep_view() =~= before.push(external_trackers.deep_view()[i - 1]));
        assert(all.deep_view() =~= seq![builtin_tracker(base_url@)]
            + external_trackers.deep_view().take(i as int));
    }
    assert(external_trackers.deep_view().take(i as int) =~= external_trackers.deep_view());
    all
}

proof fn lemma_split_pieces(s: Seq<char>, sep: char)
    ensures
        forall|i: int| 0 <= i < split_on(s, sep).len() ==> !(#[trigger] split_on(s, sep)[i]).contains(sep),
    decreases s.len(),
{
    if s.len() > 0 {
        lemma_split_pieces(s.drop_last(), sep);
        lemma_split_nonempty(s.drop_last(), sep);
        let parts = split_on(s.drop_last(), sep);
        if s.last() != sep {
            let l = parts.last().push(s.last());
            assert forall|c: int| 0 <= c < l.len() implies l[c] != sep by {
                if c < parts.last().len() {
                    assert(l[c] == parts.last()[c]);
                    assert(parts[parts.len() - 1] == parts.last());
                }
            }
        }
    }
}

proof fn lemma_trim_within(p: Seq<char>)
    ensures
        forall|c: char| #[trigger] trim(p).contains(c) ==> p.contains(c),
{
    lemma_trim_start_within(p);
    lemma_trim_end_within(crate::text::trim_start(p));
}

proof fn lemma_trim_start_within(p: Seq<char>)
    ensures
        forall|c: char| #[trigger] crate::text::trim_start(p).contains(c) ==> p.contains(c),
    decreases p.len(),
{
    if p.len() > 0 && crate::text::is_white(p[0]) {
        let q = p.drop_first();
        lemma_trim_start_within(q);
        assert(crate::text::trim_start(p) == crate::text::trim_start(q));
        assert forall|c: char| #[trigger] crate::text::trim_start(p).contains(c) implies p.contains(c) by {
            assert(q.contains(c));
            let k = choose|k: int| 0 <= k < q.len() && q[k] == c;
            assert(p[k + 1] == c);
        }
    }
}

proof fn lemma_trim_end_within(p: Seq<char>)
    ensures
        forall|c: char| #[trigger] crate::text::trim_end(p).contains(c) ==> p.contains(c),
    decreases p.len(),
{
    if p.len() > 0 && crate::text::is_white(p.last()) {
        let q = p.drop_last();
        lemma_trim_end_within(q);
        assert(crate::text::trim_end(p) == crate::text::trim_end(q));
        assert forall|c: char| #[trigger] crate::text::trim_end(p).contains(c) implies p.contains(c) by {
            assert(q.contains(c));
            let k = choose|k: int| 0 <= k < q.len() && q[k] == c;
            assert(p[k] == c);
        }
    }
}

/// Every tracker read from a setting is a non-empty URL with an accepted
/// scheme, and none holds a comma.
pub proof fn lemma_tracker_list_entries(raw: Seq<char>)
    ensures
        forall|i: int|
            0 <= i < tracker_list(raw).len() ==> tracker_ok(#[trigger] tracker_list(raw)[i])
                && !tracker_list(raw)[i].contains(','),
{
    let parts = split_on(raw, ',');
    let trimmed = parts.map_values(|p: Seq<char>| trim(p));
    let ok = |t: Seq<char>| tracker_ok(t);
    lemma_split_pieces(raw, ',');
    assert forall|i: int| 0 <= i < tracker_list(raw).len() implies tracker_ok(
        #[trigger] tracker_list(raw)[i],
    ) && !tracker_list(raw)[i].contains(',') by {
        let t = tracker_list(raw)[i];
        trimmed.lemma_filter_pred(ok, i);
        assert(trimmed.filter(ok)[i] == t);
        assert(trimmed.filter(ok).contains(t));
        trimmed.lemma_filter_contains_rev(ok, t);
        assert(trimmed.contains(t));
        let k = choose|k: int| 0 <= k < trimmed.len() && trimmed[k] == t;
        assert(t == trim(parts[k]));
        lemma_trim_within(parts[k]);
        assert(!parts[k].contains(','));
    }
}

} // verus!
