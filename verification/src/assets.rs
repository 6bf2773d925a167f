//! The WebTorrent script served to download pages: the module build ends
//! in `export{X as default}`, which is rewritten into an assignment to
//! `globalThis.WebTorrent` so that a classic `<script>` can load it.
use vstd::prelude::*;
use crate::text::{append_chars, chars_of, is_white, string_from, string_of, trim_start, white};
use crate::trackers::{replace_all, replace_chars};

verus! {

/// `p` occurs in `s` at position `i`.
pub open spec fn occurs_at(s: Seq<char>, p: Seq<char>, i: int) -> bool {
    0 <= i && i + p.len() <= s.len() && s.subrange(i, i + p.len() as int) == p
}

/// The last position at which `p` occurs in `s` (what `str::rfind` finds).
pub open spec fn last_occurrence(s: Seq<char>, p: Seq<char>) -> Option<int> {
    if exists|i: int| occurs_at(s, p, i) {
        Some(choose|i: int| occurs_at(s, p, i) && forall|j: int| occurs_at(s, p, j) ==> j <= i)
    } else {
        None
    }
}

/// The first position at or after `from` holding `c`.
pub open spec fn first_from(s: Seq<char>, c: char, from: int) -> Option<int> {
    if exists|k: int| from <= k < s.len() && s[k] == c {
        Some(choose|k: int| from <= k < s.len() && s[k] == c && forall|j: int| from <= j < k ==> s[j] != c)
    } else {
        None
    }
}

/// The characters of `u` up to its first white space.
pub open spec fn take_word(u: Seq<char>) -> Seq<char>
    decreases u.len(),
{
    if u.len() == 0 || is_white(u[0]) {
        Seq::empty()
    } else {
        seq![u[0]] + take_word(u.drop_first())
    }
}

/// The first white-space separated word of `t` (what
/// `split_whitespace().next()` gives), or `_WT` when it has none.
pub open spec fn export_name(t: Seq<char>) -> Seq<char> {
    if trim_start(t).len() == 0 {
        "_WT"@
    } else {
        take_word(trim_start(t))
    }
}

/// The script with its last `export{X ...}` replaced by
/// `globalThis.WebTorrent=X;` (everything from `export{` on is dropped);
/// unchanged when it has no `export{` followed by a `}`. The `}` looked
/// for is the first after `export{`.
pub open spec fn patched_script(s: Seq<char>) -> Seq<char> {
    match last_occurrence(s, "export{"@) {
        None => s,
        Some(pos) => match first_from(s, '}', pos + 7) {
            None => s,
            Some(close) => s.take(pos) + "globalThis.WebTorrent="@ + export_name(
                s.subrange(pos + 7, close),
            ) + ";"@,
        },
    }
}

fn occurs_exec(v: &Vec<char>, i: usize, p: &Vec<char>) -> (r: bool)
    requires
        i <= v.len(),
    ensures
        r == occurs_at(v@, p@, i as int),
{
    if p.len() > v.len() - i {
        return false;
    }
    let mut k: usize = 0;
    while k < p.len()
        invariant
            k <= p.len(),
            i + p.len() <= v.len(),
            forall|j: int| 0 <= j < k ==> v@[i + j] == p@[j],
        decreases p.len() - k,
    {
        if v[i + k] != p[k] {
            assert(v@.subrange(i as int, i + p.len())[k as int] != p@[k as int]);
            return false;
        }
        k += 1;
    }
    assert(v@.subrange(i as int, i + p.len()) =~= p@);
    true
}

fn last_occurrence_exec(v: &Vec<char>, p: &Vec<char>) -> (r: Option<usize>)
    ensures
        match r {
            Some(i) => i <= v.len() && occurs_at(v@, p@, i as int) && last_occurrence(v@, p@) == Some(
                i as int,
            ),
            None => last_occurrence(v@, p@) is None,
        },
{
    let mut i = v.len();
    loop
        invariant
            i <= v.len(),
            forall|j: int| j > i ==> !occurs_at(v@, p@, j),
        decreases i,
    {
        if occurs_exec(v, i, p) {
            proof {
                let k = choose|k: int| occurs_at(v@, p@, k) && forall|j: int| occurs_at(v@, p@, j) ==> j <= k;
                assert(occurs_at(v@, p@, i as int));
                assert(k == i as int) by {
                    if k > i {
                    } else if k < i {
                        assert(occurs_at(v@, p@, i as int));
                    }
                }
            }
            return Some(i);
        }
        if i == 0 {
            assert forall|j: int| !occurs_at(v@, p@, j) by {
                if j >= 0 && j <= 0 {
                    assert(j == 0);
                }
            }
            return None;
        }
        i -= 1;
    }
}

fn first_from_exec(v: &Vec<char>, c: char, from: usize) -> (r: Option<usize>)
    requires
        from <= v.len(),
    ensures
        match r {
            Some(k) => from <= k < v.len() && first_from(v@, c, from as int) == Some(k as int),
            None => first_from(v@, c, from as int) is None,
        },
{
    let mut k = from;
    while k < v.len()
        invariant
            from <= k <= v.len(),
            forall|j: int| from <= j < k ==> v@[j] != c,
        decreases v.len() - k,
    {
        if v[k] == c {
            proof {
                let m = choose|m: int|
                    from <= m < v@.len() && v@[m] == c && forall|j: int| from <= j < m ==> v@[j] != c;
                assert(v@[k as int] == c);
                assert(m == k as int) by {
                    if m < k {
                        assert(v@[m] != c);
                    } else if m > k {
                        assert(v@[k as int] != c);
                    }
                }
            }
            return Some(k);
        }
        k += 1;
    }
    None
}

/// Bounds of the first word of `v[lo..hi]`: where it starts after the
/// leading white space, and where it ends.
fn word_bounds(v: &Vec<char>, lo: usize, hi: usize) -> (r: (usize, usize))
    requires
        lo <= hi <= v.len(),
    ensures
        lo <= r.0 <= r.1 <= hi,
        v@.subrange(r.0 as int, hi as int) == trim_start(v@.subrange(lo as int, hi as int)),
        v@.subrange(r.0 as int, r.1 as int) == take_word(trim_start(v@.subrange(lo as int, hi as int))),
{
    let mut a = lo;
    while a < hi && white(v[a])
        invariant
            lo <= a <= hi <= v.len(),
            trim_start(v@.subrange(lo as int, hi as int)) == trim_start(v@.subrange(a as int, hi as int)),
        decreases hi - a,
    {
        assert(v@.subrange(a as int, hi as int).drop_first() =~= v@.subrange(a + 1, hi as int));
        a += 1;
    }
    let ghost t = v@.subrange(a as int, hi as int);
    assert(trim_start(t) == t);
    let mut b = a;
    while b < hi && !white(v[b])
        invariant
            a <= b <= hi <= v.len(),
            t == v@.subrange(a as int, hi as int),
            take_word(t) == v@.subrange(a as int, b as int) + take_word(v@.subrange(b as int, hi as int)),
        decreases hi - b,
    {
        let ghost rest = v@.subrange(b as int, hi as int);
        assert(rest.drop_first() =~= v@.subrange(b + 1, hi as int));
        assert(take_word(rest) == seq![v@[b as int]] + take_word(rest.drop_first()));
        assert(v@.subrange(a as int, b + 1) =~= v@.subrange(a as int, b as int) + seq![v@[b as int]]);
        b += 1;
    }
    assert(take_word(v@.subrange(b as int, hi as int)) =~= Seq::<char>::empty());
    assert(v@.subrange(a as int, b as int) + Seq::<char>::empty() =~= v@.subrange(a as int, b as int));
    (a, b)
}

/// Rewrites the module build of the WebTorrent script so that it loads as
/// a classic script.
pub fn get_webtorrent_js(src: &str) -> (r: String)
    ensures
        r@ == patched_script(src@),
{
    let v = chars_of(src);
    let pat = chars_of("export{");
    proof {
        reveal_strlit("export{");
    }
    match last_occurrence_exec(&v, &pat) {
        None => string_of(&v),
        Some(pos) => {
            assert(occurs_at(v@, pat@, pos as int));
            match first_from_exec(&v, '}', pos + 7) {
                None => string_of(&v),
                Some(close) => {
                    let (a, b) = word_bounds(&v, pos + 7, close);
                    let mut r = string_from(&v, 0, pos);
                    append_chars(&mut r, &chars_of("globalThis.WebTorrent="));
                    if a == close {
                        append_chars(&mut r, &chars_of("_WT"));
                    } else {
                        let word = string_from(&v, a, b);
                        append_chars(&mut r, &chars_of(word.as_str()));
                    }
                    append_chars(&mut r, &chars_of(";"));
                    assert(v@.subrange(0, pos as int) =~= v@.take(pos as int));
                    r
                },
            }
        },
    }
}

/// Placeholder in the download page for the application's version.
pub open spec fn version_placeholder() -> Seq<char> {
    "__APP_VERSION__"@
}

/// The download page with each version placeholder replaced by `version`.
pub fn download_page(html: &str, version: &str) -> (r: String)
    ensures
        r@ == replace_all(html@, version_placeholder(), version@),
{
    let pat = chars_of("__APP_VERSION__");
    proof {
        reveal_strlit("__APP_VERSION__");
    }
    string_of(&replace_chars(&chars_of(html), &pat, &chars_of(version)))
}

/// What field `key` of a JSON document is, when the document parses as
/// JSON and the field holds a string.
pub uninterp spec fn json_field(json: Seq<char>, key: Seq<char>) -> Option<Seq<char>>;

/// Calls `serde_json::from_str::<serde_json::Value>` on `json`, then
/// `Value::get` with `key` and `Value::as_str`. The result depends on the
/// two texts alone.
#[verifier::external_body]
fn config_field(json: &str, key: &str) -> (r: Option<String>)
    ensures
        opt_string(r) == json_field(json@, key@),
{
    match serde_json::from_str::<serde_json::Value>(json) {
        Ok(v) => v.get(key).and_then(serde_json::Value::as_str).map(String::from),
        Err(_) => None,
    }
}

pub open spec fn opt_string(o: Option<String>) -> Option<Seq<char>> {
    match o {
        Some(s) => Some(s@),
        None => None,
    }
}

/// The version found in the configuration, else the package's.
pub fn app_version_from(found: Option<String>, package_version: &str) -> (r: String)
    ensures
        r@ == match opt_string(found) {
            Some(v) => v,
            None => package_version@,
        },
{
    match found {
        Some(v) => v,
        None => string_of(&chars_of(package_version)),
    }
}

/// The application's version: the `version` of its configuration (JSON),
/// else the package's version.
pub fn current_app_version(config_json: &str, package_version: &str) -> (r: String)
    ensures
        r@ == match json_field(config_json@, "version"@) {
            Some(v) => v,
            None => package_version@,
        },
{
    app_version_from(config_field(config_json, "version"), package_version)
}

} // verus!
