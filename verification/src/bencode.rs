//! Bencoding, the serialisation used by `.torrent` descriptors.
use vstd::prelude::*;
use crate::text::{ascii_bytes, decimal, decimal_chars, int_chars, int_text, to_ascii_bytes};

verus! {

/// All the byte strings of `items`, one after the other.
pub open spec fn flatten<A>(items: Seq<Seq<A>>) -> Seq<A>
    decreases items.len(),
{
    if items.len() == 0 {
        Seq::empty()
    } else {
        flatten(items.drop_last()) + items.last()
    }
}

/// A byte vector's deep view is its view.
pub proof fn lemma_bytes_deep_view(v: Vec<u8>)
    ensures
        v.deep_view() == v@,
{
    assert(v.deep_view() =~= v@);
}

/// `i<decimal>e`.
pub open spec fn bencoded_int(v: int) -> Seq<u8> {
    seq![0x69u8] + ascii_bytes(int_text(v)) + seq![0x65u8]
}

/// `<length>:<bytes>`.
pub open spec fn bencoded_bytes(b: Seq<u8>) -> Seq<u8> {
    ascii_bytes(decimal(b.len())) + seq![0x3au8] + b
}

/// `l<items>e`, the items already encoded.
pub open spec fn bencoded_list(items: Seq<Seq<u8>>) -> Seq<u8> {
    seq![0x6cu8] + flatten(items) + seq![0x65u8]
}

/// `a` comes strictly before `b` in byte-wise lexicographic order (the
/// order of `str`).
pub open spec fn lex_lt(a: Seq<u8>, b: Seq<u8>) -> bool
    decreases a.len(),
{
    if b.len() == 0 {
        false
    } else if a.len() == 0 {
        true
    } else if a[0] != b[0] {
        a[0] < b[0]
    } else {
        lex_lt(a.drop_first(), b.drop_first())
    }
}

/// `e` placed after every entry of `s` whose key is not greater than its
/// own, and before the first whose key is greater.
pub open spec fn insert_entry(s: Seq<(Seq<u8>, Seq<u8>)>, e: (Seq<u8>, Seq<u8>)) -> Seq<
    (Seq<u8>, Seq<u8>),
>
    decreases s.len(),
{
    if s.len() == 0 {
        seq![e]
    } else if lex_lt(e.0, s[0].0) {
        seq![e] + s
    } else {
        seq![s[0]] + insert_entry(s.drop_first(), e)
    }
}

/// The entries in key order; entries with equal keys keep their order
/// (the result of a stable sort by key).
pub open spec fn sort_entries(s: Seq<(Seq<u8>, Seq<u8>)>) -> Seq<(Seq<u8>, Seq<u8>)>
    decreases s.len(),
{
    if s.len() == 0 {
        s
    } else {
        insert_entry(sort_entries(s.drop_last()), s.last())
    }
}

/// One dictionary entry: the key as a byte string, then the encoded value.
pub open spec fn bencoded_entry(e: (Seq<u8>, Seq<u8>)) -> Seq<u8> {
    bencoded_bytes(e.0) + e.1
}

/// `d<entries in key order>e`, each key being the UTF-8 bytes of its text.
pub open spec fn bencoded_dict(entries: Seq<(Seq<u8>, Seq<u8>)>) -> Seq<u8> {
    seq![0x64u8] + flatten(sort_entries(entries).map_values(|e: (Seq<u8>, Seq<u8>)| bencoded_entry(e)))
        + seq![0x65u8]
}

/// The (key bytes, value) view of dictionary entries.
pub open spec fn entries_view(entries: Seq<(&str, Vec<u8>)>) -> Seq<(Seq<u8>, Seq<u8>)> {
    entries.map_values(|e: (&str, Vec<u8>)| (vstd::utf8::encode_utf8(e.0@), e.1@))
}

pub fn append_bytes(out: &mut Vec<u8>, b: &[u8])
    ensures
        final(out)@ == old(out)@ + b@,
{
    let mut i: usize = 0;
    while i < b.len()
        invariant
            i <= b.len(),
            out@ == old(out)@ + b@.take(i as int),
        decreases b.len() - i,
    {
        out.push(b[i]);
        i += 1;
        assert(out@ =~= old(out)@ + b@.take(i as int));
    }
    assert(b@.take(b@.len() as int) =~= b@);
}

/// Encodes an integer.
pub fn bencode_int(value: i64) -> (r: Vec<u8>)
    ensures
        r@ == bencoded_int(value as int),
{
    let digits = to_ascii_bytes(&int_chars(value));
    let mut r: Vec<u8> = Vec::new();
    r.push(0x69u8);
    append_bytes(&mut r, digits.as_slice());
    r.push(0x65u8);
    assert(r@ =~= bencoded_int(value as int));
    r
}

/// Encodes a byte string.
pub fn bencode_bytes(value: &[u8]) -> (r: Vec<u8>)
    ensures
        r@ == bencoded_bytes(value@),
{
    let mut r = to_ascii_bytes(&decimal_chars(value.len() as u128));
    r.push(0x3au8);
    append_bytes(&mut r, value);
    assert(r@ =~= bencoded_bytes(value@));
    r
}

/// Encodes a list whose items are already encoded.
pub fn bencode_list(items: Vec<Vec<u8>>) -> (r: Vec<u8>)
    ensures
        r@ == bencoded_list(items.deep_view()),
{
    let mut r: Vec<u8> = Vec::new();
    r.push(0x6cu8);
    let mut i: usize = 0;
    while i < items.len()
        invariant
            i <= items.len(),
            r@ == seq![0x6cu8] + flatten(items.deep_view().take(i as int)),
        decreases items.len() - i,
    {
        append_bytes(&mut r, items[i].as_slice());
        i += 1;
        assert(items.deep_view().take(i as int).drop_last() =~= items.deep_view().take(i - 1));
        assert(r@ =~= seq![0x6cu8] + flatten(items.deep_view().take(i as int)));
    }
    assert(items.deep_view().take(i as int) =~= items.deep_view());
    r.push(0x65u8);
    assert(r@ =~= bencoded_list(items.deep_view()));
    r
}

fn bytes_lt(a: &[u8], b: &[u8]) -> (r: bool)
    ensures
        r == lex_lt(a@, b@),
{
    let mut i: usize = 0;
    assert(a@.skip(0) =~= a@);
    assert(b@.skip(0) =~= b@);
    while i < a.len() && i < b.len() && a[i] == b[i]
        invariant
            i <= a.len(),
            i <= b.len(),
            lex_lt(a@, b@) == lex_lt(a@.skip(i as int), b@.skip(i as int)),
        decreases a.len() - i,
    {
        assert(a@.skip(i as int).drop_first() =~= a@.skip(i + 1));
        assert(b@.skip(i as int).drop_first() =~= b@.skip(i + 1));
        i += 1;
    }
    if i == b.len() {
        false
    } else if i == a.len() {
        true
    } else {
        a[i] < b[i]
    }
}

proof fn lemma_insert_at(s: Seq<(Seq<u8>, Seq<u8>)>, e: (Seq<u8>, Seq<u8>), p: int)
    requires
        0 <= p <= s.len(),
        forall|j: int| 0 <= j < p ==> !lex_lt(e.0, #[trigger] s[j].0),
        p < s.len() ==> lex_lt(e.0, s[p].0),
    ensures
        insert_entry(s, e) == s.take(p) + seq![e] + s.skip(p),
    decreases s.len(),
{
    if s.len() == 0 {
        assert(s.take(p) + seq![e] + s.skip(p) =~= seq![e]);
    } else if p == 0 {
        assert(s.take(p) + seq![e] + s.skip(p) =~= seq![e] + s);
    } else {
        let t = s.drop_first();
        assert forall|j: int| 0 <= j < p - 1 implies !lex_lt(e.0, #[trigger] t[j].0) by {
            assert(t[j] == s[j + 1]);
        }
        lemma_insert_at(t, e, p - 1);
        assert(s.take(p) + seq![e] + s.skip(p) =~= seq![s[0]] + (t.take(p - 1) + seq![e] + t.skip(
            p - 1,
        )));
    }
}

/// Encodes a dictionary; the entries are written in key order.
pub fn bencode_dict(entries: Vec<(&str, Vec<u8>)>) -> (r: Vec<u8>)
    ensures
        r@ == bencoded_dict(entries_view(entries@)),
{
    let ghost ev = entries_view(entries@);
    let mut sorted: Vec<(Vec<u8>, Vec<u8>)> = Vec::new();
    let ghost mut sv: Seq<(Seq<u8>, Seq<u8>)> = Seq::empty();
    let mut i: usize = 0;
    while i < entries.len()
        invariant
            i <= entries.len(),
            ev == entries_view(entries@),
            sv.len() == sorted.len(),
            forall|j: int| 0 <= j < sv.len() ==> #[trigger] sv[j] == (sorted@[j].0@, sorted@[j].1@),
            sv == sort_entries(ev.take(i as int)),
        decreases entries.len() - i,
    {
        let key = entries[i].0.as_bytes();
        let mut p: usize = 0;
        while p < sorted.len() && !bytes_lt(key, sorted[p].0.as_slice())
            invariant
                p <= sorted.len(),
                sv.len() == sorted.len(),
                forall|j: int| 0 <= j < sv.len() ==> #[trigger] sv[j] == (sorted@[j].0@, sorted@[j].1@),
                forall|j: int| 0 <= j < p ==> !lex_lt(key@, #[trigger] sv[j].0),
            decreases sorted.len() - p,
        {
            assert(sv[p as int].0 == sorted@[p as int].0@);
            p += 1;
        }
        let mut kv: Vec<u8> = Vec::new();
        append_bytes(&mut kv, key);
        assert(kv@ =~= key@);
        let e = (kv, entries[i].1.clone());
        let ghost ee = (key@, entries@[i as int].1@);
        assert(ee == ev[i as int]);
        proof {
            if p < sv.len() {
                assert(sv[p as int].0 == sorted@[p as int].0@);
            }
            lemma_insert_at(sv, ee, p as int);
            assert(ev.take(i + 1).drop_last() =~= ev.take(i as int));
        }
        let ghost sv0 = sv;
        let ghost so0 = sorted@;
        sorted.insert(p, e);
        proof {
            sv = sv.take(p as int) + seq![ee] + sv.skip(p as int);
        }
        assert forall|j: int| 0 <= j < sv.len() implies #[trigger] sv[j] == (
            sorted@[j].0@,
            sorted@[j].1@,
        ) by {
            if j < p {
                assert(sv[j] == sv0[j]);
                assert(sorted@[j] == so0[j]);
            } else if j == p {
            } else {
                assert(sv[j] == sv0[j - 1]);
                assert(sorted@[j] == so0[j - 1]);
            }
        }
        i += 1;
    }
    assert(ev.take(i as int) =~= ev);
    let ghost enc = sv.map_values(|e: (Seq<u8>, Seq<u8>)| bencoded_entry(e));
    let mut r: Vec<u8> = Vec::new();
    r.push(0x64u8);
    let mut k: usize = 0;
    while k < sorted.len()
        invariant
            k <= sorted.len(),
            sv.len() == sorted.len(),
            forall|j: int| 0 <= j < sv.len() ==> #[trigger] sv[j] == (sorted@[j].0@, sorted@[j].1@),
            enc == sv.map_values(|e: (Seq<u8>, Seq<u8>)| bencoded_entry(e)),
            r@ == seq![0x64u8] + flatten(enc.take(k as int)),
        decreases sorted.len() - k,
    {
        let kb = bencode_bytes(sorted[k].0.as_slice());
        append_bytes(&mut r, kb.as_slice());
        append_bytes(&mut r, sorted[k].1.as_slice());
        assert(enc[k as int] == bencoded_entry(sv[k as int]));
        k += 1;
        assert(enc.take(k as int).drop_last() =~= enc.take(k - 1));
        assert(r@ =~= seq![0x64u8] + flatten(enc.take(k as int)));
    }
    assert(enc.take(k as int) =~= enc);
    r.push(0x65u8);
    assert(r@ =~= bencoded_dict(ev));
    r
}

/// Entries whose keys never decrease.
pub open spec fn keys_sorted(s: Seq<(Seq<u8>, Seq<u8>)>) -> bool {
    forall|i: int, j: int| 0 <= i < j < s.len() ==> !lex_lt(#[trigger] s[j].0, #[trigger] s[i].0)
}

proof fn lemma_lex_irreflexive(a: Seq<u8>)
    ensures
        !lex_lt(a, a),
    decreases a.len(),
{
    if a.len() > 0 {
        lemma_lex_irreflexive(a.drop_first());
    }
}

proof fn lemma_lex_transitive(a: Seq<u8>, b: Seq<u8>, c: Seq<u8>)
    requires
        lex_lt(a, b),
        lex_lt(b, c),
    ensures
        lex_lt(a, c),
    decreases a.len(),
{
    if a.len() > 0 && b.len() > 0 && c.len() > 0 && a[0] == b[0] && b[0] == c[0] {
        lemma_lex_transitive(a.drop_first(), b.drop_first(), c.drop_first());
    }
}

proof fn lemma_insert_entry(s: Seq<(Seq<u8>, Seq<u8>)>, e: (Seq<u8>, Seq<u8>))
    requires
        keys_sorted(s),
    ensures
        keys_sorted(insert_entry(s, e)),
        insert_entry(s, e).to_multiset() == s.to_multiset().insert(e),
    decreases s.len(),
{
    broadcast use vstd::seq_lib::group_to_multiset_ensures;

    if s.len() == 0 {
        assert(seq![e] =~= s.insert(0, e));
    } else if lex_lt(e.0, s[0].0) {
        let r = seq![e] + s;
        assert(r =~= s.insert(0, e));
        assert forall|i: int, j: int| 0 <= i < j < r.len() implies !lex_lt(#[trigger] r[j].0, #[trigger] r[i].0) by {
            if i == 0 {
                if lex_lt(r[j].0, e.0) {
                    lemma_lex_transitive(r[j].0, e.0, s[0].0);
                    if j == 1 {
                        lemma_lex_irreflexive(s[0].0);
                    } else {
                        assert(!lex_lt(s[j - 1].0, s[0].0));
                    }
                }
            } else {
                assert(r[i] == s[i - 1] && r[j] == s[j - 1]);
            }
        }
    } else {
        let t = s.drop_first();
        assert(keys_sorted(t)) by {
            assert forall|i: int, j: int| 0 <= i < j < t.len() implies !lex_lt(#[trigger] t[j].0, #[trigger] t[i].0) by {
                assert(t[i] == s[i + 1] && t[j] == s[j + 1]);
            }
        }
        lemma_insert_entry(t, e);
        let it = insert_entry(t, e);
        let r = seq![s[0]] + it;
        assert(r =~= it.insert(0, s[0]));
        assert(s =~= t.insert(0, s[0]));
        assert(t.to_multiset().insert(e).insert(s[0]) =~= t.to_multiset().insert(s[0]).insert(e));
        assert forall|i: int, j: int| 0 <= i < j < r.len() implies !lex_lt(#[trigger] r[j].0, #[trigger] r[i].0) by {
            if i == 0 {
                assert(r[j] == it[j - 1]);
                assert(it.to_multiset().count(it[j - 1]) > 0);
                assert(t.to_multiset().insert(e).count(it[j - 1]) > 0);
                if it[j - 1] != e {
                    assert(t.to_multiset().count(it[j - 1]) > 0);
                    assert(t.contains(it[j - 1]));
                    let k = choose|k: int| 0 <= k < t.len() && t[k] == it[j - 1];
                    assert(s[k + 1] == t[k]);
                }
            } else {
                assert(r[i] == it[i - 1] && r[j] == it[j - 1]);
            }
        }
    }
}

/// Sorting dictionary entries puts their keys in order and keeps every
/// entry, as many times as it was given.
pub proof fn lemma_sort_entries(s: Seq<(Seq<u8>, Seq<u8>)>)
    ensures
        keys_sorted(sort_entries(s)),
        sort_entries(s).to_multiset() == s.to_multiset(),
    decreases s.len(),
{
    broadcast use vstd::seq_lib::group_to_multiset_ensures;

    if s.len() > 0 {
        lemma_sort_entries(s.drop_last());
        lemma_insert_entry(sort_entries(s.drop_last()), s.last());
        assert(s =~= s.drop_last().push(s.last()));
    }
}


/// No key occurs twice.
pub open spec fn keys_distinct(s: Seq<(Seq<u8>, Seq<u8>)>) -> bool {
    forall|i: int, j: int| 0 <= i < j < s.len() ==> #[trigger] s[i].0 != #[trigger] s[j].0
}

proof fn lemma_lex_total(a: Seq<u8>, b: Seq<u8>)
    requires
        a != b,
    ensures
        lex_lt(a, b) || lex_lt(b, a),
    decreases a.len(),
{
    if a.len() > 0 && b.len() > 0 && a[0] == b[0] {
        if a.drop_first() == b.drop_first() {
            assert(a =~= seq![a[0]] + a.drop_first());
            assert(b =~= seq![b[0]] + b.drop_first());
        }
        lemma_lex_total(a.drop_first(), b.drop_first());
    } else if a.len() == 0 && b.len() == 0 {
        assert(a =~= b);
    }
}

proof fn lemma_insert_distinct(s: Seq<(Seq<u8>, Seq<u8>)>, e: (Seq<u8>, Seq<u8>))
    requires
        keys_distinct(s),
        forall|j: int| 0 <= j < s.len() ==> (#[trigger] s[j]).0 != e.0,
    ensures
        keys_distinct(insert_entry(s, e)),
        forall|k: int|
            0 <= k < insert_entry(s, e).len() ==> #[trigger] insert_entry(s, e)[k] == e || s.contains(
                insert_entry(s, e)[k],
            ),
    decreases s.len(),
{
    if s.len() == 0 {
    } else if lex_lt(e.0, s[0].0) {
        let r = seq![e] + s;
        assert forall|k: int| 0 <= k < r.len() implies #[trigger] r[k] == e || s.contains(r[k]) by {
            if k > 0 {
                assert(r[k] == s[k - 1]);
            }
        }
        assert forall|i: int, j: int| 0 <= i < j < r.len() implies #[trigger] r[i].0 != #[trigger] r[j].0 by {
            assert(r[j] == s[j - 1]);
            if i > 0 {
                assert(r[i] == s[i - 1]);
            }
        }
    } else {
        let t = s.drop_first();
        assert forall|j: int| 0 <= j < t.len() implies (#[trigger] t[j]).0 != e.0 by {
            assert(t[j] == s[j + 1]);
        }
        assert forall|i: int, j: int| 0 <= i < j < t.len() implies #[trigger] t[i].0 != #[trigger] t[j].0 by {
            assert(t[i] == s[i + 1] && t[j] == s[j + 1]);
        }
        lemma_insert_distinct(t, e);
        let it = insert_entry(t, e);
        let r = seq![s[0]] + it;
        assert(r == insert_entry(s, e));
        assert forall|k: int| 0 <= k < r.len() implies #[trigger] r[k] == e || s.contains(r[k]) by {
            if k == 0 {
                assert(s[0] == r[0]);
            } else {
                assert(r[k] == it[k - 1]);
                if it[k - 1] != e {
                    let m = choose|m: int| 0 <= m < t.len() && t[m] == it[k - 1];
                    assert(s[m + 1] == r[k]);
                }
            }
        }
        assert forall|i: int, j: int| 0 <= i < j < r.len() implies #[trigger] r[i].0 != #[trigger] r[j].0 by {
            assert(r[j] == it[j - 1]);
            if i > 0 {
                assert(r[i] == it[i - 1]);
            } else if it[j - 1] != e {
                let m = choose|m: int| 0 <= m < t.len() && t[m] == it[j - 1];
                assert(s[m + 1] == it[j - 1]);
            } else {
                assert(s[0].0 != e.0);
            }
        }
    }
}

proof fn lemma_sort_distinct(s: Seq<(Seq<u8>, Seq<u8>)>)
    requires
        keys_distinct(s),
    ensures
        keys_distinct(sort_entries(s)),
        forall|k: int| 0 <= k < sort_entries(s).len() ==> s.contains(#[trigger] sort_entries(s)[k]),
    decreases s.len(),
{
    if s.len() > 0 {
        let d = s.drop_last();
        assert forall|i: int, j: int| 0 <= i < j < d.len() implies #[trigger] d[i].0 != #[trigger] d[j].0 by {
            assert(d[i] == s[i] && d[j] == s[j]);
        }
        lemma_sort_distinct(d);
        let sd = sort_entries(d);
        assert forall|j: int| 0 <= j < sd.len() implies (#[trigger] sd[j]).0 != s.last().0 by {
            let m = choose|m: int| 0 <= m < d.len() && d[m] == sd[j];
            assert(s[m] == sd[j]);
            assert(s[s.len() - 1] == s.last());
        }
        lemma_insert_distinct(sd, s.last());
        let r = sort_entries(s);
        assert forall|k: int| 0 <= k < r.len() implies s.contains(#[trigger] r[k]) by {
            if r[k] == s.last() {
                assert(s[s.len() - 1] == r[k]);
            } else {
                assert(sd.contains(r[k]));
                let n = choose|n: int| 0 <= n < sd.len() && sd[n] == r[k];
                assert(d.contains(sd[n]));
                let m = choose|m: int| 0 <= m < d.len() && d[m] == sd[n];
                assert(s[m] == r[k]);
            }
        }
    }
}

/// Two key-ordered entry lists holding the same entries, no key twice, are
/// the same list.
proof fn lemma_sorted_unique(x: Seq<(Seq<u8>, Seq<u8>)>, y: Seq<(Seq<u8>, Seq<u8>)>)
    requires
        keys_sorted(x),
        keys_sorted(y),
        keys_distinct(x),
        x.to_multiset() == y.to_multiset(),
    ensures
        x == y,
    decreases x.len(),
{
    broadcast use vstd::seq_lib::group_to_multiset_ensures;

    vstd::seq_lib::to_multiset_len(x);
    vstd::seq_lib::to_multiset_len(y);
    if x.len() == 0 {
        assert(y.len() == 0);
        assert(x =~= y);
    } else {
        assert(y.len() == x.len());
        assert(x.to_multiset().count(x[0]) > 0);
        assert(y.contains(x[0]));
        let k = choose|k: int| 0 <= k < y.len() && y[k] == x[0];
        assert(y.to_multiset().count(y[0]) > 0);
        assert(x.contains(y[0]));
        let m = choose|m: int| 0 <= m < x.len() && x[m] == y[0];
        if x[0].0 != y[0].0 {
            lemma_lex_total(x[0].0, y[0].0);
            if k > 0 {
                assert(!lex_lt(y[k].0, y[0].0));
            }
            if m > 0 {
                assert(!lex_lt(x[m].0, x[0].0));
            }
        }
        if m > 0 {
            assert(x[0].0 != x[m].0);
        }
        assert(y[0] == x[0]);
        let (x1, y1) = (x.drop_first(), y.drop_first());
        assert(x =~= x1.insert(0, x[0]));
        assert(y =~= y1.insert(0, y[0]));
        assert(x1.to_multiset().insert(x[0]) == y1.to_multiset().insert(x[0]));
        assert(x1.to_multiset() =~= y1.to_multiset()) by {
            assert forall|v| x1.to_multiset().count(v) == y1.to_multiset().count(v) by {
                assert(x1.to_multiset().insert(x[0]).count(v) == y1.to_multiset().insert(x[0]).count(v));
            }
        }
        assert(keys_sorted(x1)) by {
            assert forall|i: int, j: int| 0 <= i < j < x1.len() implies !lex_lt(#[trigger] x1[j].0, #[trigger] x1[i].0) by {
                assert(x1[i] == x[i + 1] && x1[j] == x[j + 1]);
            }
        }
        assert(keys_sorted(y1)) by {
            assert forall|i: int, j: int| 0 <= i < j < y1.len() implies !lex_lt(#[trigger] y1[j].0, #[trigger] y1[i].0) by {
                assert(y1[i] == y[i + 1] && y1[j] == y[j + 1]);
            }
        }
        assert(keys_distinct(x1)) by {
            assert forall|i: int, j: int| 0 <= i < j < x1.len() implies #[trigger] x1[i].0 != #[trigger] x1[j].0 by {
                assert(x1[i] == x[i + 1] && x1[j] == x[j + 1]);
            }
        }
        lemma_sorted_unique(x1, y1);
        assert(x =~= y);
    }
}

/// The bytes of a dictionary do not depend on the order its entries are
/// given in, as long as no key is given twice.
pub proof fn lemma_dict_order_irrelevant(a: Seq<(Seq<u8>, Seq<u8>)>, b: Seq<(Seq<u8>, Seq<u8>)>)
    requires
        a.to_multiset() == b.to_multiset(),
        keys_distinct(a),
    ensures
        bencoded_dict(a) == bencoded_dict(b),
{
    lemma_sort_entries(a);
    lemma_sort_entries(b);
    lemma_sort_distinct(a);
    lemma_sorted_unique(sort_entries(a), sort_entries(b));
}

} // verus!
