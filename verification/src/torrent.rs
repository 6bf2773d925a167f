//! Seeding metadata for one shared file: piece layout, the `.torrent`
//! descriptor, its info hash, the magnet link, and the reusable descriptor
//! kept beside the file.
use vstd::prelude::*;
use vstd::utf8::encode_utf8;
use crate::bencode::{
    bencode_bytes, bencode_dict, bencode_int, bencode_list, bencoded_bytes, bencoded_dict,
    bencoded_int, bencoded_list, entries_view, flatten, lemma_bytes_deep_view,
};
use crate::codec::{
    base64_decode, base64_decoded, base64_encode, base64_text, decode_error_text, hex_encode,
    hex_lower, lemma_hex_len, sha1, sha1_digest, url_encode, url_encoded,
};
use crate::text::{append_chars, chars_of, decimal, decimal_chars};

verus! {

/// Piece length for a file: 256 KiB up to 256 MiB, 512 KiB up to 1 GiB,
/// 1 MiB up to 4 GiB, 2 MiB above.
pub open spec fn piece_size_spec(file_size: u64) -> nat {
    if file_size <= 256 * 1024 * 1024 {
        256 * 1024
    } else if file_size <= 1024 * 1024 * 1024 {
        512 * 1024
    } else if file_size <= 4 * 1024 * 1024 * 1024 {
        1024 * 1024
    } else {
        2 * 1024 * 1024
    }
}

/// Chooses the piece length for a file of `file_size` bytes.
pub fn piece_size_for_file(file_size: u64) -> (r: usize)
    ensures
        r == piece_size_spec(file_size),
{
    if file_size <= 256 * 1024 * 1024 {
        256 * 1024
    } else if file_size <= 1024 * 1024 * 1024 {
        512 * 1024
    } else if file_size <= 4 * 1024 * 1024 * 1024 {
        1024 * 1024
    } else {
        2 * 1024 * 1024
    }
}

/// Number of pieces: one for an empty file, else the size (as a `usize`)
/// divided by the piece length, rounded up.
pub open spec fn piece_count_spec(file_size: u64, piece_size: int) -> int {
    if file_size == 0 {
        1
    } else {
        (((file_size as usize) as int) + piece_size - 1) / piece_size
    }
}

/// The piece length and the number of pieces for a file of `file_size` bytes.
pub fn seed_layout(file_size: u64) -> (r: (usize, usize))
    ensures
        r.0 == piece_size_spec(file_size),
        r.1 == piece_count_spec(file_size, r.0 as int),
{
    let piece_size = piece_size_for_file(file_size);
    if file_size == 0 {
        (piece_size, 1)
    } else {
        let n = file_size as usize;
        let q = n / piece_size;
        assert(q < usize::MAX) by (nonlinear_arith)
            requires
                q as int == (n as int) / (piece_size as int),
                piece_size > 1,
                n <= usize::MAX,
        ;
        let count = if n % piece_size == 0 {
            q
        } else {
            q + 1
        };
        let ghost ni = n as int;
        let ghost pi = piece_size as int;
        assert(count == (ni + pi - 1) / pi) by (nonlinear_arith)
            requires
                pi > 0,
                q as int == ni / pi,
                ni >= 0,
                ni % pi == 0 ==> count == q,
                ni % pi != 0 ==> count == q + 1,
        ;
        (piece_size, count)
    }
}

pub open spec fn utf8(s: Seq<char>) -> Seq<u8> {
    encode_utf8(s)
}

/// The bencoded `info` dictionary of a single-file torrent.
pub open spec fn info_dict(name: Seq<char>, file_size: u64, piece_size: usize, pieces: Seq<u8>) -> Seq<u8> {
    bencoded_dict(
        seq![
            (utf8("length"@), bencoded_int((file_size as i64) as int)),
            (utf8("name"@), bencoded_bytes(utf8(name))),
            (utf8("piece length"@), bencoded_int((piece_size as i64) as int)),
            (utf8("pieces"@), bencoded_bytes(pieces)),
        ],
    )
}

/// The info hash: the SHA-1 of the `info` dictionary, in lowercase hex.
pub open spec fn info_hash_spec(name: Seq<char>, file_size: u64, piece_size: usize, pieces: Seq<u8>) -> Seq<char> {
    hex_lower(sha1_digest(info_dict(name, file_size, piece_size, pieces)))
}

/// The entries of the top-level torrent dictionary.
pub open spec fn torrent_entries(
    trackers: Seq<Seq<char>>,
    web_seed_url: Seq<char>,
    creation_date: i64,
    info: Seq<u8>,
) -> Seq<(Seq<u8>, Seq<u8>)> {
    (if trackers.len() > 0 {
        seq![
            (utf8("announce"@), bencoded_bytes(utf8(trackers[0]))),
            (
                utf8("announce-list"@),
                bencoded_list(
                    trackers.map_values(|t: Seq<char>| bencoded_list(seq![bencoded_bytes(utf8(t))])),
                ),
            ),
        ]
    } else {
        Seq::empty()
    }) + seq![
        (utf8("created by"@), bencoded_bytes(utf8("mesh-p2p"@))),
        (utf8("creation date"@), bencoded_int(creation_date as int)),
        (utf8("info"@), info),
        (utf8("url-list"@), bencoded_list(seq![bencoded_bytes(utf8(web_seed_url))])),
    ]
}

/// The creation date written into a descriptor made at `now_ms`.
pub open spec fn creation_date(now_ms: u128) -> i64 {
    (now_ms / 1000) as i64
}

/// The bytes of the `.torrent` descriptor.
pub open spec fn torrent_file(
    name: Seq<char>,
    file_size: u64,
    piece_size: usize,
    pieces: Seq<u8>,
    trackers: Seq<Seq<char>>,
    web_seed_url: Seq<char>,
    now_ms: u128,
) -> Seq<u8> {
    bencoded_dict(
        torrent_entries(
            trackers,
            web_seed_url,
            creation_date(now_ms),
            info_dict(name, file_size, piece_size, pieces),
        ),
    )
}

/// Builds the `.torrent` descriptor and its info hash.
pub fn build_torrent_bytes(
    display_name: &str,
    file_size: u64,
    piece_size: usize,
    piece_hashes: &[u8],
    trackers: &[String],
    web_seed_url: &str,
    now_ms: u128,
) -> (r: (Vec<u8>, String))
    ensures
        r.0@ == torrent_file(
            display_name@,
            file_size,
            piece_size,
            piece_hashes@,
            trackers.deep_view(),
            web_seed_url@,
            now_ms,
        ),
        r.1@ == info_hash_spec(display_name@, file_size, piece_size, piece_hashes@),
        r.1@.len() == 40,
{
    let mut info_entries: Vec<(&str, Vec<u8>)> = Vec::new();
    info_entries.push(("length", bencode_int(file_size as i64)));
    info_entries.push(("name", bencode_bytes(display_name.as_bytes())));
    info_entries.push(("piece length", bencode_int(piece_size as i64)));
    info_entries.push(("pieces", bencode_bytes(piece_hashes)));
    assert(entries_view(info_entries@) =~= seq![
        (utf8("length"@), bencoded_int((file_size as i64) as int)),
        (utf8("name"@), bencoded_bytes(utf8(display_name@))),
        (utf8("piece length"@), bencoded_int((piece_size as i64) as int)),
        (utf8("pieces"@), bencoded_bytes(piece_hashes@)),
    ]);
    let info_bytes = bencode_dict(info_entries);
    let digest = sha1(info_bytes.as_slice());
    let info_hash = hex_encode(digest.as_slice());
    proof {
        lemma_hex_len(digest@);
    }

    let ghost tv = trackers.deep_view();
    let mut root: Vec<(&str, Vec<u8>)> = Vec::new();
    if trackers.len() > 0 {
        root.push(("announce", bencode_bytes(trackers[0].as_str().as_bytes())));
        let mut lists: Vec<Vec<u8>> = Vec::new();
        let mut i: usize = 0;
        while i < trackers.len()
            invariant
                i <= trackers.len(),
                tv == trackers.deep_view(),
                lists.deep_view() == tv.take(i as int).map_values(
                    |t: Seq<char>| bencoded_list(seq![bencoded_bytes(utf8(t))]),
                ),
            decreases trackers.len() - i,
        {
            let mut one: Vec<Vec<u8>> = Vec::new();
            one.push(bencode_bytes(trackers[i].as_str().as_bytes()));
            proof {
                lemma_bytes_deep_view(one@[0]);
            }
            assert(one.deep_view() =~= seq![bencoded_bytes(utf8(tv[i as int]))]);
            let ghost before = lists.deep_view();
            let item = bencode_list(one);
            lists.push(item);
            proof {
                lemma_bytes_deep_view(item);
            }
            assert(lists.deep_view() =~= before.push(item@));
            i += 1;
            assert(lists.deep_view() =~= tv.take(i as int).map_values(
                |t: Seq<char>| bencoded_list(seq![bencoded_bytes(utf8(t))]),
            ));
        }
        assert(tv.take(i as int) =~= tv);
        root.push(("announce-list", bencode_list(lists)));
    }
    root.push(("created by", bencode_bytes("mesh-p2p".as_bytes())));
    root.push(("creation date", bencode_int((now_ms / 1000) as i64)));
    root.push(("info", info_bytes));
    let mut seeds: Vec<Vec<u8>> = Vec::new();
    seeds.push(bencode_bytes(web_seed_url.as_bytes()));
    proof {
        lemma_bytes_deep_view(seeds@[0]);
    }
    assert(seeds.deep_view() =~= seq![bencoded_bytes(utf8(web_seed_url@))]);
    root.push(("url-list", bencode_list(seeds)));
    assert(entries_view(root@) =~= torrent_entries(
        tv,
        web_seed_url@,
        creation_date(now_ms),
        info_dict(display_name@, file_size, piece_size, piece_hashes@),
    ));
    (bencode_dict(root), info_hash)
}

/// `magnet:?xt=urn:btih:<hash>&dn=<name>&xl=<size>`, then `&tr=<tracker>` for
/// each tracker in order, then `&ws=<web seed>`, with name, trackers and web
/// seed percent-encoded.
pub open spec fn magnet_spec(
    info_hash: Seq<char>,
    file_name: Seq<char>,
    file_size: u64,
    trackers: Seq<Seq<char>>,
    web_seed_url: Seq<char>,
) -> Seq<char> {
    "magnet:?xt=urn:btih:"@ + info_hash + "&dn="@ + url_encoded(utf8(file_name)) + "&xl="@
        + decimal(file_size as nat) + flatten(
        trackers.map_values(|t: Seq<char>| "&tr="@ + url_encoded(utf8(t))),
    ) + "&ws="@ + url_encoded(utf8(web_seed_url))
}

/// A magnet link without trackers: hash, name and size, then the web seed.
pub proof fn lemma_magnet_without_trackers(
    info_hash: Seq<char>,
    file_name: Seq<char>,
    file_size: u64,
    web_seed_url: Seq<char>,
)
    ensures
        magnet_spec(info_hash, file_name, file_size, Seq::empty(), web_seed_url) == "magnet:?xt=urn:btih:"@
            + info_hash + "&dn="@ + url_encoded(utf8(file_name)) + "&xl="@ + decimal(file_size as nat)
            + "&ws="@ + url_encoded(utf8(web_seed_url)),
{
    let f = |t: Seq<char>| "&tr="@ + url_encoded(utf8(t));
    assert(Seq::<Seq<char>>::empty().map_values(f) =~= Seq::<Seq<char>>::empty());
    let pre = "magnet:?xt=urn:btih:"@ + info_hash + "&dn="@ + url_encoded(utf8(file_name)) + "&xl="@
        + decimal(file_size as nat);
    assert(pre + Seq::<char>::empty() =~= pre);
}

/// The magnet link carries one `&tr=` parameter per tracker, in the order
/// given: a tracker added at the end of the list adds its percent-encoded
/// `&tr=` parameter right before the web seed, and nothing else changes.
pub proof fn lemma_magnet_tracker_added(
    info_hash: Seq<char>,
    file_name: Seq<char>,
    file_size: u64,
    trackers: Seq<Seq<char>>,
    tracker: Seq<char>,
    web_seed_url: Seq<char>,
)
    ensures
        ({
            let tail = "&ws="@ + url_encoded(utf8(web_seed_url));
            let m = magnet_spec(info_hash, file_name, file_size, trackers, web_seed_url);
            &&& m.len() >= tail.len()
            &&& m.skip(m.len() - tail.len()) == tail
            &&& magnet_spec(info_hash, file_name, file_size, trackers.push(tracker), web_seed_url) == m.take(
                m.len() - tail.len(),
            ) + "&tr="@ + url_encoded(utf8(tracker)) + tail
        }),
{
    let f = |t: Seq<char>| "&tr="@ + url_encoded(utf8(t));
    let pre = "magnet:?xt=urn:btih:"@ + info_hash + "&dn="@ + url_encoded(utf8(file_name)) + "&xl="@
        + decimal(file_size as nat);
    let tail = "&ws="@ + url_encoded(utf8(web_seed_url));
    let a = trackers.map_values(f);
    let b = trackers.push(tracker).map_values(f);
    assert(b =~= a.push(f(tracker)));
    assert(b.drop_last() =~= a);
    assert(flatten(b) == flatten(a) + f(tracker));
    let m = magnet_spec(info_hash, file_name, file_size, trackers, web_seed_url);
    assert(m =~= (pre + flatten(a)) + tail);
    assert(m.take(m.len() - tail.len()) =~= pre + flatten(a));
    assert(m.skip(m.len() - tail.len()) =~= tail);
    assert(magnet_spec(info_hash, file_name, file_size, trackers.push(tracker), web_seed_url) =~= (pre
        + flatten(a)) + ("&tr="@ + url_encoded(utf8(tracker))) + tail);
}

fn push_str(out: &mut String, s: &str)
    ensures
        final(out)@ == old(out)@ + s@,
{
    let v = chars_of(s);
    append_chars(out, &v);
}

/// Builds the magnet link of a shared file.
pub fn build_magnet_uri(
    info_hash: &str,
    file_name: &str,
    file_size: u64,
    trackers: &[String],
    web_seed_url: &str,
) -> (r: String)
    ensures
        r@ == magnet_spec(info_hash@, file_name@, file_size, trackers.deep_view(), web_seed_url@),
{
    let ghost tv = trackers.deep_view();
    let ghost f = |t: Seq<char>| "&tr="@ + url_encoded(utf8(t));
    let mut uri = String::new();
    push_str(&mut uri, "magnet:?xt=urn:btih:");
    push_str(&mut uri, info_hash);
    push_str(&mut uri, "&dn=");
    let name = url_encode(file_name);
    push_str(&mut uri, name.as_str());
    push_str(&mut uri, "&xl=");
    append_chars(&mut uri, &decimal_chars(file_size as u128));
    let ghost head = uri@;
    let mut i: usize = 0;
    while i < trackers.len()
        invariant
            i <= trackers.len(),
            tv == trackers.deep_view(),
            f == (|t: Seq<char>| "&tr="@ + url_encoded(utf8(t))),
            uri@ == head + flatten(tv.take(i as int).map_values(f)),
        decreases trackers.len() - i,
    {
        push_str(&mut uri, "&tr=");
        let enc = url_encode(trackers[i].as_str());
        push_str(&mut uri, enc.as_str());
        i += 1;
        assert(tv.take(i as int).map_values(f).drop_last() =~= tv.take(i - 1).map_values(f));
        assert(uri@ =~= head + flatten(tv.take(i as int).map_values(f)));
    }
    assert(tv.take(i as int) =~= tv);
    push_str(&mut uri, "&ws=");
    let ws = url_encode(web_seed_url);
    push_str(&mut uri, ws.as_str());
    uri
}

/// `<info hash>:<file size>:<piece count>`.
pub open spec fn content_signature_spec(info_hash: Seq<char>, file_size: u64, piece_count: usize) -> Seq<char> {
    info_hash + ":"@ + decimal(file_size as nat) + ":"@ + decimal(piece_count as nat)
}

fn content_signature(info_hash: &str, file_size: u64, piece_count: usize) -> (r: String)
    ensures
        r@ == content_signature_spec(info_hash@, file_size, piece_count),
{
    let mut r = String::new();
    push_str(&mut r, info_hash);
    push_str(&mut r, ":");
    append_chars(&mut r, &decimal_chars(file_size as u128));
    push_str(&mut r, ":");
    append_chars(&mut r, &decimal_chars(piece_count as u128));
    r
}

/// What is known of a shared file once its pieces are hashed.
pub struct SeedMetadata {
    pub file_size: u64,
    pub info_hash: String,
    pub piece_size: usize,
    pub piece_count: usize,
    pub magnet_uri: String,
    pub content_signature: String,
    pub seed_reused: bool,
    pub torrent_bytes: Vec<u8>,
}

/// The descriptor stored beside a shared file, so that sharing it again
/// need not hash it again.
pub struct SeedDescriptor {
    pub schema_version: u16,
    pub file_size: u64,
    pub modified_unix_ms: u128,
    pub piece_size: usize,
    pub piece_count: usize,
    pub info_hash: String,
    pub pieces_base64: String,
}

/// Version of the descriptor and metadata formats.
pub const METADATA_VERSION: u16 = 1;

/// A stored descriptor may be reused: same format version, same size and
/// modification time, same piece layout, and a hash and pieces present.
pub open spec fn descriptor_reusable_spec(
    d: SeedDescriptor,
    file_size: u64,
    modified_unix_ms: u128,
    piece_size: usize,
    piece_count: usize,
) -> bool {
    &&& d.schema_version == METADATA_VERSION
    &&& d.file_size == file_size
    &&& d.modified_unix_ms == modified_unix_ms
    &&& d.piece_size == piece_size
    &&& d.piece_count == piece_count
    &&& d.info_hash@.len() > 0
    &&& d.pieces_base64@.len() > 0
}

/// Whether the descriptor found beside a file still describes it.
pub fn descriptor_reusable(
    d: &SeedDescriptor,
    file_size: u64,
    modified_unix_ms: u128,
    piece_size: usize,
    piece_count: usize,
) -> (r: bool)
    ensures
        r == descriptor_reusable_spec(*d, file_size, modified_unix_ms, piece_size, piece_count),
{
    d.schema_version == METADATA_VERSION && d.file_size == file_size && d.modified_unix_ms
        == modified_unix_ms && d.piece_size == piece_size && d.piece_count == piece_count
        && !d.info_hash.as_str().is_empty() && !d.pieces_base64.as_str().is_empty()
}

/// What metadata rebuilt from descriptor `d` and its decoded `pieces` is:
/// the torrent and magnet link built again from the pieces, the stored
/// piece count, and the signature of the stored hash, size and count.
pub open spec fn rebuilt_metadata(
    m: SeedMetadata,
    d: SeedDescriptor,
    pieces: Seq<u8>,
    name: Seq<char>,
    file_size: u64,
    piece_size: usize,
    trackers: Seq<Seq<char>>,
    web_seed_url: Seq<char>,
    now_ms: u128,
) -> bool {
    &&& m.file_size == file_size
    &&& m.piece_size == piece_size
    &&& m.piece_count == d.piece_count
    &&& m.seed_reused
    &&& m.info_hash@ == info_hash_spec(name, file_size, piece_size, pieces)
    &&& m.torrent_bytes@ == torrent_file(name, file_size, piece_size, pieces, trackers, web_seed_url, now_ms)
    &&& m.magnet_uri@ == magnet_spec(m.info_hash@, name, file_size, trackers, web_seed_url)
    &&& m.content_signature@ == content_signature_spec(d.info_hash@, d.file_size, d.piece_count)
}

/// Metadata rebuilt from descriptor `d`, its pieces decoded from the
/// stored Base64.
pub open spec fn reuse_outcome(
    m: SeedMetadata,
    d: SeedDescriptor,
    name: Seq<char>,
    file_size: u64,
    piece_size: usize,
    trackers: Seq<Seq<char>>,
    web_seed_url: Seq<char>,
    now_ms: u128,
) -> bool {
    rebuilt_metadata(
        m,
        d,
        base64_decoded(d.pieces_base64@)->0,
        name,
        file_size,
        piece_size,
        trackers,
        web_seed_url,
        now_ms,
    )
}

/// What metadata for freshly hashed `pieces` is, with the descriptor `d`
/// to store: the torrent, info hash (40 hex digits) and magnet link built
/// from the pieces, and a descriptor recording the format version, size,
/// modification time, layout, hash and the pieces in Base64.
pub open spec fn fresh_outcome(
    m: SeedMetadata,
    d: SeedDescriptor,
    name: Seq<char>,
    file_size: u64,
    modified_unix_ms: u128,
    piece_size: usize,
    piece_count: usize,
    pieces: Seq<u8>,
    trackers: Seq<Seq<char>>,
    web_seed_url: Seq<char>,
    now_ms: u128,
) -> bool {
    &&& m.file_size == file_size
    &&& m.piece_size == piece_size
    &&& m.piece_count == piece_count
    &&& !m.seed_reused
    &&& m.info_hash@ == info_hash_spec(name, file_size, piece_size, pieces)
    &&& m.info_hash@.len() == 40
    &&& m.torrent_bytes@ == torrent_file(name, file_size, piece_size, pieces, trackers, web_seed_url, now_ms)
    &&& m.magnet_uri@ == magnet_spec(m.info_hash@, name, file_size, trackers, web_seed_url)
    &&& m.content_signature@ == content_signature_spec(m.info_hash@, file_size, piece_count)
    &&& d.schema_version == METADATA_VERSION
    &&& d.file_size == file_size
    &&& d.modified_unix_ms == modified_unix_ms
    &&& d.piece_size == piece_size
    &&& d.piece_count == piece_count
    &&& d.info_hash@ == m.info_hash@
    &&& d.pieces_base64@ == base64_text(pieces)
    &&& base64_decoded(d.pieces_base64@) == Some(pieces)
}

/// Metadata rebuilt from descriptor `d` once its stored pieces were
/// decoded (`Ok` with the pieces) or refused (`Err` with the decoder's
/// message, which is reported after `Failed to decode seed descriptor
/// pieces: `).
pub fn reused_metadata_from(
    d: &SeedDescriptor,
    decoded: Result<Vec<u8>, String>,
    display_name: &str,
    file_size: u64,
    piece_size: usize,
    trackers: &[String],
    web_seed_url: &str,
    now_ms: u128,
) -> (r: Result<SeedMetadata, String>)
    ensures
        match decoded {
            Ok(pieces) => r matches Ok(m) && rebuilt_metadata(
                m,
                *d,
                pieces@,
                display_name@,
                file_size,
                piece_size,
                trackers.deep_view(),
                web_seed_url@,
                now_ms,
            ),
            Err(t) => r matches Err(e) && e@ == "Failed to decode seed descriptor pieces: "@ + t@,
        },
{
    match decoded {
        Err(t) => {
            let mut msg = String::new();
            push_str(&mut msg, "Failed to decode seed descriptor pieces: ");
            push_str(&mut msg, t.as_str());
            Err(msg)
        },
        Ok(pieces) => {
            let (torrent_bytes, info_hash) = build_torrent_bytes(
                display_name,
                file_size,
                piece_size,
                pieces.as_slice(),
                trackers,
                web_seed_url,
                now_ms,
            );
            let magnet_uri = build_magnet_uri(
                info_hash.as_str(),
                display_name,
                file_size,
                trackers,
                web_seed_url,
            );
            let sig = content_signature(d.info_hash.as_str(), d.file_size, d.piece_count);
            Ok(
                SeedMetadata {
                    file_size,
                    info_hash,
                    piece_size,
                    piece_count: d.piece_count,
                    magnet_uri,
                    content_signature: sig,
                    seed_reused: true,
                    torrent_bytes,
                },
            )
        },
    }
}

/// Metadata rebuilt from a stored descriptor: its pieces are decoded and the
/// torrent and magnet link built again. Fails exactly when the stored
/// pieces are not valid Base64.
pub fn reuse_seed_metadata(
    d: &SeedDescriptor,
    display_name: &str,
    file_size: u64,
    piece_size: usize,
    trackers: &[String],
    web_seed_url: &str,
    now_ms: u128,
) -> (r: Result<SeedMetadata, String>)
    ensures
        r is Ok <==> base64_decoded(d.pieces_base64@) is Some,
        r matches Ok(m) ==> reuse_outcome(
            m,
            *d,
            display_name@,
            file_size,
            piece_size,
            trackers.deep_view(),
            web_seed_url@,
            now_ms,
        ),
        r matches Err(e) ==> has_prefix_text(e@, "Failed to decode seed descriptor pieces: "@),
{
    let decoded = match base64_decode(d.pieces_base64.as_str()) {
        Ok(pieces) => Ok(pieces),
        Err(e) => Err(decode_error_text(&e)),
    };
    let r = reused_metadata_from(
        d,
        decoded,
        display_name,
        file_size,
        piece_size,
        trackers,
        web_seed_url,
        now_ms,
    );
    proof {
        if r is Err {
            let e = r->Err_0;
            assert(e@.subrange(0, "Failed to decode seed descriptor pieces: "@.len() as int)
                =~= "Failed to decode seed descriptor pieces: "@);
        }
    }
    r
}

/// What sharing a file makes of the descriptor found beside it, if any:
/// when it still describes the file, the metadata rebuilt from it (as
/// `reuse_seed_metadata` gives it); otherwise `None`, and the file is to be
/// hashed.
pub fn try_reuse_descriptor(
    found: &Option<SeedDescriptor>,
    display_name: &str,
    file_size: u64,
    modified_unix_ms: u128,
    piece_size: usize,
    piece_count: usize,
    trackers: &[String],
    web_seed_url: &str,
    now_ms: u128,
) -> (r: Option<Result<SeedMetadata, String>>)
    ensures
        r is Some <==> (found matches Some(d) && descriptor_reusable_spec(
            *d,
            file_size,
            modified_unix_ms,
            piece_size,
            piece_count,
        )),
        r matches Some(res) ==> (res is Ok <==> base64_decoded(found->0.pieces_base64@) is Some),
        r matches Some(Ok(m)) ==> reuse_outcome(
            m,
            found->0,
            display_name@,
            file_size,
            piece_size,
            trackers.deep_view(),
            web_seed_url@,
            now_ms,
        ),
        r matches Some(Err(e)) ==> has_prefix_text(e@, "Failed to decode seed descriptor pieces: "@),
{
    match found {
        Some(d) => if descriptor_reusable(d, file_size, modified_unix_ms, piece_size, piece_count) {
            Some(reuse_seed_metadata(d, display_name, file_size, piece_size, trackers, web_seed_url, now_ms))
        } else {
            None
        },
        None => None,
    }
}

pub open spec fn has_prefix_text(s: Seq<char>, p: Seq<char>) -> bool {
    p.len() <= s.len() && s.subrange(0, p.len() as int) == p
}

/// Metadata for freshly hashed pieces, and the descriptor to store beside
/// the file.
pub fn fresh_seed_metadata(
    display_name: &str,
    file_size: u64,
    modified_unix_ms: u128,
    piece_size: usize,
    piece_count: usize,
    piece_hashes: &[u8],
    trackers: &[String],
    web_seed_url: &str,
    now_ms: u128,
) -> (r: (SeedMetadata, SeedDescriptor))
    ensures
        fresh_outcome(
            r.0,
            r.1,
            display_name@,
            file_size,
            modified_unix_ms,
            piece_size,
            piece_count,
            piece_hashes@,
            trackers.deep_view(),
            web_seed_url@,
            now_ms,
        ),
{
    let (torrent_bytes, info_hash) = build_torrent_bytes(
        display_name,
        file_size,
        piece_size,
        piece_hashes,
        trackers,
        web_seed_url,
        now_ms,
    );
    let magnet_uri = build_magnet_uri(
        info_hash.as_str(),
        display_name,
        file_size,
        trackers,
        web_seed_url,
    );
    let descriptor = SeedDescriptor {
        schema_version: METADATA_VERSION,
        file_size,
        modified_unix_ms,
        piece_size,
        piece_count,
        info_hash: info_hash.clone(),
        pieces_base64: base64_encode(piece_hashes),
    };
    let sig = content_signature(info_hash.as_str(), file_size, piece_count);
    (
        SeedMetadata {
            file_size,
            info_hash,
            piece_size,
            piece_count,
            magnet_uri,
            content_signature: sig,
            seed_reused: false,
            torrent_bytes,
        },
        descriptor,
    )
}

/// The piece hashes of `content` cut into pieces of `piece_size` bytes
/// (the last one shorter when the size does not divide evenly): the SHA-1
/// digest of each piece, one after the other; none for empty content.
pub open spec fn piece_digests(content: Seq<u8>, piece_size: nat) -> Seq<u8>
    decreases content.len(),
{
    if content.len() == 0 || piece_size == 0 {
        Seq::empty()
    } else if content.len() <= piece_size {
        sha1_digest(content)
    } else {
        sha1_digest(content.take(piece_size as int)) + piece_digests(
            content.skip(piece_size as int),
            piece_size,
        )
    }
}

/// Appending a piece of at most `piece_size` bytes to content made of
/// whole pieces appends its digest.
proof fn lemma_digests_append(a: Seq<u8>, p: Seq<u8>, piece_size: nat, k: nat)
    requires
        piece_size > 0,
        a.len() == k * piece_size,
        0 < p.len() <= piece_size,
    ensures
        piece_digests(a + p, piece_size) == piece_digests(a, piece_size) + sha1_digest(p),
    decreases k,
{
    let ps = piece_size as int;
    if k == 0 {
        assert(a.len() == 0) by (nonlinear_arith)
            requires
                a.len() == k * ps,
                k == 0,
        ;
        assert(a + p =~= p);
        assert(piece_digests(a, piece_size) =~= Seq::<u8>::empty());
        assert(Seq::<u8>::empty() + sha1_digest(p) =~= sha1_digest(p));
    } else {
        assert(a.len() == (k - 1) * ps + ps) by (nonlinear_arith)
            requires
                a.len() == k * ps,
                k > 0,
        ;
        assert(a.len() >= ps) by (nonlinear_arith)
            requires
                a.len() == (k - 1) * ps + ps,
                k > 0,
                ps > 0,
        ;
        let rest = a.skip(ps);
        let km1 = (k - 1) as nat;
        assert(rest.len() == km1 * ps);
        assert((a + p).take(ps) =~= a.take(ps));
        assert((a + p).skip(ps) =~= rest + p);
        lemma_digests_append(rest, p, piece_size, km1);
        if km1 == 0 {
            assert(rest.len() == 0) by (nonlinear_arith)
                requires
                    rest.len() == km1 * ps,
                    km1 == 0,
            ;
            assert(a.take(ps) =~= a);
            assert(piece_digests(rest, piece_size) =~= Seq::<u8>::empty());
            assert(piece_digests(a, piece_size) == sha1_digest(a));
        } else {
            assert(rest.len() > 0) by (nonlinear_arith)
                requires
                    rest.len() == km1 * ps,
                    km1 > 0,
                    ps > 0,
            ;
            assert(piece_digests(a, piece_size) == sha1_digest(a.take(ps)) + piece_digests(
                rest,
                piece_size,
            ));
        }
        assert(piece_digests(a + p, piece_size) == sha1_digest(a.take(ps)) + piece_digests(
            rest + p,
            piece_size,
        ));
        assert(sha1_digest(a.take(ps)) + (piece_digests(rest, piece_size) + sha1_digest(p)) =~= (
        sha1_digest(a.take(ps)) + piece_digests(rest, piece_size)) + sha1_digest(p));
    }
}

/// Hashes content fed in any chunks into pieces of a fixed size, as a
/// torrent needs them: bytes are held until a piece is full, then its
/// digest is appended; `finish` hashes the last, shorter piece.
pub struct PieceHasher {
    piece_size: usize,
    pending: Vec<u8>,
    piece_hashes: Vec<u8>,
    bytes_processed: u64,
    content: Ghost<Seq<u8>>,
    whole_pieces: Ghost<nat>,
}

impl PieceHasher {
    /// The content fed so far.
    pub closed spec fn content(&self) -> Seq<u8> {
        self.content@
    }

    pub closed spec fn piece_size_spec(&self) -> nat {
        self.piece_size as nat
    }

    /// The bytes held back are the end of the content after its last
    /// whole piece, and the digests are those of the whole pieces.
    pub closed spec fn wf(&self) -> bool {
        let full = self.content@.len() - self.pending@.len();
        &&& self.piece_size > 0
        &&& self.pending@.len() < self.piece_size
        &&& full == self.whole_pieces@ * self.piece_size
        &&& self.content@ == self.content@.take(full) + self.pending@
        &&& self.piece_hashes@ == piece_digests(self.content@.take(full), self.piece_size as nat)
        &&& self.piece_hashes@.len() == 20 * self.whole_pieces@
        &&& self.bytes_processed == self.content@.len()
    }

    /// A hasher for pieces of `piece_size` bytes, fed nothing yet.
    pub fn new(piece_size: usize) -> (h: Self)
        requires
            piece_size > 0,
        ensures
            h.wf(),
            h.content() == Seq::<u8>::empty(),
            h.piece_size_spec() == piece_size,
    {
        let h = PieceHasher {
            piece_size,
            pending: Vec::new(),
            piece_hashes: Vec::new(),
            bytes_processed: 0,
            content: Ghost(Seq::empty()),
            whole_pieces: Ghost(0),
        };
        assert(h.content@.take(0) =~= Seq::<u8>::empty());
        assert(h.content@ =~= h.content@.take(0) + h.pending@);
        assert(0 == 0nat * piece_size) by (nonlinear_arith);
        h
    }

    /// How many bytes were fed.
    pub fn bytes_processed(&self) -> (r: u64)
        requires
            self.wf(),
        ensures
            r == self.content().len(),
    {
        self.bytes_processed
    }

    fn push_digest(&mut self, d: Vec<u8>)
        ensures
            final(self).piece_hashes@ == old(self).piece_hashes@ + d@,
            final(self).piece_size == old(self).piece_size,
            final(self).pending == old(self).pending,
            final(self).bytes_processed == old(self).bytes_processed,
            final(self).content == old(self).content,
            final(self).whole_pieces == old(self).whole_pieces,
    {
        let mut i: usize = 0;
        let ghost h0 = self.piece_hashes@;
        while i < d.len()
            invariant
                i <= d.len(),
                self.piece_hashes@ == h0 + d@.take(i as int),
                self.piece_size == old(self).piece_size,
                self.pending == old(self).pending,
                self.bytes_processed == old(self).bytes_processed,
                self.content == old(self).content,
                self.whole_pieces == old(self).whole_pieces,
            decreases d.len() - i,
        {
            self.piece_hashes.push(d[i]);
            i += 1;
            assert(self.piece_hashes@ =~= h0 + d@.take(i as int));
        }
        assert(d@.take(i as int) =~= d@);
    }

    /// Feeds the next bytes of the content.
    pub fn absorb(&mut self, data: &[u8])
        requires
            old(self).wf(),
            old(self).content().len() + data@.len() <= u64::MAX,
        ensures
            final(self).wf(),
            final(self).content() == old(self).content() + data@,
            final(self).piece_size_spec() == old(self).piece_size_spec(),
    {
        let ghost c0 = self.content@;
        let mut i: usize = 0;
        while i < data.len()
            invariant
                self.wf(),
                i <= data.len(),
                self.content@ == c0 + data@.take(i as int),
                c0.len() + data@.len() <= u64::MAX,
                self.piece_size == old(self).piece_size,
            decreases data.len() - i,
        {
            let ps = self.piece_size;
            let room = ps - self.pending.len();
            let left = data.len() - i;
            let take = if room < left {
                room
            } else {
                left
            };
            let chunk = vstd::slice::slice_subrange(data, i, i + take);
            let ghost full = self.content@.len() - self.pending@.len();
            let ghost k = self.whole_pieces@;
            let ghost c = self.content@;
            let ghost p0 = self.pending@;
            let ghost h0 = self.piece_hashes@;
            let b0 = self.bytes_processed;
            assert(data@.take(i + take) =~= data@.take(i as int) + chunk@);
            assert(b0 + take <= u64::MAX);
            let mut j: usize = 0;
            while j < chunk.len()
                invariant
                    j <= chunk.len(),
                    self.pending@ == p0 + chunk@.take(j as int),
                    self.piece_size == ps,
                    self.piece_hashes@ == h0,
                    self.content@ == c,
                    self.whole_pieces@ == k,
                    self.bytes_processed == b0,
                decreases chunk.len() - j,
            {
                self.pending.push(chunk[j]);
                j += 1;
                assert(self.pending@ =~= p0 + chunk@.take(j as int));
            }
            assert(chunk@.take(j as int) =~= chunk@);
            proof {
                self.content@ = c + chunk@;
                assert(self.content@ =~= c0 + data@.take(i + take));
            }
            self.bytes_processed = b0 + take as u64;
            let ghost whole = self.content@;
            assert(whole.take(full) =~= c.take(full));
            assert(whole =~= c.take(full) + self.pending@);
            if self.pending.len() == ps {
                let d = sha1(self.pending.as_slice());
                proof {
                    lemma_digests_append(c.take(full), self.pending@, ps as nat, k);
                }
                self.push_digest(d);
                self.pending = Vec::new();
                proof {
                    self.whole_pieces@ = k + 1;
                    assert(whole.len() == (k + 1) * ps) by (nonlinear_arith)
                        requires
                            whole.len() == k * ps + ps,
                    ;
                    assert(whole.take(whole.len() as int) =~= whole);
                    assert(whole =~= whole.take(whole.len() as int) + self.pending@);
                }
            }
            i += take;
        }
        assert(data@.take(i as int) =~= data@);
    }

    /// The digests of all pieces of the content fed: 20 bytes for each
    /// piece, so none for no content.
    pub fn finish(self) -> (r: Vec<u8>)
        requires
            self.wf(),
        ensures
            r@ == piece_digests(self.content(), self.piece_size_spec()),
            r@.len() == 20 * ((self.content().len() + self.piece_size_spec() - 1) / (
            self.piece_size_spec() as int)),
            self.content().len() > 0 ==> r@.len() >= 20,
    {
        let ghost full = self.content@.len() - self.pending@.len();
        let ghost c = self.content@;
        let ghost ps = self.piece_size as int;
        let ghost k = self.whole_pieces@ as int;
        if self.pending.len() == 0 {
            assert(c.take(full) =~= c);
            proof {
                assert(k == 0 ==> k * ps == 0) by (nonlinear_arith);
                vstd::arithmetic::div_mod::lemma_fundamental_div_mod_converse(
                    c.len() + ps - 1,
                    ps,
                    k,
                    ps - 1,
                );
            }
            self.piece_hashes
        } else {
            let d = sha1(self.pending.as_slice());
            proof {
                lemma_digests_append(c.take(full), self.pending@, self.piece_size as nat, self.whole_pieces@);
            }
            proof {
                assert((k + 1) * ps == k * ps + ps) by (nonlinear_arith);
                vstd::arithmetic::div_mod::lemma_fundamental_div_mod_converse(
                    c.len() + ps - 1,
                    ps,
                    k + 1,
                    self.pending@.len() - 1,
                );
            }
            let mut this = self;
            this.push_digest(d);
            this.piece_hashes
        }
    }
}

/// Pieces are between 256 KiB and 2 MiB long, and larger files never get
/// smaller pieces.
pub proof fn lemma_piece_size_monotone(a: u64, b: u64)
    requires
        a <= b,
    ensures
        piece_size_spec(a) <= piece_size_spec(b),
        256 * 1024 <= piece_size_spec(a) <= 2 * 1024 * 1024,
{
}

/// The torrent of a share announces the built-in tracker first: it is the
/// `announce` entry and the first of the `announce-list`, which then lists
/// every configured tracker in order.
pub proof fn lemma_builtin_tracker_first(
    base_url: Seq<char>,
    external: Seq<Seq<char>>,
    web_seed_url: Seq<char>,
    creation_date: i64,
    info: Seq<u8>,
)
    ensures
        ({
            let ts = seq![crate::trackers::builtin_tracker(base_url)] + external;
            let one = |t: Seq<char>| bencoded_list(seq![bencoded_bytes(utf8(t))]);
            let entries = torrent_entries(ts, web_seed_url, creation_date, info);
            &&& entries[0] == (utf8("announce"@), bencoded_bytes(utf8(crate::trackers::builtin_tracker(base_url))))
            &&& entries[1] == (utf8("announce-list"@), bencoded_list(ts.map_values(one)))
            &&& ts.map_values(one).len() == external.len() + 1
            &&& ts.map_values(one)[0] == one(crate::trackers::builtin_tracker(base_url))
            &&& forall|i: int| 0 <= i < external.len() ==> #[trigger] ts.map_values(one)[i + 1] == one(external[i])
        }),
{
    let ts = seq![crate::trackers::builtin_tracker(base_url)] + external;
    assert(ts[0] == crate::trackers::builtin_tracker(base_url));
    assert forall|i: int| 0 <= i < external.len() implies ts[i + 1] == external[i] by {}
}

/// The pieces of a non-empty file cover it, and the last one is not empty:
/// `(count - 1) * size < file size <= count * size`.
pub proof fn lemma_pieces_cover(file_size: u64)
    requires
        0 < file_size <= usize::MAX,
    ensures
        ({
            let ps = piece_size_spec(file_size) as int;
            let n = piece_count_spec(file_size, ps);
            &&& n * ps >= file_size
            &&& (n - 1) * ps < file_size
        }),
{
    let ps = piece_size_spec(file_size) as int;
    let s = file_size as int;
    assert((file_size as usize) as int == s);
    let n = (s + ps - 1) / ps;
    vstd::arithmetic::div_mod::lemma_fundamental_div_mod(s + ps - 1, ps);
    vstd::arithmetic::div_mod::lemma_mod_bound(s + ps - 1, ps);
    assert(n * ps >= s) by (nonlinear_arith)
        requires
            ps > 0,
            s + ps - 1 == ps * n + (s + ps - 1) % ps,
            (s + ps - 1) % ps < ps,
    ;
    assert((n - 1) * ps < s) by (nonlinear_arith)
        requires
            ps > 0,
            s + ps - 1 == ps * n + (s + ps - 1) % ps,
            (s + ps - 1) % ps >= 0,
    ;
}

/// A descriptor stored for freshly hashed pieces lets the same file be
/// shared again without hashing it: for the same size, modification time
/// and piece layout it is reusable, reusing it succeeds and gives the same
/// info hash, magnet link, piece count and content signature as hashing did
/// (and, made at the same time, the same torrent file).
#[verifier::spinoff_prover]
pub proof fn lemma_reuse_matches_fresh(
    first: SeedMetadata,
    d: SeedDescriptor,
    second: SeedMetadata,
    name: Seq<char>,
    file_size: u64,
    modified_unix_ms: u128,
    piece_size: usize,
    piece_count: usize,
    pieces: Seq<u8>,
    trackers: Seq<Seq<char>>,
    web_seed_url: Seq<char>,
    first_ms: u128,
    second_ms: u128,
)
    requires
        pieces.len() > 0,
        fresh_outcome(
            first,
            d,
            name,
            file_size,
            modified_unix_ms,
            piece_size,
            piece_count,
            pieces,
            trackers,
            web_seed_url,
            first_ms,
        ),
        reuse_outcome(second, d, name, file_size, piece_size, trackers, web_seed_url, second_ms),
    ensures
        descriptor_reusable_spec(d, file_size, modified_unix_ms, piece_size, piece_count),
        base64_decoded(d.pieces_base64@) is Some,
        second.seed_reused && !first.seed_reused,
        second.info_hash@ == first.info_hash@,
        second.magnet_uri@ == first.magnet_uri@,
        second.piece_count == first.piece_count,
        second.content_signature@ == first.content_signature@,
        first_ms == second_ms ==> second.torrent_bytes@ == first.torrent_bytes@,
{
    assert(base64_text(pieces).len() > 0);
}

} // verus!
