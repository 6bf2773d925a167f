//! The address the sharing server advertises and binds, the names its
//! self-signed certificate is made for, and the settings read at start.
//! Whether a text is an IP address (and a loopback one) is decided by the
//! caller's address parser and handed in.
use vstd::prelude::*;
use crate::text::{
    append_chars, chars_of, has_prefix, parse_u64_range, parse_u64_spec, string_from, string_of, trim,
    trim_bounds,
};

verus! {

/// `s` without the copies of `c` it starts with.
pub open spec fn strip_leading(s: Seq<char>, c: char) -> Seq<char>
    decreases s.len(),
{
    if s.len() > 0 && s[0] == c {
        strip_leading(s.drop_first(), c)
    } else {
        s
    }
}

/// `s` without the copies of `c` it ends with.
pub open spec fn strip_trailing(s: Seq<char>, c: char) -> Seq<char>
    decreases s.len(),
{
    if s.len() > 0 && s.last() == c {
        strip_trailing(s.drop_last(), c)
    } else {
        s
    }
}

/// A host as written in settings, trimmed and without the brackets of an
/// IPv6 literal.
pub open spec fn normalized_host(h: Seq<char>) -> Seq<char> {
    strip_trailing(strip_leading(trim(h), '['), ']')
}

/// ASCII upper case letters made lower case; other characters unchanged.
pub open spec fn ascii_lower(c: char) -> char {
    if 'A' <= c && c <= 'Z' {
        ((c as u32) + 32) as char
    } else {
        c
    }
}

pub open spec fn lower_text(s: Seq<char>) -> Seq<char> {
    s.map_values(|c: char| ascii_lower(c))
}

/// Equal when ASCII case is ignored.
pub open spec fn same_ignoring_case(s: Seq<char>, t: Seq<char>) -> bool {
    lower_text(s) == lower_text(t)
}

fn lower(c: char) -> (r: char)
    ensures
        r == ascii_lower(c),
{
    if 'A' <= c && c <= 'Z' {
        let b = (c as u8) + 32;
        b as char
    } else {
        c
    }
}

fn lower_chars(v: &Vec<char>) -> (r: Vec<char>)
    ensures
        r@ == lower_text(v@),
{
    let mut r: Vec<char> = Vec::new();
    let mut i: usize = 0;
    while i < v.len()
        invariant
            i <= v.len(),
            r@ == lower_text(v@.take(i as int)),
        decreases v.len() - i,
    {
        r.push(lower(v[i]));
        i += 1;
        assert(r@ =~= lower_text(v@.take(i as int)));
    }
    assert(v@.take(v@.len() as int) =~= v@);
    r
}

fn same_chars(a: &Vec<char>, b: &Vec<char>) -> (r: bool)
    ensures
        r == (a@ == b@),
{
    if a.len() != b.len() {
        return false;
    }
    let mut i: usize = 0;
    while i < a.len()
        invariant
            i <= a.len(),
            a.len() == b.len(),
            forall|j: int| 0 <= j < i ==> a@[j] == b@[j],
        decreases a.len() - i,
    {
        if a[i] != b[i] {
            return false;
        }
        i += 1;
    }
    assert(a@ =~= b@);
    true
}

fn same_ignoring_case_exec(s: &Vec<char>, lit: &str) -> (r: bool)
    ensures
        r == same_ignoring_case(s@, lit@),
{
    same_chars(&lower_chars(s), &lower_chars(&chars_of(lit)))
}

/// The host written for a URL: an address holding `:` (IPv6) is put in
/// brackets unless it already starts with one.
pub open spec fn host_for_url(host: Seq<char>) -> Seq<char> {
    if host.contains(':') && !(host.len() > 0 && host[0] == '[') {
        seq!['['] + host + seq![']']
    } else {
        host
    }
}

/// Formats a host for use in a URL.
pub fn format_host_for_url(host: &str) -> (r: String)
    ensures
        r@ == host_for_url(host@),
{
    let v = chars_of(host);
    let mut has_colon = false;
    let mut i: usize = 0;
    while i < v.len()
        invariant
            i <= v.len(),
            v@ == host@,
            has_colon == (exists|k: int| 0 <= k < i && v@[k] == ':'),
        decreases v.len() - i,
    {
        if v[i] == ':' {
            has_colon = true;
        }
        i += 1;
    }
    if has_colon && !(v.len() > 0 && v[0] == '[') {
        let mut r = string_of(&vec!['[']);
        append_chars(&mut r, &v);
        append_chars(&mut r, &vec![']']);
        assert(r@ =~= seq!['['] + host@ + seq![']']);
        r
    } else {
        string_of(&v)
    }
}

/// Bounds of `v[lo..hi]` without its leading copies of `c`.
fn strip_leading_bounds(v: &Vec<char>, lo: usize, hi: usize, c: char) -> (r: usize)
    requires
        lo <= hi <= v.len(),
    ensures
        lo <= r <= hi,
        v@.subrange(r as int, hi as int) == strip_leading(v@.subrange(lo as int, hi as int), c),
{
    let mut a = lo;
    while a < hi && v[a] == c
        invariant
            lo <= a <= hi <= v.len(),
            strip_leading(v@.subrange(lo as int, hi as int), c) == strip_leading(
                v@.subrange(a as int, hi as int),
                c,
            ),
        decreases hi - a,
    {
        assert(v@.subrange(a as int, hi as int).drop_first() =~= v@.subrange(a + 1, hi as int));
        a += 1;
    }
    a
}

/// Bounds of `v[lo..hi]` without its trailing copies of `c`.
fn strip_trailing_bounds(v: &Vec<char>, lo: usize, hi: usize, c: char) -> (r: usize)
    requires
        lo <= hi <= v.len(),
    ensures
        lo <= r <= hi,
        v@.subrange(lo as int, r as int) == strip_trailing(v@.subrange(lo as int, hi as int), c),
{
    let mut b = hi;
    while b > lo && v[b - 1] == c
        invariant
            lo <= b <= hi <= v.len(),
            strip_trailing(v@.subrange(lo as int, hi as int), c) == strip_trailing(
                v@.subrange(lo as int, b as int),
                c,
            ),
        decreases b - lo,
    {
        assert(v@.subrange(lo as int, b as int).drop_last() =~= v@.subrange(lo as int, b - 1));
        b -= 1;
    }
    b
}

/// A host trimmed and stripped of the brackets of an IPv6 literal.
pub fn normalize_host(host: &str) -> (r: String)
    ensures
        r@ == normalized_host(host@),
{
    let v = chars_of(host);
    let (a, b) = trim_bounds(&v, 0, v.len());
    assert(v@.subrange(0, v@.len() as int) =~= v@);
    let a2 = strip_leading_bounds(&v, a, b, '[');
    let b2 = strip_trailing_bounds(&v, a2, b, ']');
    string_from(&v, a2, b2)
}

/// Whether `host` names this machine: `localhost` in any ASCII case, or
/// a loopback address. `ip_loopback` is what parsing the normalized host
/// as an IP address gave: none when it is no address, else whether the
/// address is a loopback one.
pub open spec fn loopback_host(host: Seq<char>, ip_loopback: Option<bool>) -> bool {
    same_ignoring_case(normalized_host(host), "localhost"@) || ip_loopback == Some(true)
}

/// Whether `host` names this machine (see `loopback_host`).
pub fn is_loopback_host(host: &str, ip_loopback: Option<bool>) -> (r: bool)
    ensures
        r == loopback_host(host@, ip_loopback),
{
    let n = normalize_host(host);
    let nv = chars_of(n.as_str());
    if same_ignoring_case_exec(&nv, "localhost") {
        return true;
    }
    match ip_loopback {
        Some(b) => b,
        None => false,
    }
}

/// The host to advertise from the `MESH_P2P_HOST` setting: its trimmed
/// value, unless it is empty or names this machine (`ip_loopback` as for
/// `is_loopback_host`, of that value).
pub open spec fn host_override(raw: Option<Seq<char>>, ip_loopback: Option<bool>) -> Option<Seq<char>> {
    match raw {
        None => None,
        Some(s) => if trim(s).len() > 0 && !loopback_host(trim(s), ip_loopback) {
            Some(trim(s))
        } else {
            None
        },
    }
}

/// The host named by the `MESH_P2P_HOST` setting, when it is usable.
pub fn advertised_host_override(raw: Option<&str>, ip_loopback: Option<bool>) -> (r: Option<String>)
    ensures
        opt_view(r) == host_override(opt_str(raw), ip_loopback),
{
    match raw {
        None => None,
        Some(s) => {
            let v = chars_of(s);
            let (a, b) = trim_bounds(&v, 0, v.len());
            assert(v@.subrange(0, v@.len() as int) =~= v@);
            if a == b {
                return None;
            }
            let value = string_from(&v, a, b);
            if is_loopback_host(value.as_str(), ip_loopback) {
                None
            } else {
                Some(value)
            }
        },
    }
}

pub open spec fn opt_str(o: Option<&str>) -> Option<Seq<char>> {
    match o {
        Some(s) => Some(s@),
        None => None,
    }
}

pub open spec fn opt_view(o: Option<String>) -> Option<Seq<char>> {
    match o {
        Some(s) => Some(s@),
        None => None,
    }
}

/// The port set by `MESH_P2P_PORT`: its trimmed value read as a `u16`,
/// else 0 (any free port).
pub open spec fn port_setting(raw: Option<Seq<char>>) -> u16 {
    match raw {
        None => 0,
        Some(s) => match parse_u64_spec(trim(s)) {
            Some(v) => if v <= u16::MAX {
                v as u16
            } else {
                0
            },
            None => 0,
        },
    }
}

/// The port to listen on.
pub fn bind_port(raw: Option<&str>) -> (r: u16)
    ensures
        r == port_setting(opt_str(raw)),
{
    match raw {
        None => 0,
        Some(s) => {
            let v = chars_of(s);
            let (a, b) = trim_bounds(&v, 0, v.len());
            assert(v@.subrange(0, v@.len() as int) =~= v@);
            match parse_u64_range(&v, a, b) {
                Some(p) => if p <= 65535 {
                    p as u16
                } else {
                    0
                },
                None => 0,
            }
        },
    }
}

/// Whether `MESH_P2P_FORCE_HTTP` asks for the HTTP fallback: `1`, `true`
/// or `yes` in any ASCII case.
pub open spec fn fallback_setting(raw: Option<Seq<char>>) -> bool {
    match raw {
        None => false,
        Some(s) => lower_text(s) == "1"@ || lower_text(s) == "true"@ || lower_text(s) == "yes"@,
    }
}

/// Reads the `MESH_P2P_FORCE_HTTP` setting.
pub fn fallback_flag(raw: Option<&str>) -> (r: bool)
    ensures
        r == fallback_setting(opt_str(raw)),
{
    match raw {
        None => false,
        Some(s) => {
            let l = lower_chars(&chars_of(s));
            let one = chars_of("1");
            let t = chars_of("true");
            let y = chars_of("yes");
            same_chars(&l, &one) || same_chars(&l, &t) || same_chars(&l, &y)
        },
    }
}

/// The names the certificate is made for: `localhost`, and the advertised
/// host (normalized) unless it is empty, `localhost` or an IP address
/// (`host_is_ip`, as the caller's parser found the normalized host).
pub open spec fn san_names(advertised_host: Seq<char>, host_is_ip: bool) -> Seq<Seq<char>> {
    let h = normalized_host(advertised_host);
    if h.len() > 0 && !same_ignoring_case(h, "localhost"@) && !host_is_ip {
        seq!["localhost"@, h]
    } else {
        seq!["localhost"@]
    }
}

/// The names the certificate is made for.
pub fn tls_san_names(advertised_host: &str, host_is_ip: bool) -> (r: Vec<String>)
    ensures
        r.deep_view() == san_names(advertised_host@, host_is_ip),
{
    let mut names: Vec<String> = Vec::new();
    names.push(string_of(&chars_of("localhost")));
    let h = normalize_host(advertised_host);
    let hv = chars_of(h.as_str());
    if hv.len() > 0 && !same_ignoring_case_exec(&hv, "localhost") && !host_is_ip {
        names.push(h);
    }
    assert(names.deep_view() =~= san_names(advertised_host@, host_is_ip));
    names
}

/// `https://<host>:<port>`, the host formatted for a URL.
pub open spec fn base_url_text(host: Seq<char>, port: u16) -> Seq<char> {
    "https://"@ + host_for_url(host) + ":"@ + crate::text::decimal(port as nat)
}

/// The URL the sharing server is reached at.
pub fn server_base_url(host: &str, port: u16) -> (r: String)
    ensures
        r@ == base_url_text(host@, port),
{
    let mut r = string_of(&chars_of("https://"));
    let h = format_host_for_url(host);
    append_chars(&mut r, &chars_of(h.as_str()));
    append_chars(&mut r, &chars_of(":"));
    append_chars(&mut r, &crate::text::decimal_chars(port as u128));
    r
}

/// The message when the server reports listening on port 0.
pub open spec fn port_error_text(base_url: Seq<char>) -> Seq<char> {
    "Failed to start local HTTPS server on "@ + base_url
        + ". Invalid port detected. Try setting MESH_P2P_HOST to a reachable LAN IP."@
}

/// Refuses a server that reports listening on port 0.
pub fn check_listening_port(base_url: &str, port: u16) -> (r: Result<(), String>)
    ensures
        r is Ok <==> port != 0,
        r matches Err(e) ==> e@ == port_error_text(base_url@),
{
    if port != 0 {
        return Ok(());
    }
    let mut e = string_of(&chars_of("Failed to start local HTTPS server on "));
    append_chars(&mut e, &chars_of(base_url));
    append_chars(
        &mut e,
        &chars_of(". Invalid port detected. Try setting MESH_P2P_HOST to a reachable LAN IP."),
    );
    Err(e)
}

/// The host taken from the `MESH_P2P_HOST` setting is never empty and
/// never one that names this machine.
pub proof fn lemma_override_not_loopback(raw: Option<Seq<char>>, ip_loopback: Option<bool>)
    ensures
        host_override(raw, ip_loopback) matches Some(h) ==> h.len() > 0 && !loopback_host(h, ip_loopback),
{
}

/// Formatting a host for a URL twice changes nothing more: an IPv6
/// address is bracketed once.
pub proof fn lemma_host_for_url_idempotent(host: Seq<char>)
    ensures
        host_for_url(host_for_url(host)) == host_for_url(host),
{
}

#[verifier::external_type_specification]
#[verifier::external_body]
pub struct ExCertError(rcgen::Error);

/// The bytes with which PEM text of the given tag begins:
/// `-----BEGIN <tag>-----`.
pub open spec fn pem_begin(tag: Seq<char>) -> Seq<u8> {
    vstd::utf8::encode_utf8("-----BEGIN "@ + tag + "-----"@)
}

/// Calls `rcgen::generate_simple_self_signed` with `names` as the subject
/// alternative names and hands back the PEM text of the certificate and of
/// its private key, as bytes, or rcgen's error. rcgen writes them with
/// `pem::encode_config` under the tags `CERTIFICATE` and `PRIVATE KEY`, so
/// they begin with those PEM headers; the rest is drawn anew on each call
/// (a fresh key pair) and is not stated.
#[verifier::external_body]
fn self_signed_pem(names: Vec<String>) -> (r: Result<(Vec<u8>, Vec<u8>), rcgen::Error>)
    ensures
        r matches Ok(p) ==> has_prefix(p.0@, pem_begin("CERTIFICATE"@)) && has_prefix(
            p.1@,
            pem_begin("PRIVATE KEY"@),
        ),
{
    let certified = rcgen::generate_simple_self_signed(names)?;
    Ok((certified.cert.pem().into_bytes(), certified.key_pair.serialize_pem().into_bytes()))
}

/// The text of an `rcgen::Error`, as its `Display` writes it; not stated.
#[verifier::external_body]
fn cert_error_text(e: &rcgen::Error) -> (r: String) {
    format!("{e}")
}

/// What generating the certificate gave, as reported: the PEM bytes
/// unchanged, or rcgen's message after `failed to generate self-signed
/// cert: `.
pub fn tls_material_from(generated: Result<(Vec<u8>, Vec<u8>), String>) -> (r: Result<
    (Vec<u8>, Vec<u8>),
    String,
>)
    ensures
        match generated {
            Ok(pair) => r matches Ok(p) && p.0@ == pair.0@ && p.1@ == pair.1@,
            Err(t) => r matches Err(e) && e@ == "failed to generate self-signed cert: "@ + t@,
        },
{
    match generated {
        Ok(pair) => Ok(pair),
        Err(t) => {
            let mut msg = string_of(&chars_of("failed to generate self-signed cert: "));
            append_chars(&mut msg, &chars_of(t.as_str()));
            Err(msg)
        },
    }
}

/// The certificate and private key (PEM, as bytes) of a fresh self-signed
/// certificate for the names `tls_san_names` gives; when rcgen fails, its
/// message after `failed to generate self-signed cert: `.
pub fn generate_runtime_tls_material(advertised_host: &str, host_is_ip: bool) -> (r: Result<
    (Vec<u8>, Vec<u8>),
    String,
>)
    ensures
        r matches Ok(p) ==> has_prefix(p.0@, pem_begin("CERTIFICATE"@)) && has_prefix(
            p.1@,
            pem_begin("PRIVATE KEY"@),
        ),
        r matches Err(e) ==> crate::text::has_prefix(e@, "failed to generate self-signed cert: "@),
{
    let names = tls_san_names(advertised_host, host_is_ip);
    let generated = match self_signed_pem(names) {
        Ok(pair) => Ok(pair),
        Err(e) => Err(cert_error_text(&e)),
    };
    let r = tls_material_from(generated);
    proof {
        if r is Err {
            let e = r->Err_0;
            assert(e@.subrange(0, "failed to generate self-signed cert: "@.len() as int)
                =~= "failed to generate self-signed cert: "@);
        }
    }
    r
}

} // verus!
