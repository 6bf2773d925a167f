//! File-name handling on the paths of shared files. `std::path` decides
//! what a path's final component is. `/` separates components on every
//! platform, while `\` and `:` (and a leading `//`) mean other things on
//! some platforms; for paths without them the name and the path beside it
//! are stated exactly.
use vstd::prelude::*;
use crate::text::{append_chars, chars_of};

verus! {

pub open spec fn is_substring(n: Seq<char>, s: Seq<char>) -> bool {
    exists|i: int| 0 <= i && i + n.len() <= s.len() && #[trigger] s.subrange(i, i + n.len()) == n
}

pub open spec fn has_suffix(s: Seq<char>, suf: Seq<char>) -> bool {
    suf.len() <= s.len() && s.subrange(s.len() - suf.len(), s.len() as int) == suf
}

/// A path that is one plain file name on every platform: not empty, not
/// `.` or `..`, and without `/`, `\\` or `:`.
pub open spec fn plain_name(p: Seq<char>) -> bool {
    &&& p.len() > 0
    &&& p != "."@
    &&& p != ".."@
    &&& !p.contains('/')
    &&& !p.contains('\\')
    &&& !p.contains(':')
}

/// Position of the last `/` in `p`, or -1 when it has none.
pub open spec fn last_slash(p: Seq<char>) -> int
    decreases p.len(),
{
    if p.len() == 0 {
        -1
    } else if p.last() == '/' {
        p.len() - 1
    } else {
        last_slash(p.drop_last())
    }
}

/// What follows the last `/` of `p` (all of `p` when it has none).
pub open spec fn base_name(p: Seq<char>) -> Seq<char> {
    p.skip(last_slash(p) + 1)
}

/// What precedes the last `/` of `p`.
pub open spec fn dir_text(p: Seq<char>) -> Seq<char> {
    if last_slash(p) < 0 {
        Seq::empty()
    } else {
        p.take(last_slash(p))
    }
}

/// A path read alike on every platform whose final component is a plain
/// file name: no `\`, no `:`, no leading `//`, and a plain name after its
/// last `/`.
pub open spec fn ordinary_path(p: Seq<char>) -> bool {
    &&& !p.contains('\\')
    &&& !p.contains(':')
    &&& !(p.len() >= 2 && p[0] == '/' && p[1] == '/')
    &&& plain_name(base_name(p))
}

/// An ordinary path whose directory part is exactly what `Path::parent`
/// gives: either no directory, the root, or a directory that ends neither
/// with `/` nor with a `.` component.
pub open spec fn name_replaceable(p: Seq<char>) -> bool {
    let d = dir_text(p);
    &&& ordinary_path(p)
    &&& last_slash(p) > 0 ==> d.last() != '/' && d != "."@ && !has_suffix(d, "/."@)
}

/// `r` is `path` with its final component replaced by `name`: `name`
/// alone for a bare name, `/name` under the root, else the directory, a
/// separator (`/`, or `\` where that is the platform's) and `name`.
pub open spec fn replaced_name(path: Seq<char>, name: Seq<char>, r: Seq<char>) -> bool {
    if last_slash(path) < 0 {
        r == name
    } else if last_slash(path) == 0 {
        r == "/"@ + name
    } else {
        r == dir_text(path) + "/"@ + name || r == dir_text(path) + "\\"@ + name
    }
}

proof fn lemma_last_slash(p: Seq<char>)
    ensures
        -1 <= last_slash(p) < p.len(),
        last_slash(p) >= 0 ==> p[last_slash(p)] == '/',
        forall|i: int| last_slash(p) < i < p.len() ==> p[i] != '/',
        !p.contains('/') ==> last_slash(p) == -1,
    decreases p.len(),
{
    if p.len() > 0 && p.last() != '/' {
        lemma_last_slash(p.drop_last());
        assert forall|i: int| last_slash(p) < i < p.len() implies p[i] != '/' by {
            if i < p.len() - 1 {
                assert(p.drop_last()[i] == p[i]);
            }
        }
        if !p.contains('/') {
            assert(!p.drop_last().contains('/')) by {
                if p.drop_last().contains('/') {
                    let k = choose|k: int| 0 <= k < p.drop_last().len() && p.drop_last()[k] == '/';
                    assert(p[k] == '/');
                }
            }
        }
    } else if p.len() > 0 {
        assert(p[p.len() - 1] == '/');
    }
}

/// A plain name is an ordinary path and its own base name.
proof fn lemma_plain_is_ordinary(p: Seq<char>)
    requires
        plain_name(p),
    ensures
        ordinary_path(p),
        name_replaceable(p),
        last_slash(p) == -1,
        base_name(p) == p,
{
    lemma_last_slash(p);
    assert(p.skip(0) =~= p);
    assert(!(p.len() >= 2 && p[0] == '/' && p[1] == '/')) by {
        if p.len() >= 2 && p[0] == '/' {
            assert(p.contains('/'));
        }
    }
}

/// Calls `Path::file_name` (then `OsStr::to_str`). When a name is returned
/// it is a non-empty piece of the path. For an ordinary path (see
/// `ordinary_path`) it is what follows the last `/`, and the root `/` has
/// none; for other paths what it is depends on the platform and is not
/// stated.
#[verifier::external_body]
fn path_file_name(path: &str) -> (r: Option<String>)
    ensures
        r matches Some(n) ==> n@.len() > 0 && is_substring(n@, path@),
        ordinary_path(path@) ==> r is Some,
        r matches Some(n) ==> (ordinary_path(path@) ==> n@ == base_name(path@)),
        path@ == "/"@ ==> r is None,
{
    std::path::Path::new(path).file_name().and_then(|n| n.to_str()).map(|n| n.to_string())
}

/// Calls `Path::with_file_name`: the path's parent with `name` pushed onto
/// it. The result ends with `name`; for a path whose parent is plain text
/// (see `name_replaceable`) and a plain `name` it is `replaced_name`; for
/// other paths the part before `name` depends on the platform and is not
/// stated.
#[verifier::external_body]
fn path_with_file_name(path: &str, name: &str) -> (r: String)
    ensures
        has_suffix(r@, name@),
        name_replaceable(path@) && plain_name(name@) ==> replaced_name(path@, name@, r@),
{
    std::path::Path::new(path).with_file_name(name).to_string_lossy().to_string()
}

/// The suffix of the descriptor file kept beside a shared file.
pub open spec fn descriptor_suffix() -> Seq<char> {
    ".mesh.seed.json"@
}

/// `p` is a descriptor path for `path` whose file name is `n`: `n` is a
/// non-empty piece of `path` and `p` ends with `n` and the descriptor suffix.
pub open spec fn descriptor_for(p: Seq<char>, n: Seq<char>, path: Seq<char>) -> bool {
    n.len() > 0 && is_substring(n, path) && has_suffix(p, n + descriptor_suffix())
}

/// A plain name with the descriptor suffix is still a plain name.
proof fn lemma_suffixed_plain(n: Seq<char>)
    requires
        plain_name(n),
    ensures
        plain_name(n + descriptor_suffix()),
{
    let s = n + descriptor_suffix();
    reveal_strlit(".mesh.seed.json");
    reveal_strlit(".");
    reveal_strlit("..");
    assert(s.len() > 2);
    assert forall|c: char| c == '/' || c == '\\' || c == ':' implies !s.contains(c) by {
        if s.contains(c) {
            let k = choose|k: int| 0 <= k < s.len() && s[k] == c;
            if k < n.len() {
                assert(n[k] == c);
                assert(n.contains(c));
            } else {
                assert(descriptor_suffix()[k - n.len()] == c);
            }
        }
    }
}

/// Where the descriptor of the file at `path` is stored: beside it, named
/// after it with `.mesh.seed.json` appended; `None` when the path names no
/// file, such as the root `/`.
pub fn seed_descriptor_path(path: &str) -> (r: Option<String>)
    ensures
        r is Some ==> exists|n: Seq<char>| #[trigger] descriptor_for(r->0@, n, path@),
        path@ == "/"@ ==> r is None,
        name_replaceable(path@) ==> r is Some,
        r matches Some(p) ==> (name_replaceable(path@) ==> replaced_name(
            path@,
            base_name(path@) + descriptor_suffix(),
            p@,
        )),
        plain_name(path@) ==> (r matches Some(p) && p@ == path@ + descriptor_suffix()),
{
    proof {
        if plain_name(path@) {
            lemma_plain_is_ordinary(path@);
        }
    }
    match path_file_name(path) {
        None => None,
        Some(name) => {
            let mut full = name.clone();
            let suffix = chars_of(".mesh.seed.json");
            append_chars(&mut full, &suffix);
            proof {
                if ordinary_path(path@) {
                    lemma_suffixed_plain(name@);
                }
            }
            let p = path_with_file_name(path, full.as_str());
            assert(name@.len() > 0 && is_substring(name@, path@));
            assert(has_suffix(p@, name@ + descriptor_suffix()));
            assert(descriptor_for(p@, name@, path@));
            let r = Some(p);
            assert(descriptor_for(r->0@, name@, path@));
            r
        },
    }
}

/// The name under which a shared file is offered: its final path component,
/// or `shared-file` when there is none.
pub fn display_name(path: &str) -> (r: String)
    ensures
        r@.len() > 0,
        r@ == "shared-file"@ || is_substring(r@, path@),
        ordinary_path(path@) ==> r@ == base_name(path@),
        path@ == "/"@ ==> r@ == "shared-file"@,
        plain_name(path@) ==> r@ == path@,
{
    proof {
        if plain_name(path@) {
            lemma_plain_is_ordinary(path@);
        }
    }
    match path_file_name(path) {
        Some(n) => n,
        None => {
            let v = chars_of("shared-file");
            proof {
                reveal_strlit("shared-file");
            }
            let mut s = String::new();
            append_chars(&mut s, &v);
            assert(s@ =~= "shared-file"@);
            s
        },
    }
}

/// The name a file is sent under: its final path component, or
/// `download.bin` when there is none.
pub fn download_name(path: &str) -> (r: String)
    ensures
        r@.len() > 0,
        r@ == "download.bin"@ || is_substring(r@, path@),
        ordinary_path(path@) ==> r@ == base_name(path@),
        path@ == "/"@ ==> r@ == "download.bin"@,
        plain_name(path@) ==> r@ == path@,
{
    proof {
        if plain_name(path@) {
            lemma_plain_is_ordinary(path@);
        }
    }
    match path_file_name(path) {
        Some(n) => n,
        None => {
            let v = chars_of("download.bin");
            proof {
                reveal_strlit("download.bin");
            }
            let mut s = String::new();
            append_chars(&mut s, &v);
            assert(s@ =~= "download.bin"@);
            s
        },
    }
}

} // verus!
