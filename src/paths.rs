//! Paths are `/`-separated strings, as the directory walk hands them over.
use vstd::prelude::*;

verus! {

/// The root of the tree that holds the unprocessed assets.
pub const SOURCE_ROOT: &'static str = "assets-dev";

/// The root of the tree that mirrors the source tree with processed assets.
pub const DEST_ROOT: &'static str = "assets";

/// The configuration file, which the scan never treats as an asset.
pub const CONFIG_FILE: &'static str = "assets-dev/config.toml";

/// The container every processed mesh is written in.
pub const MESH_OUTPUT_EXTENSION: &'static str = "glb";

pub open spec fn source_root() -> Seq<char> {
    seq!['a', 's', 's', 'e', 't', 's', '-', 'd', 'e', 'v']
}

pub open spec fn dest_root() -> Seq<char> {
    seq!['a', 's', 's', 'e', 't', 's']
}

pub open spec fn config_file() -> Seq<char> {
    source_root() + seq!['/', 'c', 'o', 'n', 'f', 'i', 'g', '.', 't', 'o', 'm', 'l']
}

pub open spec fn mesh_output_extension() -> Seq<char> {
    seq!['g', 'l', 'b']
}

/// The part of `p` below the source root, starting with its `/`; empty for the
/// root itself; `None` for a path outside the source tree.
pub open spec fn relative_to_source(p: Seq<char>) -> Option<Seq<char>> {
    let n = source_root().len();
    if p == source_root() {
        Some(Seq::empty())
    } else if p.len() > n && p.take(n as int) == source_root() && p[n as int] == '/' {
        Some(p.skip(n as int))
    } else {
        None
    }
}

/// The mirrored path of `p` in the destination tree, extension unchanged.
pub open spec fn mirrored(p: Seq<char>) -> Option<Seq<char>> {
    match relative_to_source(p) {
        Some(rel) => Some(dest_root() + rel),
        None => None,
    }
}

/// Whether position `i` of `p` lies in its last component.
pub open spec fn in_last_component(p: Seq<char>, i: int) -> bool {
    forall|j: int| i <= j < p.len() ==> p[j] != '/'
}

/// The position of the dot that starts the extension of the last component of
/// `p`: its last dot, provided the component does not start with it.
pub open spec fn extension_dot(p: Seq<char>) -> Option<int> {
    if exists|d: int|
        0 < d < p.len() && p[d] == '.' && p[d - 1] != '/' && in_last_component(p, d)
            && forall|j: int| d < j < p.len() ==> p[j] != '.'
    {
        Some(
            choose|d: int|
                0 < d < p.len() && p[d] == '.' && p[d - 1] != '/' && in_last_component(p, d)
                    && forall|j: int| d < j < p.len() ==> p[j] != '.',
        )
    } else {
        None
    }
}

/// The extension of the last component of `p`, without its dot.
pub open spec fn extension_of(p: Seq<char>) -> Option<Seq<char>> {
    match extension_dot(p) {
        Some(d) => Some(p.skip(d + 1)),
        None => None,
    }
}

/// `p` with the extension of its last component replaced by `ext` (added when
/// it has none).
pub open spec fn with_extension(p: Seq<char>, ext: Seq<char>) -> Seq<char> {
    match extension_dot(p) {
        Some(d) => p.take(d + 1) + ext,
        None => p + seq!['.'] + ext,
    }
}

pub open spec fn ascii_lower(c: char) -> char {
    if 'A' <= c && c <= 'Z' {
        ((c as u32) + 32) as char
    } else {
        c
    }
}

/// Two strings that are equal once ASCII letters are folded to lower case.
pub open spec fn same_ignoring_ascii_case(a: Seq<char>, b: Seq<char>) -> bool {
    a.len() == b.len() && forall|i: int| 0 <= i < a.len() ==> ascii_lower(a[i]) == ascii_lower(b[i])
}

fn lower_char(c: char) -> (r: char)
    ensures
        r == ascii_lower(c),
{
    if 'A' <= c && c <= 'Z' {
        let b: u8 = c as u8;
        (b + 32) as char
    } else {
        c
    }
}

/// Whether `a` and `b` are equal once ASCII letters are folded to lower case.
pub fn eq_ignore_ascii_case(a: &str, b: &str) -> (r: bool)
    ensures
        r == same_ignoring_ascii_case(a@, b@),
{
    let n = a.unicode_len();
    if n != b.unicode_len() {
        return false;
    }
    let mut i: usize = 0;
    while i < n
        invariant
            n == a@.len(),
            n == b@.len(),
            i <= n,
            forall|k: int| 0 <= k < i ==> ascii_lower(a@[k]) == ascii_lower(b@[k]),
        decreases n - i,
    {
        if lower_char(a.get_char(i)) != lower_char(b.get_char(i)) {
            return false;
        }
        i += 1;
    }
    true
}

/// Whether `p` is the source root or lies below it.
fn relative_start(p: &str) -> (r: Option<usize>)
    ensures
        match relative_to_source(p@) {
            Some(rel) => r is Some && r->0 <= p@.len() && rel == p@.skip(r->0 as int),
            None => r is None,
        },
{
    proof {
        reveal_strlit("assets-dev");
    }
    let root = SOURCE_ROOT;
    let n = root.unicode_len();
    let len = p.unicode_len();
    if len < n {
        return None;
    }
    let mut i: usize = 0;
    while i < n
        invariant
            n == root@.len(),
            root@ == source_root(),
            len == p@.len(),
            n <= len,
            i <= n,
            forall|k: int| 0 <= k < i ==> p@[k] == root@[k],
        decreases n - i,
    {
        if p.get_char(i) != root.get_char(i) {
            return None;
        }
        i += 1;
    }
    assert(p@.take(n as int) =~= source_root());
    if len == n {
        assert(p@ =~= source_root());
        assert(p@.skip(n as int) =~= Seq::<char>::empty());
        Some(n)
    } else if p.get_char(n) == '/' {
        Some(n)
    } else {
        None
    }
}

/// The mirrored path of `source` in the destination tree, extension unchanged;
/// `None` when `source` is not inside the source tree.
pub fn mirror_path(source: &str) -> (r: Option<String>)
    ensures
        r matches Some(d) ==> mirrored(source@) == Some(d@),
        r is None ==> mirrored(source@) is None,
{
    proof {
        reveal_strlit("assets");
    }
    match relative_start(source) {
        Some(k) => {
            let len = source.unicode_len();
            let mut d = String::from_str(DEST_ROOT);
            d.append(source.substring_char(k, len));
            Some(d)
        },
        None => None,
    }
}

/// No dot at or after `i` can start the extension of the last component of `p`,
/// and every position before `i` is outside the last component or is a dot that
/// cannot start an extension.
proof fn lemma_no_extension_dot(p: Seq<char>, i: int)
    requires
        0 <= i <= p.len(),
        forall|j: int| i <= j < p.len() ==> p[j] != '.' && p[j] != '/',
        i == 0 || p[i - 1] == '/' || (p[i - 1] == '.' && (i - 1 == 0 || p[i - 2] == '/')),
    ensures
        extension_dot(p) is None,
{
    if exists|e: int|
        0 < e < p.len() && p[e] == '.' && p[e - 1] != '/' && in_last_component(p, e)
            && forall|j: int| e < j < p.len() ==> p[j] != '.'
    {
        let e = choose|e: int|
            0 < e < p.len() && p[e] == '.' && p[e - 1] != '/' && in_last_component(p, e)
                && forall|j: int| e < j < p.len() ==> p[j] != '.';
        assert(e < i);
        if e < i - 1 {
            assert(p[i - 1] != '/');
            assert(p[i - 1] != '.');
        }
    }
}

/// The position of the dot that starts the extension of the last component.
fn find_extension_dot(p: &str) -> (r: Option<usize>)
    ensures
        match extension_dot(p@) {
            Some(d) => r == Some(d as usize),
            None => r is None,
        },
        r matches Some(d) ==> d < p@.len(),
{
    let len = p.unicode_len();
    let mut i: usize = len;
    // walk back from the end until a dot or a separator
    while i > 0
        invariant
            len == p@.len(),
            i <= len,
            forall|j: int| i <= j < len ==> p@[j] != '.' && p@[j] != '/',
        decreases i,
    {
        let c = p.get_char(i - 1);
        if c == '/' {
            proof {
                lemma_no_extension_dot(p@, i as int);
            }
            return None;
        }
        if c == '.' {
            let d = i - 1;
            if d == 0 || p.get_char(d - 1) == '/' {
                proof {
                    lemma_no_extension_dot(p@, i as int);
                }
                return None;
            }
            assert(in_last_component(p@, d as int));
            assert(extension_dot(p@) == Some(d as int)) by {
                let w = d as int;
                assert(0 < w < p@.len() && p@[w] == '.' && p@[w - 1] != '/' && in_last_component(p@, w)
                    && forall|j: int| w < j < p@.len() ==> p@[j] != '.');
                let e = choose|e: int|
                    0 < e < p@.len() && p@[e] == '.' && p@[e - 1] != '/' && in_last_component(p@, e)
                        && forall|j: int| e < j < p@.len() ==> p@[j] != '.';
                assert(e == w);
            }
            return Some(d);
        }
        i -= 1;
    }
    proof {
        lemma_no_extension_dot(p@, 0);
    }
    None
}

/// The extension of the last component of `path`, without its dot.
pub fn file_extension(path: &str) -> (r: Option<&str>)
    ensures
        match extension_of(path@) {
            Some(e) => r matches Some(x) && x@ == e,
            None => r is None,
        },
{
    match find_extension_dot(path) {
        Some(d) => {
            let len = path.unicode_len();
            Some(path.substring_char(d + 1, len))
        },
        None => None,
    }
}

/// `path` with the extension of its last component replaced by `ext`.
pub fn replace_extension(path: &str, ext: &str) -> (r: String)
    ensures
        r@ == with_extension(path@, ext@),
{
    proof {
        reveal_strlit(".");
    }
    let len = path.unicode_len();
    match find_extension_dot(path) {
        Some(d) => {
            let mut s = String::from_str(path.substring_char(0, d + 1));
            s.append(ext);
            s
        },
        None => {
            let mut s = String::from_str(path);
            s.append(".");
            s.append(ext);
            s
        },
    }
}

} // verus!
