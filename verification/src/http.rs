use vstd::prelude::*;

use crate::text::{
    copy_range, first_match, occurs_at, split_bytes, split_from, split_on, text,
};

verus! {

/// Separates the fields of a request line.
pub const SPACE: u8 = 32;

/// Separates the components of a path.
pub const SLASH: u8 = 47;

/// Separates a file name from its extension.
pub const DOT: u8 = 46;

/// The requested path that asks for the visitor counter page.
pub const COUNTER_PATH: &'static str = "./";

/// The extension of dynamic pages.
pub const DYNAMIC_EXTENSION: &'static str = "shtml";

/// The path a request asks for, relative to the served directory: "."
/// followed by the second space-separated field of the request, when the
/// request holds at least three such fields.
pub open spec fn request_path(buf: Seq<u8>) -> Option<Seq<u8>> {
    let fields = split_on(buf, seq![SPACE]);
    if fields.len() > 2 {
        Some(seq![DOT] + fields[1])
    } else {
        None
    }
}

/// Reads the path a request asks for.
pub fn parse_request_path(buf: &[u8]) -> (r: Option<Vec<u8>>)
    ensures
        match r {
            Some(p) => request_path(buf@) == Some(p@),
            None => request_path(buf@) is None,
        },
{
    let sep: [u8; 1] = [SPACE];
    let sep_slice = sep.as_slice();
    assert(sep_slice@ =~= seq![SPACE]);
    let fields = split_bytes(buf, sep_slice);
    if fields.len() > 2 {
        let mut path: Vec<u8> = Vec::new();
        path.push(DOT);
        let second = &fields[1];
        let mut i: usize = 0;
        while i < second.len()
            invariant
                i <= second@.len(),
                path@ == seq![DOT] + second@.subrange(0, i as int),
            decreases second@.len() - i,
        {
            path.push(second[i]);
            i = i + 1;
            assert(path@ =~= seq![DOT] + second@.subrange(0, i as int));
        }
        assert(second@.subrange(0, second@.len() as int) =~= second@);
        Some(path)
    } else {
        None
    }
}

/// The first occurrence of a pattern at or after `from` is at `i` when the
/// pattern occurs at `i` and nowhere between `from` and `i`.
pub proof fn lemma_first_match_at(s: Seq<u8>, pat: Seq<u8>, from: int, i: int)
    requires
        0 <= from <= i,
        pat.len() > 0,
        occurs_at(s, pat, i),
        forall|j: int| from <= j < i ==> !occurs_at(s, pat, j),
    ensures
        first_match(s, pat, from) == Some(i),
    decreases i - from,
{
    if from < i {
        assert(!occurs_at(s, pat, from));
        lemma_first_match_at(s, pat, from + 1, i);
    }
}

/// The pieces from a position within a sequence are never none.
pub proof fn lemma_split_from_nonempty(s: Seq<u8>, pat: Seq<u8>, pos: int)
    requires
        0 <= pos <= s.len(),
    ensures
        split_from(s, pat, pos).len() >= 1,
{
}

/// A request line "METHOD TARGET REST", whose method and target hold no
/// space, asks for "." followed by the target.
pub proof fn law_request_target(method: Seq<u8>, target: Seq<u8>, rest: Seq<u8>)
    requires
        forall|k: int| 0 <= k < method.len() ==> method[k] != SPACE,
        forall|k: int| 0 <= k < target.len() ==> target[k] != SPACE,
    ensures
        request_path(method + seq![SPACE] + target + seq![SPACE] + rest) == Some(seq![DOT] + target),
{
    let buf = method + seq![SPACE] + target + seq![SPACE] + rest;
    let sp = seq![SPACE];
    let i1 = method.len() as int;
    let i2 = i1 + 1 + target.len();
    assert(buf.subrange(i1, i1 + 1) =~= sp);
    assert(buf.subrange(i2, i2 + 1) =~= sp);
    assert forall|j: int| 0 <= j < i1 implies !occurs_at(buf, sp, j) by {
        assert(buf.subrange(j, j + 1)[0] == method[j]);
    }
    assert forall|j: int| i1 + 1 <= j < i2 implies !occurs_at(buf, sp, j) by {
        assert(buf.subrange(j, j + 1)[0] == target[j - i1 - 1]);
    }
    lemma_first_match_at(buf, sp, 0, i1);
    lemma_first_match_at(buf, sp, i1 + 1, i2);
    lemma_split_from_nonempty(buf, sp, i2 + 1);
    let fields = split_on(buf, sp);
    assert(split_from(buf, sp, i1 + 1) == seq![buf.subrange(i1 + 1, i2)] + split_from(buf, sp, i2 + 1));
    assert(fields == seq![buf.subrange(0, i1)] + split_from(buf, sp, i1 + 1));
    assert(fields[1] == buf.subrange(i1 + 1, i2));
    assert(buf.subrange(i1 + 1, i2) =~= target);
}

/// Whether a requested path asks for the visitor counter page.
pub open spec fn is_counter_path(path: Seq<u8>) -> bool {
    path == text(COUNTER_PATH)
}

/// Only the exact two-byte path "./" (a request for "/") asks for the
/// counter page.
pub proof fn law_counter_path_is_dot_slash(path: Seq<u8>)
    ensures
        is_counter_path(path) <==> path == seq![DOT, SLASH],
{
    reveal_strlit("./");
    vstd::string::is_ascii_spec_bytes(COUNTER_PATH);
    assert(text(COUNTER_PATH) =~= seq![DOT, SLASH]);
}

/// Decides whether a requested path asks for the visitor counter page.
pub fn counter_requested(path: &[u8]) -> (r: bool)
    ensures
        r == is_counter_path(path@),
{
    let c = COUNTER_PATH.as_bytes();
    if path.len() != c.len() {
        return false;
    }
    let mut i: usize = 0;
    while i < path.len()
        invariant
            path@.len() == c@.len(),
            c@ == text(COUNTER_PATH),
            i <= path@.len(),
            forall|k: int| 0 <= k < i ==> path@[k] == c@[k],
        decreases path@.len() - i,
    {
        if path[i] != c[i] {
            assert(path@[i as int] != c@[i as int]);
            return false;
        }
        i = i + 1;
    }
    assert(path@ =~= c@);
    true
}

/// Where the byte `b` last occurs in `s`.
pub open spec fn last_index(s: Seq<u8>, b: u8) -> Option<int>
    decreases s.len(),
{
    if s.len() == 0 {
        None
    } else if s.last() == b {
        Some(s.len() - 1)
    } else {
        last_index(s.drop_last(), b)
    }
}

/// A last occurrence found is an occurrence, and none follows it.
pub proof fn lemma_last_index(s: Seq<u8>, b: u8)
    ensures
        last_index(s, b) matches Some(k) ==> 0 <= k < s.len() && s[k] == b && forall|j: int|
            k < j < s.len() ==> s[j] != b,
        last_index(s, b) is None ==> forall|j: int| 0 <= j < s.len() ==> s[j] != b,
    decreases s.len(),
{
    if s.len() > 0 && s.last() != b {
        lemma_last_index(s.drop_last(), b);
        assert forall|j: int| 0 <= j < s.len() - 1 implies s.drop_last()[j] == s[j] by {}
    }
}

/// Finds where the byte `b` last occurs in `s`.
pub fn find_last(s: &[u8], b: u8) -> (r: Option<usize>)
    ensures
        match r {
            Some(k) => last_index(s@, b) == Some(k as int),
            None => last_index(s@, b) is None,
        },
{
    let mut i = s.len();
    assert(s@.subrange(0, i as int) =~= s@);
    while i > 0
        invariant
            i <= s@.len(),
            last_index(s@, b) == last_index(s@.subrange(0, i as int), b),
        decreases i,
    {
        assert(s@.subrange(0, i as int).drop_last() =~= s@.subrange(0, i - 1));
        if s[i - 1] == b {
            return Some(i - 1);
        }
        i = i - 1;
    }
    None
}

/// The file name of a path: what follows its last slash.
pub open spec fn file_name(path: Seq<u8>) -> Seq<u8> {
    match last_index(path, SLASH) {
        Some(k) => path.subrange(k + 1, path.len() as int),
        None => path,
    }
}

/// The extension of a path's file name: what follows the name's last dot,
/// when that dot is not its first byte and the name is not "..".
pub open spec fn extension(path: Seq<u8>) -> Option<Seq<u8>> {
    let name = file_name(path);
    if name == seq![DOT, DOT] {
        None
    } else {
        match last_index(name, DOT) {
            Some(d) => if d == 0 {
                None
            } else {
                Some(name.subrange(d + 1, name.len() as int))
            },
            None => None,
        }
    }
}

/// The last occurrence of `b` in `s + [b] + t`, where `t` holds no `b`, is
/// the one between them.
pub proof fn lemma_last_index_split(s: Seq<u8>, b: u8, t: Seq<u8>)
    requires
        forall|k: int| 0 <= k < t.len() ==> t[k] != b,
    ensures
        last_index(s + seq![b] + t, b) == Some(s.len() as int),
    decreases t.len(),
{
    let w = s + seq![b] + t;
    if t.len() == 0 {
        assert(w.last() == b);
    } else {
        assert(w.last() == t.last());
        assert(w.drop_last() =~= s + seq![b] + t.drop_last());
        lemma_last_index_split(s, b, t.drop_last());
    }
}

/// The extension of "DIR/STEM.EXT", where the file name holds no slash, the
/// stem is not empty and does not start with a dot, and the extension holds
/// no dot, is EXT.
pub proof fn law_extension_of_file_name(dir: Seq<u8>, stem: Seq<u8>, ext: Seq<u8>)
    requires
        stem.len() > 0,
        stem[0] != DOT,
        forall|k: int| 0 <= k < stem.len() ==> stem[k] != SLASH,
        forall|k: int| 0 <= k < ext.len() ==> ext[k] != SLASH && ext[k] != DOT,
    ensures
        extension(dir + seq![SLASH] + stem + seq![DOT] + ext) == Some(ext),
{
    let name = stem + seq![DOT] + ext;
    let path = dir + seq![SLASH] + name;
    assert forall|k: int| 0 <= k < name.len() implies name[k] != SLASH by {
        if k < stem.len() {
        } else if k == stem.len() {
        } else {
            assert(name[k] == ext[k - stem.len() - 1]);
        }
    }
    lemma_last_index_split(dir, SLASH, name);
    assert(dir + seq![SLASH] + stem + seq![DOT] + ext =~= path);
    assert(file_name(path) =~= name);
    lemma_last_index_split(stem, DOT, ext);
    assert(name != seq![DOT, DOT]) by {
        if name == seq![DOT, DOT] {
            assert(name[0] == stem[0]);
        }
    }
    assert(name.subrange(stem.len() + 1int, name.len() as int) =~= ext);
}

/// Reads the extension of a path's file name.
pub fn file_extension(path: &[u8]) -> (r: Option<Vec<u8>>)
    ensures
        match r {
            Some(e) => extension(path@) == Some(e@),
            None => extension(path@) is None,
        },
{
    proof {
        lemma_last_index(path@, SLASH);
    }
    let n = path.len();
    let name = match find_last(path, SLASH) {
        Some(k) => {
            assert(k < n);
            copy_range(path, k + 1, n)
        },
        None => copy_range(path, 0, path.len()),
    };
    assert(name@ == file_name(path@));
    if name.len() == 2 && name[0] == DOT && name[1] == DOT {
        assert(name@ =~= seq![DOT, DOT]);
        return None;
    }
    assert(name@ != seq![DOT, DOT]);
    proof {
        lemma_last_index(name@, DOT);
    }
    match find_last(name.as_slice(), DOT) {
        Some(d) => if d == 0 {
            None
        } else {
            let m = name.len();
            assert(d < m);
            Some(copy_range(name.as_slice(), d + 1, m))
        },
        None => None,
    }
}

/// What the server does with a request, once it knows about the file asked for.
pub enum Route {
    /// The file is missing or is a directory: a "not found" page.
    Missing,
    /// A dynamic page, whose commands run before it is sent.
    Dynamic,
    /// Any other file, queued for a responder.
    Static,
}

/// How a request for an existing or missing path is served.
pub open spec fn route_of(path: Seq<u8>, found: bool, is_dir: bool) -> Route {
    if !found || is_dir {
        Route::Missing
    } else if extension(path) == Some(text(DYNAMIC_EXTENSION)) {
        Route::Dynamic
    } else {
        Route::Static
    }
}

/// A missing file or a directory gets the "not found" page whatever its
/// extension; an existing file that is not a directory is a dynamic page
/// exactly when its extension is "shtml", and is queued otherwise.
pub proof fn law_routing(path: Seq<u8>, found: bool, is_dir: bool)
    ensures
        (!found || is_dir) ==> route_of(path, found, is_dir) == Route::Missing,
        (found && !is_dir) ==> (route_of(path, found, is_dir) == Route::Dynamic <==> extension(path)
            == Some(seq![115u8, 104u8, 116u8, 109u8, 108u8])),
        (found && !is_dir && extension(path) != Some(seq![115u8, 104u8, 116u8, 109u8, 108u8]))
            ==> route_of(path, found, is_dir) == Route::Static,
{
    reveal_strlit("shtml");
    vstd::string::is_ascii_spec_bytes(DYNAMIC_EXTENSION);
    assert(text(DYNAMIC_EXTENSION) =~= seq![115u8, 104u8, 116u8, 109u8, 108u8]);
}

/// Chooses how a request for `path` is served.
pub fn route_request(path: &[u8], found: bool, is_dir: bool) -> (r: Route)
    ensures
        r == route_of(path@, found, is_dir),
{
    if !found || is_dir {
        return Route::Missing;
    }
    match file_extension(path) {
        Some(e) => {
            let d = DYNAMIC_EXTENSION.as_bytes();
            proof {
                if e@ == d@ {
                    assert(e@.subrange(0, d@.len() as int) =~= e@);
                }
            }
            if e.len() == d.len() && crate::text::starts_with(e.as_slice(), d) {
                assert(e@ =~= e@.subrange(0, d@.len() as int));
                Route::Dynamic
            } else {
                Route::Static
            }
        },
        None => Route::Static,
    }
}

} // verus!
