use vstd::prelude::*;

use crate::http::{DOT, SLASH};
use crate::text::{append_bytes, copy_range, split_bytes, split_on, views};

verus! {

/// The components of a path after resolving "." and ".." from left to
/// right onto `stack`: empty and "." components vanish; ".." removes the
/// last component unless that is "..", stays at the root of an absolute
/// path, and is kept otherwise.
pub open spec fn resolve_components(stack: Seq<Seq<u8>>, comps: Seq<Seq<u8>>, is_abs: bool) -> Seq<Seq<u8>>
    decreases comps.len(),
{
    if comps.len() == 0 {
        stack
    } else {
        let c = comps[0];
        let next = if c.len() == 0 || c == seq![DOT] {
            stack
        } else if c == seq![DOT, DOT] {
            if stack.len() > 0 && stack.last() != seq![DOT, DOT] {
                stack.drop_last()
            } else if is_abs {
                stack
            } else {
                stack.push(c)
            }
        } else {
            stack.push(c)
        };
        resolve_components(next, comps.drop_first(), is_abs)
    }
}

/// Components joined by slashes.
pub open spec fn join_components(cs: Seq<Seq<u8>>) -> Seq<u8>
    decreases cs.len(),
{
    if cs.len() == 0 {
        seq![]
    } else if cs.len() == 1 {
        cs[0]
    } else {
        join_components(cs.drop_last()) + seq![SLASH] + cs.last()
    }
}

/// A path in normal form: its components resolved; an absolute path keeps
/// its leading slash, and a relative path that resolves to nothing is ".".
pub open spec fn normalized(p: Seq<u8>) -> Seq<u8> {
    let is_abs = p.len() > 0 && p[0] == SLASH;
    let body = if is_abs { p.drop_first() } else { p };
    let cs = resolve_components(seq![], split_on(body, seq![SLASH]), is_abs);
    if is_abs {
        seq![SLASH] + join_components(cs)
    } else if cs.len() == 0 {
        seq![DOT]
    } else {
        join_components(cs)
    }
}

/// The path `base` extended by `rel`: `base` itself when `rel` is empty,
/// `rel` normalized when it is absolute, otherwise both joined by a slash and
/// normalized.
pub open spec fn pushed(base: Seq<u8>, rel: Seq<u8>) -> Seq<u8> {
    if rel.len() == 0 {
        base
    } else if rel[0] == SLASH {
        normalized(rel)
    } else {
        normalized(base + seq![SLASH] + rel)
    }
}

/// Writes a path in normal form.
pub fn normalize_path(p: &[u8]) -> (r: Vec<u8>)
    ensures
        r@ == normalized(p@),
{
    let is_abs = p.len() > 0 && p[0] == SLASH;
    let body = if is_abs {
        copy_range(p, 1, p.len())
    } else {
        copy_range(p, 0, p.len())
    };
    assert(body@ == (if is_abs { p@.drop_first() } else { p@ }));
    let sep: [u8; 1] = [SLASH];
    let sep_slice = sep.as_slice();
    assert(sep_slice@ =~= seq![SLASH]);
    let comps = split_bytes(body.as_slice(), sep_slice);
    let ghost cs = split_on(body@, seq![SLASH]);
    assert(views(comps@) =~= cs);
    let dot: Vec<u8> = vec![DOT];
    let dotdot: Vec<u8> = vec![DOT, DOT];
    let mut stack: Vec<Vec<u8>> = Vec::new();
    let n = comps.len();
    let mut i: usize = 0;
    assert(cs.skip(0) =~= cs);
    assert(views(stack@) =~= Seq::<Seq<u8>>::empty());
    while i < n
        invariant
            n == comps@.len(),
            n == cs.len(),
            forall|k: int| 0 <= k < n ==> #[trigger] comps@[k]@ == cs[k],
            dot@ == seq![DOT],
            dotdot@ == seq![DOT, DOT],
            i <= n,
            resolve_components(views(stack@), cs.skip(i as int), is_abs) == resolve_components(
                seq![],
                cs,
                is_abs,
            ),
        decreases n - i,
    {
        let ghost st = views(stack@);
        let c = &comps[i];
        assert(cs.skip(i as int)[0] == cs[i as int]);
        assert(cs.skip(i as int).drop_first() =~= cs.skip(i + 1));
        if c.len() == 0 || same_bytes(c.as_slice(), dot.as_slice()) {
        } else if same_bytes(c.as_slice(), dotdot.as_slice()) {
            let last_is_up = stack.len() > 0 && same_bytes(stack[stack.len() - 1].as_slice(), dotdot.as_slice());
            if stack.len() > 0 && !last_is_up {
                let _ = stack.pop();
                assert(views(stack@) =~= st.drop_last());
            } else if is_abs {
            } else {
                let e = copy_range(c.as_slice(), 0, c.len());
                assert(e@ =~= cs[i as int]);
                stack.push(e);
                assert(views(stack@) =~= st.push(cs[i as int]));
            }
        } else {
            let e = copy_range(c.as_slice(), 0, c.len());
            assert(e@ =~= cs[i as int]);
            stack.push(e);
            assert(views(stack@) =~= st.push(cs[i as int]));
        }
        i = i + 1;
    }
    assert(cs.skip(n as int) =~= Seq::<Seq<u8>>::empty());
    let ghost resolved = views(stack@);
    let joined = join_all(&stack);
    let mut out: Vec<u8> = Vec::new();
    if is_abs {
        out.push(SLASH);
        append_bytes(&mut out, joined.as_slice());
        assert(out@ =~= seq![SLASH] + join_components(resolved));
    } else if stack.len() == 0 {
        out.push(DOT);
        assert(out@ =~= seq![DOT]);
    } else {
        append_bytes(&mut out, joined.as_slice());
        assert(out@ =~= join_components(resolved));
    }
    out
}

/// Whether a path can be joined: it holds no zero byte.
pub fn joinable(rel: &[u8]) -> (r: bool)
    ensures
        r == (forall|i: int| 0 <= i < rel@.len() ==> rel@[i] != 0),
{
    let mut i: usize = 0;
    while i < rel.len()
        invariant
            i <= rel@.len(),
            forall|k: int| 0 <= k < i ==> rel@[k] != 0,
        decreases rel@.len() - i,
    {
        if rel[i] == 0 {
            return false;
        }
        i = i + 1;
    }
    true
}

/// Whether two byte strings are equal.
fn same_bytes(a: &[u8], b: &[u8]) -> (r: bool)
    ensures
        r == (a@ == b@),
{
    if a.len() != b.len() {
        return false;
    }
    let mut i: usize = 0;
    while i < a.len()
        invariant
            a@.len() == b@.len(),
            i <= a@.len(),
            forall|k: int| 0 <= k < i ==> a@[k] == b@[k],
        decreases a@.len() - i,
    {
        if a[i] != b[i] {
            assert(a@[i as int] != b@[i as int]);
            return false;
        }
        i = i + 1;
    }
    assert(a@ =~= b@);
    true
}

/// Components joined by slashes.
fn join_all(cs: &Vec<Vec<u8>>) -> (r: Vec<u8>)
    ensures
        r@ == join_components(views(cs@)),
{
    let ghost all = views(cs@);
    let mut out: Vec<u8> = Vec::new();
    let n = cs.len();
    let mut i: usize = 0;
    assert(all.take(0) =~= Seq::<Seq<u8>>::empty());
    while i < n
        invariant
            n == cs@.len(),
            all == views(cs@),
            i <= n,
            out@ == join_components(all.take(i as int)),
        decreases n - i,
    {
        let ghost before = out@;
        assert(all.take(i + 1).drop_last() =~= all.take(i as int));
        assert(all.take(i + 1).last() == cs@[i as int]@);
        if i > 0 {
            out.push(SLASH);
        }
        append_bytes(&mut out, cs[i].as_slice());
        proof {
            if i > 0 {
                assert(out@ =~= before + seq![SLASH] + cs@[i as int]@);
            } else {
                assert(all.take(1) =~= seq![cs@[0]@]);
                assert(out@ =~= cs@[0]@);
            }
        }
        i = i + 1;
    }
    assert(all.take(n as int) =~= all);
    out
}

/// The path `base` extended by `rel` (see `pushed`), as the server builds
/// the path of a requested file from its directory.  A relative path
/// holding a zero byte cannot be joined.
pub fn join_path(base: &[u8], rel: &[u8]) -> (r: Vec<u8>)
    requires
        forall|i: int| 0 <= i < rel@.len() ==> rel@[i] != 0,
    ensures
        r@ == pushed(base@, rel@),
{
    if rel.len() == 0 {
        return copy_range(base, 0, base.len());
    }
    if rel[0] == SLASH {
        return normalize_path(rel);
    }
    let mut whole: Vec<u8> = Vec::new();
    append_bytes(&mut whole, base);
    whole.push(SLASH);
    append_bytes(&mut whole, rel);
    assert(whole@ =~= base@ + seq![SLASH] + rel@);
    normalize_path(whole.as_slice())
}

} // verus!
