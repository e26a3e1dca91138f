use vstd::prelude::*;

use vstd::string::StrSliceExecFns;

verus! {

// ---------------------------------------------------------------------------
// Slash-paths: relative paths with '/' separators.  The first segment names
// an effector, the rest is that effector's subpath.
// ---------------------------------------------------------------------------

/// Character-for-character equality of two string slices.
pub fn str_eq(a: &str, b: &str) -> (r: bool)
    ensures
        r == (a@ == b@),
{
    let an = a.unicode_len();
    let bn = b.unicode_len();
    if an != bn {
        return false;
    }
    let mut i: usize = 0;
    while i < an
        invariant
            an == a@.len(),
            an == b@.len(),
            i <= an,
            forall|k: int| 0 <= k < i ==> a@[k] == b@[k],
        decreases an - i,
    {
        if a.get_char(i) != b.get_char(i) {
            return false;
        }
        i = i + 1;
    }
    proof {
        assert(a@ =~= b@);
    }
    true
}

/// One sequence of characters opens another.
pub open spec fn spec_is_prefix(p: Seq<char>, s: Seq<char>) -> bool {
    p.len() <= s.len() && s.subrange(0, p.len() as int) == p
}

pub fn str_is_prefix(p: &str, s: &str) -> (r: bool)
    ensures
        r == spec_is_prefix(p@, s@),
{
    let pn = p.unicode_len();
    let sn = s.unicode_len();
    if pn > sn {
        return false;
    }
    let mut i: usize = 0;
    while i < pn
        invariant
            pn == p@.len(),
            sn == s@.len(),
            pn <= sn,
            i <= pn,
            forall|k: int| 0 <= k < i ==> s@[k] == p@[k],
        decreases pn - i,
    {
        if p.get_char(i) != s.get_char(i) {
            proof {
                assert(s@.subrange(0, p@.len() as int)[i as int] != p@[i as int]);
            }
            return false;
        }
        i = i + 1;
    }
    proof {
        assert(s@.subrange(0, p@.len() as int) =~= p@);
    }
    true
}

/// A path is ignored exactly when some ignore pattern is a prefix of it.
pub open spec fn spec_ignored(ignores: Seq<Seq<char>>, path: Seq<char>) -> bool {
    exists|i: int| 0 <= i < ignores.len() && spec_is_prefix(#[trigger] ignores[i], path)
}

pub fn path_is_ignored(ignores: &Vec<String>, path: &str) -> (r: bool)
    ensures
        r == spec_ignored(ignores.deep_view(), path@),
{
    let mut i: usize = 0;
    while i < ignores.len()
        invariant
            i <= ignores@.len(),
            forall|k: int| 0 <= k < i ==> !spec_is_prefix(#[trigger] ignores.deep_view()[k], path@),
        decreases ignores@.len() - i,
    {
        proof {
            assert(ignores.deep_view()[i as int] =~= ignores@[i as int]@);
        }
        if str_is_prefix(ignores[i].as_str(), path) {
            return true;
        }
        i = i + 1;
    }
    false
}

/// The first '/' of a path, if any.
pub fn find_slash(path: &str) -> (r: Option<usize>)
    ensures
        r matches Some(i) ==> i < path@.len() && path@[i as int] == '/' && (forall|k: int|
            0 <= k < i ==> path@[k] != '/'),
        r is None ==> forall|k: int| 0 <= k < path@.len() ==> path@[k] != '/',
{
    let n = path.unicode_len();
    let mut i: usize = 0;
    while i < n
        invariant
            n == path@.len(),
            i <= n,
            forall|k: int| 0 <= k < i ==> path@[k] != '/',
        decreases n - i,
    {
        if path.get_char(i) == '/' {
            return Some(i);
        }
        i = i + 1;
    }
    None
}

pub fn contains_slash(path: &str) -> (r: bool)
    ensures
        r == exists|i: int| 0 <= i < path@.len() && path@[i] == '/',
{
    match find_slash(path) {
        Some(_) => true,
        None => false,
    }
}

/// Splits a slash-path at its first '/' into the effector prefix and the
/// subpath handed to that effector.  A path without a '/' never reaches the
/// engine's dispatch, so it is excluded here.
pub fn split_effector_path<'a>(path: &'a str) -> (r: (&'a str, &'a str))
    requires
        exists|i: int| 0 <= i < path@.len() && path@[i] == '/',
    ensures
        r.0@ + seq!['/'] + r.1@ == path@,
        forall|k: int| 0 <= k < r.0@.len() ==> r.0@[k] != '/',
{
    let n = path.unicode_len();
    match find_slash(path) {
        Some(i) => {
            let prefix = path.substring_char(0, i);
            let sub = path.substring_char(i + 1, n);
            proof {
                assert(prefix@ + seq!['/'] + sub@ =~= path@);
            }
            (prefix, sub)
        },
        None => {
            proof {
                assert(false);
            }
            (path, path)
        },
    }
}

/// The directory part of a slash-path: what stands before its last '/', or
/// nothing for a path in the root.  Defined for normalized slash-paths (no
/// doubled and no trailing separator), the only form the engine handles.
pub fn parent_dir<'a>(path: &'a str) -> (r: Option<&'a str>)
    ensures
        r matches Some(p) ==> exists|j: int|
            0 <= j < path@.len() && path@[j] == '/' && p@ == path@.subrange(0, j) && (forall|k: int|
                j < k < path@.len() ==> path@[k] != '/'),
        r is None ==> forall|k: int| 0 <= k < path@.len() ==> path@[k] != '/',
{
    let n = path.unicode_len();
    let mut j: usize = n;
    while j > 0
        invariant
            n == path@.len(),
            j <= n,
            forall|k: int| j <= k < n ==> path@[k] != '/',
        decreases j,
    {
        if path.get_char(j - 1) == '/' {
            let p = path.substring_char(0, j - 1);
            proof {
                assert(path@[j - 1] == '/');
            }
            return Some(p);
        }
        j = j - 1;
    }
    None
}

// ---------------------------------------------------------------------------
// Lexicographic order on paths, for the deterministic iteration order of the
// reconciliation engine.
// ---------------------------------------------------------------------------

pub open spec fn chars_lt(a: Seq<char>, b: Seq<char>) -> bool
    decreases a.len(),
{
    if b.len() == 0 {
        false
    } else if a.len() == 0 {
        true
    } else if a[0] == b[0] {
        chars_lt(a.drop_first(), b.drop_first())
    } else {
        (a[0] as int) < (b[0] as int)
    }
}

/// Two paths that neither order below the other are equal.
pub proof fn lemma_chars_lt_connected(a: Seq<char>, b: Seq<char>)
    requires
        !chars_lt(a, b),
        !chars_lt(b, a),
    ensures
        a == b,
    decreases a.len(),
{
    if a.len() == 0 || b.len() == 0 {
        assert(a =~= b);
    } else {
        if a[0] == b[0] {
            lemma_chars_lt_connected(a.drop_first(), b.drop_first());
            assert(seq![a[0]] + a.drop_first() =~= a);
            assert(seq![b[0]] + b.drop_first() =~= b);
        } else {
            assert((a[0] as int) == (b[0] as int));
            assert(a[0] == b[0]);
        }
    }
}

/// The order is transitive.
pub proof fn lemma_chars_lt_trans(a: Seq<char>, b: Seq<char>, c: Seq<char>)
    requires
        chars_lt(a, b),
        chars_lt(b, c),
    ensures
        chars_lt(a, c),
    decreases a.len(),
{
    if a.len() == 0 {
        assert(b.len() > 0);
    } else {
        assert(b.len() > 0 && c.len() > 0);
        if a[0] == b[0] && b[0] == c[0] {
            lemma_chars_lt_trans(a.drop_first(), b.drop_first(), c.drop_first());
        }
    }
}

/// Strict order is irreflexive.
pub proof fn lemma_chars_lt_irrefl(a: Seq<char>)
    ensures
        !chars_lt(a, a),
    decreases a.len(),
{
    if a.len() > 0 {
        lemma_chars_lt_irrefl(a.drop_first());
    }
}

/// Lexicographic comparison of two strings by character code.
pub fn str_lt(a: &str, b: &str) -> (r: bool)
    ensures
        r == chars_lt(a@, b@),
{
    let an = a.unicode_len();
    let bn = b.unicode_len();
    let mut i: usize = 0;
    proof {
        assert(a@.skip(0) =~= a@);
        assert(b@.skip(0) =~= b@);
    }
    while i < an && i < bn
        invariant
            an == a@.len(),
            bn == b@.len(),
            i <= an,
            i <= bn,
            chars_lt(a@, b@) == chars_lt(a@.skip(i as int), b@.skip(i as int)),
        decreases an - i,
    {
        let ca = a.get_char(i);
        let cb = b.get_char(i);
        if ca != cb {
            let r = (ca as u32) < (cb as u32);
            proof {
                assert(r == ((ca as int) < (cb as int)));
            }
            return r;
        }
        proof {
            assert(a@.skip(i as int).drop_first() =~= a@.skip(i as int + 1));
            assert(b@.skip(i as int).drop_first() =~= b@.skip(i as int + 1));
        }
        i = i + 1;
    }
    proof {
        if i >= bn {
            assert(b@.skip(i as int).len() == 0);
        } else {
            assert(a@.skip(i as int).len() == 0);
            assert(b@.skip(i as int).len() > 0);
        }
    }
    an < bn
}

} // verus!
