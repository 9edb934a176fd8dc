//! Absolute path strings and their component operations.
//!
//! A path in this crate is an absolute, canonical string: it begins with
//! `'/'`, contains no empty component (`"//"`) and, except for the root
//! `"/"` itself, does not end with `'/'`.

use vstd::prelude::*;

verus! {

/// A well-formed absolute path string.
pub open spec fn path_valid(s: Seq<char>) -> bool {
    &&& s.len() > 0
    &&& s[0] == '/'
    &&& (s.len() == 1 || s[s.len() - 1] != '/')
    &&& forall|i: int| 0 <= i < s.len() - 1 ==> !(s[i] == '/' && #[trigger] s[i + 1] == '/')
}

/// The root path `"/"`.
pub open spec fn root_seq() -> Seq<char> {
    seq!['/']
}

/// A well-formed path component: non-empty and free of separators.
pub open spec fn component_valid(s: Seq<char>) -> bool {
    s.len() > 0 && forall|i: int| 0 <= i < s.len() ==> #[trigger] s[i] != '/'
}

/// Index of the last `'/'` in `s`, or `-1` when there is none.
pub open spec fn last_slash(s: Seq<char>) -> int
    decreases s.len(),
{
    if s.len() == 0 {
        -1
    } else if s[s.len() - 1] == '/' {
        s.len() - 1
    } else {
        last_slash(s.drop_last())
    }
}

/// The parent of an absolute path, as `std::path::Path::parent` gives it:
/// everything before the last separator, or `"/"` when the last separator
/// is the leading one.
pub open spec fn parent_of(s: Seq<char>) -> Seq<char> {
    if last_slash(s) == 0 {
        root_seq()
    } else {
        s.subrange(0, last_slash(s))
    }
}

/// The final component of an absolute path: everything after the last
/// separator.
pub open spec fn leaf_of(s: Seq<char>) -> Seq<char> {
    s.subrange(last_slash(s) + 1, s.len() as int)
}

/// `dir` extended with one more component.
pub open spec fn join_of(dir: Seq<char>, name: Seq<char>) -> Seq<char> {
    if dir == root_seq() {
        dir + name
    } else {
        dir + seq!['/'] + name
    }
}

/// `last_slash` is characterised by: the character there is a separator and
/// nothing after it is one.
proof fn lemma_last_slash_at(s: Seq<char>, k: int)
    requires
        0 <= k < s.len(),
        s[k] == '/',
        forall|j: int| k < j < s.len() ==> #[trigger] s[j] != '/',
    ensures
        last_slash(s) == k,
    decreases s.len(),
{
    if k == s.len() - 1 {
    } else {
        assert(s.drop_last()[k] == '/');
        lemma_last_slash_at(s.drop_last(), k);
    }
}

/// In a valid non-root path the last separator exists, is not the final
/// character, and the character before it is not a separator unless it is
/// the leading one.
proof fn lemma_last_slash_bounds(s: Seq<char>)
    requires
        path_valid(s),
    ensures
        0 <= last_slash(s) < s.len(),
        s[last_slash(s)] == '/',
        forall|j: int| last_slash(s) < j < s.len() ==> #[trigger] s[j] != '/',
        s.len() > 1 ==> last_slash(s) < s.len() - 1,
    decreases s.len(),
{
    lemma_last_slash_props(s);
    if s.len() > 1 {
        assert(s[s.len() - 1] != '/');
    }
}

/// For any sequence holding at least one separator, `last_slash` points at a
/// separator and nothing later is one.
proof fn lemma_last_slash_props(s: Seq<char>)
    requires
        exists|i: int| 0 <= i < s.len() && s[i] == '/',
    ensures
        0 <= last_slash(s) < s.len(),
        s[last_slash(s)] == '/',
        forall|j: int| last_slash(s) < j < s.len() ==> #[trigger] s[j] != '/',
    decreases s.len(),
{
    if s[s.len() - 1] == '/' {
    } else {
        let i = choose|i: int| 0 <= i < s.len() && s[i] == '/';
        assert(s.drop_last()[i] == '/');
        lemma_last_slash_props(s.drop_last());
        assert forall|j: int| last_slash(s) < j < s.len() implies #[trigger] s[j] != '/' by {
            if j < s.len() - 1 {
                assert(s.drop_last()[j] != '/');
            }
        }
    }
}

/// The parent of a valid non-root path is a valid, strictly shorter path.
pub proof fn lemma_parent_of(s: Seq<char>)
    requires
        path_valid(s),
        s != root_seq(),
    ensures
        path_valid(parent_of(s)),
        parent_of(s).len() < s.len(),
{
    lemma_last_slash_bounds(s);
    assert(s.len() > 1) by {
        if s.len() == 1 {
            assert(s =~= root_seq());
        }
    }
    let ls = last_slash(s);
    if ls == 0 {
        assert(path_valid(root_seq()));
    } else {
        let q = s.subrange(0, ls);
        assert(q[0] == s[0]);
        assert(q[q.len() - 1] == s[ls - 1]);
        assert(s[ls - 1] != '/') by {
            assert(!(s[ls - 1] == '/' && s[ls - 1 + 1] == '/'));
        }
        assert(forall|i: int| 0 <= i < q.len() - 1 ==> !(q[i] == '/' && #[trigger] q[i + 1]
            == '/')) by {
            assert(forall|i: int| 0 <= i < q.len() ==> q[i] == s[i]);
        }
    }
}

/// A valid non-root path is its parent joined with its leaf.
pub proof fn lemma_path_reconstruct(s: Seq<char>)
    requires
        path_valid(s),
        s != root_seq(),
    ensures
        join_of(parent_of(s), leaf_of(s)) == s,
{
    lemma_last_slash_bounds(s);
    let ls = last_slash(s);
    if ls == 0 {
        assert(join_of(parent_of(s), leaf_of(s)) =~= s);
    } else {
        assert(join_of(parent_of(s), leaf_of(s)) =~= s);
    }
}

/// The text with its trailing separators dropped, the root's own one kept.
pub open spec fn trim_slashes(s: Seq<char>) -> Seq<char>
    decreases s.len(),
{
    if s.len() > 1 && s[s.len() - 1] == '/' {
        trim_slashes(s.drop_last())
    } else {
        s
    }
}

/// Whether the text is a valid absolute path.
pub fn check_path_valid(p: &str) -> (r: bool)
    ensures
        r == path_valid(p@),
{
    let len = p.unicode_len();
    if len == 0 {
        return false;
    }
    if p.get_char(0) != '/' {
        return false;
    }
    if len > 1 && p.get_char(len - 1) == '/' {
        return false;
    }
    let mut i: usize = 0;
    while i + 1 < len
        invariant
            len == p@.len(),
            0 <= i,
            i + 1 <= len,
            forall|j: int| 0 <= j < i ==> !(p@[j] == '/' && #[trigger] p@[j + 1] == '/'),
        decreases len - i,
    {
        if p.get_char(i) == '/' && p.get_char(i + 1) == '/' {
            return false;
        }
        i += 1;
    }
    true
}

/// Normalises a candidate absolute path: trailing separators are dropped,
/// and the result is handed back exactly when what remains is a valid
/// absolute path.
pub fn normalize_path(p: &str) -> (r: Option<String>)
    ensures
        match r {
            Option::Some(q) => q@ == trim_slashes(p@) && path_valid(q@),
            Option::None => !path_valid(trim_slashes(p@)),
        },
{
    let len = p.unicode_len();
    let mut keep: usize = len;
    proof {
        assert(p@.take(len as int) =~= p@);
    }
    while keep > 1 && p.get_char(keep - 1) == '/'
        invariant
            len == p@.len(),
            0 <= keep <= len,
            len > 0 ==> keep > 0,
            trim_slashes(p@) == trim_slashes(p@.take(keep as int)),
        decreases keep,
    {
        proof {
            assert(p@.take(keep as int).drop_last() =~= p@.take(keep - 1));
        }
        keep -= 1;
    }
    proof {
        assert(trim_slashes(p@.take(keep as int)) == p@.take(keep as int));
    }
    let q = p.substring_char(0, keep);
    proof {
        assert(q@ =~= p@.take(keep as int));
    }
    if check_path_valid(q) {
        Option::Some(q.to_owned())
    } else {
        Option::None
    }
}

/// Compares two string slices character for character.
pub fn str_eq(a: &str, b: &str) -> (r: bool)
    ensures
        r == (a@ == b@),
{
    let a_len = a.unicode_len();
    let b_len = b.unicode_len();
    if a_len != b_len {
        assert(a@ != b@) by {
            assert(a@.len() != b@.len());
        }
        return false;
    }
    let mut i: usize = 0;
    while i < a_len
        invariant
            a_len == a@.len(),
            b_len == b@.len(),
            a_len == b_len,
            0 <= i <= a_len,
            forall|j: int| 0 <= j < i ==> a@[j] == b@[j],
        decreases a_len - i,
    {
        if a.get_char(i) != b.get_char(i) {
            assert(a@ != b@);
            return false;
        }
        i += 1;
    }
    assert(a@ =~= b@);
    true
}

/// Whether `p` is the root path `"/"`.
pub fn is_root(p: &str) -> (r: bool)
    ensures
        r == (p@ == root_seq()),
{
    proof {
        reveal_strlit("/");
        assert("/"@ =~= root_seq());
    }
    str_eq(p, "/")
}

/// Index of the last separator in a valid path.
fn find_last_slash(p: &str) -> (i: usize)
    requires
        path_valid(p@),
    ensures
        i == last_slash(p@),
{
    let len = p.unicode_len();
    let mut i: usize = len - 1;
    loop
        invariant
            path_valid(p@),
            len == p@.len(),
            0 <= i < len,
            forall|j: int| i < j < len ==> p@[j] != '/',
        decreases i,
    {
        if p.get_char(i) == '/' {
            proof {
                lemma_last_slash_at(p@, i as int);
            }
            return i;
        }
        i -= 1;
    }
}

/// The parent of a valid path, or `None` for the root.
pub fn parent(p: &str) -> (r: Option<String>)
    requires
        path_valid(p@),
    ensures
        match r {
            Option::Some(q) => p@ != root_seq() && q@ == parent_of(p@) && path_valid(q@)
                && q@.len() < p@.len(),
            Option::None => p@ == root_seq(),
        },
{
    proof {
        reveal_strlit("/");
        assert("/"@ =~= root_seq());
    }
    if is_root(p) {
        return Option::None;
    }
    let ls = find_last_slash(p);
    proof {
        lemma_last_slash_bounds(p@);
        assert(p@.len() > 1) by {
            if p@.len() == 1 {
                assert(p@ =~= root_seq());
            }
        }
    }
    if ls == 0 {
        let r = String::from_str("/");
        assert(r@ =~= root_seq());
        assert(parent_of(p@) == root_seq());
        assert(path_valid(root_seq()));
        Option::Some(r)
    } else {
        let q = p.substring_char(0, ls);
        proof {
            assert(q@ =~= p@.subrange(0, ls as int));
            assert(q@[0] == p@[0]);
            assert(q@[q@.len() - 1] == p@[ls - 1]);
            assert(p@[ls - 1] != '/') by {
                assert(!(p@[ls - 1] == '/' && p@[ls - 1 + 1] == '/'));
            }
            assert(forall|i: int| 0 <= i < q@.len() - 1
                ==> !(q@[i] == '/' && #[trigger] q@[i + 1] == '/')) by {
                assert(forall|i: int| 0 <= i < q@.len() ==> q@[i] == p@[i]);
            }
        }
        Option::Some(q.to_owned())
    }
}

/// The final component of a valid non-root path.
pub fn leaf(p: &str) -> (r: String)
    requires
        path_valid(p@),
        p@ != root_seq(),
    ensures
        r@ == leaf_of(p@),
        component_valid(r@),
{
    let len = p.unicode_len();
    let ls = find_last_slash(p);
    proof {
        lemma_last_slash_bounds(p@);
        assert(p@.len() > 1) by {
            if p@.len() == 1 {
                assert(p@ =~= root_seq());
            }
        }
    }
    let r = p.substring_char(ls + 1, len);
    proof {
        assert(r@ =~= p@.subrange(ls + 1, p@.len() as int));
        assert(forall|i: int| 0 <= i < r@.len() ==> #[trigger] r@[i] != '/') by {
            assert(forall|i: int| 0 <= i < r@.len() ==> r@[i] == p@[ls + 1 + i]);
        }
    }
    r.to_owned()
}

/// `dir` extended with the component `name`.
pub fn join(dir: &str, name: &str) -> (r: String)
    requires
        path_valid(dir@),
        component_valid(name@),
    ensures
        r@ == join_of(dir@, name@),
        path_valid(r@),
        parent_of(r@) == dir@,
        leaf_of(r@) == name@,
        r@.len() > dir@.len(),
{
    proof {
        reveal_strlit("/");
    }
    let mut s = String::from_str(dir);
    if !is_root(dir) {
        s.append("/");
    }
    s.append(name);
    proof {
        let r = s@;
        let k: int = if dir@ == root_seq() { 0 } else { dir@.len() as int };
        assert(r =~= join_of(dir@, name@));
        assert(r[k] == '/');
        assert(forall|j: int| k < j < r.len() ==> #[trigger] r[j] != '/') by {
            assert(forall|j: int| k < j < r.len() ==> r[j] == name@[j - k - 1]);
        }
        lemma_last_slash_at(r, k);
        assert(path_valid(r)) by {
            assert(r[0] == dir@[0]);
            assert(r[r.len() - 1] == name@[name@.len() - 1]);
            assert forall|i: int| 0 <= i < r.len() - 1
                implies !(r[i] == '/' && #[trigger] r[i + 1] == '/') by {
                if i + 1 < k {
                    assert(r[i] == dir@[i]);
                    assert(r[i + 1] == dir@[i + 1]);
                    assert(!(dir@[i] == '/' && dir@[i + 1] == '/'));
                } else if i + 1 == k {
                    assert(r[i] == dir@[i]);
                    assert(i == dir@.len() - 1);
                    assert(dir@[i] != '/') by {
                        if dir@.len() == 1 {
                            assert(dir@ =~= root_seq());
                        }
                    }
                } else if i == k {
                    assert(r[i + 1] == name@[0]);
                } else {
                    assert(r[i] == name@[i - k - 1]);
                    assert(r[i + 1] == name@[i - k]);
                }
            }
        }
        assert(parent_of(r) == dir@) by {
            if k == 0 {
                assert(parent_of(r) == root_seq());
            } else {
                assert(r.subrange(0, k) =~= dir@);
            }
        }
        assert(leaf_of(r) =~= name@);
    }
    s
}

} // verus!
