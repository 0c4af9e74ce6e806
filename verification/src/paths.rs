//! Paths as character sequences: parent directories, the prefix-directory
//! relation, and file-name extensions.
//!
//! A path is an arbitrary string; `q` is a prefix directory of `p` when `p`
//! reads `q`, then `'/'`, then anything.  The parent of a path is its prefix
//! up to the last `'/'`.  No normalization is attempted: two different
//! strings are two different paths.

use vstd::prelude::*;
use vstd::string::StrSliceExecFns;
use vstd::string::StringExecFns;

verus! {

/// Index of the last occurrence of `c` in `s`, or `-1` if `c` does not occur.
pub open spec fn last_pos(s: Seq<char>, c: char) -> int
    decreases s.len(),
{
    if s.len() == 0 {
        -1
    } else if s[s.len() - 1] == c {
        s.len() - 1
    } else {
        last_pos(s.drop_last(), c)
    }
}

/// Index of the first occurrence of `c` in `s` at position `i` or later,
/// or `-1` if there is none.
pub open spec fn first_pos_from(s: Seq<char>, c: char, i: int) -> int
    decreases s.len() - i,
    when 0 <= i
{
    if i >= s.len() {
        -1
    } else if s[i] == c {
        i
    } else {
        first_pos_from(s, c, i + 1)
    }
}

/// The path up to (excluding) the last `'/'`.  Meaningful only when the
/// path contains a `'/'`.
pub open spec fn parent_of(p: Seq<char>) -> Seq<char> {
    p.take(last_pos(p, '/'))
}

/// `q` names a directory that `p` lies (not necessarily directly) inside:
/// `p` starts with `q` followed by a `'/'`.
pub open spec fn is_prefix_dir(q: Seq<char>, p: Seq<char>) -> bool {
    &&& q.len() < p.len()
    &&& p.take(q.len() as int) == q
    &&& p[q.len() as int] == '/'
}

/// The file-name extension of `p`: the suffix of the file name (the part
/// after the last `'/'`) after the last `'.'`; empty when the file name
/// holds no `'.'`.
pub open spec fn ext_of(p: Seq<char>) -> Seq<char> {
    let name = p.skip(last_pos(p, '/') + 1);
    if last_pos(name, '.') == -1 {
        Seq::empty()
    } else {
        name.skip(last_pos(name, '.') + 1)
    }
}

/// What the last-occurrence index means: it is in range, it carries `c`,
/// nothing after it does, and nothing carrying `c` comes later.
pub proof fn lemma_last_pos(s: Seq<char>, c: char)
    ensures
        -1 <= last_pos(s, c) < s.len(),
        last_pos(s, c) >= 0 ==> s[last_pos(s, c)] == c,
        forall|i: int| last_pos(s, c) < i < s.len() ==> s[i] != c,
        forall|i: int| 0 <= i < s.len() && s[i] == c ==> i <= last_pos(s, c),
    decreases s.len(),
{
    if s.len() == 0 {
    } else if s[s.len() - 1] == c {
    } else {
        lemma_last_pos(s.drop_last(), c);
        assert forall|i: int| 0 <= i < s.len() && s[i] == c implies i <= last_pos(s, c) by {
            if i < s.len() - 1 {
                assert(s.drop_last()[i] == c);
            }
        }
        assert forall|i: int| last_pos(s, c) < i < s.len() implies s[i] != c by {
            if i < s.len() - 1 && s[i] == c {
                assert(s.drop_last()[i] == c);
            }
        }
    }
}

/// What the first-occurrence-from index means.
pub proof fn lemma_first_pos_from(s: Seq<char>, c: char, i: int)
    requires
        0 <= i,
    ensures
        first_pos_from(s, c, i) == -1 || i <= first_pos_from(s, c, i) < s.len(),
        first_pos_from(s, c, i) >= 0 ==> s[first_pos_from(s, c, i)] == c,
        first_pos_from(s, c, i) == -1 ==> forall|j: int| i <= j < s.len() ==> s[j] != c,
        forall|j: int| i <= j < first_pos_from(s, c, i) ==> s[j] != c,
    decreases s.len() - i,
{
    if i >= s.len() {
    } else if s[i] == c {
    } else {
        lemma_first_pos_from(s, c, i + 1);
    }
}

/// A path strictly under a root contains a `'/'` at or after the root's end,
/// so its parent is well defined, lies at or under the root, and is itself a
/// prefix directory of the path.
pub proof fn lemma_parent(root: Seq<char>, p: Seq<char>)
    requires
        is_prefix_dir(root, p),
    ensures
        root.len() <= last_pos(p, '/') < p.len(),
        parent_of(p).len() == last_pos(p, '/'),
        is_prefix_dir(parent_of(p), p),
        parent_of(p) == root || is_prefix_dir(root, parent_of(p)),
{
    lemma_last_pos(p, '/');
    let ls = last_pos(p, '/');
    assert(p[root.len() as int] == '/');
    assert(root.len() <= ls);
    let pa = parent_of(p);
    assert(pa == p.take(ls));
    assert(pa.len() == ls);
    assert(p.take(pa.len() as int) == pa);
    assert(is_prefix_dir(pa, p));
    if ls == root.len() {
        assert(pa =~= root);
    } else {
        assert(pa.take(root.len() as int) =~= p.take(root.len() as int));
        assert(pa[root.len() as int] == p[root.len() as int]);
        assert(is_prefix_dir(root, pa));
    }
}

/// A prefix directory of `p` that ends before `p`'s last `'/'` is also a
/// prefix directory of `p`'s parent, and the other way round.
pub proof fn lemma_prefix_dir_parent(q: Seq<char>, p: Seq<char>)
    requires
        last_pos(p, '/') >= 0,
    ensures
        is_prefix_dir(q, p) && q.len() < last_pos(p, '/') ==> is_prefix_dir(q, parent_of(p)),
        is_prefix_dir(q, parent_of(p)) ==> is_prefix_dir(q, p) && q.len() < last_pos(p, '/'),
{
    lemma_last_pos(p, '/');
    let ls = last_pos(p, '/');
    let pa = parent_of(p);
    assert(pa.len() == ls);
    if is_prefix_dir(q, p) && q.len() < ls {
        assert(pa.take(q.len() as int) =~= p.take(q.len() as int));
        assert(pa[q.len() as int] == p[q.len() as int]);
    }
    if is_prefix_dir(q, pa) {
        assert(p.take(q.len() as int) =~= pa.take(q.len() as int));
        assert(p[q.len() as int] == pa[q.len() as int]);
    }
}

/// Two prefix directories of one path with the same parent are the same:
/// walking up from `p`, each directory is reached through exactly one child.
pub proof fn lemma_sibling_unique(p: Seq<char>, c1: Seq<char>, c2: Seq<char>)
    requires
        is_prefix_dir(c1, p),
        is_prefix_dir(c2, p),
        parent_of(c1) == parent_of(c2),
        last_pos(c1, '/') >= 0,
        last_pos(c2, '/') >= 0,
    ensures
        c1 == c2,
{
    lemma_last_pos(c1, '/');
    lemma_last_pos(c2, '/');
    if c1.len() < c2.len() {
        assert(c2[c1.len() as int] == p[c1.len() as int]) by {
            assert(c2 == p.take(c2.len() as int));
        }
        assert(c2[c1.len() as int] == '/');
        assert(last_pos(c2, '/') >= c1.len());
        assert(parent_of(c2).len() >= c1.len());
        assert(parent_of(c1).len() < c1.len());
        assert(false);
    } else if c2.len() < c1.len() {
        assert(c1[c2.len() as int] == p[c2.len() as int]) by {
            assert(c1 == p.take(c1.len() as int));
        }
        assert(c1[c2.len() as int] == '/');
        assert(last_pos(c1, '/') >= c2.len());
        assert(parent_of(c1).len() >= c2.len());
        assert(parent_of(c2).len() < c2.len());
        assert(false);
    } else {
        assert(c1 =~= c2) by {
            assert(c1 == p.take(c1.len() as int));
            assert(c2 == p.take(c2.len() as int));
        }
    }
}

/// Below every prefix directory `q` of `p` other than `p`'s own parent there
/// is a next directory on the way down to `p`: a prefix directory of `p`
/// whose parent is exactly `q`.
pub proof fn lemma_next_down(q: Seq<char>, p: Seq<char>) -> (c: Seq<char>)
    requires
        is_prefix_dir(q, p),
        q != parent_of(p),
    ensures
        is_prefix_dir(c, p),
        last_pos(c, '/') >= 0,
        parent_of(c) == q,
{
    lemma_last_pos(p, '/');
    let ls = last_pos(p, '/');
    assert(ls >= q.len());
    if ls == q.len() {
        assert(parent_of(p) =~= q);
        assert(false);
    }
    let j = first_pos_from(p, '/', q.len() + 1 as int);
    lemma_first_pos_from(p, '/', q.len() + 1 as int);
    assert(j != -1) by {
        if j == -1 {
            assert(p[ls] != '/');
        }
    }
    let c = p.take(j);
    assert(c.len() == j);
    assert(p.take(c.len() as int) == c);
    assert(is_prefix_dir(c, p));
    lemma_last_pos(c, '/');
    assert(c[q.len() as int] == p[q.len() as int]);
    assert(c[q.len() as int] == '/');
    assert(last_pos(c, '/') >= q.len());
    assert forall|i: int| q.len() < i < j implies c[i] != '/' by {
        assert(c[i] == p[i]);
    }
    assert(last_pos(c, '/') == q.len());
    assert(parent_of(c) =~= q) by {
        assert(parent_of(c) == c.take(q.len() as int));
        assert(q == p.take(q.len() as int));
    }
    c
}

/// Index of the last occurrence of `c` in `s`, or `None` if `c` does not
/// occur.
pub fn find_last_char(s: &str, c: char) -> (r: Option<usize>)
    ensures
        match r {
            Some(i) => i == last_pos(s@, c),
            None => last_pos(s@, c) == -1,
        },
{
    proof {
        lemma_last_pos(s@, c);
    }
    let n = s.unicode_len();
    let mut j: usize = n;
    while j > 0
        invariant
            j <= n,
            n == s@.len(),
            forall|m: int| j <= m < s@.len() ==> s@[m] != c,
        decreases j,
    {
        if s.get_char(j - 1) == c {
            proof {
                lemma_last_pos(s@, c);
                assert(s@[j - 1] == c);
                if last_pos(s@, c) > j - 1 {
                    assert(s@[last_pos(s@, c)] != c);
                    assert(false);
                }
            }
            return Some(j - 1);
        }
        j = j - 1;
    }
    None
}

/// The parent directory of `p` as a fresh string: everything before the
/// last `'/'`.
pub fn parent_dir(p: &String) -> (r: String)
    requires
        last_pos(p@, '/') >= 0,
    ensures
        r@ == parent_of(p@),
{
    proof {
        lemma_last_pos(p@, '/');
    }
    let i = match find_last_char(p.as_str(), '/') {
        Some(i) => i,
        None => 0,
    };
    let r = p.as_str().substring_char(0, i).to_owned();
    assert(r@ =~= parent_of(p@));
    r
}

/// The file-name extension of `p` as a fresh string.
pub fn extension_of(p: &String) -> (e: String)
    ensures
        e@ == ext_of(p@),
{
    proof {
        lemma_last_pos(p@, '/');
    }
    let n = p.as_str().unicode_len();
    let start = match find_last_char(p.as_str(), '/') {
        Some(i) => i + 1,
        None => 0,
    };
    let name = p.as_str().substring_char(start, n);
    proof {
        assert(name@ =~= p@.skip(last_pos(p@, '/') + 1));
        lemma_last_pos(name@, '.');
    }
    match find_last_char(name, '.') {
        Some(d) => {
            let e = name.substring_char(d + 1, name.unicode_len()).to_owned();
            assert(e@ =~= ext_of(p@));
            e
        },
        None => {
            let e = String::new();
            assert(e@ =~= ext_of(p@));
            e
        },
    }
}

/// Whether `q` is a prefix directory of `p`.
pub fn check_prefix_dir(q: &String, p: &String) -> (b: bool)
    ensures
        b == is_prefix_dir(q@, p@),
{
    let ql = q.as_str().unicode_len();
    let pl = p.as_str().unicode_len();
    if ql >= pl {
        return false;
    }
    if p.as_str().get_char(ql) != '/' {
        return false;
    }
    let mut i: usize = 0;
    while i < ql
        invariant
            i <= ql,
            ql == q@.len(),
            ql < pl,
            pl == p@.len(),
            forall|m: int| 0 <= m < i ==> p@[m] == q@[m],
        decreases ql - i,
    {
        if p.as_str().get_char(i) != q.as_str().get_char(i) {
            return false;
        }
        i = i + 1;
    }
    proof {
        assert(p@.take(ql as int) =~= q@);
    }
    true
}

/// The prefix-directory relation is transitive.
pub proof fn lemma_prefix_dir_trans(a: Seq<char>, b: Seq<char>, c: Seq<char>)
    requires
        is_prefix_dir(a, b),
        is_prefix_dir(b, c),
    ensures
        is_prefix_dir(a, c),
{
    assert(c.take(a.len() as int) =~= b.take(a.len() as int)) by {
        assert(b == c.take(b.len() as int));
    }
    assert(c[a.len() as int] == b[a.len() as int]) by {
        assert(b == c.take(b.len() as int));
    }
}

/// The parent of a prefix directory of `p` is again a prefix directory of
/// `p`.
pub proof fn lemma_parent_prefix_chain(c: Seq<char>, p: Seq<char>)
    requires
        is_prefix_dir(c, p),
        last_pos(c, '/') >= 0,
    ensures
        is_prefix_dir(parent_of(c), p),
{
    lemma_last_pos(c, '/');
    let ls = last_pos(c, '/');
    assert(c == p.take(c.len() as int));
    assert(parent_of(c) =~= p.take(ls)) by {
        assert(parent_of(c) == c.take(ls));
    }
    assert(p[ls] == c[ls]);
    assert(p.take(parent_of(c).len() as int) == parent_of(c));
}

/// Prefix directories are ordered by inclusion along one path: of two prefix
/// directories of `p`, the shorter is a prefix directory of the longer.
pub proof fn lemma_prefix_dir_nested(q1: Seq<char>, q2: Seq<char>, p: Seq<char>)
    requires
        is_prefix_dir(q1, p),
        is_prefix_dir(q2, p),
        q1.len() < q2.len(),
    ensures
        is_prefix_dir(q1, q2),
{
    assert(q2.take(q1.len() as int) =~= p.take(q1.len() as int));
    assert(q2[q1.len() as int] == p[q1.len() as int]);
}

} // verus!
