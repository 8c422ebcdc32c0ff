//! Slash-delimited group paths: the spec-level structure of a path
//! (ancestors, subtrees, direct children, last segment) and executable
//! string helpers proved against it.

use vstd::prelude::*;

verus! {

/// Does the path contain a separator anywhere?
pub open spec fn has_slash(p: Seq<char>) -> bool {
    exists|i: int| 0 <= i < p.len() && p[i] == '/'
}

/// A root path is one without a separator.
pub open spec fn is_root_path(p: Seq<char>) -> bool {
    !has_slash(p)
}

/// `a` is a proper ancestor of `p`: `p` starts with `a` followed by a slash.
pub open spec fn is_proper_ancestor(a: Seq<char>, p: Seq<char>) -> bool {
    &&& a.len() < p.len()
    &&& a == p.subrange(0, a.len() as int)
    &&& p[a.len() as int] == '/'
}

/// `q` is `p` itself or one of the ancestor prefixes of `p`: exactly the
/// entries that materializing `p` brings into existence.
pub open spec fn in_prefixes(p: Seq<char>, q: Seq<char>) -> bool {
    q == p || is_proper_ancestor(q, p)
}

/// `q` lies in the subtree rooted at `p`: it is `p` itself or starts with
/// `p` followed by a slash.
pub open spec fn in_subtree(p: Seq<char>, q: Seq<char>) -> bool {
    q == p || is_proper_ancestor(p, q)
}

/// `q` is a direct child path of `parent`: it extends `parent` by a slash
/// and one further segment that contains no slash of its own.
pub open spec fn is_direct_child(parent: Seq<char>, q: Seq<char>) -> bool {
    &&& is_proper_ancestor(parent, q)
    &&& !has_slash(q.subrange(parent.len() as int + 1, q.len() as int))
}

/// Index where the last segment of `p` starts: just after the last slash,
/// or 0 when there is none.
pub open spec fn seg_start(p: Seq<char>) -> int
    decreases p.len(),
{
    if p.len() == 0 {
        0
    } else if p[p.len() - 1] == '/' {
        p.len() as int
    } else {
        seg_start(p.drop_last())
    }
}

/// The last segment of a path: the name of the group it denotes.
pub open spec fn seg_name(p: Seq<char>) -> Seq<char> {
    p.subrange(seg_start(p), p.len() as int)
}

/// Strict lexicographic order on character sequences, by code point; this
/// is the order `str` comparison in Rust induces.
pub open spec fn str_lt(a: Seq<char>, b: Seq<char>) -> bool
    decreases a.len(),
{
    if b.len() == 0 {
        false
    } else if a.len() == 0 {
        true
    } else if a[0] < b[0] {
        true
    } else if a[0] > b[0] {
        false
    } else {
        str_lt(a.drop_first(), b.drop_first())
    }
}

pub open spec fn str_le(a: Seq<char>, b: Seq<char>) -> bool {
    a == b || str_lt(a, b)
}

pub proof fn lemma_str_lt_total(a: Seq<char>, b: Seq<char>)
    ensures
        a == b || str_lt(a, b) || str_lt(b, a),
    decreases a.len(),
{
    if a.len() == 0 && b.len() == 0 {
        assert(a =~= b);
    } else if a.len() > 0 && b.len() > 0 {
        if a[0] == b[0] {
            lemma_str_lt_total(a.drop_first(), b.drop_first());
            if a.drop_first() == b.drop_first() {
                assert(a.len() == b.len());
                assert forall|i: int| 0 <= i < a.len() implies a[i] == b[i] by {
                    if i > 0 {
                        assert(a[i] == a.drop_first()[i - 1]);
                        assert(b[i] == b.drop_first()[i - 1]);
                    }
                }
                assert(a =~= b);
            }
        }
    }
}

pub proof fn lemma_str_lt_irrefl(a: Seq<char>)
    ensures
        !str_lt(a, a),
    decreases a.len(),
{
    if a.len() > 0 {
        lemma_str_lt_irrefl(a.drop_first());
    }
}

pub proof fn lemma_str_lt_trans(a: Seq<char>, b: Seq<char>, c: Seq<char>)
    requires
        str_lt(a, b),
        str_lt(b, c),
    ensures
        str_lt(a, c),
    decreases a.len(),
{
    if a.len() > 0 && b.len() > 0 && c.len() > 0 {
        if a[0] == b[0] && b[0] == c[0] {
            lemma_str_lt_trans(a.drop_first(), b.drop_first(), c.drop_first());
        }
    }
}

pub proof fn lemma_str_le_trans(a: Seq<char>, b: Seq<char>, c: Seq<char>)
    requires
        str_le(a, b),
        str_le(b, c),
    ensures
        str_le(a, c),
{
    if a != b && b != c {
        lemma_str_lt_trans(a, b, c);
    }
}

// --- executable helpers ---

/// Equality of string slices, by contents.
pub fn str_eq(a: &str, b: &str) -> (r: bool)
    ensures
        r == (a@ == b@),
{
    let sa = String::from_str(a);
    let sb = String::from_str(b);
    sa == sb
}

/// Whether the string contains a slash.
pub fn str_has_slash(s: &str) -> (r: bool)
    ensures
        r == has_slash(s@),
{
    let n = s.unicode_len();
    let mut i: usize = 0;
    while i < n
        invariant
            i <= n,
            n == s@.len(),
            forall|j: int| 0 <= j < i ==> s@[j] != '/',
        decreases n - i,
    {
        if s.get_char(i) == '/' {
            return true;
        }
        i = i + 1;
    }
    false
}

/// Whether `q` equals `p` or starts with `p` followed by a slash.
pub fn str_in_subtree(p: &str, q: &str) -> (r: bool)
    ensures
        r == in_subtree(p@, q@),
{
    let pn = p.unicode_len();
    let qn = q.unicode_len();
    if qn == pn {
        str_eq(p, q)
    } else if qn > pn {
        let head = q.substring_char(0, pn);
        str_eq(head, p) && q.get_char(pn) == '/'
    } else {
        assert(q@ != p@ && !is_proper_ancestor(p@, q@));
        false
    }
}

/// Whether `q` is a direct child path of `parent`.
pub fn str_is_direct_child(parent: &str, q: &str) -> (r: bool)
    ensures
        r == is_direct_child(parent@, q@),
{
    let pn = parent.unicode_len();
    let qn = q.unicode_len();
    if qn <= pn {
        assert(!is_proper_ancestor(parent@, q@));
        false
    } else {
        let head = q.substring_char(0, pn);
        if str_eq(head, parent) && q.get_char(pn) == '/' {
            let rest = q.substring_char(pn + 1, qn);
            !str_has_slash(rest)
        } else {
            false
        }
    }
}

/// Start index of the last segment of `s`.
pub fn seg_start_exec(s: &str) -> (r: usize)
    ensures
        r == seg_start(s@),
        r <= s@.len(),
    decreases s@.len(),
{
    let n = s.unicode_len();
    if n == 0 {
        0
    } else if s.get_char(n - 1) == '/' {
        n
    } else {
        let head = s.substring_char(0, n - 1);
        assert(head@ =~= s@.drop_last());
        seg_start_exec(head)
    }
}

/// The last segment of `s`, as an owned string.
pub fn seg_name_exec(s: &str) -> (r: String)
    ensures
        r@ == seg_name(s@),
{
    let n = s.unicode_len();
    let start = seg_start_exec(s);
    let tail = s.substring_char(start, n);
    String::from_str(tail)
}

/// Whether `s` starts with `pre`.
pub fn str_starts_with(s: &str, pre: &str) -> (r: bool)
    ensures
        r == pre@.is_prefix_of(s@),
{
    let sn = s.unicode_len();
    let pn = pre.unicode_len();
    if pn > sn {
        false
    } else {
        let head = s.substring_char(0, pn);
        let r = str_eq(head, pre);
        proof {
            if r {
                assert(pre@ =~= s@.subrange(0, pre@.len() as int));
            }
        }
        r
    }
}

/// Number of slashes in the path: the nesting level its segments imply.
pub open spec fn slash_count(p: Seq<char>) -> nat
    decreases p.len(),
{
    if p.len() == 0 {
        0
    } else {
        slash_count(p.drop_last()) + if p[p.len() - 1] == '/' {
            1nat
        } else {
            0nat
        }
    }
}

/// Count the slashes of `s`.
pub fn slash_count_exec(s: &str) -> (c: usize)
    ensures
        c as nat == slash_count(s@),
    decreases s@.len(),
{
    let n = s.unicode_len();
    if n == 0 {
        0
    } else {
        let head = s.substring_char(0, n - 1);
        proof {
            assert(head@ =~= s@.drop_last());
        }
        let c0 = slash_count_exec(head);
        proof {
            assert(slash_count(head@) <= head@.len()) by {
                lemma_slash_count_le(head@);
            }
        }
        if s.get_char(n - 1) == '/' {
            c0 + 1
        } else {
            c0
        }
    }
}

pub proof fn lemma_slash_count_le(p: Seq<char>)
    ensures
        slash_count(p) <= p.len(),
    decreases p.len(),
{
    if p.len() > 0 {
        lemma_slash_count_le(p.drop_last());
    }
}

/// Strict lexicographic comparison of string slices.
pub fn str_lt_exec(a: &str, b: &str) -> (r: bool)
    ensures
        r == str_lt(a@, b@),
    decreases a@.len(),
{
    let an = a.unicode_len();
    let bn = b.unicode_len();
    if bn == 0 {
        false
    } else if an == 0 {
        true
    } else {
        let ca = a.get_char(0);
        let cb = b.get_char(0);
        if ca < cb {
            true
        } else if ca > cb {
            false
        } else {
            let ta = a.substring_char(1, an);
            let tb = b.substring_char(1, bn);
            assert(ta@ =~= a@.drop_first());
            assert(tb@ =~= b@.drop_first());
            str_lt_exec(ta, tb)
        }
    }
}

/// Non-strict lexicographic comparison of string slices.
pub fn str_le_exec(a: &str, b: &str) -> (r: bool)
    ensures
        r == str_le(a@, b@),
{
    if str_eq(a, b) {
        true
    } else {
        str_lt_exec(a, b)
    }
}

} // verus!
