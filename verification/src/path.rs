//! Path canonicalization and segment-boundary arithmetic.
//!
//! The remote store addresses every node by an absolute, slash-delimited
//! path.  A caller-supplied key is turned into such a path here, and the
//! ancestor-creation algorithm walks the path by explicit segment-boundary
//! indices rather than ad hoc substring slicing.

use vstd::prelude::*;

verus! {

/// The byte that separates path segments: ASCII `/`.
pub const SEP: u8 = 47;

/// The path of the namespace root.
pub open spec fn root() -> Seq<u8> {
    seq![SEP]
}

/// A canonical node path: absolute, slash-delimited, with no empty
/// segment and no trailing separator (except for the root itself).
pub open spec fn is_canonical(p: Seq<u8>) -> bool {
    &&& p.len() >= 1
    &&& p[0] == SEP
    &&& (p.len() == 1 || p[p.len() - 1] != SEP)
    &&& forall|i: int| #![trigger p[i]] 0 < i < p.len() ==> !(p[i - 1] == SEP && p[i] == SEP)
}

/// `k` with every run of separators shortened to a single one.
pub open spec fn collapse(k: Seq<u8>) -> Seq<u8>
    decreases k.len(),
{
    if k.len() == 0 {
        Seq::empty()
    } else {
        let pre = collapse(k.drop_last());
        if k.last() == SEP && pre.len() > 0 && pre.last() == SEP {
            pre
        } else {
            pre.push(k.last())
        }
    }
}

/// The canonical absolute path that stands for a caller-supplied key:
/// a separator is put in front, runs of separators are collapsed, and a
/// trailing separator is dropped.
pub open spec fn canon_of(k: Seq<u8>) -> Seq<u8> {
    let c = collapse(seq![SEP] + k);
    if c.len() > 1 && c.last() == SEP {
        c.drop_last()
    } else {
        c
    }
}

pub proof fn lemma_collapse_props(k: Seq<u8>)
    requires
        k.len() > 0,
    ensures
        1 <= collapse(k).len() <= k.len(),
        collapse(k)[0] == k[0],
        collapse(k).last() == k.last(),
        forall|i: int|
            #![trigger collapse(k)[i]]
            0 < i < collapse(k).len() ==> !(collapse(k)[i - 1] == SEP && collapse(k)[i] == SEP),
    decreases k.len(),
{
    if k.len() == 1 {
        assert(k.drop_last() =~= Seq::<u8>::empty());
        assert(collapse(k.drop_last()) =~= Seq::<u8>::empty());
        assert(collapse(k) =~= Seq::<u8>::empty().push(k.last()));
        assert(collapse(k)[0] == k[0]);
    } else {
        lemma_collapse_props(k.drop_last());
        let pre = collapse(k.drop_last());
        assert(k.drop_last()[0] == k[0]);
        if k.last() == SEP && pre.len() > 0 && pre.last() == SEP {
            assert(collapse(k) == pre);
        } else {
            let c = pre.push(k.last());
            assert(collapse(k) == c);
            assert(c[0] == pre[0]);
            assert forall|i: int| #![trigger c[i]] 0 < i < c.len() implies !(c[i - 1] == SEP
                && c[i] == SEP) by {
                if i < pre.len() {
                    assert(c[i - 1] == pre[i - 1] && c[i] == pre[i]);
                } else {
                    assert(i == pre.len());
                    assert(c[i - 1] == pre[pre.len() - 1]);
                    assert(c[i] == k.last());
                }
            }
        }
    }
}

pub proof fn lemma_canon_canonical(k: Seq<u8>)
    ensures
        is_canonical(canon_of(k)),
{
    let s = seq![SEP] + k;
    lemma_collapse_props(s);
    let c = collapse(s);
    assert(s[0] == SEP);
    if c.len() > 1 && c.last() == SEP {
        let d = c.drop_last();
        assert(d[0] == c[0]);
        if d.len() > 1 {
            assert(c[c.len() - 2] != SEP);
            assert(d[d.len() - 1] == c[c.len() - 2]);
        }
        assert(forall|i: int| #![trigger d[i]] 0 < i < d.len() ==> !(d[i - 1] == SEP && d[i]
            == SEP));
    }
}

/// The largest separator index of `p` strictly before `end`, or `-1`
/// if there is none.
pub open spec fn last_sep_before(p: Seq<u8>, end: int) -> int
    decreases end,
{
    if end <= 0 {
        -1
    } else if p[end - 1] == SEP {
        end - 1
    } else {
        last_sep_before(p, end - 1)
    }
}

pub proof fn lemma_last_sep_before(p: Seq<u8>, end: int)
    requires
        0 < end <= p.len(),
        p[0] == SEP,
    ensures
        0 <= last_sep_before(p, end) < end,
        p[last_sep_before(p, end)] == SEP,
        forall|i: int| last_sep_before(p, end) < i < end ==> p[i] != SEP,
    decreases end,
{
    if p[end - 1] != SEP {
        lemma_last_sep_before(p, end - 1);
    }
}

/// `last_sep_before` looks only at bytes before `end`, so a prefix that
/// covers them gives the same answer.
pub proof fn lemma_last_sep_before_prefix(p: Seq<u8>, q: Seq<u8>, end: int)
    requires
        end <= q.len() <= p.len(),
        forall|i: int| 0 <= i < q.len() ==> q[i] == p[i],
    ensures
        last_sep_before(q, end) == last_sep_before(p, end),
    decreases end,
{
    if end > 0 && p[end - 1] != SEP {
        lemma_last_sep_before_prefix(p, q, end - 1);
    }
}

/// The next segment boundary of `p` strictly after `i`: the next
/// separator index, or the end of the path.
pub open spec fn next_bound(p: Seq<u8>, i: int) -> int
    decreases p.len() - i,
{
    if i + 1 >= p.len() {
        p.len() as int
    } else if p[i + 1] == SEP {
        i + 1
    } else {
        next_bound(p, i + 1)
    }
}

pub proof fn lemma_next_bound(p: Seq<u8>, i: int)
    requires
        0 <= i < p.len(),
    ensures
        i < next_bound(p, i) <= p.len(),
        next_bound(p, i) == p.len() || p[next_bound(p, i)] == SEP,
        forall|j: int| i < j < next_bound(p, i) ==> p[j] != SEP,
    decreases p.len() - i,
{
    if i + 1 < p.len() && p[i + 1] != SEP {
        lemma_next_bound(p, i + 1);
    }
}

/// `i` ends a path segment of `p`: the prefix `p[0..i]` is the path of a
/// node on the way from the root to `p`.
pub open spec fn is_bound(p: Seq<u8>, i: int) -> bool {
    &&& 2 <= i <= p.len()
    &&& (i == p.len() || p[i] == SEP)
}

/// The node path that ends at boundary `i`.
pub open spec fn prefix_of(p: Seq<u8>, i: int) -> Seq<u8> {
    p.subrange(0, i)
}

pub proof fn lemma_prefix_canonical(p: Seq<u8>, i: int)
    requires
        is_canonical(p),
        is_bound(p, i),
    ensures
        is_canonical(prefix_of(p, i)),
        prefix_of(p, i) != root(),
        prefix_of(p, i).len() == i,
{
    let q = prefix_of(p, i);
    assert(q[0] == p[0]);
    assert(q[i - 1] == p[i - 1]);
    if i < p.len() {
        assert(!(p[i - 1] == SEP && p[i] == SEP));
    }
    assert(q.len() != root().len());
}

/// The parent path of a node: the prefix up to the last separator, or
/// the root when that separator is the leading one.
pub open spec fn parent_of(p: Seq<u8>) -> Seq<u8> {
    let j = last_sep_before(p, p.len() as int);
    if j <= 0 {
        root()
    } else {
        p.subrange(0, j)
    }
}

/// On a canonical path, the parent of the node at boundary `i` is the
/// node at the previous boundary (or the root).
pub proof fn lemma_parent_of_prefix(p: Seq<u8>, i: int)
    requires
        is_canonical(p),
        is_bound(p, i),
    ensures
        ({
            let j = last_sep_before(p, i);
            &&& 0 <= j < i
            &&& p[j] == SEP
            &&& (j == 0 || j >= 2)
            &&& parent_of(prefix_of(p, i)) == (if j == 0 {
                root()
            } else {
                prefix_of(p, j)
            })
            &&& (j != 0 ==> is_bound(p, j))
        }),
{
    let q = prefix_of(p, i);
    lemma_last_sep_before(p, i);
    lemma_last_sep_before_prefix(p, q, i);
    let j = last_sep_before(p, i);
    if j == 1 {
        assert(p[0] == SEP && p[1] == SEP);
        assert(false);
    }
    if j > 0 {
        assert(q.subrange(0, j) =~= p.subrange(0, j));
    }
}

/// The parent of a non-root canonical path is itself canonical, shorter,
/// and `/`-rooted.
pub proof fn lemma_parent_props(p: Seq<u8>)
    requires
        is_canonical(p),
        p != root(),
    ensures
        is_canonical(parent_of(p)),
        parent_of(p).len() < p.len(),
{
    if p.len() == 1 {
        assert(p =~= root());
    }
    lemma_last_sep_before(p, p.len() as int);
    let j = last_sep_before(p, p.len() as int);
    if j == 1 {
        assert(p[0] == SEP && p[1] == SEP);
        assert(false);
    }
    if j > 0 {
        lemma_prefix_canonical(p, j);
    }
}

/// The parent of the root is the root itself.
pub proof fn lemma_parent_of_root()
    ensures
        parent_of(root()) == root(),
{
    assert(last_sep_before(root(), 1) == 0);
}

/// The whole path is its own last boundary.
pub proof fn lemma_prefix_whole(p: Seq<u8>)
    ensures
        prefix_of(p, p.len() as int) =~= p,
{
}

/// Two boundaries of `p` are adjacent exactly when no separator lies
/// between them; in that case retreating from the later one lands on the
/// earlier one.
pub proof fn lemma_adjacent_bounds(p: Seq<u8>, i: int)
    requires
        is_canonical(p),
        is_bound(p, i),
        i < p.len(),
    ensures
        is_bound(p, next_bound(p, i)),
        last_sep_before(p, next_bound(p, i)) == i,
{
    lemma_next_bound(p, i);
    let nb = next_bound(p, i);
    lemma_last_sep_before(p, nb);
    let j = last_sep_before(p, nb);
    if j < i {
        assert(p[i] == SEP);
        assert(false);
    }
    if j > i {
        assert(p[j] != SEP);
        assert(false);
    }
}

/// Turn a caller-supplied key into its canonical absolute path.
pub fn canonicalize(key: &[u8]) -> (p: Vec<u8>)
    ensures
        p@ == canon_of(key@),
        is_canonical(p@),
{
    let mut out: Vec<u8> = Vec::new();
    out.push(SEP);
    proof {
        let s0 = seq![SEP] + key@.subrange(0, 0);
        assert(s0.drop_last() =~= Seq::<u8>::empty());
        assert(collapse(s0.drop_last()) =~= Seq::<u8>::empty());
        assert(collapse(s0) =~= Seq::<u8>::empty().push(SEP));
        assert(out@ =~= collapse(s0));
    }
    let mut i: usize = 0;
    while i < key.len()
        invariant
            i <= key.len(),
            out@ == collapse(seq![SEP] + key@.subrange(0, i as int)),
        decreases key.len() - i,
    {
        let ghost s_old = seq![SEP] + key@.subrange(0, i as int);
        let ghost s_new = seq![SEP] + key@.subrange(0, i as int + 1);
        proof {
            lemma_collapse_props(s_old);
            assert(s_new.drop_last() =~= s_old);
            assert(s_new.last() == key@[i as int]);
        }
        let b = key[i];
        if !(b == SEP && out[out.len() - 1] == SEP) {
            out.push(b);
        }
        i += 1;
    }
    proof {
        assert(key@.subrange(0, key@.len() as int) =~= key@);
        lemma_collapse_props(seq![SEP] + key@);
    }
    if out.len() > 1 && out[out.len() - 1] == SEP {
        let _ = out.pop();
        proof {
            assert(out@ =~= collapse(seq![SEP] + key@).drop_last());
        }
    }
    proof {
        lemma_canon_canonical(key@);
    }
    out
}

/// Index of the last separator of `p` strictly before `end`.
pub fn find_last_sep(p: &Vec<u8>, end: usize) -> (j: usize)
    requires
        0 < end <= p@.len(),
        p@[0] == SEP,
    ensures
        j == last_sep_before(p@, end as int),
{
    let mut e = end;
    while p[e - 1] != SEP
        invariant
            0 < e <= p@.len(),
            p@[0] == SEP,
            last_sep_before(p@, end as int) == last_sep_before(p@, e as int),
        decreases e,
    {
        e = e - 1;
    }
    e - 1
}

/// The next segment boundary of `p` strictly after `i`.
pub fn find_next_bound(p: &Vec<u8>, i: usize) -> (nb: usize)
    requires
        i < p@.len(),
    ensures
        nb == next_bound(p@, i as int),
{
    let n = p.len();
    let mut j = i;
    while j + 1 < n && p[j + 1] != SEP
        invariant
            i <= j < n,
            n == p@.len(),
            next_bound(p@, i as int) == next_bound(p@, j as int),
        decreases n - j,
    {
        j = j + 1;
    }
    if j + 1 >= n {
        n
    } else {
        j + 1
    }
}

/// The parent path of a canonical non-root path.
pub fn parent_path(p: &Vec<u8>) -> (q: Vec<u8>)
    requires
        is_canonical(p@),
        p@ != root(),
    ensures
        q@ == parent_of(p@),
        is_canonical(q@),
{
    proof {
        if p@.len() == 1 {
            assert(p@ =~= root());
        }
        lemma_last_sep_before(p@, p@.len() as int);
        lemma_parent_props(p@);
    }
    let j = find_last_sep(p, p.len());
    let mut q: Vec<u8> = Vec::new();
    if j == 0 {
        q.push(SEP);
        proof {
            assert(q@ =~= root());
        }
    } else {
        let mut t: usize = 0;
        while t < j
            invariant
                t <= j < p@.len(),
                q@ == p@.subrange(0, t as int),
            decreases j - t,
        {
            q.push(p[t]);
            proof {
                assert(p@.subrange(0, t as int).push(p@[t as int]) =~= p@.subrange(
                    0,
                    t as int + 1,
                ));
            }
            t += 1;
        }
    }
    q
}

/// Copy of the node path that ends at boundary `end` (the root when
/// `end` is `0`).
pub fn prefix_path(p: &Vec<u8>, end: usize) -> (q: Vec<u8>)
    requires
        end <= p@.len(),
    ensures
        q@ == (if end == 0 {
            root()
        } else {
            prefix_of(p@, end as int)
        }),
{
    let mut q: Vec<u8> = Vec::new();
    if end == 0 {
        q.push(SEP);
        proof {
            assert(q@ =~= root());
        }
    } else {
        let mut t: usize = 0;
        while t < end
            invariant
                t <= end <= p@.len(),
                q@ == p@.subrange(0, t as int),
            decreases end - t,
        {
            q.push(p[t]);
            proof {
                assert(p@.subrange(0, t as int).push(p@[t as int]) =~= p@.subrange(
                    0,
                    t as int + 1,
                ));
            }
            t += 1;
        }
    }
    q
}

/// Byte-wise equality of two byte strings.
pub fn bytes_eq(a: &Vec<u8>, b: &Vec<u8>) -> (r: bool)
    ensures
        r == (a@ == b@),
{
    if a.len() != b.len() {
        proof {
            assert(a@ != b@);
        }
        return false;
    }
    let mut i: usize = 0;
    while i < a.len()
        invariant
            i <= a@.len(),
            a@.len() == b@.len(),
            forall|t: int| 0 <= t < i ==> a@[t] == b@[t],
        decreases a@.len() - i,
    {
        if a[i] != b[i] {
            proof {
                assert(a@[i as int] != b@[i as int]);
            }
            return false;
        }
        i += 1;
    }
    proof {
        assert(a@ =~= b@);
    }
    true
}

} // verus!
