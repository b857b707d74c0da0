//! The laws the adapter obeys, proved once and for all over the store
//! model that the operations' contracts are stated in.

use vstd::prelude::*;

use crate::adapter::{
    conn_effect, delete_model, delete_works, get_model, set_model, ZkAdapter,
};
use crate::memstore::{store_inv, MemStore};
use crate::nested::{chain_len, in_chain, lemma_materialize_props, materialize};
use crate::path::{
    canon_of, is_bound, is_canonical, last_sep_before, lemma_canon_canonical,
    lemma_last_sep_before, lemma_parent_props, lemma_prefix_canonical, lemma_prefix_whole,
    parent_of, prefix_of, root, SEP,
};

verus! {

/// Every ancestor boundary of a present node is itself present: the
/// namespace invariant closes the store under ancestors.
pub proof fn lemma_ancestors_present(m: Map<Seq<u8>, Seq<u8>>, q: Seq<u8>, b: int)
    requires
        store_inv(m),
        m.dom().contains(q),
        is_canonical(q),
        is_bound(q, b),
    ensures
        m.dom().contains(prefix_of(q, b)),
    decreases q.len(),
{
    if b == q.len() {
        lemma_prefix_whole(q);
    } else {
        let j = last_sep_before(q, q.len() as int);
        lemma_last_sep_before(q, q.len() as int);
        assert(q[b] == SEP);
        assert(b <= j);
        assert(q != root());
        lemma_parent_props(q);
        let parent = parent_of(q);
        assert(m.dom().contains(parent));
        if j == 1 {
            assert(q[0] == SEP && q[1] == SEP);
            assert(false);
        }
        assert(parent == q.subrange(0, j));
        if b == j {
            assert(prefix_of(q, b) == parent);
        } else {
            assert(parent[b] == q[b]);
            assert(is_bound(parent, b));
            lemma_prefix_canonical(q, j);
            lemma_ancestors_present(m, parent, b);
            assert(prefix_of(parent, b) =~= prefix_of(q, b));
        }
    }
}

/// When the target of a write is absent, the missing part of its
/// ancestor chain covers every boundary whose node is absent.
pub proof fn lemma_chain_covers(m: Map<Seq<u8>, Seq<u8>>, p: Seq<u8>, b: int)
    requires
        store_inv(m),
        is_canonical(p),
        !m.dom().contains(p),
        is_bound(p, b),
        !m.dom().contains(prefix_of(p, b)),
    ensures
        in_chain(m, p, prefix_of(p, b)),
    decreases p.len(),
{
    assert(p != root());
    lemma_parent_props(p);
    let j = last_sep_before(p, p.len() as int);
    lemma_last_sep_before(p, p.len() as int);
    let parent = parent_of(p);
    if b == p.len() {
        lemma_prefix_whole(p);
        assert(in_chain(m, p, p));
    } else {
        assert(p[b] == SEP);
        assert(b <= j);
        if j == 1 {
            assert(p[0] == SEP && p[1] == SEP);
            assert(false);
        }
        if m.dom().contains(parent) {
            if b == j {
                assert(prefix_of(p, b) == parent);
                assert(false);
            } else {
                assert(j >= 2);
                assert(parent == p.subrange(0, j));
                assert(parent[b] == p[b]);
                assert(is_bound(parent, b));
                lemma_prefix_canonical(p, j);
                lemma_ancestors_present(m, parent, b);
                assert(prefix_of(parent, b) =~= prefix_of(p, b));
                assert(false);
            }
        } else {
            if b == j {
                assert(j >= 2);
                assert(prefix_of(p, b) =~= parent);
                assert(in_chain(m, parent, parent)) by {
                    lemma_prefix_canonical(p, j);
                    lemma_parent_props(parent);
                }
                assert(in_chain(m, p, parent));
            } else {
                assert(j >= 2);
                assert(parent == p.subrange(0, j));
                assert(parent[b] == p[b]);
                assert(is_bound(parent, b));
                lemma_prefix_canonical(p, j);
                assert(prefix_of(parent, b) =~= prefix_of(p, b));
                lemma_chain_covers(m, parent, b);
            }
        }
    }
}

/// Round trip: writing any key with any payload and reading the same
/// key back yields exactly that payload.
pub proof fn lemma_set_get_round_trip(m: Map<Seq<u8>, Seq<u8>>, k: Seq<u8>, v: Seq<u8>)
    requires
        store_inv(m),
    ensures
        get_model(set_model(m, canon_of(k), v), canon_of(k)) == Some(v),
{
    let p = canon_of(k);
    lemma_canon_canonical(k);
    if !m.dom().contains(p) {
        assert(p != root());
        lemma_parent_props(p);
        assert(in_chain(m, p, p));
        lemma_materialize_props(m, p, v);
        assert(materialize(m, p, v).dom().contains(p));
        assert(materialize(m, p, v)[p] == v);
    }
}

/// Idempotent delete: deleting an absent key succeeds and changes
/// nothing; and once a delete has succeeded, repeating it succeeds too
/// and changes nothing further.
pub proof fn lemma_delete_idempotent(m: Map<Seq<u8>, Seq<u8>>, k: Seq<u8>)
    ensures
        !m.dom().contains(canon_of(k)) ==> delete_works(m, canon_of(k)) && delete_model(
            m,
            canon_of(k),
        ) == m,
        delete_works(m, canon_of(k)) ==> {
            let m1 = delete_model(m, canon_of(k));
            &&& delete_works(m1, canon_of(k))
            &&& delete_model(m1, canon_of(k)) == m1
        },
{
}

/// Ancestor materialization: after a write, the target node exists and
/// holds the written value, and every ancestor boundary of its path
/// exists as well.
pub proof fn lemma_set_materializes_ancestors(m: Map<Seq<u8>, Seq<u8>>, k: Seq<u8>, v: Seq<u8>)
    requires
        store_inv(m),
    ensures
        set_model(m, canon_of(k), v).dom().contains(canon_of(k)),
        set_model(m, canon_of(k), v)[canon_of(k)] == v,
        forall|b: int|
            is_bound(canon_of(k), b) ==> set_model(m, canon_of(k), v).dom().contains(
                #[trigger] prefix_of(canon_of(k), b),
            ),
{
    let p = canon_of(k);
    lemma_canon_canonical(k);
    lemma_set_get_round_trip(m, k, v);
    if m.dom().contains(p) {
        assert forall|b: int| is_bound(p, b) implies set_model(m, p, v).dom().contains(
            #[trigger] prefix_of(p, b),
        ) by {
            lemma_ancestors_present(m, p, b);
        }
    } else {
        lemma_materialize_props(m, p, v);
        assert forall|b: int| is_bound(p, b) implies set_model(m, p, v).dom().contains(
            #[trigger] prefix_of(p, b),
        ) by {
            if !m.dom().contains(prefix_of(p, b)) {
                lemma_chain_covers(m, p, b);
            }
        }
    }
}

/// Deepest-ancestor short circuit: when the target is absent but its
/// parent already exists, a single creation suffices — no ancestor is
/// created anew.
pub proof fn lemma_short_circuit(m: Map<Seq<u8>, Seq<u8>>, k: Seq<u8>)
    requires
        store_inv(m),
        !m.dom().contains(canon_of(k)),
        m.dom().contains(parent_of(canon_of(k))),
    ensures
        chain_len(m, canon_of(k)) == 1,
        forall|x: Seq<u8>| #[trigger] in_chain(m, canon_of(k), x) ==> x == canon_of(k),
{
    let p = canon_of(k);
    lemma_canon_canonical(k);
    assert(p != root());
    lemma_parent_props(p);
    assert(chain_len(m, parent_of(p)) == 0);
    assert(chain_len(m, p) == 1);
    assert forall|x: Seq<u8>| #[trigger] in_chain(m, p, x) implies x == p by {
        if x != p {
            assert(in_chain(m, parent_of(p), x));
            assert(false);
        }
    }
}

/// Absent read: a never-written key reads back as the well-defined
/// absent result.
pub proof fn lemma_absent_read(m: Map<Seq<u8>, Seq<u8>>, k: Seq<u8>)
    requires
        !m.dom().contains(canon_of(k)),
    ensures
        get_model(m, canon_of(k)) is None,
{
}

/// Connection reuse: once one operation has established the shared
/// handle, a later operation opens no further session and submits no
/// further token — a fresh adapter pays for exactly one connect (and at
/// most one auth) over any two sequential operations.
pub proof fn lemma_connection_reuse(
    a0: ZkAdapter,
    a1: ZkAdapter,
    a2: ZkAdapter,
    s0: MemStore,
    s1: MemStore,
    s2: MemStore,
)
    requires
        conn_effect(a0, a1, s0, s1),
        conn_effect(a1, a2, s1, s2),
    ensures
        s2.sessions_opened() == s1.sessions_opened(),
        s2.auths_received() == s1.auths_received(),
        a0.cached_spec() is None ==> s2.sessions_opened() == s0.sessions_opened() + 1,
{
}

} // verus!
