//! The two-phase ancestor-creation algorithm.
//!
//! Invoked after a direct write failed because the target node is
//! absent.  Phase 1 probes shrinking prefixes of the target path until a
//! creation succeeds at the deepest boundary whose parent exists; phase 2
//! walks back down, creating each missing segment in root-to-leaf order,
//! the leaf last.  Each creation is one remote round trip; the decision
//! after each reply is the step function below, driven either against
//! the store model or, by the unverified shell, against a real server.

use vstd::prelude::*;

use crate::path::{
    find_last_sep, find_next_bound, is_bound, is_canonical, last_sep_before, next_bound, parent_of,
    root,
};
use crate::reply::{CreateReply, RemoteCause};

verus! {

/// Where the ancestor-creation algorithm stands.
#[derive(Clone, Copy, PartialEq, Eq, Structural, Debug)]
pub enum NestedState {
    /// Phase 1: the prefix that ends at boundary `cut` is being probed.
    Probe { cut: usize },
    /// Phase 2: the prefix that ends at boundary `at` is being created.
    Fill { at: usize },
    /// The target node exists; the operation succeeded.
    Done,
    /// The operation failed with this cause.
    Failed { cause: RemoteCause },
}

/// The opening move: optimistically create the full path itself.
pub open spec fn spec_nested_start(p: Seq<u8>) -> NestedState {
    NestedState::Probe { cut: p.len() as usize }
}

/// The decision after one creation round trip: which prefix to try
/// next, or how the operation ends.
pub open spec fn spec_nested_step(p: Seq<u8>, state: NestedState, reply: CreateReply) -> NestedState {
    match state {
        NestedState::Probe { cut } => match reply {
            CreateReply::Created => {
                if cut == p.len() {
                    NestedState::Done
                } else {
                    NestedState::Fill { at: next_bound(p, cut as int) as usize }
                }
            },
            CreateReply::NoNode => {
                if cut == 0 {
                    // Even the root could not be created: a hard error.
                    NestedState::Failed { cause: RemoteCause::NoNode }
                } else {
                    NestedState::Probe { cut: last_sep_before(p, cut as int) as usize }
                }
            },
            CreateReply::Fault(c) => NestedState::Failed { cause: c },
        },
        NestedState::Fill { at } => match reply {
            CreateReply::Created => {
                if at == p.len() {
                    NestedState::Done
                } else {
                    NestedState::Fill { at: next_bound(p, at as int) as usize }
                }
            },
            CreateReply::NoNode => NestedState::Failed { cause: RemoteCause::NoNode },
            CreateReply::Fault(c) => NestedState::Failed { cause: c },
        },
        NestedState::Done => NestedState::Done,
        NestedState::Failed { cause } => NestedState::Failed { cause },
    }
}

/// The opening move of the ancestor-creation algorithm.
pub fn nested_start(path: &Vec<u8>) -> (s: NestedState)
    ensures
        s == spec_nested_start(path@),
{
    NestedState::Probe { cut: path.len() }
}

/// One decision of the ancestor-creation algorithm.
pub fn nested_step(path: &Vec<u8>, state: NestedState, reply: CreateReply) -> (next: NestedState)
    requires
        is_canonical(path@),
        match state {
            NestedState::Probe { cut } => cut <= path@.len(),
            NestedState::Fill { at } => at <= path@.len(),
            _ => true,
        },
    ensures
        next == spec_nested_step(path@, state, reply),
{
    match state {
        NestedState::Probe { cut } => match reply {
            CreateReply::Created => {
                if cut == path.len() {
                    NestedState::Done
                } else {
                    proof {
                        crate::path::lemma_next_bound(path@, cut as int);
                    }
                    NestedState::Fill { at: find_next_bound(path, cut) }
                }
            },
            CreateReply::NoNode => {
                if cut == 0 {
                    NestedState::Failed { cause: RemoteCause::NoNode }
                } else {
                    proof {
                        crate::path::lemma_last_sep_before(path@, cut as int);
                    }
                    NestedState::Probe { cut: find_last_sep(path, cut) }
                }
            },
            CreateReply::Fault(c) => NestedState::Failed { cause: c },
        },
        NestedState::Fill { at } => match reply {
            CreateReply::Created => {
                if at == path.len() {
                    NestedState::Done
                } else {
                    proof {
                        crate::path::lemma_next_bound(path@, at as int);
                    }
                    NestedState::Fill { at: find_next_bound(path, at) }
                }
            },
            CreateReply::NoNode => NestedState::Failed { cause: RemoteCause::NoNode },
            CreateReply::Fault(c) => NestedState::Failed { cause: c },
        },
        NestedState::Done => NestedState::Done,
        NestedState::Failed { cause } => NestedState::Failed { cause },
    }
}

/// Ranks that shrink as the algorithm advances: phase 1 runs before
/// phase 2, the probed boundary only retreats, and the filled boundary
/// only advances.
pub open spec fn nested_rank1(s: NestedState) -> int {
    match s {
        NestedState::Probe { .. } => 1,
        _ => 0,
    }
}

pub open spec fn nested_rank2(s: NestedState, n: int) -> int {
    match s {
        NestedState::Probe { cut } => cut as int + 1,
        NestedState::Fill { at } => n - at + 1,
        _ => 0,
    }
}

/// `m` with the missing part of `p`'s ancestor chain (and `p` itself)
/// added, every added node holding the payload `v`.  This is the effect
/// the ancestor-creation algorithm is proved to have on the store.
pub open spec fn materialize(m: Map<Seq<u8>, Seq<u8>>, p: Seq<u8>, v: Seq<u8>) -> Map<
    Seq<u8>,
    Seq<u8>,
>
    decreases p.len(),
{
    if p == root() || m.dom().contains(p) {
        m
    } else if parent_of(p).len() >= p.len() {
        // Not reached on canonical paths; keeps the recursion well founded.
        m
    } else {
        materialize(m, parent_of(p), v).insert(p, v)
    }
}

/// The nodes that `materialize(m, p, v)` adds to `m`.
pub open spec fn in_chain(m: Map<Seq<u8>, Seq<u8>>, p: Seq<u8>, x: Seq<u8>) -> bool
    decreases p.len(),
{
    if p == root() || m.dom().contains(p) {
        false
    } else if parent_of(p).len() >= p.len() {
        false
    } else {
        x == p || in_chain(m, parent_of(p), x)
    }
}

/// How many nodes `materialize(m, p, v)` adds: the length of the
/// missing part of the ancestor chain.
pub open spec fn chain_len(m: Map<Seq<u8>, Seq<u8>>, p: Seq<u8>) -> nat
    decreases p.len(),
{
    if p == root() || m.dom().contains(p) {
        0
    } else if parent_of(p).len() >= p.len() {
        0
    } else {
        chain_len(m, parent_of(p)) + 1
    }
}

/// Every added node is at most as long as the target path.
pub proof fn lemma_in_chain_len(m: Map<Seq<u8>, Seq<u8>>, p: Seq<u8>, x: Seq<u8>)
    requires
        in_chain(m, p, x),
    ensures
        x.len() <= p.len(),
        !m.dom().contains(x),
        x != root(),
    decreases p.len(),
{
    if x != p {
        lemma_in_chain_len(m, parent_of(p), x);
    }
}

/// What `materialize` does, node by node: added nodes hold `v`, present
/// nodes are untouched, and nothing else appears.
pub proof fn lemma_materialize_props(m: Map<Seq<u8>, Seq<u8>>, p: Seq<u8>, v: Seq<u8>)
    ensures
        forall|x: Seq<u8>| #[trigger] materialize(m, p, v).dom().contains(x) <==> (m.dom().contains(
            x,
        ) || in_chain(m, p, x)),
        forall|x: Seq<u8>| #[trigger] m.dom().contains(x) ==> materialize(m, p, v)[x] == m[x],
        forall|x: Seq<u8>| #[trigger] in_chain(m, p, x) ==> materialize(m, p, v)[x] == v,
    decreases p.len(),
{
    if !(p == root() || m.dom().contains(p)) && parent_of(p).len() < p.len() {
        let q = parent_of(p);
        lemma_materialize_props(m, q, v);
        let mp = materialize(m, p, v);
        let mq = materialize(m, q, v);
        assert(mp == mq.insert(p, v));
        assert forall|x: Seq<u8>| #[trigger] mp.dom().contains(x) implies (m.dom().contains(x)
            || in_chain(m, p, x)) by {
            if x != p {
                assert(mq.dom().contains(x));
            }
        }
        assert forall|x: Seq<u8>| (m.dom().contains(x) || in_chain(m, p, x)) implies #[trigger] mp
            .dom()
            .contains(x) by {
            if in_chain(m, p, x) && x != p {
                assert(in_chain(m, q, x));
                assert(mq.dom().contains(x));
            }
            if m.dom().contains(x) {
                assert(mq.dom().contains(x));
            }
        }
        assert forall|x: Seq<u8>| #[trigger] m.dom().contains(x) implies mp[x] == m[x] by {
            assert(x != p);
            assert(mq[x] == m[x]);
        }
        assert forall|x: Seq<u8>| #[trigger] in_chain(m, p, x) implies mp[x] == v by {
            if x != p {
                assert(in_chain(m, q, x));
                assert(mq[x] == v);
            }
        }
    }
}

/// `chain_len` never exceeds the length of the path.
pub proof fn lemma_chain_len_bound(m: Map<Seq<u8>, Seq<u8>>, p: Seq<u8>)
    ensures
        chain_len(m, p) <= p.len(),
    decreases p.len(),
{
    if !(p == root() || m.dom().contains(p)) && parent_of(p).len() < p.len() {
        lemma_chain_len_bound(m, parent_of(p));
    }
}

} // verus!
