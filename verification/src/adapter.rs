//! The adapter: flat get/set/delete over the hierarchical store.
//!
//! The adapter holds the configured endpoint, the serialized credential
//! token, the fixed ACL mode, and the lazily established, set-once
//! connection handle.  Its operations canonicalize the caller's key,
//! make sure the shared connection exists, and drive the node
//! operations; a write that hits an absent node delegates to the
//! ancestor-creation algorithm.  Everything here is proved against the
//! store model; the unverified shell reuses the same decision functions
//! against a real server.

use vstd::prelude::*;

use crate::memstore::{has_child_in, MemStore};
use crate::nested::{
    chain_len, in_chain, lemma_chain_len_bound, lemma_in_chain_len, lemma_materialize_props,
    materialize, nested_start, nested_step, NestedState,
};
use crate::path::{
    canon_of, canonicalize, is_bound, is_canonical, last_sep_before, lemma_adjacent_bounds,
    lemma_last_sep_before, lemma_parent_of_prefix, lemma_parent_props, lemma_prefix_canonical,
    lemma_prefix_whole, next_bound, parent_of, prefix_of, prefix_path, root,
};
use crate::reply::{AdapterError, CreateReply, DeleteReply, GetReply, RemoteCause, SetReply};

verus! {

/// The fixed permission policy applied to every node this adapter
/// creates: chosen once at construction, never read back or mutated.
#[derive(Clone, Copy, PartialEq, Eq, Structural, Debug)]
pub enum AclMode {
    /// Anyone may do anything; the mode of an adapter without credentials.
    Permissive,
    /// The creator owns the node; the mode of an adapter with credentials.
    CreatorAll,
}

/// What the adapter declares to the surrounding framework.
#[derive(Clone, Copy, PartialEq, Eq, Structural, Debug)]
pub struct Capability {
    pub read: bool,
    pub write: bool,
    pub delete: bool,
    pub list: bool,
    pub stat: bool,
    pub batch: bool,
}

/// How a write went: whether the node already existed, and how many
/// nodes the ancestor-creation algorithm had to create.
#[derive(Clone, Copy, PartialEq, Eq, Structural, Debug)]
pub struct SetStats {
    pub existed: bool,
    pub created: usize,
}

/// What a read returns: the payload at the path, if present.
pub open spec fn get_model(m: Map<Seq<u8>, Seq<u8>>, p: Seq<u8>) -> Option<Seq<u8>> {
    if m.dom().contains(p) {
        Some(m[p])
    } else {
        None
    }
}

/// What a write leaves behind: an in-place update of a present node,
/// or the materialized ancestor chain of an absent one.
pub open spec fn set_model(m: Map<Seq<u8>, Seq<u8>>, p: Seq<u8>, v: Seq<u8>) -> Map<
    Seq<u8>,
    Seq<u8>,
> {
    if m.dom().contains(p) {
        m.insert(p, v)
    } else {
        materialize(m, p, v)
    }
}

/// When a delete succeeds: the node is absent already (idempotence), or
/// it is a deletable leaf other than the root.
pub open spec fn delete_works(m: Map<Seq<u8>, Seq<u8>>, p: Seq<u8>) -> bool {
    !m.dom().contains(p) || (p != root() && !has_child_in(m, p))
}

/// What a successful delete leaves behind.
pub open spec fn delete_model(m: Map<Seq<u8>, Seq<u8>>, p: Seq<u8>) -> Map<Seq<u8>, Seq<u8>> {
    if m.dom().contains(p) {
        m.remove(p)
    } else {
        m
    }
}

/// The adapter instance.
pub struct ZkAdapter {
    endpoint: String,
    auth: String,
    acl: AclMode,
    conn: Option<u64>,
}

/// How one adapter operation affects the connection state: the
/// configuration never changes, and the handle is established at most
/// once — a cached handle means no further connect or auth round trip.
pub open spec fn conn_effect(a0: ZkAdapter, a1: ZkAdapter, s0: MemStore, s1: MemStore) -> bool {
    &&& a1.endpoint_spec() == a0.endpoint_spec()
    &&& a1.auth_spec() == a0.auth_spec()
    &&& a1.acl_spec() == a0.acl_spec()
    &&& a1.cached_spec() is Some
    &&& (a0.cached_spec() is Some ==> a1.cached_spec() == a0.cached_spec()
        && s1.sessions_opened() == s0.sessions_opened() && s1.auths_received()
        == s0.auths_received())
    &&& (a0.cached_spec() is None ==> s1.sessions_opened() == s0.sessions_opened() + 1
        && s1.auths_received() == s0.auths_received() + (if a0.auth_spec().len() > 0 {
        1int
    } else {
        0int
    }))
}

impl ZkAdapter {
    /// The configured network address of the remote store.
    pub closed spec fn endpoint_spec(&self) -> Seq<char> {
        self.endpoint@
    }

    /// The serialized credential token; empty when no credentials were
    /// configured.
    pub closed spec fn auth_spec(&self) -> Seq<char> {
        self.auth@
    }

    /// The fixed ACL mode.
    pub closed spec fn acl_spec(&self) -> AclMode {
        self.acl
    }

    /// The cached connection handle, if one was established.
    pub closed spec fn cached_spec(&self) -> Option<u64> {
        self.conn
    }

    pub(crate) fn new(endpoint: String, auth: String, acl: AclMode) -> (a: ZkAdapter)
        ensures
            a.endpoint_spec() == endpoint@,
            a.auth_spec() == auth@,
            a.acl_spec() == acl,
            a.cached_spec() is None,
    {
        ZkAdapter { endpoint, auth, acl, conn: None }
    }

    /// The capability declaration: reads, writes and deletes; no
    /// listing, no metadata stat, no batches.
    pub fn metadata(&self) -> (c: Capability)
        ensures
            c == (Capability {
                read: true,
                write: true,
                delete: true,
                list: false,
                stat: false,
                batch: false,
            }),
    {
        Capability { read: true, write: true, delete: true, list: false, stat: false, batch: false }
    }

    /// The configured endpoint, for opening a session.
    pub fn endpoint_str(&self) -> (e: &String)
        ensures
            e@ == self.endpoint_spec(),
    {
        &self.endpoint
    }

    /// The serialized credential token, for submission over a fresh
    /// session.
    pub fn auth_token(&self) -> (t: &String)
        ensures
            t@ == self.auth_spec(),
    {
        &self.auth
    }

    /// The fixed ACL mode of this adapter.
    pub fn acl_mode(&self) -> (m: AclMode)
        ensures
            m == self.acl_spec(),
    {
        self.acl
    }

    /// The cached connection handle, if the lazy establishment has run.
    pub fn cached_handle(&self) -> (h: Option<u64>)
        ensures
            h == self.cached_spec(),
    {
        self.conn
    }

    /// Whether credentials were configured, so that the token must be
    /// submitted before a fresh session is used.
    pub fn needs_auth(&self) -> (b: bool)
        ensures
            b == (self.auth_spec().len() > 0),
    {
        !self.auth.as_str().is_empty()
    }

    /// Record a freshly established session: the first handle wins and
    /// is kept for the adapter's whole lifetime; a loser of the benign
    /// establishment race is simply used without being cached.
    pub fn note_connected(&mut self, handle: u64) -> (h: u64)
        ensures
            h == handle,
            final(self).endpoint_spec() == old(self).endpoint_spec(),
            final(self).auth_spec() == old(self).auth_spec(),
            final(self).acl_spec() == old(self).acl_spec(),
            final(self).cached_spec() == (match old(self).cached_spec() {
                Some(h0) => Some(h0),
                None => Some(handle),
            }),
    {
        if self.conn.is_none() {
            self.conn = Some(handle);
        }
        handle
    }

    /// Make sure the shared connection exists: return the cached handle
    /// without a round trip, or open one session (and submit the
    /// credential token over it, when one is configured) and cache it.
    pub fn ensure_connection(&mut self, remote: &mut MemStore) -> (h: u64)
        requires
            old(self).cached_spec() is None ==> old(remote).sessions_opened() < u64::MAX
                && old(remote).auths_received() < u64::MAX,
        ensures
            final(remote)@ == old(remote)@,
            final(remote).wf() == old(remote).wf(),
            conn_effect(*old(self), *final(self), *old(remote), *final(remote)),
            final(self).cached_spec() == Some(h),
    {
        match self.conn {
            Some(h) => h,
            None => {
                let h = remote.connect();
                if !self.auth.as_str().is_empty() {
                    remote.auth(self.auth.as_str().as_bytes());
                }
                self.conn = Some(h);
                h
            },
        }
    }

    /// Read the value of a flat key.  "No such node" is the well-defined
    /// absent result, never an error; the model store never fails
    /// otherwise, so against it a read always succeeds.
    pub fn get(&mut self, remote: &mut MemStore, key: &[u8]) -> (r: Result<
        Option<Vec<u8>>,
        AdapterError,
    >)
        requires
            old(remote).wf(),
            old(remote).sessions_opened() < u64::MAX,
            old(remote).auths_received() < u64::MAX,
        ensures
            final(remote).wf(),
            final(remote)@ == old(remote)@,
            conn_effect(*old(self), *final(self), *old(remote), *final(remote)),
            match r {
                Ok(v) => match v {
                    Some(d) => get_model(old(remote)@, canon_of(key@)) == Some(d@),
                    None => get_model(old(remote)@, canon_of(key@)) is None,
                },
                Err(_) => false,
            },
    {
        let path = canonicalize(key);
        self.ensure_connection(remote);
        match remote.get_data(&path) {
            GetReply::Data(v) => Ok(Some(v)),
            GetReply::NoNode => Ok(None),
            GetReply::Fault(c) => Err(AdapterError::Unexpected(c)),
        }
    }

    /// Delete the node of a flat key.  Deleting an absent node is a
    /// success (delete is idempotent); deleting the root or a node that
    /// still has children is refused by the store and surfaces as the
    /// one unexpected failure, cause attached.
    pub fn delete(&mut self, remote: &mut MemStore, key: &[u8]) -> (r: Result<(), AdapterError>)
        requires
            old(remote).wf(),
            old(remote).sessions_opened() < u64::MAX,
            old(remote).auths_received() < u64::MAX,
        ensures
            final(remote).wf(),
            conn_effect(*old(self), *final(self), *old(remote), *final(remote)),
            match r {
                Ok(()) => delete_works(old(remote)@, canon_of(key@)) && final(remote)@
                    == delete_model(old(remote)@, canon_of(key@)),
                Err(e) => {
                    &&& !delete_works(old(remote)@, canon_of(key@))
                    &&& final(remote)@ == old(remote)@
                    &&& e == AdapterError::Unexpected(
                        if canon_of(key@) == root() {
                            RemoteCause::Other
                        } else {
                            RemoteCause::NotEmpty
                        },
                    )
                },
            },
    {
        let path = canonicalize(key);
        self.ensure_connection(remote);
        match remote.delete(&path) {
            DeleteReply::Deleted => Ok(()),
            DeleteReply::NoNode => Ok(()),
            DeleteReply::Fault(c) => Err(AdapterError::Unexpected(c)),
        }
    }

    /// Write a value under a flat key: attempt a direct in-place update,
    /// and when the node is absent, create the whole missing ancestor
    /// chain (every created node holding this value) via the two-phase
    /// algorithm.  Against the model store a write always succeeds.
    pub fn set(&mut self, remote: &mut MemStore, key: &[u8], value: &[u8]) -> (r: Result<
        SetStats,
        AdapterError,
    >)
        requires
            old(remote).wf(),
            old(remote).sessions_opened() < u64::MAX,
            old(remote).auths_received() < u64::MAX,
        ensures
            final(remote).wf(),
            conn_effect(*old(self), *final(self), *old(remote), *final(remote)),
            final(remote)@ == set_model(old(remote)@, canon_of(key@), value@),
            match r {
                Ok(st) => st.existed == old(remote)@.dom().contains(canon_of(key@)) && st.created
                    == chain_len(old(remote)@, canon_of(key@)),
                Err(_) => false,
            },
    {
        let path = canonicalize(key);
        self.ensure_connection(remote);
        match remote.set_data(&path, value) {
            SetReply::Updated => Ok(SetStats { existed: true, created: 0 }),
            SetReply::Fault(c) => Err(AdapterError::Unexpected(c)),
            SetReply::NoNode => match self.create_nested(remote, &path, value) {
                Ok(c) => Ok(SetStats { existed: false, created: c }),
                Err(e) => Err(e),
            },
        }
    }

    /// The ancestor-creation algorithm, invoked after a direct write
    /// failed because the target node is absent: the step function
    /// decides, this loop performs one creation round trip per decision,
    /// re-requesting the shared connection each time (cached, so free).
    /// Returns how many nodes were created: the missing part of the
    /// chain, leaf included.
    #[verifier::loop_isolation(false)]
    fn create_nested(&mut self, remote: &mut MemStore, path: &Vec<u8>, value: &[u8]) -> (r: Result<
        usize,
        AdapterError,
    >)
        requires
            old(self).cached_spec() is Some,
            old(remote).wf(),
            is_canonical(path@),
            !old(remote)@.dom().contains(path@),
        ensures
            final(self).endpoint_spec() == old(self).endpoint_spec(),
            final(self).auth_spec() == old(self).auth_spec(),
            final(self).acl_spec() == old(self).acl_spec(),
            final(self).cached_spec() == old(self).cached_spec(),
            final(remote).wf(),
            final(remote).sessions_opened() == old(remote).sessions_opened(),
            final(remote).auths_received() == old(remote).auths_received(),
            final(remote)@ == materialize(old(remote)@, path@, value@),
            match r {
                Ok(c) => c == chain_len(old(remote)@, path@),
                Err(_) => false,
            },
    {
        let ghost m0 = remote@;
        let ghost p = path@;
        let ghost v = value@;
        proof {
            remote.lemma_wf_inv();
            if p.len() == 1 {
                assert(p =~= root());
            }
            lemma_prefix_whole(p);
            assert(prefix_of(p, p.len() as int) == p);
        }
        let n = path.len();
        let mut state = nested_start(path);
        let mut created: usize = 0;
        loop
            invariant
                is_canonical(p),
                path@ == p,
                value@ == v,
                n == p.len(),
                2 <= n,
                !m0.dom().contains(p),
                m0.dom().contains(root()),
                remote.wf(),
                remote.sessions_opened() == old(remote).sessions_opened(),
                remote.auths_received() == old(remote).auths_received(),
                self.cached_spec() == old(self).cached_spec(),
                self.endpoint_spec() == old(self).endpoint_spec(),
                self.auth_spec() == old(self).auth_spec(),
                self.acl_spec() == old(self).acl_spec(),
                match state {
                    NestedState::Probe { cut } => {
                        &&& is_bound(p, cut as int)
                        &&& remote@ == m0
                        &&& created == 0
                        &&& forall|b: int|
                            is_bound(p, b) && cut <= b ==> !m0.dom().contains(
                                #[trigger] prefix_of(p, b),
                            )
                    },
                    NestedState::Fill { at } => {
                        let j = last_sep_before(p, at as int);
                        &&& is_bound(p, at as int)
                        &&& 2 <= j < at
                        &&& is_bound(p, j)
                        &&& remote@ == materialize(m0, prefix_of(p, j), v)
                        &&& created == chain_len(m0, prefix_of(p, j))
                        &&& forall|b: int|
                            is_bound(p, b) && j <= b ==> !m0.dom().contains(
                                #[trigger] prefix_of(p, b),
                            )
                    },
                    NestedState::Done => {
                        &&& remote@ == materialize(m0, p, v)
                        &&& created == chain_len(m0, p)
                    },
                    NestedState::Failed { .. } => false,
                },
            decreases
                    crate::nested::nested_rank1(state),
                    crate::nested::nested_rank2(state, n as int),
        {
            match state {
                NestedState::Probe { cut } => {
                    proof {
                        lemma_prefix_canonical(p, cut as int);
                        lemma_parent_of_prefix(p, cut as int);
                        assert(is_bound(p, cut as int) && cut as int <= cut as int);
                        assert(!m0.dom().contains(prefix_of(p, cut as int)));
                    }
                    let node = prefix_path(path, cut);
                    let _h = self.ensure_connection(remote);
                    let reply = remote.create(&node, value);
                    let ghost j0 = last_sep_before(p, cut as int);
                    proof {
                        match reply {
                            CreateReply::Fault(_) => {
                                assert(false);
                            },
                            CreateReply::NoNode => {
                                // The parent is missing too: it cannot be the
                                // root, which always exists.
                                if j0 == 0 {
                                    assert(m0.dom().contains(root()));
                                    assert(false);
                                }
                            },
                            CreateReply::Created => {},
                        }
                    }
                    if let CreateReply::Created = reply {
                        created = 1;
                    }
                    state = nested_step(path, state, reply);
                    proof {
                        match reply {
                            CreateReply::Created => {
                                let q = prefix_of(p, cut as int);
                                lemma_parent_props(q);
                                assert(remote@ == m0.insert(q, v));
                                assert(materialize(m0, parent_of(q), v) == m0);
                                assert(materialize(m0, q, v) == m0.insert(q, v));
                                assert(chain_len(m0, parent_of(q)) == 0);
                                assert(chain_len(m0, q) == 1);
                                if cut == n {
                                    assert(q == p);
                                    assert(state == NestedState::Done);
                                } else {
                                    let nb = next_bound(p, cut as int);
                                    crate::path::lemma_next_bound(p, cut as int);
                                    lemma_adjacent_bounds(p, cut as int);
                                    assert(state == (NestedState::Fill {
                                        at: nb as usize,
                                    }));
                                    assert(last_sep_before(p, nb) == cut as int);
                                }
                            },
                            CreateReply::NoNode => {
                                assert(state == (NestedState::Probe {
                                    cut: j0 as usize,
                                }));
                                lemma_last_sep_before(p, cut as int);
                                assert forall|b: int|
                                    is_bound(p, b) && j0 <= b implies !m0.dom().contains(
                                        #[trigger] prefix_of(p, b),
                                    ) by {
                                    if b == j0 {
                                        assert(parent_of(prefix_of(p, cut as int))
                                            == prefix_of(p, j0));
                                    } else if b < cut as int {
                                        assert(j0 < b < cut as int);
                                        assert(b < p.len());
                                        assert(p[b] == crate::path::SEP);
                                        assert(false);
                                    }
                                }
                            },
                            CreateReply::Fault(_) => {},
                        }
                    }
                },
                NestedState::Fill { at } => {
                    let ghost j = last_sep_before(p, at as int);
                    let ghost qj = prefix_of(p, j);
                    let ghost qat = prefix_of(p, at as int);
                    proof {
                        lemma_prefix_canonical(p, at as int);
                        lemma_prefix_canonical(p, j);
                        lemma_parent_of_prefix(p, at as int);
                        assert(parent_of(qat) == qj);
                        lemma_materialize_props(m0, qj, v);
                        // The node to create is still missing ...
                        assert(is_bound(p, at as int) && j <= at as int);
                        assert(!m0.dom().contains(qat));
                        if in_chain(m0, qj, qat) {
                            lemma_in_chain_len(m0, qj, qat);
                            assert(false);
                        }
                        assert(!remote@.dom().contains(qat));
                        // ... and its parent was just created.
                        lemma_parent_props(qj);
                        assert(!m0.dom().contains(qj));
                        assert(in_chain(m0, qj, qj));
                        assert(remote@.dom().contains(qj));
                        lemma_chain_len_bound(m0, qj);
                        assert(created < n);
                    }
                    let node = prefix_path(path, at);
                    let _h = self.ensure_connection(remote);
                    let reply = remote.create(&node, value);
                    proof {
                        match reply {
                            CreateReply::Fault(_) => {
                                assert(false);
                            },
                            CreateReply::NoNode => {
                                assert(false);
                            },
                            CreateReply::Created => {},
                        }
                    }
                    created = created + 1;
                    state = nested_step(path, state, reply);
                    proof {
                        assert(remote@ == materialize(m0, qj, v).insert(qat, v));
                        lemma_parent_props(qat);
                        assert(materialize(m0, qat, v) == materialize(m0, qj, v).insert(
                            qat,
                            v,
                        ));
                        assert(chain_len(m0, qat) == chain_len(m0, qj) + 1);
                        if at == n {
                            assert(qat == p);
                            assert(state == NestedState::Done);
                        } else {
                            let nb = next_bound(p, at as int);
                            crate::path::lemma_next_bound(p, at as int);
                            lemma_adjacent_bounds(p, at as int);
                            assert(state == (NestedState::Fill { at: nb as usize }));
                            assert(last_sep_before(p, nb) == at as int);
                            assert forall|b: int|
                                is_bound(p, b) && at as int <= b implies !m0.dom().contains(
                                    #[trigger] prefix_of(p, b),
                                ) by {
                                assert(j <= b);
                            }
                        }
                    }
                },
                NestedState::Done => {
                    return Ok(created);
                },
                NestedState::Failed { .. } => {
                    proof {
                        assert(false);
                    }
                    return Err(AdapterError::Unexpected(RemoteCause::Other));
                },
            }
        }
    }
}

} // verus!
