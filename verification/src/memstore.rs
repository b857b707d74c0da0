//! An executable model of the remote hierarchical store.
//!
//! The real store lives on the other side of a network connection.  Its
//! node operations are modelled here exactly as the adapter relies on
//! them: a node cannot be created before its parent, a node with
//! children cannot be deleted, and the root always exists.  The verified
//! adapter operations are proved against this model; the unverified
//! shell drives the same decision logic against a real server.

use vstd::prelude::*;

use crate::path::{
    bytes_eq, is_canonical, lemma_parent_props, parent_of, parent_path, root, SEP,
};
use crate::reply::{CreateReply, DeleteReply, GetReply, RemoteCause, SetReply};

verus! {

/// Does `p` have a child among the nodes of `m`?
pub open spec fn has_child_in(m: Map<Seq<u8>, Seq<u8>>, p: Seq<u8>) -> bool {
    exists|k: Seq<u8>| #[trigger] m.dom().contains(k) && k != root() && parent_of(k) == p
}

/// The invariant the remote store maintains on its namespace: the root
/// exists, every path is canonical, and no node is without its parent.
pub open spec fn store_inv(m: Map<Seq<u8>, Seq<u8>>) -> bool {
    &&& m.dom().contains(root())
    &&& forall|k: Seq<u8>| #[trigger] m.dom().contains(k) ==> is_canonical(k) && m.dom().contains(
        parent_of(k),
    )
}

/// The contents of an association list of nodes, later entries shadowing
/// earlier ones (a well-formed store has no duplicate keys).
pub open spec fn entries_map(s: Seq<(Vec<u8>, Vec<u8>)>) -> Map<Seq<u8>, Seq<u8>>
    decreases s.len(),
{
    if s.len() == 0 {
        Map::empty()
    } else {
        entries_map(s.drop_last()).insert(s.last().0@, s.last().1@)
    }
}

pub open spec fn unique_keys(s: Seq<(Vec<u8>, Vec<u8>)>) -> bool {
    forall|i: int, j: int| #![trigger s[i], s[j]] 0 <= i < j < s.len() ==> s[i].0@ != s[j].0@
}

proof fn lemma_unique_drop_last(s: Seq<(Vec<u8>, Vec<u8>)>)
    requires
        unique_keys(s),
        s.len() > 0,
    ensures
        unique_keys(s.drop_last()),
{
    let d = s.drop_last();
    assert forall|i: int, j: int| #![trigger d[i], d[j]] 0 <= i < j < d.len() implies d[i].0@
        != d[j].0@ by {
        assert(d[i] == s[i]);
        assert(d[j] == s[j]);
    }
}

pub proof fn lemma_entries_map_dom(s: Seq<(Vec<u8>, Vec<u8>)>)
    ensures
        forall|k: Seq<u8>| #[trigger] entries_map(s).dom().contains(k) <==> exists|i: int|
            0 <= i < s.len() && #[trigger] s[i].0@ == k,
    decreases s.len(),
{
    if s.len() > 0 {
        let d = s.drop_last();
        lemma_entries_map_dom(d);
        assert forall|k: Seq<u8>| #[trigger] entries_map(s).dom().contains(k) implies exists|i: int|
            0 <= i < s.len() && #[trigger] s[i].0@ == k by {
            if k == s.last().0@ {
                assert(s[s.len() - 1].0@ == k);
            } else {
                assert(entries_map(s) == entries_map(d).insert(s.last().0@, s.last().1@));
                assert(entries_map(d).dom().contains(k));
                let i = choose|i: int| 0 <= i < d.len() && #[trigger] d[i].0@ == k;
                assert(d[i] == s[i]);
                assert(s[i].0@ == k);
            }
        }
        assert forall|k: Seq<u8>| (exists|i: int| 0 <= i < s.len() && #[trigger] s[i].0@ == k)
            implies entries_map(s).dom().contains(k) by {
            let i = choose|i: int| 0 <= i < s.len() && #[trigger] s[i].0@ == k;
            assert(entries_map(s) == entries_map(d).insert(s.last().0@, s.last().1@));
            if i < s.len() - 1 {
                assert(d[i] == s[i]);
                assert(d[i].0@ == k);
                assert(entries_map(d).dom().contains(k));
            } else {
                assert(k == s.last().0@);
            }
        }
    }
}

pub proof fn lemma_entries_map_index(s: Seq<(Vec<u8>, Vec<u8>)>, i: int)
    requires
        unique_keys(s),
        0 <= i < s.len(),
    ensures
        entries_map(s).dom().contains(s[i].0@),
        entries_map(s)[s[i].0@] == s[i].1@,
    decreases s.len(),
{
    if i < s.len() - 1 {
        lemma_unique_drop_last(s);
        lemma_entries_map_index(s.drop_last(), i);
        assert(s.drop_last()[i] == s[i]);
        assert(s[i].0@ != s[s.len() - 1].0@);
    }
}

pub proof fn lemma_entries_map_remove(s: Seq<(Vec<u8>, Vec<u8>)>, i: int)
    requires
        unique_keys(s),
        0 <= i < s.len(),
    ensures
        entries_map(s.remove(i)) == entries_map(s).remove(s[i].0@),
        unique_keys(s.remove(i)),
    decreases s.len(),
{
    let k = s[i].0@;
    let t = s.remove(i);
    assert forall|a: int, b: int| #![trigger t[a], t[b]] 0 <= a < b < t.len() implies t[a].0@
        != t[b].0@ by {
        assert(t[a] == (if a < i {
            s[a]
        } else {
            s[a + 1]
        }));
        assert(t[b] == (if b < i {
            s[b]
        } else {
            s[b + 1]
        }));
    }
    let d = s.drop_last();
    if i == s.len() - 1 {
        lemma_unique_drop_last(s);
        assert(t =~= d);
        lemma_entries_map_dom(d);
        assert forall|j: int| 0 <= j < d.len() implies #[trigger] d[j].0@ != k by {
            assert(d[j] == s[j]);
        }
        assert(!entries_map(d).dom().contains(k));
        assert(entries_map(d).insert(k, s[i].1@).remove(k) =~= entries_map(d));
    } else {
        lemma_unique_drop_last(s);
        lemma_entries_map_remove(d, i);
        assert(t.drop_last() =~= d.remove(i));
        assert(t.last() == s.last());
        assert(d[i] == s[i]);
        let lk = s.last().0@;
        let lv = s.last().1@;
        assert(lk != k);
        assert(entries_map(d).remove(k).insert(lk, lv) =~= entries_map(d).insert(lk, lv).remove(k));
        assert(entries_map(t) == entries_map(t.drop_last()).insert(lk, lv));
    }
}

/// An owned copy of a byte string.
pub fn to_vec(src: &[u8]) -> (r: Vec<u8>)
    ensures
        r@ == src@,
{
    let mut r: Vec<u8> = Vec::new();
    let mut i: usize = 0;
    while i < src.len()
        invariant
            i <= src@.len(),
            r@ == src@.subrange(0, i as int),
        decreases src@.len() - i,
    {
        r.push(src[i]);
        proof {
            assert(src@.subrange(0, i as int).push(src@[i as int]) =~= src@.subrange(
                0,
                i as int + 1,
            ));
        }
        i += 1;
    }
    proof {
        assert(src@.subrange(0, src@.len() as int) =~= src@);
    }
    r
}

/// The model of the remote store: its namespace, and how many sessions
/// and authentication tokens it has seen (one network round trip each).
pub struct MemStore {
    entries: Vec<(Vec<u8>, Vec<u8>)>,
    sessions: u64,
    auths: u64,
}

impl View for MemStore {
    type V = Map<Seq<u8>, Seq<u8>>;

    closed spec fn view(&self) -> Map<Seq<u8>, Seq<u8>> {
        entries_map(self.entries@)
    }
}

impl MemStore {
    /// How many sessions have been opened against this store.
    pub closed spec fn sessions_opened(&self) -> u64 {
        self.sessions
    }

    /// How many authentication tokens this store has received.
    pub closed spec fn auths_received(&self) -> u64 {
        self.auths
    }

    /// Well-formed store: no duplicate entries, and the namespace
    /// invariant of the remote system.
    pub closed spec fn wf(&self) -> bool {
        &&& unique_keys(self.entries@)
        &&& store_inv(self@)
    }

    /// A well-formed store satisfies the namespace invariant.
    pub proof fn lemma_wf_inv(&self)
        requires
            self.wf(),
        ensures
            store_inv(self@),
    {
    }

    /// A fresh healthy store: only the root, with an empty payload, and
    /// no sessions yet.
    pub fn new() -> (s: MemStore)
        ensures
            s.wf(),
            s@ == Map::<Seq<u8>, Seq<u8>>::empty().insert(root(), Seq::<u8>::empty()),
            s.sessions_opened() == 0,
            s.auths_received() == 0,
    {
        let mut root_path: Vec<u8> = Vec::new();
        root_path.push(SEP);
        let root_data: Vec<u8> = Vec::new();
        let mut entries: Vec<(Vec<u8>, Vec<u8>)> = Vec::new();
        entries.push((root_path, root_data));
        let s = MemStore { entries, sessions: 0, auths: 0 };
        proof {
            assert(s.entries@.drop_last() =~= Seq::<(Vec<u8>, Vec<u8>)>::empty());
            assert(entries_map(s.entries@.drop_last()) =~= Map::<Seq<u8>, Seq<u8>>::empty());
            assert(s.entries@.last().0@ =~= root());
            assert(s.entries@.last().1@ =~= Seq::<u8>::empty());
            assert(s@ =~= Map::<Seq<u8>, Seq<u8>>::empty().insert(root(), Seq::<u8>::empty()));
            crate::path::lemma_parent_of_root();
            assert forall|k: Seq<u8>| #[trigger] s@.dom().contains(k) implies is_canonical(k)
                && s@.dom().contains(parent_of(k)) by {
                assert(k == root());
            }
        }
        s
    }

    /// How many sessions have been opened, as a plain value.
    pub fn session_count(&self) -> (n: u64)
        ensures
            n == self.sessions_opened(),
    {
        self.sessions
    }

    /// How many authentication tokens have been received, as a plain
    /// value.
    pub fn auth_count(&self) -> (n: u64)
        ensures
            n == self.auths_received(),
    {
        self.auths
    }

    /// Open a new session; the handle is the session's ordinal.
    pub fn connect(&mut self) -> (h: u64)
        requires
            old(self).sessions_opened() < u64::MAX,
        ensures
            final(self)@ == old(self)@,
            final(self).wf() == old(self).wf(),
            final(self).sessions_opened() == old(self).sessions_opened() + 1,
            final(self).auths_received() == old(self).auths_received(),
            h == final(self).sessions_opened(),
    {
        self.sessions = self.sessions + 1;
        self.sessions
    }

    /// Receive an authentication token for the session.  The healthy
    /// model accepts every token.
    pub fn auth(&mut self, _token: &[u8])
        requires
            old(self).auths_received() < u64::MAX,
        ensures
            final(self)@ == old(self)@,
            final(self).wf() == old(self).wf(),
            final(self).sessions_opened() == old(self).sessions_opened(),
            final(self).auths_received() == old(self).auths_received() + 1,
    {
        self.auths = self.auths + 1;
    }

    fn find_idx(&self, p: &Vec<u8>) -> (r: Option<usize>)
        ensures
            match r {
                Some(i) => i < self.entries@.len() && self.entries@[i as int].0@ == p@,
                None => forall|j: int| 0 <= j < self.entries@.len() ==> self.entries@[j].0@ != p@,
            },
    {
        let mut i: usize = 0;
        while i < self.entries.len()
            invariant
                i <= self.entries@.len(),
                forall|j: int| 0 <= j < i ==> self.entries@[j].0@ != p@,
            decreases self.entries@.len() - i,
        {
            if bytes_eq(&self.entries[i].0, p) {
                return Some(i);
            }
            i += 1;
        }
        None
    }

    fn has_child(&self, p: &Vec<u8>) -> (r: bool)
        requires
            self.wf(),
        ensures
            r == has_child_in(self@, p@),
    {
        proof {
            lemma_entries_map_dom(self.entries@);
        }
        let mut i: usize = 0;
        while i < self.entries.len()
            invariant
                self.wf(),
                i <= self.entries@.len(),
                forall|j: int| #![trigger self.entries@[j]] 0 <= j < i ==> !(self.entries@[j].0@
                    != root() && parent_of(self.entries@[j].0@) == p@),
            decreases self.entries@.len() - i,
        {
            proof {
                lemma_entries_map_index(self.entries@, i as int);
            }
            let key = &self.entries[i].0;
            if key.len() > 1 {
                proof {
                    if key@ == root() {
                        assert(key@.len() == 1);
                    }
                }
                let par = parent_path(key);
                if bytes_eq(&par, p) {
                    proof {
                        assert(has_child_in(self@, p@)) by {
                            assert(self@.dom().contains(self.entries@[i as int].0@));
                        }
                    }
                    return true;
                }
            } else {
                proof {
                    assert(key@ =~= root());
                }
            }
            i += 1;
        }
        proof {
            if has_child_in(self@, p@) {
                let k = choose|k: Seq<u8>| #[trigger] self@.dom().contains(k) && k != root()
                    && parent_of(k) == p@;
                let j = choose|j: int| 0 <= j < self.entries@.len() && #[trigger] self.entries@[j].0@
                    == k;
                assert(!(self.entries@[j].0@ != root() && parent_of(self.entries@[j].0@) == p@));
            }
        }
        false
    }

    /// Create a node.  Refused when the path already exists; "no such
    /// node" when the parent is missing.
    pub fn create(&mut self, p: &Vec<u8>, value: &[u8]) -> (r: CreateReply)
        requires
            old(self).wf(),
            is_canonical(p@),
        ensures
            final(self).wf(),
            final(self).sessions_opened() == old(self).sessions_opened(),
            final(self).auths_received() == old(self).auths_received(),
            match r {
                CreateReply::Created => {
                    &&& !old(self)@.dom().contains(p@)
                    &&& old(self)@.dom().contains(parent_of(p@))
                    &&& final(self)@ == old(self)@.insert(p@, value@)
                },
                CreateReply::NoNode => {
                    &&& !old(self)@.dom().contains(p@)
                    &&& !old(self)@.dom().contains(parent_of(p@))
                    &&& final(self)@ == old(self)@
                },
                CreateReply::Fault(c) => {
                    &&& c == RemoteCause::NodeExists
                    &&& old(self)@.dom().contains(p@)
                    &&& final(self)@ == old(self)@
                },
            },
    {
        proof {
            lemma_entries_map_dom(self.entries@);
        }
        match self.find_idx(p) {
            Some(i) => {
                proof {
                    lemma_entries_map_index(self.entries@, i as int);
                }
                CreateReply::Fault(RemoteCause::NodeExists)
            },
            None => {
                proof {
                    if p@ == root() {
                        let j = choose|j: int|
                            0 <= j < self.entries@.len() && #[trigger] self.entries@[j].0@
                                == root();
                        assert(false);
                    }
                    lemma_parent_props(p@);
                }
                let par = parent_path(p);
                match self.find_idx(&par) {
                    None => CreateReply::NoNode,
                    Some(j) => {
                        proof {
                            lemma_entries_map_index(self.entries@, j as int);
                        }
                        let key_copy = to_vec(p.as_slice());
                        let val_copy = to_vec(value);
                        let ghost s_old = self.entries@;
                        self.entries.push((key_copy, val_copy));
                        proof {
                            assert(self.entries@.drop_last() =~= s_old);
                            assert(self@ =~= entries_map(s_old).insert(p@, value@));
                            assert forall|a: int, b: int|
                                #![trigger self.entries@[a], self.entries@[b]]
                                0 <= a < b < self.entries@.len() implies self.entries@[a].0@
                                != self.entries@[b].0@ by {
                                if b < self.entries@.len() - 1 {
                                    assert(self.entries@[a] == s_old[a]);
                                    assert(self.entries@[b] == s_old[b]);
                                } else {
                                    assert(self.entries@[a] == s_old[a]);
                                    assert(s_old[a].0@ != p@);
                                }
                            }
                            assert forall|k: Seq<u8>| #[trigger] self@.dom().contains(k) implies
                                is_canonical(k) && self@.dom().contains(parent_of(k)) by {
                                if k != p@ {
                                    assert(entries_map(s_old).dom().contains(k));
                                }
                            }
                        }
                        CreateReply::Created
                    },
                }
            },
        }
    }

    /// Read a node's payload.
    pub fn get_data(&self, p: &Vec<u8>) -> (r: GetReply)
        requires
            self.wf(),
        ensures
            match r {
                GetReply::Data(v) => self@.dom().contains(p@) && v@ == self@[p@],
                GetReply::NoNode => !self@.dom().contains(p@),
                GetReply::Fault(c) => false,
            },
    {
        proof {
            lemma_entries_map_dom(self.entries@);
        }
        match self.find_idx(p) {
            Some(i) => {
                proof {
                    lemma_entries_map_index(self.entries@, i as int);
                }
                GetReply::Data(to_vec(self.entries[i].1.as_slice()))
            },
            None => GetReply::NoNode,
        }
    }

    /// Update a node's payload in place.
    pub fn set_data(&mut self, p: &Vec<u8>, value: &[u8]) -> (r: SetReply)
        requires
            old(self).wf(),
        ensures
            final(self).wf(),
            final(self).sessions_opened() == old(self).sessions_opened(),
            final(self).auths_received() == old(self).auths_received(),
            match r {
                SetReply::Updated => old(self)@.dom().contains(p@) && final(self)@ == old(
                    self,
                )@.insert(p@, value@),
                SetReply::NoNode => !old(self)@.dom().contains(p@) && final(self)@ == old(self)@,
                SetReply::Fault(c) => false,
            },
    {
        proof {
            lemma_entries_map_dom(self.entries@);
        }
        match self.find_idx(p) {
            None => SetReply::NoNode,
            Some(i) => {
                proof {
                    lemma_entries_map_index(self.entries@, i as int);
                    lemma_entries_map_remove(self.entries@, i as int);
                }
                let ghost s_old = self.entries@;
                let ghost m_old = self@;
                let removed = self.entries.remove(i);
                let val_copy = to_vec(value);
                self.entries.push((removed.0, val_copy));
                proof {
                    let t = s_old.remove(i as int);
                    assert(self.entries@.drop_last() =~= t);
                    assert(self@ =~= entries_map(t).insert(p@, value@));
                    assert(self@ =~= m_old.insert(p@, value@));
                    assert forall|a: int, b: int|
                        #![trigger self.entries@[a], self.entries@[b]]
                        0 <= a < b < self.entries@.len() implies self.entries@[a].0@
                        != self.entries@[b].0@ by {
                        if b < self.entries@.len() - 1 {
                            assert(self.entries@[a] == t[a]);
                            assert(self.entries@[b] == t[b]);
                        } else {
                            assert(self.entries@[a] == t[a]);
                            lemma_entries_map_dom(t);
                            assert(!entries_map(t).dom().contains(p@));
                        }
                    }
                    assert forall|k: Seq<u8>| #[trigger] self@.dom().contains(k) implies
                        is_canonical(k) && self@.dom().contains(parent_of(k)) by {
                        assert(self@.dom() =~= m_old.dom());
                        assert(m_old.dom().contains(k));
                    }
                    assert(self@.dom().contains(root())) by {
                        assert(self@.dom() =~= m_old.dom());
                    }
                }
                SetReply::Updated
            },
        }
    }

    /// Delete a node.  Idempotence is the adapter's affair: the store
    /// itself answers "no such node" for an absent path, and refuses to
    /// delete the root or a node that still has children.
    pub fn delete(&mut self, p: &Vec<u8>) -> (r: DeleteReply)
        requires
            old(self).wf(),
            is_canonical(p@),
        ensures
            final(self).wf(),
            final(self).sessions_opened() == old(self).sessions_opened(),
            final(self).auths_received() == old(self).auths_received(),
            match r {
                DeleteReply::Deleted => {
                    &&& old(self)@.dom().contains(p@)
                    &&& p@ != root()
                    &&& !has_child_in(old(self)@, p@)
                    &&& final(self)@ == old(self)@.remove(p@)
                },
                DeleteReply::NoNode => !old(self)@.dom().contains(p@) && final(self)@ == old(
                    self,
                )@,
                DeleteReply::Fault(c) => {
                    &&& old(self)@.dom().contains(p@)
                    &&& final(self)@ == old(self)@
                    &&& (if p@ == root() {
                        c == RemoteCause::Other
                    } else {
                        has_child_in(old(self)@, p@) && c == RemoteCause::NotEmpty
                    })
                },
            },
    {
        proof {
            lemma_entries_map_dom(self.entries@);
        }
        match self.find_idx(p) {
            None => DeleteReply::NoNode,
            Some(i) => {
                proof {
                    lemma_entries_map_index(self.entries@, i as int);
                }
                if p.len() == 1 {
                    proof {
                        assert(p@ =~= root());
                    }
                    DeleteReply::Fault(RemoteCause::Other)
                } else if self.has_child(p) {
                    proof {
                        if p@ == root() {
                            assert(p@.len() == 1);
                        }
                    }
                    DeleteReply::Fault(RemoteCause::NotEmpty)
                } else {
                    proof {
                        if p@ == root() {
                            assert(p@.len() == 1);
                        }
                        lemma_entries_map_remove(self.entries@, i as int);
                    }
                    let ghost m_old = self@;
                    let _ = self.entries.remove(i);
                    proof {
                        assert(self@ == m_old.remove(p@));
                        assert forall|k: Seq<u8>| #[trigger] self@.dom().contains(k) implies
                            is_canonical(k) && self@.dom().contains(parent_of(k)) by {
                            assert(m_old.dom().contains(k));
                            assert(m_old.dom().contains(parent_of(k)));
                            if parent_of(k) == p@ {
                                assert(k != root()) by {
                                    if k == root() {
                                        assert(parent_of(root()) == root()) by {
                                            crate::path::lemma_parent_of_root();
                                        }
                                    }
                                }
                                assert(has_child_in(m_old, p@));
                            }
                        }
                        assert(self@.dom().contains(root()));
                    }
                    DeleteReply::Deleted
                }
            },
        }
    }
}

} // verus!
