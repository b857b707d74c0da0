//! Configuration of the adapter: endpoint and optional credentials.
//!
//! Everything is fixed at construction time.  Presence of both username
//! and password switches the ACL mode to creator-owns-all and enables
//! authentication; otherwise the permissive ACL is used and no token is
//! submitted.

use vstd::prelude::*;
use vstd::string::StringExecFns;

use crate::adapter::{AclMode, ZkAdapter};

verus! {

/// The default network address of the remote store service.
pub open spec fn default_endpoint() -> Seq<char> {
    "127.0.0.1:2181"@
}

/// The character that joins username and password into the credential
/// token.
pub open spec fn token_joiner() -> Seq<char> {
    ":"@
}

/// The value under `key` among configuration pairs, later entries
/// shadowing earlier ones, as a map built from the pairs would hold it.
pub open spec fn last_value(pairs: Seq<(String, String)>, key: Seq<char>) -> Option<Seq<char>>
    decreases pairs.len(),
{
    if pairs.len() == 0 {
        None
    } else if pairs.last().0@ == key {
        Some(pairs.last().1@)
    } else {
        last_value(pairs.drop_last(), key)
    }
}

/// What a setter leaves configured, given what the map holds under its
/// key: an absent or empty value leaves the field unset.
pub open spec fn config_of(pairs: Seq<(String, String)>, key: Seq<char>) -> Option<Seq<char>> {
    match last_value(pairs, key) {
        Some(v) => if v.len() > 0 {
            Some(v)
        } else {
            None
        },
        None => None,
    }
}

/// The last value under `key`, scanning from the end.
fn lookup<'a>(pairs: &'a Vec<(String, String)>, key: &String) -> (r: Option<&'a String>)
    ensures
        match r {
            Some(v) => last_value(pairs@, key@) == Some(v@),
            None => last_value(pairs@, key@) is None,
        },
{
    let mut i: usize = pairs.len();
    proof {
        assert(pairs@.subrange(0, i as int) =~= pairs@);
    }
    while i > 0
        invariant
            i <= pairs@.len(),
            last_value(pairs@, key@) == last_value(pairs@.subrange(0, i as int), key@),
        decreases i,
    {
        i = i - 1;
        proof {
            assert(pairs@.subrange(0, i as int + 1).last() == pairs@[i as int]);
            assert(pairs@.subrange(0, i as int + 1).drop_last() =~= pairs@.subrange(0, i as int));
        }
        if pairs[i].0 == *key {
            return Some(&pairs[i].1);
        }
    }
    proof {
        assert(pairs@.subrange(0, 0) =~= Seq::<(String, String)>::empty());
    }
    None
}

/// Builder for the adapter.
pub struct ZookeeperBuilder {
    endpoint: Option<String>,
    username: Option<String>,
    password: Option<String>,
}

impl ZookeeperBuilder {
    /// The configured endpoint, if one was set.
    pub closed spec fn endpoint_spec(&self) -> Option<Seq<char>> {
        match self.endpoint {
            Some(e) => Some(e@),
            None => None,
        }
    }

    /// The configured username, if one was set.
    pub closed spec fn username_spec(&self) -> Option<Seq<char>> {
        match self.username {
            Some(u) => Some(u@),
            None => None,
        }
    }

    /// The configured password, if one was set.
    pub closed spec fn password_spec(&self) -> Option<Seq<char>> {
        match self.password {
            Some(p) => Some(p@),
            None => None,
        }
    }

    /// Set the endpoint of the remote store service.  An empty string
    /// is ignored.
    pub fn endpoint(&mut self, endpoint: &str) -> (r: &mut ZookeeperBuilder)
        ensures
            r.endpoint_spec() == (if endpoint@.len() > 0 {
                Some(endpoint@)
            } else {
                old(self).endpoint_spec()
            }),
            r.username_spec() == old(self).username_spec(),
            r.password_spec() == old(self).password_spec(),
            *final(self) == *final(r),
    {
        if !endpoint.is_empty() {
            self.endpoint = Some(endpoint.to_owned());
        }
        self
    }

    /// Set the username for the remote store service.  An empty string
    /// is ignored.
    pub fn username(&mut self, username: &str) -> (r: &mut ZookeeperBuilder)
        ensures
            r.username_spec() == (if username@.len() > 0 {
                Some(username@)
            } else {
                old(self).username_spec()
            }),
            r.endpoint_spec() == old(self).endpoint_spec(),
            r.password_spec() == old(self).password_spec(),
            *final(self) == *final(r),
    {
        if !username.is_empty() {
            self.username = Some(username.to_owned());
        }
        self
    }

    /// Set the password for the remote store service.  An empty string
    /// is ignored.
    pub fn password(&mut self, password: &str) -> (r: &mut ZookeeperBuilder)
        ensures
            r.password_spec() == (if password@.len() > 0 {
                Some(password@)
            } else {
                old(self).password_spec()
            }),
            r.endpoint_spec() == old(self).endpoint_spec(),
            r.username_spec() == old(self).username_spec(),
            *final(self) == *final(r),
    {
        if !password.is_empty() {
            self.password = Some(password.to_owned());
        }
        self
    }

    /// Build a configuration from string key-value pairs, read as a map:
    /// for each of the keys `endpoint`, `username` and `password` the
    /// last value given wins, an absent or empty value leaves the field
    /// unset, and unknown keys are ignored.
    pub fn from_map(pairs: &Vec<(String, String)>) -> (b: ZookeeperBuilder)
        ensures
            b.endpoint_spec() == config_of(pairs@, "endpoint"@),
            b.username_spec() == config_of(pairs@, "username"@),
            b.password_spec() == config_of(pairs@, "password"@),
    {
        let mut b = ZookeeperBuilder::default();
        if let Some(v) = lookup(pairs, &String::from_str("endpoint")) {
            b.endpoint(v.as_str());
        }
        if let Some(v) = lookup(pairs, &String::from_str("username")) {
            b.username(v.as_str());
        }
        if let Some(v) = lookup(pairs, &String::from_str("password")) {
            b.password(v.as_str());
        }
        b
    }

    /// Fix endpoint, credential token and ACL mode, and hand out the
    /// adapter, its connection not yet established.  Without both
    /// username and password the ACL is permissive and the token empty;
    /// with both, the ACL is creator-owns-all and the token is
    /// `username:password`.
    pub fn build(&self) -> (a: ZkAdapter)
        ensures
            a.endpoint_spec() == (match self.endpoint_spec() {
                Some(e) => e,
                None => default_endpoint(),
            }),
            a.auth_spec() == (match (self.username_spec(), self.password_spec()) {
                (Some(u), Some(pw)) => u + token_joiner() + pw,
                _ => Seq::<char>::empty(),
            }),
            a.acl_spec() == (match (self.username_spec(), self.password_spec()) {
                (Some(_), Some(_)) => AclMode::CreatorAll,
                _ => AclMode::Permissive,
            }),
            a.cached_spec() is None,
    {
        let endpoint: String = match &self.endpoint {
            Some(e) => e.clone(),
            None => "127.0.0.1:2181".to_owned(),
        };
        let (auth, acl): (String, AclMode) = match (&self.username, &self.password) {
            (Some(u), Some(pw)) => {
                let token = u.clone().concat(":").concat(pw.as_str());
                (token, AclMode::CreatorAll)
            },
            _ => (String::new(), AclMode::Permissive),
        };
        ZkAdapter::new(endpoint, auth, acl)
    }
}

impl Default for ZookeeperBuilder {
    /// A builder with nothing configured.
    fn default() -> (b: ZookeeperBuilder)
        ensures
            b.endpoint_spec() is None,
            b.username_spec() is None,
            b.password_spec() is None,
    {
        ZookeeperBuilder { endpoint: None, username: None, password: None }
    }
}

} // verus!
