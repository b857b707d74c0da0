//! The adapter operations, driven against the store model.

use zkkv::adapter::{AclMode, ZkAdapter};
use zkkv::builder::ZookeeperBuilder;
use zkkv::memstore::MemStore;
use zkkv::reply::{AdapterError, RemoteCause};

fn fresh_adapter() -> ZkAdapter {
    let builder = ZookeeperBuilder::default();
    builder.build()
}

#[test]
fn round_trip_set_then_get() {
    let mut store = MemStore::new();
    let mut adapter = fresh_adapter();
    let stats = adapter.set(&mut store, b"app/config", b"v1").unwrap();
    assert!(!stats.existed);
    let got = adapter.get(&mut store, b"app/config").unwrap();
    assert_eq!(got, Some(b"v1".to_vec()));
    let stats2 = adapter.set(&mut store, b"app/config", b"v2").unwrap();
    assert!(stats2.existed);
    assert_eq!(stats2.created, 0);
    let got2 = adapter.get(&mut store, b"app/config").unwrap();
    assert_eq!(got2, Some(b"v2".to_vec()));
}

#[test]
fn idempotent_delete() {
    let mut store = MemStore::new();
    let mut adapter = fresh_adapter();
    assert!(adapter.delete(&mut store, b"missing").is_ok());
    assert!(adapter.delete(&mut store, b"missing").is_ok());
    adapter.set(&mut store, b"k", b"v").unwrap();
    assert!(adapter.delete(&mut store, b"k").is_ok());
    assert!(adapter.delete(&mut store, b"k").is_ok());
    assert_eq!(adapter.get(&mut store, b"k").unwrap(), None);
}

#[test]
fn ancestor_materialization() {
    let mut store = MemStore::new();
    let mut adapter = fresh_adapter();
    let stats = adapter.set(&mut store, b"/a/b/c", b"v").unwrap();
    assert!(!stats.existed);
    assert_eq!(stats.created, 3);
    // Every intermediate node was created with the leaf's payload.
    assert_eq!(adapter.get(&mut store, b"/a").unwrap(), Some(b"v".to_vec()));
    assert_eq!(adapter.get(&mut store, b"/a/b").unwrap(), Some(b"v".to_vec()));
    assert_eq!(adapter.get(&mut store, b"/a/b/c").unwrap(), Some(b"v".to_vec()));
}

#[test]
fn deepest_ancestor_short_circuit() {
    let mut store = MemStore::new();
    let mut adapter = fresh_adapter();
    adapter.set(&mut store, b"/a/b", b"old").unwrap();
    let stats = adapter.set(&mut store, b"/a/b/c", b"new").unwrap();
    // Only the leaf itself is created: one probe fails (the direct
    // update), the very next creation succeeds.
    assert!(!stats.existed);
    assert_eq!(stats.created, 1);
    // The existing ancestors were not touched.
    assert_eq!(adapter.get(&mut store, b"/a").unwrap(), Some(b"old".to_vec()));
    assert_eq!(adapter.get(&mut store, b"/a/b").unwrap(), Some(b"old".to_vec()));
    assert_eq!(adapter.get(&mut store, b"/a/b/c").unwrap(), Some(b"new".to_vec()));
}

#[test]
fn absent_read() {
    let mut store = MemStore::new();
    let mut adapter = fresh_adapter();
    let got = adapter.get(&mut store, b"never/written");
    assert_eq!(got.unwrap(), None);
}

#[test]
fn connection_reuse() {
    let mut store = MemStore::new();
    let mut adapter = fresh_adapter();
    assert_eq!(store.session_count(), 0);
    assert!(adapter.cached_handle().is_none());
    adapter.set(&mut store, b"x", b"1").unwrap();
    assert_eq!(store.session_count(), 1);
    assert!(adapter.cached_handle().is_some());
    adapter.get(&mut store, b"x").unwrap();
    adapter.delete(&mut store, b"x").unwrap();
    // Two further operations: still exactly one connect round trip.
    assert_eq!(store.session_count(), 1);
    // No credentials were configured, so no auth round trip either.
    assert_eq!(store.auth_count(), 0);
}

#[test]
fn connection_auth_round_trip() {
    let mut store = MemStore::new();
    let mut builder = ZookeeperBuilder::default();
    builder.username("alice").password("secret");
    let mut adapter = builder.build();
    assert!(adapter.needs_auth());
    adapter.set(&mut store, b"x", b"1").unwrap();
    adapter.get(&mut store, b"x").unwrap();
    // One connect, and exactly one auth token submitted over it.
    assert_eq!(store.session_count(), 1);
    assert_eq!(store.auth_count(), 1);
}

#[test]
fn concrete_scenario() {
    let mut store = MemStore::new();
    let builder = ZookeeperBuilder::default();
    let mut adapter = builder.build();
    // No credentials: the ACL is permissive, the endpoint the default.
    assert_eq!(adapter.acl_mode(), AclMode::Permissive);
    assert_eq!(adapter.endpoint_str().as_str(), "127.0.0.1:2181");
    assert!(!adapter.needs_auth());
    // set("foo/bar") creates /foo and then /foo/bar.
    let stats = adapter.set(&mut store, b"foo/bar", &[1, 2, 3]).unwrap();
    assert_eq!(stats.created, 2);
    assert_eq!(adapter.get(&mut store, b"foo/bar").unwrap(), Some(vec![1, 2, 3]));
    // delete("foo/bar") removes only the leaf: /foo stays.
    adapter.delete(&mut store, b"foo/bar").unwrap();
    assert!(adapter.get(&mut store, b"foo").unwrap().is_some());
    assert_eq!(adapter.get(&mut store, b"foo/bar").unwrap(), None);
}

#[test]
fn delete_refused_with_children() {
    let mut store = MemStore::new();
    let mut adapter = fresh_adapter();
    adapter.set(&mut store, b"x/y", b"v").unwrap();
    let r = adapter.delete(&mut store, b"x");
    assert!(matches!(r, Err(AdapterError::Unexpected(RemoteCause::NotEmpty))));
    // The refused delete changed nothing.
    assert!(adapter.get(&mut store, b"x/y").unwrap().is_some());
}

#[test]
fn delete_root_refused() {
    let mut store = MemStore::new();
    let mut adapter = fresh_adapter();
    let r = adapter.delete(&mut store, b"");
    assert!(matches!(r, Err(AdapterError::Unexpected(RemoteCause::Other))));
}

#[test]
fn metadata_capability() {
    let adapter = fresh_adapter();
    let c = adapter.metadata();
    assert!(c.read && c.write && c.delete);
    assert!(!c.list && !c.stat && !c.batch);
}

#[test]
fn root_key_addresses_the_root_node() {
    // The empty key canonicalizes to the root, which always exists.
    let mut store = MemStore::new();
    let mut adapter = fresh_adapter();
    assert_eq!(adapter.get(&mut store, b"").unwrap(), Some(vec![]));
    let stats = adapter.set(&mut store, b"", b"r").unwrap();
    assert!(stats.existed);
    assert_eq!(stats.created, 0);
    assert_eq!(adapter.get(&mut store, b"/").unwrap(), Some(b"r".to_vec()));
}

#[test]
fn trailing_slash_addresses_same_node() {
    let mut store = MemStore::new();
    let mut adapter = fresh_adapter();
    adapter.set(&mut store, b"dir/leaf", b"v").unwrap();
    assert_eq!(adapter.get(&mut store, b"dir/leaf/").unwrap(), Some(b"v".to_vec()));
    adapter.delete(&mut store, b"dir/leaf/").unwrap();
    assert_eq!(adapter.get(&mut store, b"dir/leaf").unwrap(), None);
}
