//! Path canonicalization, the builder, and the step function itself.

use zkkv::adapter::AclMode;
use zkkv::builder::ZookeeperBuilder;
use zkkv::nested::{nested_start, nested_step, NestedState};
use zkkv::path::canonicalize;
use zkkv::reply::{CreateReply, RemoteCause};

#[test]
fn canonicalize_plain_key() {
    assert_eq!(canonicalize(b"foo/bar"), b"/foo/bar".to_vec());
}

#[test]
fn canonicalize_absolute_key() {
    assert_eq!(canonicalize(b"/a/b/c"), b"/a/b/c".to_vec());
}

#[test]
fn canonicalize_empty_key_is_root() {
    assert_eq!(canonicalize(b""), b"/".to_vec());
    assert_eq!(canonicalize(b"/"), b"/".to_vec());
    assert_eq!(canonicalize(b"///"), b"/".to_vec());
}

#[test]
fn canonicalize_collapses_and_trims() {
    assert_eq!(canonicalize(b"a//b///c/"), b"/a/b/c".to_vec());
    assert_eq!(canonicalize(b"dir/"), b"/dir".to_vec());
}

#[test]
fn builder_defaults() {
    let builder = ZookeeperBuilder::default();
    let adapter = builder.build();
    assert_eq!(adapter.endpoint_str().as_str(), "127.0.0.1:2181");
    assert_eq!(adapter.acl_mode(), AclMode::Permissive);
    assert_eq!(adapter.auth_token().as_str(), "");
    assert!(adapter.cached_handle().is_none());
}

#[test]
fn builder_credentials_switch_acl() {
    let mut builder = ZookeeperBuilder::default();
    builder.endpoint("10.0.0.7:2181").username("alice").password("secret");
    let adapter = builder.build();
    assert_eq!(adapter.endpoint_str().as_str(), "10.0.0.7:2181");
    assert_eq!(adapter.acl_mode(), AclMode::CreatorAll);
    assert_eq!(adapter.auth_token().as_str(), "alice:secret");
    assert!(adapter.needs_auth());
}

#[test]
fn builder_username_alone_stays_permissive() {
    let mut builder = ZookeeperBuilder::default();
    builder.username("alice");
    let adapter = builder.build();
    assert_eq!(adapter.acl_mode(), AclMode::Permissive);
    assert_eq!(adapter.auth_token().as_str(), "");
}

#[test]
fn builder_ignores_empty_strings() {
    let mut builder = ZookeeperBuilder::default();
    builder.endpoint("").username("").password("");
    let adapter = builder.build();
    assert_eq!(adapter.endpoint_str().as_str(), "127.0.0.1:2181");
    assert_eq!(adapter.acl_mode(), AclMode::Permissive);
}

#[test]
fn nested_steps_probe_then_fill() {
    // Target /a/b with nothing but the root present: the probe retreats
    // once, creates /a, then fills /a/b.
    let path = b"/a/b".to_vec();
    let s0 = nested_start(&path);
    assert_eq!(s0, NestedState::Probe { cut: 4 });
    let s1 = nested_step(&path, s0, CreateReply::NoNode);
    assert_eq!(s1, NestedState::Probe { cut: 2 });
    let s2 = nested_step(&path, s1, CreateReply::Created);
    assert_eq!(s2, NestedState::Fill { at: 4 });
    let s3 = nested_step(&path, s2, CreateReply::Created);
    assert_eq!(s3, NestedState::Done);
}

#[test]
fn nested_step_fault_fails() {
    let path = b"/a/b".to_vec();
    let s0 = nested_start(&path);
    let s1 = nested_step(&path, s0, CreateReply::Fault(RemoteCause::NodeExists));
    assert_eq!(s1, NestedState::Failed { cause: RemoteCause::NodeExists });
}

#[test]
fn nested_step_direct_create_succeeds() {
    // All ancestors present: the opening optimistic creation wins at once.
    let path = b"/a/b/c".to_vec();
    let s0 = nested_start(&path);
    let s1 = nested_step(&path, s0, CreateReply::Created);
    assert_eq!(s1, NestedState::Done);
}

fn pairs(v: &[(&str, &str)]) -> Vec<(String, String)> {
    v.iter().map(|(a, b)| (a.to_string(), b.to_string())).collect()
}

#[test]
fn from_map_reads_all_keys() {
    let p = pairs(&[("endpoint", "zk:2181"), ("username", "u"), ("password", "pw"), ("other", "x")]);
    let builder = ZookeeperBuilder::from_map(&p);
    let adapter = builder.build();
    assert_eq!(adapter.endpoint_str().as_str(), "zk:2181");
    assert_eq!(adapter.auth_token().as_str(), "u:pw");
    assert_eq!(adapter.acl_mode(), AclMode::CreatorAll);
}

#[test]
fn from_map_last_value_wins_and_empty_is_unset() {
    let p = pairs(&[("endpoint", "first:1"), ("endpoint", "second:2")]);
    assert_eq!(ZookeeperBuilder::from_map(&p).build().endpoint_str().as_str(), "second:2");
    let p2 = pairs(&[("endpoint", "first:1"), ("endpoint", "")]);
    assert_eq!(ZookeeperBuilder::from_map(&p2).build().endpoint_str().as_str(), "127.0.0.1:2181");
    let p3 = pairs(&[]);
    assert_eq!(ZookeeperBuilder::from_map(&p3).build().endpoint_str().as_str(), "127.0.0.1:2181");
}
