use std::io::Read;

use base64::Engine;
use recursive_remote::config::{max_object_size, pair_keys, remote_branch_ref, Args, ConfigError, ConfigKey};
use recursive_remote::embed::{embed_config, parse_embedded, EmbedError};
use recursive_remote::model::{Ref, State};
use recursive_remote::protocol::{
    collect_lines, debug_stream_message, fetch_revs, needs_compaction, parse_command, report_error,
    upstream_branch_listed, Collect, Command, ProtocolError,
};
use recursive_remote::store::{chunk_entry_name, name_tree_path, namespace_dir_name};

#[test]
fn protocol_capabilities_reports_expected_features() {
    assert_eq!(parse_command("capabilities"), Command::Capabilities);
    assert_eq!(parse_command("list for-push"), Command::List);
    assert_eq!(parse_command("push a:b"), Command::Push);
    assert_eq!(parse_command("fetch 0123 main"), Command::Fetch);
}

#[test]
fn protocol_unknown_command_is_ignored_and_loop_continues() {
    assert_eq!(parse_command("unknown_command hello"), Command::Unknown);
    assert_eq!(parse_command(""), Command::Unknown);
    assert_eq!(parse_command("capabilities"), Command::Capabilities);
}

#[test]
fn protocol_push_requires_blank_line_terminator() {
    let mut got = vec!["push refs/heads/main:refs/heads/main".to_string()];
    let r = collect_lines(&mut got, b"push", Some("unexpected".to_string()));
    assert_eq!(r, Err(ProtocolError::ExpectedBlankLine));
    assert_eq!(collect_lines(&mut got, b"push", Some("push a:b".to_string())), Ok(Collect::More));
    assert_eq!(collect_lines(&mut got, b"push", Some("".to_string())), Ok(Collect::Done));
    assert_eq!(got.len(), 2);
}

#[test]
fn protocol_fetch_requires_blank_line_terminator() {
    let mut got = vec!["fetch 0123456789012345678901234567890123456789 main".to_string()];
    let r = collect_lines(&mut got, b"fetch", Some("unexpected".to_string()));
    assert_eq!(r, Err(ProtocolError::ExpectedBlankLine));
    assert_eq!(collect_lines(&mut got, b"fetch", None), Ok(Collect::Done));
}

#[test]
fn protocol_fetch_without_oid_does_not_panic() {
    assert!(fetch_revs(&vec!["fetch".to_string()]).is_empty());
    let revs = fetch_revs(&vec![
        "fetch 0123456789012345678901234567890123456789 main".to_string(),
        "fetch 0123456789012345678901234567890123456789 other".to_string(),
    ]);
    assert_eq!(revs, vec![b"0123456789012345678901234567890123456789".to_vec()]);
}

#[test]
fn protocol_list_works_with_empty_state() {
    let st = State::empty();
    assert!(st.namespace(b"").is_none());
    assert_eq!(Ref::Direct(vec![0xab; 20]).to_git_wire_string(), b"abababababababababababababababababababab".to_vec());
    assert_eq!(Ref::Symbolic(b"refs/heads/main".to_vec(), None).to_git_wire_string(), b"refs/heads/main".to_vec());
}

#[test]
fn listing_finds_branch_or_complains() {
    let lines = vec![b"abc refs/heads/other".to_vec(), b"def refs/heads/main".to_vec()];
    assert_eq!(upstream_branch_listed(&lines, b"refs/heads/main"), Ok(true));
    assert_eq!(upstream_branch_listed(&lines, b"refs/heads/none"), Ok(false));
    assert_eq!(upstream_branch_listed(&vec![b"oops".to_vec()], b"x"), Err(ProtocolError::UnexpectedOutput));
}

#[test]
fn errors_are_reported_as_failure() {
    assert!(report_error::<String>(Ok(())));
    assert!(!report_error(Err("boom".to_string())));
}

#[test]
fn compaction_threshold() {
    assert!(!needs_compaction(50));
    assert!(needs_compaction(51));
}

#[test]
fn stream_messages() {
    assert_eq!(debug_stream_message(Some(b"out".to_vec()), "stdout"), "out");
    assert_eq!(debug_stream_message(None, "stderr"), "<no stderr>");
    assert_eq!(debug_stream_message(Some(vec![0xff, 0x01]), "stdout"), "<utf error> ff01");
}

#[test]
fn config_keys() {
    for k in ConfigKey::all() {
        assert_eq!(ConfigKey::from_short_str(k.as_short_str()), Some(k));
    }
    assert_eq!(ConfigKey::from_short_str("z"), None);
    assert!(ConfigKey::MaxObjectSize.is_i64());
    assert!(!ConfigKey::Namespace.is_i64());
    assert_eq!(ConfigKey::RemoteBranch.config_name(), "recursive-remote-branch");
}

#[test]
fn object_size_bounds() {
    assert_eq!(max_object_size(None), Ok(20 * 1024 * 1024));
    assert_eq!(max_object_size(Some(10)), Ok(10));
    assert_eq!(max_object_size(Some(9)), Err(ConfigError::ObjectSizeTooSmall));
    assert_eq!(max_object_size(Some(1 << 30)), Ok(1 << 30));
    assert_eq!(max_object_size(Some((1 << 30) + 1)), Err(ConfigError::ObjectSizeTooLarge));
}

#[test]
fn keys_come_in_pairs() {
    assert_eq!(pair_keys(Some(1), Some(2)), Ok(Some((1, 2))));
    assert_eq!(pair_keys::<u8>(None, None), Ok(None));
    assert_eq!(pair_keys(Some(1), None), Err(ConfigError::UnpairedKeys));
}

#[test]
fn remote_branch_names() {
    assert_eq!(remote_branch_ref(None), b"refs/heads/main".to_vec());
    assert_eq!(remote_branch_ref(Some(b"org")), b"refs/heads/org".to_vec());
    assert_eq!(remote_branch_ref(Some(b"refs/heads/x")), b"refs/heads/x".to_vec());
}

#[test]
fn tree_names() {
    assert_eq!(chunk_entry_name(0), b"00000000".to_vec());
    assert_eq!(chunk_entry_name(1234567), b"01234567".to_vec());
    let name: Vec<u8> = (0u8..20).collect();
    let (a, b, c) = name_tree_path(&name);
    assert_eq!(a, "00");
    assert_eq!(b, "01");
    assert_eq!(format!("{a}{b}{c}"), hex::encode(&name));
    assert_eq!(namespace_dir_name(&[0xab; 20]), format!("ns_{}", "ab".repeat(20)));
}

#[test]
fn state_layout_under_git_dir() {
    let a = Args::new("/repo/.git".to_string(), "origin", "recursive::file:///up");
    assert_eq!(a.state_path, "/repo/.git/recursive_remote");
    assert_eq!(a.tracking_repo_path, "/repo/.git/recursive_remote/tracking_repo");
    assert_eq!(a.all_objects_ever_repo_path, "/repo/.git/recursive_remote/all_objects_ever_repo");
    assert_eq!(a.push_semantics_repo_path, "/repo/.git/recursive_remote/push_semantics_repo");
    assert_eq!(a.lock_path, "/repo/.git/recursive_remote/locks");
    assert_eq!(a.remote_name, "origin");
    assert_eq!(a.remote_url, "recursive::file:///up");
}

#[test]
fn embedded_configuration_round_trip() {
    let map = b"some serialized key map".to_vec();
    let text = embed_config(&map);
    assert!(text.starts_with('0'));
    assert!(text.len() > 1);
    let raw = base64::engine::general_purpose::URL_SAFE_NO_PAD.decode(&text[1..]).unwrap();
    let mut unpacked = Vec::new();
    brotli::Decompressor::new(raw.as_slice(), 8192).read_to_end(&mut unpacked).unwrap();
    assert_eq!(unpacked, map);
    assert_eq!(parse_embedded(&text), Ok(map));
    assert_eq!(parse_embedded("1abc"), Err(EmbedError::UnknownVersion));
    assert_eq!(parse_embedded("0!!"), Err(EmbedError::Base64));
}
