use botadmin::codec::{decode, encode, reload, PersistenceError};
use botadmin::registry::AdminRoleRegistry;

#[test]
fn reload_reproduces_the_registry() {
    let mut reg = AdminRoleRegistry::new();
    reg.add_admin_roles(10, &vec![5, 3]);
    reg.add_admin_roles(2, &vec![7]);
    let back = reload(&reg);
    assert_eq!(back.get_admin_roles(2), Some(&vec![7]));
    assert_eq!(back.get_admin_roles(10), Some(&vec![3, 5]));
    assert_eq!(back.get_admin_roles(11), None);
    assert_eq!(encode(&back), encode(&reg));
}

#[test]
fn encode_writes_the_exact_canonical_text() {
    let mut reg = AdminRoleRegistry::new();
    reg.add_admin_roles(10, &vec![5, 5, 3]);
    let bytes = encode(&reg);
    assert_eq!(bytes, b"{\"admin_roles\":{\"10\":[3,5]}}".to_vec());
}

#[test]
fn encode_of_empty_registry() {
    let reg = AdminRoleRegistry::new();
    assert_eq!(encode(&reg), b"{\"admin_roles\":{}}".to_vec());
}

#[test]
fn save_load_round_trip() {
    let mut reg = AdminRoleRegistry::new();
    reg.add_admin_roles(10, &vec![5, 3]);
    reg.add_admin_roles(2, &vec![7, 1, 7]);
    let bytes = encode(&reg);
    let back = decode(&bytes).unwrap();
    assert_eq!(back.get_admin_roles(10), Some(&vec![3, 5]));
    assert_eq!(back.get_admin_roles(2), Some(&vec![1, 7]));
    assert_eq!(back.get_admin_roles(3), None);
    assert_eq!(encode(&back), bytes);
}

#[test]
fn round_trip_keeps_pruned_server_absent() {
    let mut reg = AdminRoleRegistry::new();
    reg.add_admin_roles(10, &vec![5, 3]);
    reg.add_admin_roles(11, &vec![6]);
    reg.remove_admin_roles(10, &vec![3, 5]);
    let back = decode(&encode(&reg)).unwrap();
    assert_eq!(back.get_admin_roles(10), None);
    assert_eq!(back.get_admin_roles(11), Some(&vec![6]));
}

#[test]
fn load_normalizes_unsorted_duplicated_and_empty_lists() {
    let bytes = b"{\"admin_roles\":{\"10\":[5,3,5],\"11\":[],\"12\":[8]}}".to_vec();
    let reg = decode(&bytes).unwrap();
    assert_eq!(reg.get_admin_roles(10), Some(&vec![3, 5]));
    assert_eq!(reg.get_admin_roles(11), None);
    assert_eq!(reg.get_admin_roles(12), Some(&vec![8]));
}

#[test]
fn load_merges_duplicate_server_keys() {
    let bytes = b"{\"admin_roles\":{\"10\":[5],\"10\":[3]}}".to_vec();
    let reg = decode(&bytes).unwrap();
    assert_eq!(reg.get_admin_roles(10), Some(&vec![3, 5]));
}

#[test]
fn malformed_bytes_are_rejected() {
    let cases: Vec<&[u8]> = vec![
        b"",
        b"{}",
        b"{\"admin_roles\":{",
        b"{\"admin_roles\":{}}x",
        b"{\"admin_roles\":{\"10\":[]}",
        b"{\"admin_roles\":{\"10\":[5,]}}",
        b"{\"admin_roles\":{\"\":[5]}}",
        b"{\"admin_roles\":{\"07\":[5]}}",
        b"{\"admin_roles\":{\"10\":[05]}}",
        b"{\"admin_rolez\":{\"10\":[5]}}",
    ];
    for c in cases {
        assert!(matches!(decode(&c.to_vec()), Err(PersistenceError::Malformed)));
    }
}

#[test]
fn whitespace_between_tokens_is_ignored() {
    let bytes = b" {\n  \"admin_roles\": {\r\n    \"10\": [5, 3],\n    \"12\": [8]\n  }\n}\n"
        .to_vec();
    let reg = decode(&bytes).unwrap();
    assert_eq!(reg.get_admin_roles(10), Some(&vec![3, 5]));
    assert_eq!(reg.get_admin_roles(12), Some(&vec![8]));
    let bytes = b"{\"admin_roles\":{}} ".to_vec();
    let reg = decode(&bytes).unwrap();
    assert_eq!(reg.get_admin_roles(10), None);
}

#[test]
fn numbers_that_do_not_fit_are_malformed() {
    // one past the largest 64-bit value
    let bytes = b"{\"admin_roles\":{\"10\":[18446744073709551616]}}".to_vec();
    assert!(matches!(decode(&bytes), Err(PersistenceError::Malformed)));
    // the largest 64-bit value itself is fine
    let bytes = b"{\"admin_roles\":{\"10\":[18446744073709551615]}}".to_vec();
    let reg = decode(&bytes).unwrap();
    assert_eq!(reg.get_admin_roles(10), Some(&vec![u64::MAX]));
}

#[test]
fn error_descriptions() {
    assert_eq!(
        PersistenceError::Unreadable.describe(),
        "the persistence file could not be read",
    );
    assert_eq!(
        PersistenceError::Malformed.describe(),
        "the persisted bytes were not in the persistence format",
    );
}

#[test]
fn store_scenario_matches_the_file() {
    // empty registry, add server 10 roles [5,5,3], then remove them again
    let mut reg = AdminRoleRegistry::new();
    reg.add_admin_roles(10, &vec![5, 5, 3]);
    assert_eq!(reg.get_admin_roles(10), Some(&vec![3, 5]));
    assert_eq!(encode(&reg), b"{\"admin_roles\":{\"10\":[3,5]}}".to_vec());
    reg.remove_admin_roles(10, &vec![3, 5]);
    assert_eq!(reg.get_admin_roles(10), None);
    assert_eq!(encode(&reg), b"{\"admin_roles\":{}}".to_vec());
}
