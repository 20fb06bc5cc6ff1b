//! The directory in memory.

use pharos::error::StorageError;
use pharos::record::RecordType;
use pharos::record::UpsertOutcome;
use pharos::storage::MemoryStorage;
use pharos::storage::Storage;

#[test]
fn test_should_inject_created_at_and_last_seen_at_on_add() {
    let mut storage = MemoryStorage::new();
    let fields = vec![
        ("type".to_string(), "person".to_string()),
        ("name".to_string(), "John Doe".to_string()),
    ];
    storage.add_record(fields, None, None).unwrap();

    let results = storage.query(&[(Some("name".to_string()), "john".to_string())], None).unwrap();
    assert!(results[0].fields.contains_key("created_at"));
    assert!(results[0].fields.contains_key("last_seen_at"));
}

#[test]
fn test_should_update_last_seen_at_but_preserve_created_at_on_upsert() {
    let mut storage = MemoryStorage::new();
    let fields = vec![
        ("type".to_string(), "machine".to_string()),
        ("hostname".to_string(), "srv-01".to_string()),
    ];
    storage.upsert_record(fields.clone(), None, None).unwrap();

    let initial_results = storage.query(&[(Some("hostname".to_string()), "srv-01".to_string())], None).unwrap();
    let created_at = initial_results[0].fields.get("created_at").unwrap().clone();

    let mut update_fields = fields.clone();
    update_fields.push(("status".to_string(), "online".to_string()));
    storage.upsert_record(update_fields, None, None).unwrap();

    let updated_results = storage.query(&[(Some("hostname".to_string()), "srv-01".to_string())], None).unwrap();
    assert_eq!(updated_results[0].fields.get("created_at").unwrap(), &created_at);
    assert!(updated_results[0].fields.contains_key("last_seen_at"));
}

#[test]
fn test_should_return_matching_record_when_query_matches_name() {
    let mut storage = MemoryStorage::new();
    let fields = vec![
        ("type".to_string(), "person".to_string()),
        ("name".to_string(), "John Doe".to_string()),
        ("email".to_string(), "john@example.com".to_string()),
    ];
    storage.add_record(fields, None, None).unwrap();

    let selections = vec![(Some("name".to_string()), "john".to_string())];
    let results = storage.query(&selections, None).unwrap();
    assert_eq!(results.len(), 1);
    assert_eq!(results[0].fields.get("email").unwrap(), "john@example.com");
}

#[test]
fn test_should_return_empty_when_query_does_not_match() {
    let mut storage = MemoryStorage::new();
    let fields = vec![
        ("type".to_string(), "person".to_string()),
        ("name".to_string(), "John Doe".to_string()),
    ];
    storage.add_record(fields, None, None).unwrap();

    let selections = vec![(Some("name".to_string()), "jane".to_string())];
    let results = storage.query(&selections, None).unwrap();
    assert_eq!(results.len(), 0);
}

#[test]
fn test_should_support_wildcard_matching() {
    let mut storage = MemoryStorage::new();
    let fields = vec![
        ("type".to_string(), "person".to_string()),
        ("name".to_string(), "John Doe".to_string()),
    ];
    storage.add_record(fields, None, None).unwrap();

    let selections = vec![(Some("name".to_string()), "jo*".to_string())];
    let results = storage.query(&selections, None).unwrap();
    assert_eq!(results.len(), 1);
}

#[test]
fn test_hand_checkable_cases() {
    let storage = MemoryStorage::new();
    assert!(storage.wildcard_match("ab", "+").unwrap());
    assert!(!storage.wildcard_match("", "+").unwrap());
    assert!(storage.wildcard_match("abc", "a?c").unwrap());
    assert!(!storage.wildcard_match("ac", "a?c").unwrap());
}

#[test]
fn test_wildcard_advanced_patterns() {
    let mut storage = MemoryStorage::new();
    let fields = vec![
        ("type".to_string(), "person".to_string()),
        ("name".to_string(), "John Doe".to_string()),
    ];
    storage.add_record(fields, None, None).unwrap();

    let results = storage.query(&[(Some("name".to_string()), "*doe".to_string())], None).unwrap();
    assert_eq!(results.len(), 1);
    let results = storage.query(&[(Some("name".to_string()), "j*n".to_string())], None).unwrap();
    assert_eq!(results.len(), 1);

    let results = storage.query(&[(Some("name".to_string()), "jo+n".to_string())], None).unwrap();
    assert_eq!(results.len(), 1);
    let results = storage.query(&[(Some("name".to_string()), "jn+".to_string())], None).unwrap();
    assert_eq!(results.len(), 0);

    let results = storage.query(&[(Some("name".to_string()), "j?hn".to_string())], None).unwrap();
    assert_eq!(results.len(), 1);
    let results = storage.query(&[(Some("name".to_string()), "j??hn".to_string())], None).unwrap();
    assert_eq!(results.len(), 0);

    let results = storage.query(&[(Some("name".to_string()), "[jrg]ohn".to_string())], None).unwrap();
    assert_eq!(results.len(), 1);

    let results = storage.query(&[(Some("name".to_string()), "j?hn*".to_string())], None).unwrap();
    assert_eq!(results.len(), 1);
    let results = storage.query(&[(Some("name".to_string()), "[jrg]oh?".to_string())], None).unwrap();
    assert_eq!(results.len(), 1);

    let results = storage.query(&[(Some("name".to_string()), "[ab".to_string())], None);
    assert!(matches!(results, Err(StorageError::InvalidArgument(_))));
    let results = storage.query(&[(Some("name".to_string()), "[]".to_string())], None);
    assert!(matches!(results, Err(StorageError::InvalidArgument(_))));

    let results = storage.query(&[(Some("name".to_string()), "abc]".to_string())], None);
    assert!(matches!(results, Err(StorageError::InvalidArgument(_))));
}

#[test]
fn test_should_match_any_field_when_no_field_name_provided() {
    let mut storage = MemoryStorage::new();
    let fields = vec![
        ("type".to_string(), "person".to_string()),
        ("name".to_string(), "John Doe".to_string()),
        ("alias".to_string(), "jdoe".to_string()),
    ];
    storage.add_record(fields, None, None).unwrap();

    let selections = vec![(None, "jdoe".to_string())];
    let results = storage.query(&selections, None).unwrap();
    assert_eq!(results.len(), 1);
}

#[test]
fn test_should_match_multiple_criteria_with_implicit_and() {
    let mut storage = MemoryStorage::new();
    let fields1 = vec![
        ("type".to_string(), "person".to_string()),
        ("name".to_string(), "John Doe".to_string()),
        ("city".to_string(), "New York".to_string()),
    ];
    storage.add_record(fields1, None, None).unwrap();
    let fields2 = vec![
        ("type".to_string(), "person".to_string()),
        ("name".to_string(), "Jane Doe".to_string()),
        ("city".to_string(), "London".to_string()),
    ];
    storage.add_record(fields2, None, None).unwrap();

    let selections = vec![
        (Some("name".to_string()), "doe".to_string()),
        (Some("city".to_string()), "london".to_string()),
    ];
    let results = storage.query(&selections, None).unwrap();
    assert_eq!(results.len(), 1);
    assert_eq!(results[0].fields.get("name").unwrap(), "Jane Doe");
}

#[test]
fn test_should_filter_by_type_discriminator() {
    let mut storage = MemoryStorage::new();

    let fields1 = vec![
        ("name".to_string(), "John Person".to_string()),
        ("type".to_string(), "person".to_string()),
    ];
    storage.add_record(fields1, None, None).unwrap();

    let fields2 = vec![
        ("name".to_string(), "Server Machine".to_string()),
        ("type".to_string(), "machine".to_string()),
    ];
    storage.add_record(fields2, None, None).unwrap();

    let selections = vec![(Some("name".to_string()), "server".to_string())];

    let results = storage.query(&selections, Some(RecordType::Person)).unwrap();
    assert_eq!(results.len(), 0);

    let results = storage.query(&selections, Some(RecordType::Machine)).unwrap();
    assert_eq!(results.len(), 1);
    assert_eq!(results[0].fields.get("name").unwrap(), "Server Machine");

    let results = storage.query(&selections, None).unwrap();
    assert_eq!(results.len(), 1);
}

#[test]
fn test_should_bond_record_to_fingerprint_when_upserted_first_time() {
    let mut storage = MemoryStorage::new();
    let fields = vec![
        ("type".to_string(), "machine".to_string()),
        ("hostname".to_string(), "server-01".to_string()),
    ];

    let fingerprint = Some("SHA256:abcd".to_string());
    storage.upsert_record(fields, fingerprint.clone(), None).unwrap();

    let results = storage.query(&[(Some("hostname".to_string()), "server-01".to_string())], None).unwrap();
    assert_eq!(results.len(), 1);
    assert_eq!(results[0].owner_fingerprint, fingerprint);
}

#[test]
fn test_should_fail_upsert_when_fingerprint_mismatch() {
    let mut storage = MemoryStorage::new();
    let fields = vec![
        ("type".to_string(), "machine".to_string()),
        ("hostname".to_string(), "server-01".to_string()),
    ];

    storage.upsert_record(fields.clone(), Some("SHA256:abcd".to_string()), None).unwrap();

    let result = storage.upsert_record(fields, Some("SHA256:wrong".to_string()), None);
    assert!(matches!(result, Err(StorageError::Collision)));
}

#[test]
fn test_should_allow_upsert_when_fingerprint_matches() {
    let mut storage = MemoryStorage::new();
    let fields = vec![
        ("type".to_string(), "machine".to_string()),
        ("hostname".to_string(), "server-01".to_string()),
        ("status".to_string(), "online".to_string()),
    ];

    let fingerprint = Some("SHA256:abcd".to_string());
    storage.upsert_record(fields.clone(), fingerprint.clone(), None).unwrap();

    let mut update_fields = fields.clone();
    update_fields.push(("status".to_string(), "busy".to_string()));
    storage.upsert_record(update_fields, fingerprint.clone(), None).unwrap();

    let results = storage.query(&[(Some("hostname".to_string()), "server-01".to_string())], None).unwrap();
    assert_eq!(results[0].fields.get("status").unwrap(), "busy");
}

#[test]
fn test_should_change_matching_record_when_authorized() {
    let mut storage = MemoryStorage::new();
    let fields = vec![
        ("type".to_string(), "machine".to_string()),
        ("hostname".to_string(), "vm1".to_string()),
        ("status".to_string(), "up".to_string()),
    ];
    storage.add_record(fields, Some("fp1".to_string()), None).unwrap();

    let selections = vec![(Some("hostname".to_string()), "vm1".to_string())];
    let modifications = vec![("status".to_string(), "down".to_string())];
    let result = storage.change_record(&selections, &modifications, Some("fp1".to_string()), &[]);

    assert_eq!(result.unwrap(), 1);
    let updated = storage.query(&selections, None).unwrap();
    assert_eq!(updated[0].fields.get("status").unwrap(), "down");
}

#[test]
fn test_should_reject_change_when_unauthorized() {
    let mut storage = MemoryStorage::new();
    let fields = vec![
        ("type".to_string(), "machine".to_string()),
        ("hostname".to_string(), "vm1".to_string()),
    ];
    storage.add_record(fields, Some("fp1".to_string()), None).unwrap();

    let selections = vec![(Some("hostname".to_string()), "vm1".to_string())];
    let modifications = vec![("status".to_string(), "down".to_string())];
    let result = storage.change_record(&selections, &modifications, Some("someone-else".to_string()), &[]);

    assert!(matches!(result, Err(StorageError::Unauthorized)));
}

#[test]
fn test_should_return_zero_when_no_matches_to_change() {
    let mut storage = MemoryStorage::new();
    let selections = vec![(Some("hostname".to_string()), "does-not-exist".to_string())];
    let modifications = vec![("status".to_string(), "down".to_string())];
    let result = storage.change_record(&selections, &modifications, None, &[]);
    assert_eq!(result.unwrap(), 0);
}

#[test]
fn test_should_change_multiple_matching_records() {
    let mut storage = MemoryStorage::new();
    for i in 0..3 {
        let fields = vec![
            ("type".to_string(), "machine".to_string()),
            ("hostname".to_string(), format!("vm{}", i)),
        ];
        storage.add_record(fields, None, None).unwrap();
    }
    let selections = vec![(Some("type".to_string()), "machine".to_string())];
    let modifications = vec![("status".to_string(), "maintenance".to_string())];
    let result = storage.change_record(&selections, &modifications, None, &[]);
    assert_eq!(result.unwrap(), 3);
}

#[test]
fn test_should_return_invalid_argument_when_add_record_missing_type() {
    let mut storage = MemoryStorage::new();
    let fields = vec![
        ("hostname".to_string(), "srv-01".to_string()),
    ];
    let res = storage.add_record(fields, None, None);
    assert!(matches!(res, Err(StorageError::InvalidArgument(_))));
}

#[test]
fn test_should_reject_upsert_when_type_mismatches_existing_field() {
    let mut storage = MemoryStorage::new();
    let fields = vec![
        ("hostname".to_string(), "srv-01".to_string()),
        ("type".to_string(), "machine".to_string()),
    ];
    storage.upsert_record(fields.clone(), None, None).unwrap();

    let mismatch_fields = vec![
        ("hostname".to_string(), "srv-01".to_string()),
        ("type".to_string(), "person".to_string()),
    ];
    let res = storage.upsert_record(mismatch_fields, None, None);
    assert!(matches!(res, Err(StorageError::InvalidArgument(_))));
}

#[test]
fn test_should_allow_upsert_when_type_matches_existing_field() {
    let mut storage = MemoryStorage::new();
    let fields = vec![
        ("hostname".to_string(), "srv-01".to_string()),
        ("type".to_string(), "machine".to_string()),
    ];
    storage.upsert_record(fields.clone(), None, None).unwrap();

    let res = storage.upsert_record(fields, None, None);
    assert!(res.is_ok());
}

#[test]
fn test_should_reject_change_when_modifications_contain_type() {
    let mut storage = MemoryStorage::new();
    let fields = vec![
        ("hostname".to_string(), "srv-01".to_string()),
        ("type".to_string(), "machine".to_string()),
    ];
    storage.add_record(fields, None, None).unwrap();

    let selections = vec![(Some("hostname".to_string()), "srv-01".to_string())];
    let modifications = vec![("type".to_string(), "person".to_string())];
    let res = storage.change_record(&selections, &modifications, None, &[]);
    assert!(matches!(res, Err(StorageError::InvalidArgument(_))));
}

#[test]
fn test_should_store_multi_valued_ip_and_mac_fields_on_add() {
    let mut storage = MemoryStorage::new();
    let fields = vec![
        ("type".to_string(), "machine".to_string()),
        ("hostname".to_string(), "srv-01".to_string()),
        ("ip_addr".to_string(), "192.168.86.5".to_string()),
        ("ip_addr".to_string(), "192.168.86.6".to_string()),
        ("mac_addr".to_string(), "e0:51:d8:1d:e3:22".to_string()),
    ];
    storage.add_record(fields, None, None).unwrap();
    let records = storage.query(&[(Some("hostname".to_string()), "srv-01".to_string())], None).unwrap();
    assert_eq!(records.len(), 1);
    assert_eq!(records[0].multi_fields.get("ip_addr").unwrap(), &vec!["192.168.86.5".to_string(), "192.168.86.6".to_string()]);
    assert_eq!(records[0].multi_fields.get("mac_addr").unwrap(), &vec!["e0:51:d8:1d:e3:22".to_string()]);
}

#[test]
fn test_should_append_new_ip_on_later_change_without_duplication() {
    let mut storage = MemoryStorage::new();
    let fields = vec![
        ("type".to_string(), "machine".to_string()),
        ("hostname".to_string(), "srv-01".to_string()),
        ("ip_addr".to_string(), "192.168.86.5".to_string()),
        ("mac_addr".to_string(), "e0:51:d8:1d:e3:22".to_string()),
    ];
    storage.add_record(fields, None, None).unwrap();

    let selections = vec![(Some("hostname".to_string()), "srv-01".to_string())];
    let modifications = vec![("ip_addr".to_string(), "192.168.86.6".to_string())];
    storage.change_record(&selections, &modifications, None, &[]).unwrap();

    storage.change_record(&selections, &modifications, None, &[]).unwrap();

    let records = storage.query(&selections, None).unwrap();
    assert_eq!(records[0].multi_fields.get("ip_addr").unwrap(), &vec!["192.168.86.5".to_string(), "192.168.86.6".to_string()]);
    assert_eq!(records[0].multi_fields.get("mac_addr").unwrap(), &vec!["e0:51:d8:1d:e3:22".to_string()]);
}

#[test]
fn test_should_reject_malformed_ip_or_mac_and_fail_closed() {
    let mut storage = MemoryStorage::new();
    let fields = vec![
        ("type".to_string(), "machine".to_string()),
        ("hostname".to_string(), "srv-01".to_string()),
        ("ip_addr".to_string(), "192.168.86.5".to_string()),
        ("ip_addr".to_string(), "not-an-ip".to_string()),
    ];
    let res = storage.add_record(fields, None, None);
    assert!(matches!(res, Err(StorageError::InvalidArgument(_))));
    assert_eq!(storage.record_count(), 0);
}

#[test]
fn test_should_allow_records_without_ip_mac_fields() {
    let mut storage = MemoryStorage::new();
    let fields = vec![
        ("name".to_string(), "Jane Smith".to_string()),
        ("type".to_string(), "person".to_string()),
    ];
    let res = storage.add_record(fields, None, None);
    assert!(res.is_ok());
}

#[test]
fn test_should_return_created_outcome_when_adding_new_record_via_upsert() {
    let mut storage = MemoryStorage::new();
    let fields = vec![
        ("type".to_string(), "machine".to_string()),
        ("hostname".to_string(), "srv-new".to_string()),
    ];
    let outcome = storage.upsert_record(fields, None, None).unwrap();
    assert_eq!(outcome, UpsertOutcome::Created);
}

#[test]
fn test_should_return_updated_outcome_when_upserting_existing_record() {
    let mut storage = MemoryStorage::new();
    let fields = vec![
        ("type".to_string(), "machine".to_string()),
        ("hostname".to_string(), "srv-exist".to_string()),
    ];
    let outcome1 = storage.upsert_record(fields.clone(), None, None).unwrap();
    assert_eq!(outcome1, UpsertOutcome::Created);

    let mut update_fields = fields;
    update_fields.push(("status".to_string(), "online".to_string()));
    let outcome2 = storage.upsert_record(update_fields, None, None).unwrap();
    assert_eq!(outcome2, UpsertOutcome::Updated);
}

#[test]
fn test_should_keep_existing_source_field_immutable_on_upsert() {
    let mut storage = MemoryStorage::new();
    let fields = vec![
        ("type".to_string(), "machine".to_string()),
        ("hostname".to_string(), "srv-source".to_string()),
        ("source".to_string(), "pharos-scan".to_string()),
    ];
    storage.upsert_record(fields, None, None).unwrap();

    let update_fields = vec![
        ("type".to_string(), "machine".to_string()),
        ("hostname".to_string(), "srv-source".to_string()),
        ("source".to_string(), "mdb".to_string()),
    ];
    storage.upsert_record(update_fields, None, None).unwrap();

    let records = storage.query(&[(Some("hostname".to_string()), "srv-source".to_string())], None).unwrap();
    assert_eq!(records.len(), 1);
    assert_eq!(records[0].fields.get("source").unwrap(), "pharos-scan");
}

#[test]
fn test_should_set_source_field_on_first_creation_via_upsert() {
    let mut storage = MemoryStorage::new();
    let fields = vec![
        ("type".to_string(), "machine".to_string()),
        ("hostname".to_string(), "srv-first".to_string()),
        ("source".to_string(), "web-console".to_string()),
    ];
    storage.upsert_record(fields, None, None).unwrap();

    let records = storage.query(&[(Some("hostname".to_string()), "srv-first".to_string())], None).unwrap();
    assert_eq!(records.len(), 1);
    assert_eq!(records[0].fields.get("source").unwrap(), "web-console");
}

#[test]
fn test_should_match_exact_mac_address_query() {
    let mut storage = MemoryStorage::new();
    storage.add_record(
        vec![
            ("type".to_string(), "machine".to_string()),
            ("hostname".to_string(), "test-host".to_string()),
            ("mac_addr".to_string(), "bc:24:11:00:02:04".to_string()),
        ],
        None,
        None,
    ).unwrap();

    let records = storage.query(&[(Some("mac_addr".to_string()), "bc:24:11:00:02:04".to_string())], None).unwrap();
    assert_eq!(records.len(), 1, "exact-value mac_addr query must match the record that has it");
}

#[test]
fn test_should_match_mac_address_query_regardless_of_case_and_separator() {
    let mut storage = MemoryStorage::new();
    storage.add_record(
        vec![
            ("type".to_string(), "machine".to_string()),
            ("hostname".to_string(), "test-host-2".to_string()),
            ("mac_addr".to_string(), "bc:24:11:00:02:04".to_string()),
        ],
        None,
        None,
    ).unwrap();

    let records = storage.query(&[(Some("mac_addr".to_string()), "BC-24-11-00-02-04".to_string())], None).unwrap();
    assert_eq!(records.len(), 1, "typed MAC comparison must be case- and separator-insensitive");
}

#[test]
fn test_should_still_support_fragment_mac_address_search_via_fallback() {
    let mut storage = MemoryStorage::new();
    storage.add_record(
        vec![
            ("type".to_string(), "machine".to_string()),
            ("hostname".to_string(), "test-host-3".to_string()),
            ("mac_addr".to_string(), "bc:24:11:00:02:04".to_string()),
        ],
        None,
        None,
    ).unwrap();

    let records = storage.query(&[(Some("mac_addr".to_string()), "bc".to_string())], None).unwrap();
    assert_eq!(records.len(), 1, "fragment mac_addr search must still work via the matches() fallback");
}

#[test]
fn test_should_match_ipv6_address_query_regardless_of_compression() {
    let mut storage = MemoryStorage::new();
    storage.add_record(
        vec![
            ("type".to_string(), "machine".to_string()),
            ("hostname".to_string(), "test-host-4".to_string()),
            ("ip_addr".to_string(), "::1".to_string()),
        ],
        None,
        None,
    ).unwrap();

    let records = storage.query(&[(Some("ip_addr".to_string()), "0:0:0:0:0:0:0:1".to_string())], None).unwrap();
    assert_eq!(records.len(), 1, "typed IP comparison must treat IPv6 compression forms as equal");
}

#[test]
fn test_should_match_wildcard_mac_pattern_containing_colon() {
    let mut storage = MemoryStorage::new();
    storage.add_record(
        vec![
            ("type".to_string(), "machine".to_string()),
            ("hostname".to_string(), "wildcard-test-host".to_string()),
            ("mac_addr".to_string(), "bc:24:11:00:02:04".to_string()),
        ],
        None,
        None,
    ).unwrap();

    let records = storage.query(&[(Some("mac_addr".to_string()), "bc:24:*".to_string())], None).unwrap();
    assert_eq!(records.len(), 1, "wildcard mac_addr pattern containing a colon must match");
}

#[test]
fn test_should_not_match_wildcard_mac_pattern_with_wrong_prefix() {
    let mut storage = MemoryStorage::new();
    storage.add_record(
        vec![
            ("type".to_string(), "machine".to_string()),
            ("hostname".to_string(), "wildcard-negative-host".to_string()),
            ("mac_addr".to_string(), "bc:24:11:00:02:04".to_string()),
        ],
        None,
        None,
    ).unwrap();

    let records = storage.query(&[(Some("mac_addr".to_string()), "ff:24:*".to_string())], None).unwrap();
    assert_eq!(records.len(), 0, "wildcard mac_addr pattern with a non-matching prefix must not match");
}

#[test]
fn test_should_match_wildcard_mac_pattern_without_colon() {
    let mut storage = MemoryStorage::new();
    storage.add_record(
        vec![
            ("type".to_string(), "machine".to_string()),
            ("hostname".to_string(), "wildcard-no-colon-host".to_string()),
            ("mac_addr".to_string(), "bc:24:11:00:02:04".to_string()),
        ],
        None,
        None,
    ).unwrap();

    let records = storage.query(&[(Some("mac_addr".to_string()), "bc*".to_string())], None).unwrap();
    assert_eq!(records.len(), 1, "wildcard mac_addr pattern without a colon must still match");
}

#[test]
fn test_should_match_wildcard_ipv6_pattern_containing_colon() {
    let mut storage = MemoryStorage::new();
    storage.add_record(
        vec![
            ("type".to_string(), "machine".to_string()),
            ("hostname".to_string(), "wildcard-ipv6-host".to_string()),
            ("ip_addr".to_string(), "2001:db8:85a3:0:0:0:0:1".to_string()),
        ],
        None,
        None,
    ).unwrap();

    let records = storage.query(&[(Some("ip_addr".to_string()), "2001:db8:*".to_string())], None).unwrap();
    assert_eq!(records.len(), 1, "wildcard ip_addr pattern containing a colon must match an IPv6 value");
}

#[test]
fn test_should_allow_admin_role_to_force_delete_record_owned_by_different_fingerprint() {
    let mut storage = MemoryStorage::new();
    storage.add_record(
        vec![
            ("type".to_string(), "machine".to_string()),
            ("hostname".to_string(), "orphaned-host".to_string()),
        ],
        Some("original-owner-fingerprint".to_string()),
        None,
    ).unwrap();

    let result = storage.delete_record(
        &[(Some("hostname".to_string()), "orphaned-host".to_string())],
        Some("different-fingerprint".to_string()),
        &[],
        &["admin".to_string()],
    );
    assert!(matches!(result, Ok(1)), "admin role must be able to force-delete a record it doesn't own");
}

#[test]
fn test_should_still_reject_delete_from_non_admin_non_owner() {
    let mut storage = MemoryStorage::new();
    storage.add_record(
        vec![
            ("type".to_string(), "machine".to_string()),
            ("hostname".to_string(), "owned-host".to_string()),
        ],
        Some("original-owner-fingerprint".to_string()),
        None,
    ).unwrap();

    let result = storage.delete_record(
        &[(Some("hostname".to_string()), "owned-host".to_string())],
        Some("different-fingerprint".to_string()),
        &[],
        &[],
    );
    assert!(matches!(result, Err(StorageError::Unauthorized)), "non-admin, non-owner delete must still be rejected");
}

#[test]
fn test_should_allow_owner_to_delete_own_record_without_admin_role() {
    let mut storage = MemoryStorage::new();
    storage.add_record(
        vec![
            ("type".to_string(), "machine".to_string()),
            ("hostname".to_string(), "self-owned-host".to_string()),
        ],
        Some("owner-fingerprint".to_string()),
        None,
    ).unwrap();

    let result = storage.delete_record(
        &[(Some("hostname".to_string()), "self-owned-host".to_string())],
        Some("owner-fingerprint".to_string()),
        &[],
        &[],
    );
    assert!(matches!(result, Ok(1)), "the record's actual owner must still be able to delete it without needing the admin role");
}
