//! Sessions: limits, sources, options and replies.

use pharos::error::StorageError;
use pharos::field_map::FieldMap;
use pharos::options::SessionOptions;
use pharos::options::SetFault;
use pharos::record::Record;
use pharos::record::RecordType;
use pharos::dispatch::Need;
use pharos::dispatch::Supplied;
use pharos::ldap::LdapStorage;
use pharos::session::Action;
use pharos::session::Command;
use pharos::session::AuthFinding;
use pharos::session::Notice;
use pharos::session::ProtocolError;
use pharos::session::Session;
use pharos::session::answer_to_protocol_error;
use pharos::session::check_change_limits;
use pharos::session::check_delete_limit;
use pharos::session::contains_text;
use pharos::session::is_trusted_sync_peer;
use pharos::session::normalize_source;
use pharos::session::settle_auth;
use pharos::storage::MemoryStorage;
use pharos::storage::Storage;

fn pair(k: &str, v: &str) -> (String, String) {
    (k.to_string(), v.to_string())
}

fn pick(k: &str, v: &str) -> (Option<String>, String) {
    (Some(k.to_string()), v.to_string())
}

fn texts(list: &[&str]) -> Vec<String> {
    list.iter().map(|s| s.to_string()).collect()
}

#[test]
fn test_check_delete_limit() {
    let matched = vec![
        Record { id: 1, record_type: None, fields: FieldMap::new(), multi_fields: FieldMap::new(), owner_fingerprint: None, owner_team: None },
        Record { id: 2, record_type: None, fields: FieldMap::new(), multi_fields: FieldMap::new(), owner_fingerprint: None, owner_team: None },
    ];

    let mut options = SessionOptions::default();
    // Default is None (no limit)
    assert!(check_delete_limit(&matched, &options).is_ok());

    // Limit matches count
    options.limit = Some(2);
    assert!(check_delete_limit(&matched, &options).is_ok());

    // Limit strictly less than count
    options.limit = Some(1);
    match check_delete_limit(&matched, &options) {
        Err(StorageError::TooManyEntries(n)) => assert_eq!(n, 2),
        _ => panic!("Expected TooManyEntries error"),
    }
}

#[test]
fn test_check_change_limits() {
    let mut fields = FieldMap::new();
    fields.insert("name".to_string(), "alice".to_string());
    let matched = vec![
        Record { id: 1, record_type: None, fields, multi_fields: FieldMap::new(), owner_fingerprint: None, owner_team: None },
    ];

    let mut options = SessionOptions::default();
    let modifications = vec![("name".to_string(), "bob".to_string())];

    // Default limit/addonly is permissive
    assert!(check_change_limits(&matched, &modifications, &options).is_ok());

    // Addonly checks
    options.addonly = true;
    // Overwriting existing field "name" should fail
    match check_change_limits(&matched, &modifications, &options) {
        Err(StorageError::AddOnlyViolation) => {},
        _ => panic!("Expected AddOnlyViolation error"),
    }

    // Modifying non-existent field should succeed even with addonly
    let new_modifications = vec![("age".to_string(), "30".to_string())];
    assert!(check_change_limits(&matched, &new_modifications, &options).is_ok());
}

#[test]
fn test_is_trusted_sync_peer() {
    assert!(is_trusted_sync_peer(true, &["peer".to_string()]));
    assert!(!is_trusted_sync_peer(true, &["admin".to_string()]));
    assert!(!is_trusted_sync_peer(false, &["peer".to_string()]));
    assert!(!is_trusted_sync_peer(false, &[]));
}

#[test]
fn test_should_normalize_mdb_client_id() {
    assert_eq!(normalize_source("mdb"), Some("mdb"));
}

#[test]
fn test_should_normalize_ph_client_id() {
    assert_eq!(normalize_source("ph"), Some("ph"));
}

#[test]
fn test_should_normalize_pharos_scan_client_id() {
    assert_eq!(normalize_source("pharos-scan"), Some("pharos-scan"));
}

#[test]
fn test_should_normalize_pulse_prefixed_client_id_regardless_of_hostname() {
    assert_eq!(normalize_source("pulse-technitium-01"), Some("pharos-pulse"));
    assert_eq!(normalize_source("pulse-rdelgadoXPS15"), Some("pharos-pulse"));
}

#[test]
fn test_should_normalize_all_known_web_console_client_ids() {
    assert_eq!(normalize_source("web-console"), Some("web-console"));
    assert_eq!(normalize_source("web-console-add"), Some("web-console"));
    assert_eq!(normalize_source("web-mdb-search"), Some("web-console"));
    assert_eq!(normalize_source("web-mcp"), Some("web-console"));
    assert_eq!(normalize_source("pharos-console-web"), Some("web-console"));
}

#[test]
fn test_should_return_none_for_unrecognized_client_id() {
    assert_eq!(normalize_source("test-client"), None);
    assert_eq!(normalize_source(""), None);
}

#[test]
fn greets_a_client() {
    let session = Session::new("10.0.0.7:4000", false);
    let r = session.greet();
    assert_eq!(r.reply, "200:Database ready\n");
    assert_eq!(r.event, Some("Connection established from 10.0.0.7:4000".to_string()));
    assert!(!r.close);
}

#[test]
fn answers_the_plain_commands() {
    let mut session = Session::new("peer", false);
    assert_eq!(session.answer_status().reply, "100:Pharos server active\n200:Ok\n");
    assert_eq!(session.answer_id("Web-CONSOLE").reply, "200:Ok\n");
    assert_eq!(session.id, Some("web-console".to_string()));
    let bye = session.answer_quit();
    assert_eq!(bye.reply, "200:Bye!\n");
    assert!(bye.close);
    assert_eq!(
        session.answer_unimplemented().reply,
        "597:Command recognized, but not yet implemented\n"
    );
}

#[test]
fn answers_lines_that_are_no_commands() {
    assert_eq!(answer_to_protocol_error(ProtocolError::UnknownCommand), "598:Command unknown\n");
    assert_eq!(answer_to_protocol_error(ProtocolError::SyntaxError), "599:Syntax error\n");
    assert_eq!(answer_to_protocol_error(ProtocolError::InvalidArgument), "512:Illegal value\n");
}

#[test]
fn logs_a_client_in() {
    let mut session = Session::new("peer", false);
    assert_eq!(session.answer_login("alice", "abc123").reply, "301:abc123\n");
    assert_eq!(session.login_alias, Some("alice".to_string()));
    assert_eq!(
        session.answer_auth(AuthFinding::NoChallenge).reply,
        "506:Request refused; must be logged in to execute (Challenge expired or not found)\n"
    );
    assert_eq!(
        session.answer_auth(AuthFinding::Rejected).reply,
        "516:No authorization for request\n"
    );
    assert!(!session.authenticated);
    let accepted = AuthFinding::Accepted {
        fingerprint: "SHA256:x".to_string(),
        roles: texts(&["admin"]),
        teams: texts(&["ops", "dev"]),
    };
    assert_eq!(session.answer_auth(accepted).reply, "200:Ok\n");
    assert!(session.authenticated);
    assert_eq!(session.fingerprint, Some("SHA256:x".to_string()));
    assert_eq!(session.roles, texts(&["admin"]));
    assert_eq!(session.teams, texts(&["ops", "dev"]));
    assert_eq!(session.answer_auth_check(true).reply, "200:Ok\n");
    assert_eq!(session.answer_auth_check(false).reply, "516:No authorization for request\n");
}

#[test]
fn finds_a_text_in_another() {
    assert!(contains_text("pharos-scan", "ph"));
    assert!(contains_text("alphabet", "ph"));
    assert!(contains_text("abc", ""));
    assert!(!contains_text("mdb", "ph"));
    assert!(!contains_text("", "a"));
}

#[test]
fn adds_with_the_source_of_the_client() {
    let mut storage = MemoryStorage::new();
    let mut session = Session::new("peer", true);
    session.answer_id("MDB");
    session.teams = texts(&["ops", "dev"]);
    let fields = [pair("type", "machine"), pair("hostname", "h1"), pair("source", "forged")];
    let r = session.answer_add(&mut storage, &fields, false);
    assert_eq!(r.reply, "200:Ok\n");
    assert_eq!(r.event, Some("[peer] Added/Updated record".to_string()));
    assert_eq!(r.tally, Some((Action::Added, "mdb".to_string(), 1)));
    assert!(r.replicate);
    match r.notice {
        Some(Notice::Added(told)) => assert_eq!(
            told,
            vec![pair("type", "machine"), pair("hostname", "h1"), pair("source", "mdb")]
        ),
        _ => panic!("expected a notice"),
    }
    let found = storage.query(&[pick("hostname", "h1")], None).unwrap();
    assert_eq!(found[0].fields.get("source").unwrap(), "mdb");
    assert_eq!(found[0].owner_team, Some("ops".to_string()));

    let again = session.answer_add(&mut storage, &fields, false);
    assert_eq!(again.tally, Some((Action::Updated, "mdb".to_string(), 1)));
}

#[test]
fn answers_refused_additions() {
    let mut storage = MemoryStorage::new();
    let mut session = Session::new("peer", true);
    let r = session.answer_add(&mut storage, &[pair("hostname", "h1")], false);
    assert_eq!(
        r.reply,
        "512:Illegal value: a 'type' field is required (e.g. type=machine)\n"
    );
    assert!(!r.replicate && r.notice.is_none() && r.tally.is_none() && r.event.is_none());

    session.fingerprint = Some("fp1".to_string());
    let fields = [pair("type", "machine"), pair("hostname", "h1")];
    assert_eq!(session.answer_add(&mut storage, &fields, false).reply, "200:Ok\n");
    session.fingerprint = Some("fp2".to_string());
    assert_eq!(
        session.answer_add(&mut storage, &fields, false).reply,
        "511:Not authorized to add entries\n"
    );
    let nothing = || Vec::new();
    assert_eq!(
        session.report_add(nothing(), false, Err(StorageError::Unauthorized)).reply,
        "511:Not authorized to add entries\n"
    );
    assert_eq!(
        session.report_add(nothing(), false, Err(StorageError::ReadOnly)).reply,
        "517:Operation failed because database is read-only\n"
    );
    assert_eq!(
        session.report_add(nothing(), false, Err(StorageError::Internal("x".to_string()))).reply,
        "500:Internal storage error\n"
    );
}

#[test]
fn only_a_peer_silences_a_write() {
    let mut storage = MemoryStorage::new();
    let mut session = Session::new("peer", true);
    let fields = [pair("type", "machine"), pair("hostname", "h1")];
    let spoofed = session.answer_add(&mut storage, &fields, true);
    assert!(spoofed.replicate && spoofed.notice.is_some());
    session.roles = texts(&["peer"]);
    let replica = session.answer_add(&mut storage, &fields, true);
    assert!(!replica.replicate && replica.notice.is_none());
    let own = session.answer_add(&mut storage, &fields, false);
    assert!(own.replicate && own.notice.is_some());
}

#[test]
fn answers_a_query_line_by_line() {
    let mut storage = MemoryStorage::new();
    storage
        .add_record_at(
            vec![
                pair("type", "machine"),
                pair("hostname", "h1"),
                pair("ip_addr", "10.0.0.1"),
                pair("ip_addr", "10.0.0.2"),
                pair("created_at", "then"),
            ],
            None,
            None,
            "now",
        )
        .unwrap();
    let session = Session::new("peer", false);
    let r = session.answer_query(&storage, &[pick("hostname", "h1")], &[]);
    assert_eq!(
        r.reply,
        "102:There were 1 matches to your request.\n\
         -200:1:created_at: then\n\
         -200:1:hostname: h1\n\
         -200:1:ip_addr: 10.0.0.1\n\
         -200:1:       : 10.0.0.2\n\
         -200:1:last_seen_at: now\n\
         -200:1:type: machine\n\
         200:Ok\n"
    );
    assert_eq!(r.event, Some("[peer] Queried records, matches: 1".to_string()));
    let some = session.answer_query(
        &storage,
        &[pick("hostname", "h1")],
        &texts(&["type", "none", "hostname", "type"]),
    );
    assert_eq!(
        some.reply,
        "102:There were 1 matches to your request.\n\
         -200:1:hostname: h1\n\
         -200:1:type: machine\n\
         -200:1:type: machine\n\
         200:Ok\n"
    );
    let none = session.answer_query(&storage, &[pick("hostname", "h2")], &[]);
    assert_eq!(none.reply, "501:No matches to query\n");
    assert_eq!(none.event, Some("[peer] Queried records, matches: 0".to_string()));
    let bad = session.answer_query(&storage, &[pick("hostname", "[a")], &[]);
    assert!(bad.reply.starts_with("512:Illegal value: "));
    assert_eq!(bad.event, None);
    assert_eq!(
        session.report_query(&[], &Err(StorageError::Collision)).reply,
        "500:Internal storage error\n"
    );
}

#[test]
fn pads_names_by_their_bytes() {
    let mut record = Record::default();
    record.multi_fields.insert("é€".to_string(), texts(&["a", "b"]));
    let session = Session::new("peer", false);
    let r = session.report_query(&[], &Ok(vec![record]));
    assert_eq!(
        r.reply,
        "102:There were 1 matches to your request.\n-200:1:é€: a\n-200:1:     : b\n200:Ok\n"
    );
}

#[test]
fn looks_at_the_kind_of_records_that_a_client_is_about() {
    let mut session = Session::new("peer", false);
    assert_eq!(session.default_type(), None);
    session.answer_id("ph");
    assert_eq!(session.default_type(), Some(RecordType::Person));
    session.answer_id("pharos-mdb");
    assert_eq!(session.default_type(), Some(RecordType::Person));
    session.answer_id("web-mdb-search");
    assert_eq!(session.default_type(), Some(RecordType::Machine));
    session.answer_id("other");
    assert_eq!(session.default_type(), None);
}

#[test]
fn describes_the_fields() {
    let mut storage = MemoryStorage::new();
    storage
        .add_record_at(vec![pair("type", "machine"), pair("zone", "a")], None, None, "now")
        .unwrap();
    let session = Session::new("peer", false);
    let all = session.answer_fields(&storage, &[]).reply;
    assert!(all.starts_with("-200:1:alias:max 32 Public\n-200:1:alias:Unique short identifier"));
    assert!(all.contains(
        "-200:7:zone:max 256 Public\n-200:7:zone:User-defined field; no additional metadata available.\n"
    ));
    assert!(all.ends_with("200:Ok.\n"));
    let one = session.answer_fields(&storage, &texts(&["type"])).reply;
    assert_eq!(
        one,
        "-200:6:type:max 64 Public\n-200:6:type:Record type discriminator (e.g. \"person\" or \"machine\").\n200:Ok.\n"
    );
    let none = session.answer_fields(&storage, &texts(&["nothing"])).reply;
    assert_eq!(none, "507:Field does not exist\n");
}

#[test]
fn changes_within_the_limits() {
    let mut storage = MemoryStorage::new();
    for name in ["h1", "h2"] {
        storage
            .add_record(vec![pair("type", "machine"), pair("hostname", name)], None, None)
            .unwrap();
    }
    let mut session = Session::new("peer", true);
    let all = [pick("type", "machine")];
    let mods = [pair("rack", "r1")];
    assert_eq!(session.answer_set(&texts(&["limit=1"])).reply, "200:Done.\n");
    let refused = session.answer_change(&mut storage, &all, &mods, false);
    assert_eq!(
        refused.reply,
        "518:Too many entries selected by change command (2 matched)\n"
    );
    assert!(!refused.replicate && refused.notice.is_none());
    assert!(storage.query(&[pick("rack", "r1")], None).unwrap().is_empty());
    assert_eq!(session.answer_set(&texts(&["limit=off", "addonly"])).reply, "200:Done.\n");
    let done = session.answer_change(&mut storage, &all, &mods, false);
    assert_eq!(done.reply, "200:2 entries changed.\n");
    assert!(done.replicate && matches!(done.notice, Some(Notice::Changed(2))));
    let again = session.answer_change(&mut storage, &all, &mods, false);
    assert_eq!(
        again.reply,
        "521:Change command would have overridden existing field, and addonly option is on\n"
    );
    let one = session.answer_change(&mut storage, &[pick("hostname", "h1")], &[pair("row", "1")], false);
    assert_eq!(one.reply, "200:1 entry changed.\n");
    let none = session.answer_change(&mut storage, &[pick("hostname", "h9")], &[pair("row", "1")], false);
    assert_eq!(none.reply, "501:No matches to change\n");
    let bad = session.answer_change(&mut storage, &[pick("hostname", "[")], &[pair("row", "1")], false);
    assert!(bad.reply.starts_with("512:Illegal value: "));
    assert_eq!(
        session.report_change(false, Err(StorageError::Unauthorized)).reply,
        "510:Not authorized to change this entry\n"
    );
    assert_eq!(
        session.report_change(false, Err(StorageError::ReadOnly)).reply,
        "517:Operation failed because database is read-only\n"
    );
    assert_eq!(
        session.report_change(false, Err(StorageError::Collision)).reply,
        "500:Internal storage error\n"
    );
}

#[test]
fn deletes_within_the_limit() {
    let mut storage = MemoryStorage::new();
    for name in ["h1", "h2", "h3"] {
        storage
            .add_record(vec![pair("type", "machine"), pair("hostname", name)], None, None)
            .unwrap();
    }
    let mut session = Session::new("peer", false);
    session.answer_set(&texts(&["limit=2"]));
    let refused = session.answer_delete(&mut storage, &[pick("type", "machine")], false);
    assert_eq!(
        refused.reply,
        "518:Too many entries selected by delete command (3 matched)\n"
    );
    assert_eq!(storage.record_count(), 3);
    let done = session.answer_delete(&mut storage, &[pick("hostname", "h1")], false);
    assert_eq!(done.reply, "200:Ok\n");
    assert_eq!(done.tally, Some((Action::Deleted, "unknown".to_string(), 1)));
    assert!(!done.replicate && matches!(done.notice, Some(Notice::Deleted(1))));
    assert_eq!(storage.record_count(), 2);
    let none = session.answer_delete(&mut storage, &[pick("hostname", "h1")], false);
    assert_eq!(none.reply, "501:No matches to delete\n");
    assert_eq!(
        session.report_delete(false, Err(StorageError::Unauthorized)).reply,
        "516:No authorization for request\n"
    );
    assert_eq!(
        session.report_delete(false, Err(StorageError::ReadOnly)).reply,
        "517:Operation failed because database is read-only\n"
    );
    assert_eq!(
        session.report_delete(false, Err(StorageError::InvalidArgument("x".to_string()))).reply,
        "500:Internal storage error\n"
    );
}

#[test]
fn lists_and_sets_options() {
    let mut session = Session::new("peer", false);
    assert_eq!(
        session.answer_set(&[]).reply,
        "-200:echo:off\n-200:limit:off\n-200:charset:\n-200:verbose:off\n-200:addonly:off\n-200:nolog:off\n-200:external:off\n200:Done.\n"
    );
    let tokens = texts(&["ECHO", "limit = 25 ", "charset=UTF-8", "verbose=ON", "nolog=on", "external=on"]);
    assert_eq!(session.answer_set(&tokens).reply, "200:Done.\n");
    assert_eq!(
        session.answer_set(&[]).reply,
        "-200:echo:on\n-200:limit:25\n-200:charset:UTF-8\n-200:verbose:on\n-200:addonly:off\n-200:nolog:on\n-200:external:on\n200:Done.\n"
    );
}

#[test]
fn sets_no_option_where_one_has_a_fault() {
    let mut session = Session::new("peer", false);
    assert_eq!(session.answer_set(&texts(&["echo=on", "limit=many"])).reply, "512:Illegal value\n");
    assert!(!session.options.echo);
    assert_eq!(session.answer_set(&texts(&["echo=on", "colour=red"])).reply, "513:Unknown option\n");
    assert!(!session.options.echo);
    for key in ["echo", "verbose", "addonly", "nolog", "external"] {
        let mut options = SessionOptions::default();
        assert_eq!(options.set(key, "maybe"), Err(SetFault::IllegalValue));
    }
    let mut options = SessionOptions::default();
    assert_eq!(options.set("limit", "+7"), Ok(()));
    assert_eq!(options.limit, Some(7));
    assert_eq!(options.set("limit", "-7"), Err(SetFault::IllegalValue));
    assert_eq!(options.set("limit", "99999999999999999999999"), Err(SetFault::IllegalValue));
    assert_eq!(options.set("Limit", "1"), Err(SetFault::UnknownOption));
}

#[test]
fn settles_an_attempt_to_authenticate() {
    let some = |s: &str| Some(s.to_string());
    let key = || Some(("fp".to_string(), texts(&["admin"]), texts(&["ops"])));
    assert!(matches!(settle_auth(&None, &some("c"), key()), (AuthFinding::NoChallenge, false)));
    assert!(matches!(settle_auth(&some("a"), &None, key()), (AuthFinding::NoChallenge, false)));
    assert!(matches!(settle_auth(&some("a"), &some("c"), None), (AuthFinding::Rejected, false)));
    match settle_auth(&some("a"), &some("c"), key()) {
        (AuthFinding::Accepted { fingerprint, roles, teams }, true) => {
            assert_eq!(fingerprint, "fp");
            assert_eq!(roles, texts(&["admin"]));
            assert_eq!(teams, texts(&["ops"]));
        }
        other => panic!("unexpected {:?}", other),
    }
}

#[test]
fn gives_every_command_its_own_answer() {
    let mut s = MemoryStorage::new();
    let mut session = Session::new("p", false);
    let supplied = || Supplied {
        challenge: "c-1".to_string(),
        finding: AuthFinding::Rejected,
        verified: true,
    };
    let text = |t: &str| t.to_string();
    let key = || ("k".to_string(), "s".to_string());
    let cases = vec![
        (Command::Status, Need::Nothing, "100:Pharos server active\n200:Ok\n"),
        (Command::Id(text("MDB")), Need::Nothing, "200:Ok\n"),
        (Command::Login(text("jane")), Need::Nothing, "301:c-1\n"),
        (
            Command::Auth { public_key: key().0, signature: key().1 },
            Need::Nothing,
            "516:No authorization for request\n",
        ),
        (
            Command::AuthCheck { public_key: key().0, signature: key().1, challenge: text("c") },
            Need::Nothing,
            "200:Ok\n",
        ),
        (
            Command::Add(vec![pair("type", "machine"), pair("hostname", "h")]),
            Need::Writing,
            "200:Ok\n",
        ),
        (
            Command::Query { selections: vec![pick("hostname", "h")], shown: texts(&["hostname"]) },
            Need::Reading,
            "102:There were 1 matches to your request.\n-200:1:hostname: h\n200:Ok\n",
        ),
        (Command::Fields(texts(&["nope"])), Need::Reading, "507:Field does not exist\n"),
        (
            Command::Change {
                selections: vec![pick("hostname", "h")],
                modifications: vec![pair("os", "bsd")],
                force: false,
            },
            Need::Writing,
            "200:1 entry changed.\n",
        ),
        (Command::Delete(vec![pick("hostname", "h")]), Need::Writing, "200:Ok\n"),
        (Command::Delete(vec![pick("hostname", "h")]), Need::Writing, "501:No matches to delete\n"),
        (
            Command::Unimplemented,
            Need::Nothing,
            "597:Command recognized, but not yet implemented\n",
        ),
        (Command::Quit, Need::Nothing, "200:Bye!\n"),
    ];
    for (command, need, reply) in cases {
        assert_eq!(command.need(), need);
        let r = session.answer(&mut s, &command, false, supplied());
        assert_eq!(r.reply, reply);
        assert_eq!(r.close, matches!(command, Command::Quit));
    }
    assert_eq!(session.id, Some(text("mdb")));
    assert_eq!(session.login_alias, Some(text("jane")));
    let set = Command::SetOptions(texts(&["addonly=on"]));
    session.answer(&mut s, &set, false, Supplied::nothing());
    assert!(session.options.addonly);
    let ldap = LdapStorage::new(text("u"), text("b"), text("p"), text("d"));
    let change = Command::Change {
        selections: vec![pick("email", "a@b")],
        modifications: vec![],
        force: false,
    };
    assert_eq!(session.ldap_filter(&ldap, &change), Some(text("(mail=a@b)")));
    session.options.addonly = false;
    assert_eq!(session.ldap_filter(&ldap, &change), None);
    let query = Command::Query { selections: vec![pick("email", "a@b")], shown: vec![] };
    assert_eq!(
        session.ldap_filter(&ldap, &query),
        Some(text("(&(objectClass=ipHost)(mail=a@b))"))
    );
    assert_eq!(
        session.ldap_filter(&ldap, &Command::Fields(vec![])),
        Some(text("(objectClass=*)"))
    );
    assert_eq!(session.ldap_filter(&ldap, &Command::Quit), None);
}
