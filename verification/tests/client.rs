//! The client's side: command lines, responses, keys and signatures.

use pharos::turns::Act;
use pharos::turns::Event;
use pharos::turns::KeyStep;
use pharos::turns::Stage;
use pharos::turns::next_turn;
use pharos::turns::WaitStep;
use pharos::turns::seek_key;
use pharos::turns::wait_for_files_step;
use pharos::turns::wait_step;
use pharos::client::LineOutcome;
use pharos::client::PharosClient;
use pharos::client::PharosField;
use pharos::client::PharosRecord;
use pharos::client::PharosResponse;
use pharos::client::ResponseReader;
use pharos::client::bad_code_message;
use pharos::client::end_line;
use pharos::client::server_name;
use pharos::signing::SigningError;
use pharos::signing::present;
use pharos::signing::take_secret;
use pharos::wire::escape_wire_value;
use pharos::wire::join_wire_args;
use pharos::wire::needs_quoting;
use pharos::wire::quote_wire_arg;

#[test]
fn test_should_join_args_unchanged_when_no_value_contains_whitespace() {
    let args = vec!["add".to_string(), "hostname=db-01".to_string(), "ip=10.0.0.5".to_string()];
    assert_eq!(join_wire_args(&args), "add hostname=db-01 ip=10.0.0.5");
}

#[test]
fn test_should_requote_value_when_shell_stripped_quotes_around_whitespace() {
    let args = vec!["add".to_string(), "name=Jane Smith".to_string(), "type=person".to_string()];
    assert_eq!(join_wire_args(&args), r#"add name="Jane Smith" type=person"#);
}

#[test]
fn test_should_quote_bare_multiword_token_without_a_key() {
    let args = vec!["query".to_string(), "Jane Smith".to_string()];
    assert_eq!(join_wire_args(&args), r#"query "Jane Smith""#);
}

#[test]
fn test_should_escape_embedded_quotes_and_backslashes_in_value() {
    let args = vec![r#"name=Jane "JJ" Smith\Jones"#.to_string()];
    assert_eq!(join_wire_args(&args), r#"name="Jane \"JJ\" Smith\\Jones""#);
}

#[test]
fn test_should_leave_value_containing_equals_sign_unquoted_when_no_whitespace() {
    let args = vec!["filter=a=b".to_string()];
    assert_eq!(join_wire_args(&args), "filter=a=b");
}

#[test]
fn test_should_list_all_attempted_paths_when_personal_key_not_used() {
    let tried = PharosClient::describe_attempted_paths(
        "/home/user/.ssh/id_ed25519",
        false,
        "/home/user/.ssh/admin_id_ed25519",
        "/etc/pharos/keys/admin_id_ed25519",
    );
    assert_eq!(tried, vec![
        "/home/user/.ssh/id_ed25519".to_string(),
        "/home/user/.ssh/admin_id_ed25519".to_string(),
        "/etc/pharos/keys/admin_id_ed25519".to_string(),
    ]);
}

#[test]
fn test_should_omit_personal_key_from_list_when_it_was_the_resolved_path() {
    let tried = PharosClient::describe_attempted_paths(
        "/home/user/.ssh/id_ed25519",
        true,
        "/home/user/.ssh/id_ed25519",
        "/etc/pharos/keys/admin_id_ed25519",
    );
    assert_eq!(tried, vec![
        "/home/user/.ssh/id_ed25519".to_string(),
        "/etc/pharos/keys/admin_id_ed25519".to_string(),
    ]);
}

#[test]
fn quotes_the_edge_cases() {
    assert_eq!(join_wire_args(&[]), "");
    assert_eq!(quote_wire_arg(""), "");
    assert_eq!(quote_wire_arg("a b=c"), "a b=c");
    assert_eq!(quote_wire_arg("a=b\tc"), "a=\"b\tc\"");
    assert_eq!(quote_wire_arg("say\"hi"), "say\"hi");
    assert!(needs_quoting("\u{a0}"));
    assert!(!needs_quoting(""));
    assert_eq!(escape_wire_value("\\\""), "\\\\\\\"");
}

fn read_all(lines: &[&str]) -> PharosResponse {
    let mut reader = ResponseReader::new();
    for line in lines {
        match reader.read(line) {
            LineOutcome::More => {}
            LineOutcome::Complete(response) => return response,
            LineOutcome::BadCode(code) => panic!("bad code {}", code),
        }
    }
    panic!("the response is not complete")
}

fn field(key: &str, value: &str) -> PharosField {
    PharosField { key: key.to_string(), value: value.to_string() }
}

#[test]
fn reads_a_plain_answer() {
    assert_eq!(read_all(&["200:Ok\n"]), PharosResponse::Success("Ok".to_string()));
    assert_eq!(read_all(&["100:active\n", "200:Ok\n"]), PharosResponse::Success("Ok".to_string()));
    assert_eq!(read_all(&["no code here\n", "\n"]), PharosResponse::Success("Ok".to_string()));
    assert_eq!(read_all(&[""]), PharosResponse::Success("Ok".to_string()));
}

#[test]
fn reads_records() {
    let response = read_all(&[
        "102:There were 2 matches to your request.\n",
        "-200:1:hostname: h1\n",
        "-200:1:note: a:b \n",
        "-200:2:hostname: h2\n",
        "200:Ok\n",
    ]);
    assert_eq!(response, PharosResponse::Matches {
        count: 2,
        records: vec![
            PharosRecord { id: 1, fields: vec![field("hostname", "h1"), field("note", "a:b")] },
            PharosRecord { id: 2, fields: vec![field("hostname", "h2")] },
        ],
    });
}

#[test]
fn reads_records_up_to_the_end_of_the_stream() {
    let response = read_all(&["-200:x:k:v\n", "-200:short\n", ""]);
    assert_eq!(response, PharosResponse::Matches {
        count: 0,
        records: vec![PharosRecord { id: 0, fields: vec![field("k", "v")] }],
    });
}

#[test]
fn reads_refusals() {
    assert_eq!(
        read_all(&["506:must be logged in\n"]),
        PharosResponse::AuthenticationRequired { challenge: String::new() }
    );
    assert!(read_all(&["506:x\n"]).needs_login());
    assert_eq!(
        read_all(&["501:No matches to query\n"]),
        PharosResponse::Matches { count: 0, records: vec![] }
    );
    assert_eq!(
        read_all(&["512:Illegal value\n"]),
        PharosResponse::Error { code: 512, message: "Illegal value".to_string() }
    );
    assert!(!read_all(&["512:Illegal value\n"]).needs_login());
}

#[test]
fn refuses_a_code_that_is_no_number() {
    let mut reader = ResponseReader::new();
    match reader.read("abc:def\n") {
        LineOutcome::BadCode(code) => {
            assert_eq!(bad_code_message(&code), "Invalid response code: abc");
        }
        _ => panic!("expected a bad code"),
    }
    assert!(matches!(reader.read("99999999999:x"), LineOutcome::BadCode(_)));
}

#[test]
fn announces_a_count_that_is_no_number_as_none() {
    assert_eq!(
        read_all(&["102:There were many\n", "200:Ok\n"]),
        PharosResponse::Success("Ok".to_string())
    );
    assert_eq!(
        read_all(&["102:There were 3\n", "200:Ok\n"]),
        PharosResponse::Matches { count: 3, records: vec![] }
    );
}

#[test]
fn writes_the_lines_of_a_login() {
    let client = PharosClient::new("mdb");
    assert_eq!(client.id_line(), "id mdb");
    assert_eq!(client.login_line(), "login mdb");
    assert_eq!(client.auth_line("ssh-ed25519 AAA", "c2ln"), "auth \"ssh-ed25519 AAA\" \"c2ln\"");
    assert_eq!(end_line("id mdb"), "id mdb\n");
    assert_eq!(end_line("id mdb\n"), "id mdb\n");
    assert_eq!(end_line(""), "\n");
    assert_eq!(client.check_id_answer("200:Ok"), Ok(()));
    assert_eq!(
        client.check_id_answer("500:no"),
        Err("Server rejected identification: 500:no".to_string())
    );
    assert_eq!(client.challenge("301:xyz"), Ok("xyz".to_string()));
    assert_eq!(
        client.challenge("500:no"),
        Err("Failed to receive challenge from server: 500:no".to_string())
    );
    assert_eq!(client.check_auth_answer("200:Ok"), Ok(()));
    assert_eq!(
        client.check_auth_answer("516:no"),
        Err("Authentication failed: 516:no".to_string())
    );
    assert_eq!(server_name("hub.local:2378"), "hub.local");
    assert_eq!(server_name("hub.local"), "hub.local");
}

#[test]
fn chooses_a_key() {
    assert_eq!(
        PharosClient::choose_key(Some("/k".to_string()), "/home/u", true),
        ("/k".to_string(), false)
    );
    assert_eq!(
        PharosClient::choose_key(None, "/home/u", true),
        ("/home/u/.ssh/id_ed25519".to_string(), true)
    );
    assert_eq!(
        PharosClient::choose_key(None, "/home/u", false),
        ("/home/u/.ssh/admin_id_ed25519".to_string(), false)
    );
    let m = PharosClient::missing_key_message(&["/a".to_string(), "/b".to_string()], "/a");
    assert!(m.starts_with("No private key found for signing. Checked, in order:\n  - /a\n  - /b\n\nIf this"));
    assert!(m.contains("`ssh-keygen -t ed25519 -f /a`, then enroll"));
}

/// A key whose secret is the bytes 1 to 32, in OpenSSH's format.
fn sample_key() -> String {
    let mut secret = [0u8; 32];
    for i in 0..32 {
        secret[i] = (i + 1) as u8;
    }
    let pair = ssh_key::private::Ed25519Keypair::from_seed(&secret);
    let key = ssh_key::PrivateKey::from(pair);
    key.to_openssh(ssh_key::LineEnding::LF).unwrap().to_string()
}

#[test]
fn signs_with_an_ed25519_key() {
    let (public, signature) = PharosClient::sign_with_key(&sample_key(), "challenge").unwrap();
    assert!(public.starts_with("ssh-ed25519 AAAAC3NzaC1lZDI1NTE5AAAAI"));
    assert_eq!(signature.len(), 88);
    assert!(signature.ends_with("=="));

    let mut secret = [0u8; 32];
    for i in 0..32 {
        secret[i] = (i + 1) as u8;
    }
    let key = ed25519_dalek::SigningKey::from_bytes(&secret);
    let bytes = ed25519_dalek::Signer::sign(&key, b"challenge").to_vec();
    let decoded = base64::Engine::decode(&base64::engine::general_purpose::STANDARD, &signature).unwrap();
    assert_eq!(decoded, bytes);
    let (_, other) = PharosClient::sign_with_key(&sample_key(), "other").unwrap();
    assert_ne!(signature, other);
}

#[test]
fn reports_a_text_that_is_no_key() {
    match PharosClient::sign_with_key("nothing", "challenge") {
        Err(e) => assert!(e.message().starts_with("Failed to parse SSH private key: ")),
        Ok(_) => panic!("expected an error"),
    }
}

#[test]
fn goes_by_what_was_read() {
    assert_eq!(take_secret(Ok(Some([7u8; 32]))).unwrap(), [7u8; 32]);
    let unsupported = take_secret(Ok(None)).unwrap_err();
    assert!(matches!(unsupported, SigningError::Unsupported));
    assert_eq!(
        unsupported.message(),
        "Unsupported key type for raw signing. Only Ed25519 is supported."
    );
    assert_eq!(
        take_secret(Err("x".to_string())).unwrap_err().message(),
        "Failed to parse SSH private key: x"
    );
    assert_eq!(
        present(&[1, 2, 3], Err("y".to_string())).unwrap_err().message(),
        "Failed to export public key: y"
    );
}

#[test]
fn writes_base_64() {
    let b64 = |bytes: &[u8]| present(bytes, Ok(String::new())).unwrap().1;
    assert_eq!(b64(b""), "");
    assert_eq!(b64(b"f"), "Zg==");
    assert_eq!(b64(b"fo"), "Zm8=");
    assert_eq!(b64(b"foo"), "Zm9v");
    assert_eq!(b64(b"foobar"), "Zm9vYmFy");
    assert_eq!(b64(&[0xfb, 0xff, 0xbf]), "+/+/");
}

#[test]
fn logs_in_where_the_server_asks_for_it() {
    let refused = || PharosResponse::AuthenticationRequired { challenge: String::new() };
    let fine = || PharosResponse::Success("Ok".to_string());
    let (stage, act) = next_turn(Stage::Asked, Event::Answered(fine()));
    assert_eq!(stage, Stage::Done);
    assert!(matches!(act, Act::Give(PharosResponse::Success(_))));

    let (stage, act) = next_turn(Stage::Asked, Event::Answered(refused()));
    assert_eq!(stage, Stage::LoggingIn);
    assert!(matches!(act, Act::LogIn));
    let (failed, act) = next_turn(stage, Event::LoginFailed("no".to_string()));
    assert_eq!(failed, Stage::Done);
    assert!(matches!(act, Act::Fail(_)));
    let (stage, act) = next_turn(stage, Event::LoggedIn);
    assert_eq!(stage, Stage::AskedAgain);
    assert!(matches!(act, Act::Send));
    // A second refusal is given as it is: the command is not sent a third time.
    let (stage, act) = next_turn(stage, Event::Answered(refused()));
    assert_eq!(stage, Stage::Done);
    assert!(matches!(act, Act::Give(PharosResponse::AuthenticationRequired { .. })));
    assert!(matches!(next_turn(stage, Event::LoggedIn).1, Act::Ignore));
}

#[test]
fn waits_a_minute_for_a_key() {
    assert_eq!(seek_key(true, 0, true), KeyStep::UseKey);
    assert_eq!(seek_key(false, 59_999, true), KeyStep::Wait(1000));
    assert_eq!(seek_key(false, 60_000, true), KeyStep::UseFallback);
    assert_eq!(seek_key(false, 60_000, false), KeyStep::GiveUp);
    assert_eq!(seek_key(true, 60_000, false), KeyStep::UseKey);
}

#[test]
fn waits_half_a_minute_for_files() {
    assert_eq!(wait_step(true, 40_000), WaitStep::Ready);
    assert_eq!(wait_step(false, 29_999), WaitStep::Wait(500));
    assert_eq!(wait_step(false, 30_000), WaitStep::GiveUp);
    assert_eq!(wait_for_files_step(true, 0, 30_000), WaitStep::Ready);
    assert_eq!(wait_for_files_step(false, 29_999, 30_000), WaitStep::Wait(500));
    assert_eq!(wait_for_files_step(true, 30_000, 30_000), WaitStep::GiveUp);
}
