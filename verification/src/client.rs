//! The client's side of the protocol: what it sends, and how it reads what
//! comes back.

use vstd::prelude::*;

use crate::numbers::decimal;
use crate::numbers::integer_of;
use crate::numbers::parse_i32;
use crate::session::begins_with;
use crate::session::starts_with_text;
use crate::store::Pair;
use crate::text::chars_of;
use crate::text::char_lists;
use crate::text::copy_range;
use crate::text::cut;
use crate::text::cut_text;
use crate::text::law_cut;
use crate::text::split_words;
use crate::text::text_of;
use crate::text::trim;
use crate::text::trim_text;
use crate::text::words;

verus! {

/// A field of a record that the server sent.
#[derive(Debug, Clone, PartialEq, Eq)]
pub struct PharosField {
    pub key: String,
    pub value: String,
}

/// A record that the server sent.
#[derive(Debug, Clone, PartialEq, Eq)]
pub struct PharosRecord {
    pub id: i32,
    pub fields: Vec<PharosField>,
}

/// What the server answered.
#[derive(Debug, Clone, PartialEq, Eq)]
pub enum PharosResponse {
    Success(String),
    Matches { count: i32, records: Vec<PharosRecord> },
    Error { code: i32, message: String },
    AuthenticationRequired { challenge: String },
}

/// A `PharosRecord` as a value of the specification.
pub struct Answer {
    pub id: int,
    pub fields: Seq<Pair>,
}

/// A `PharosResponse` as a value of the specification.
pub enum Response {
    Success(Seq<char>),
    Matches { count: int, records: Seq<Answer> },
    Error { code: int, message: Seq<char> },
    AuthenticationRequired { challenge: Seq<char> },
}

impl DeepView for PharosField {
    type V = Pair;

    open spec fn deep_view(&self) -> Pair {
        (self.key@, self.value@)
    }
}

impl DeepView for PharosRecord {
    type V = Answer;

    open spec fn deep_view(&self) -> Answer {
        Answer { id: self.id as int, fields: self.fields.deep_view() }
    }
}

impl View for PharosResponse {
    type V = Response;

    open spec fn view(&self) -> Response {
        match self {
            PharosResponse::Success(message) => Response::Success(message@),
            PharosResponse::Matches { count, records } => Response::Matches {
                count: *count as int,
                records: records.deep_view(),
            },
            PharosResponse::Error { code, message } => Response::Error {
                code: *code as int,
                message: message@,
            },
            PharosResponse::AuthenticationRequired { challenge } => {
                Response::AuthenticationRequired { challenge: challenge@ }
            },
        }
    }
}

// ---------------------------------------------------------------------------
// Reading a response
// ---------------------------------------------------------------------------

/// What a client has read of a response.
pub struct Reading {
    pub records: Seq<Answer>,
    pub current: Option<Answer>,
    pub count: int,
}

/// A reading before the first line.
pub open spec fn nothing_read() -> Reading {
    Reading { records: Seq::empty(), current: None, count: 0 }
}

/// Where a client stands after a line: the response goes on, it is complete,
/// or the line has a code that is no number.
pub enum Progress {
    More(Reading),
    Complete(Response),
    BadCode(Seq<char>),
}

/// The number that a text writes, where it fits in 32 bits.
pub open spec fn small_integer_of(s: Seq<char>) -> Option<int> {
    match integer_of(s) {
        Some(n) => if i32::MIN <= n <= i32::MAX {
            Some(n)
        } else {
            None
        },
        None => None,
    }
}

/// The records that were read, the last one included.
pub open spec fn all_records(r: Reading) -> Seq<Answer> {
    match r.current {
        Some(record) => r.records.push(record),
        None => r.records,
    }
}

/// The response when nothing follows: the records, if there are any or some
/// were announced, or else a plain message.
pub open spec fn concluded(r: Reading, message: Seq<char>) -> Response {
    if r.count > 0 || all_records(r).len() > 0 {
        Response::Matches { count: r.count, records: all_records(r) }
    } else {
        Response::Success(message)
    }
}

/// A reading with the number of matches that a line announces in its third
/// word.
pub open spec fn with_count(r: Reading, message: Seq<char>) -> Reading {
    if words(message).len() > 2 {
        Reading { count: small_integer_of(words(message)[2]).unwrap_or(0), ..r }
    } else {
        r
    }
}

/// A reading with one field more. Fields with the same number belong to one
/// record.
pub open spec fn with_data(r: Reading, id: int, field: Pair) -> Reading {
    match r.current {
        Some(record) => if record.id == id {
            Reading {
                current: Some(Answer { id, fields: record.fields.push(field) }),
                ..r
            }
        } else {
            Reading {
                records: r.records.push(record),
                current: Some(Answer { id, fields: seq![field] }),
                ..r
            }
        },
        None => Reading { current: Some(Answer { id, fields: seq![field] }), ..r },
    }
}

/// A reading with the data `number:name:value`, if it is that.
pub open spec fn with_data_text(r: Reading, message: Seq<char>) -> Reading {
    match cut(message, ':') {
        None => r,
        Some((number, rest)) => match cut(rest, ':') {
            None => r,
            Some((name, value)) => with_data(
                r,
                small_integer_of(number).unwrap_or(0),
                (name, trim(value)),
            ),
        },
    }
}

/// A reading after a line with a code and a message.
pub open spec fn with_message(r: Reading, code: int, message: Seq<char>) -> Progress {
    if code == 200 {
        Progress::Complete(concluded(r, message))
    } else if code == 102 {
        Progress::More(with_count(r, message))
    } else if code == 506 {
        Progress::Complete(Response::AuthenticationRequired { challenge: Seq::empty() })
    } else if code == 501 {
        Progress::Complete(Response::Matches { count: 0, records: Seq::empty() })
    } else if code >= 400 {
        Progress::Complete(Response::Error { code, message })
    } else if code < 0 {
        Progress::More(with_data_text(r, message))
    } else {
        Progress::More(r)
    }
}

/// A reading after one line more. An empty line ends the response.
pub open spec fn with_line(r: Reading, raw: Seq<char>) -> Progress {
    let line = trim(raw);
    if line.len() == 0 {
        Progress::Complete(concluded(r, "Ok"@))
    } else {
        match cut(line, ':') {
            None => Progress::More(r),
            Some((code, message)) => match small_integer_of(code) {
                None => Progress::BadCode(code),
                Some(code) => with_message(r, code, trim(message)),
            },
        }
    }
}

/// Where a client stands after several lines.
pub open spec fn after_lines(r: Reading, lines: Seq<Seq<char>>) -> Progress
    decreases lines.len(),
{
    if lines.len() == 0 {
        Progress::More(r)
    } else {
        match with_line(r, lines[0]) {
            Progress::More(next) => after_lines(next, lines.drop_first()),
            other => other,
        }
    }
}

/// Reads a response line by line.
#[derive(Debug)]
pub struct ResponseReader {
    records: Vec<PharosRecord>,
    current: Option<PharosRecord>,
    match_count: i32,
}

/// What a line brought.
#[derive(Debug)]
pub enum LineOutcome {
    /// The response goes on.
    More,
    /// The response is complete.
    Complete(PharosResponse),
    /// The line's code, which is no number.
    BadCode(String),
}

impl View for ResponseReader {
    type V = Reading;

    closed spec fn view(&self) -> Reading {
        Reading {
            records: self.records.deep_view(),
            current: self.current.deep_view(),
            count: self.match_count as int,
        }
    }
}

fn read_small_integer(s: &str) -> (r: Option<i32>)
    ensures
        match r {
            Some(n) => small_integer_of(s@) == Some(n as int),
            None => small_integer_of(s@) is None,
        },
{
    parse_i32(s)
}

impl ResponseReader {
    /// A reader before the first line.
    pub fn new() -> (r: Self)
        ensures
            r@ == nothing_read(),
    {
        let r = ResponseReader { records: Vec::new(), current: None, match_count: 0 };
        proof {
            assert(r.records.deep_view() =~= Seq::empty());
        }
        r
    }

    /// Ends the response.
    fn conclude(&mut self, message: &str) -> (r: PharosResponse)
        ensures
            r@ == concluded(old(self)@, message@),
    {
        let mut records: Vec<PharosRecord> = Vec::new();
        std::mem::swap(&mut records, &mut self.records);
        let ghost before = records.deep_view();
        if let Some(record) = self.current.take() {
            let ghost last = record.deep_view();
            records.push(record);
            proof {
                assert(records.deep_view() =~= before.push(last));
            }
        }
        if self.match_count > 0 || records.len() > 0 {
            PharosResponse::Matches { count: self.match_count, records }
        } else {
            PharosResponse::Success(message.to_string())
        }
    }

    /// Takes note of the number of matches.
    fn take_count(&mut self, message: &str)
        ensures
            final(self)@ == with_count(old(self)@, message@),
    {
        let cs = chars_of(message);
        let ws = split_words(cs.as_slice());
        if ws.len() > 2 {
            proof {
                assert(char_lists(ws@)[2] == ws@[2]@);
            }
            let third = text_of(ws[2].as_slice());
            self.match_count = match read_small_integer(third.as_str()) {
                Some(n) => n,
                None => 0,
            };
        }
    }

    /// Takes note of a field.
    fn take_data(&mut self, id: i32, key: String, value: String)
        ensures
            final(self)@ == with_data(old(self)@, id as int, (key@, value@)),
    {
        let ghost field: Pair = (key@, value@);
        let ghost before = self@;
        match self.current.take() {
            Some(record) => {
                if record.id == id {
                    let mut fields = record.fields;
                    let ghost had = fields.deep_view();
                    fields.push(PharosField { key, value });
                    proof {
                        assert(fields.deep_view() =~= had.push(field));
                    }
                    self.current = Some(PharosRecord { id, fields });
                } else {
                    let ghost had = self.records.deep_view();
                    let ghost last = record.deep_view();
                    self.records.push(record);
                    let mut fields: Vec<PharosField> = Vec::new();
                    fields.push(PharosField { key, value });
                    proof {
                        assert(self.records.deep_view() =~= had.push(last));
                        assert(fields.deep_view() =~= seq![field]);
                    }
                    self.current = Some(PharosRecord { id, fields });
                }
            },
            None => {
                let mut fields: Vec<PharosField> = Vec::new();
                fields.push(PharosField { key, value });
                proof {
                    assert(fields.deep_view() =~= seq![field]);
                }
                self.current = Some(PharosRecord { id, fields });
            },
        }
    }

    /// Takes note of the data `number:name:value`, if it is that.
    fn take_data_text(&mut self, message: &str)
        ensures
            final(self)@ == with_data_text(old(self)@, message@),
    {
        if let Some((number, rest)) = cut_text(message, ':') {
            if let Some((name, value)) = cut_text(rest.as_str(), ':') {
                let id: i32 = match read_small_integer(number.as_str()) {
                    Some(n) => n,
                    None => 0,
                };
                self.take_data(id, name, trim_text(value.as_str()));
            }
        }
    }

    /// Reads one line more.
    pub fn read(&mut self, raw: &str) -> (r: LineOutcome)
        ensures
            match r {
                LineOutcome::More => with_line(old(self)@, raw@) == Progress::More(final(self)@),
                LineOutcome::Complete(response) => with_line(old(self)@, raw@)
                    == Progress::Complete(response@),
                LineOutcome::BadCode(code) => with_line(old(self)@, raw@) == Progress::BadCode(
                    code@,
                ),
            },
    {
        let line = trim_text(raw);
        let cs = chars_of(line.as_str());
        if cs.len() == 0 {
            return LineOutcome::Complete(self.conclude("Ok"));
        }
        match cut_text(line.as_str(), ':') {
            None => LineOutcome::More,
            Some((code_text, rest)) => {
                let code: i32 = match read_small_integer(code_text.as_str()) {
                    Some(n) => n,
                    None => {
                        return LineOutcome::BadCode(code_text);
                    },
                };
                let message = trim_text(rest.as_str());
                if code == 200 {
                    LineOutcome::Complete(self.conclude(message.as_str()))
                } else if code == 102 {
                    self.take_count(message.as_str());
                    LineOutcome::More
                } else if code == 506 {
                    let challenge = String::new();
                    LineOutcome::Complete(PharosResponse::AuthenticationRequired { challenge })
                } else if code == 501 {
                    let records: Vec<PharosRecord> = Vec::new();
                    proof {
                        assert(records.deep_view() =~= Seq::empty());
                    }
                    LineOutcome::Complete(PharosResponse::Matches { count: 0, records })
                } else if code >= 400 {
                    LineOutcome::Complete(PharosResponse::Error { code, message })
                } else if code < 0 {
                    self.take_data_text(message.as_str());
                    LineOutcome::More
                } else {
                    LineOutcome::More
                }
            },
        }
    }
}

impl PharosResponse {
    /// The server asks the client to log in before it answers.
    pub fn needs_login(&self) -> (b: bool)
        ensures
            b == (self@ is AuthenticationRequired),
    {
        match self {
            PharosResponse::AuthenticationRequired { .. } => true,
            _ => false,
        }
    }
}

/// The message about a line whose code is no number.
pub fn bad_code_message(code: &str) -> (m: String)
    ensures
        m@ == "Invalid response code: "@ + code@,
{
    let mut m = "Invalid response code: ".to_string();
    m.append(code);
    m
}

// ---------------------------------------------------------------------------
// Talking to a server
// ---------------------------------------------------------------------------

/// A text with a line end behind it, unless it ends in one.
pub open spec fn ended(line: Seq<char>) -> Seq<char> {
    if line.len() > 0 && line.last() == '\n' {
        line
    } else {
        line.push('\n')
    }
}

/// Puts a line end behind a text, unless it ends in one.
pub fn end_line(line: &str) -> (s: String)
    ensures
        s@ == ended(line@),
{
    let cs = chars_of(line);
    let mut s = line.to_string();
    if cs.len() == 0 || cs[cs.len() - 1] != '\n' {
        s.push('\n');
    }
    s
}

/// The part of an address before the port.
pub open spec fn host_of(addr: Seq<char>) -> Seq<char> {
    match cut(addr, ':') {
        Some((host, _)) => host,
        None => addr,
    }
}

/// The name under which a server presents its certificate: the part of its
/// address before the port.
pub fn server_name(addr: &str) -> (host: String)
    ensures
        host@ == host_of(addr@),
{
    match cut_text(addr, ':') {
        Some((host, _)) => host,
        None => addr.to_string(),
    }
}

/// A client, as it identifies itself.
#[derive(Debug)]
pub struct PharosClient {
    pub client_id: String,
}

/// The challenge in the answer to a login, or why there is none.
pub open spec fn challenge_in(answer: Seq<char>) -> Result<Seq<char>, Seq<char>> {
    if begins_with(answer, "301:"@) {
        Ok(answer.skip(4))
    } else {
        Err("Failed to receive challenge from server: "@ + answer)
    }
}

/// Nothing for an answer of success, or else a complaint about it.
pub open spec fn verdict(answer: Seq<char>, complaint: Seq<char>) -> Result<(), Seq<char>> {
    if begins_with(answer, "200"@) {
        Ok(())
    } else {
        Err(complaint + answer)
    }
}

fn judge(answer: &str, complaint: &str) -> (r: Result<(), String>)
    ensures
        match r {
            Ok(()) => verdict(answer@, complaint@) == Ok::<(), Seq<char>>(()),
            Err(m) => verdict(answer@, complaint@) == Err::<(), Seq<char>>(m@),
        },
{
    if starts_with_text(answer, "200") {
        Ok(())
    } else {
        let mut m = complaint.to_string();
        m.append(answer);
        Err(m)
    }
}

/// The list of the places where a private key was looked for.
pub open spec fn attempted(
    personal: Seq<char>,
    used_personal: bool,
    resolved: Seq<char>,
    fallback: Seq<char>,
) -> Seq<Seq<char>> {
    if used_personal {
        seq![resolved, fallback]
    } else {
        seq![personal, resolved, fallback]
    }
}

/// Where a user's own key is.
pub open spec fn personal_key(home: Seq<char>) -> Seq<char> {
    home + "/.ssh/id_ed25519"@
}

/// Which key to sign with, and whether it is the user's own: the one that was
/// named, or else the user's own if there is one, or else the administrator's.
pub open spec fn key_choice(
    named: Option<Seq<char>>,
    home: Seq<char>,
    has_personal: bool,
) -> (Seq<char>, bool) {
    match named {
        Some(path) => (path, false),
        None => if has_personal {
            (personal_key(home), true)
        } else {
            (home + "/.ssh/admin_id_ed25519"@, false)
        },
    }
}

/// The paths as lines of a list, without an end of line behind the last.
pub open spec fn path_lines(paths: Seq<Seq<char>>) -> Seq<char>
    decreases paths.len(),
{
    if paths.len() == 0 {
        Seq::empty()
    } else if paths.len() == 1 {
        "  - "@ + paths[0]
    } else {
        path_lines(paths.drop_last()) + "\n  - "@ + paths.last()
    }
}

/// The message about a missing private key.
pub open spec fn no_key_message(tried: Seq<Seq<char>>, personal: Seq<char>) -> Seq<char> {
    "No private key found for signing. Checked, in order:\n"@ + path_lines(tried)
        + "\n\nIf this machine is separate from the hub that generated the admin key, generate a personal key here instead of copying the sensitive admin private key: `ssh-keygen -t ed25519 -f "@
        + personal
        + "`, then enroll its PUBLIC half (the .pub file) in the hub's /etc/pharos/keys/ directory under a filename containing \"admin\" as its own token (e.g. <name>-admin_id_ed25519.pub), and reload pharos-server. Or set PHAROS_PRIVATE_KEY to point at a specific key file."@
}

impl PharosClient {
    /// A client that identifies itself by the given name.
    pub fn new(client_id: &str) -> (c: Self)
        ensures
            c.client_id@ == client_id@,
    {
        PharosClient { client_id: client_id.to_string() }
    }

    /// The line by which the client identifies itself.
    pub fn id_line(&self) -> (s: String)
        ensures
            s@ == "id "@ + self.client_id@,
    {
        let mut s = "id ".to_string();
        s.append(self.client_id.as_str());
        s
    }

    /// Judges the answer to the client's identification.
    pub fn check_id_answer(&self, answer: &str) -> (r: Result<(), String>)
        ensures
            match r {
                Ok(()) => verdict(answer@, "Server rejected identification: "@) == Ok::<
                    (),
                    Seq<char>,
                >(()),
                Err(m) => verdict(answer@, "Server rejected identification: "@) == Err::<
                    (),
                    Seq<char>,
                >(m@),
            },
    {
        judge(answer, "Server rejected identification: ")
    }

    /// The line by which the client asks for a challenge.
    pub fn login_line(&self) -> (s: String)
        ensures
            s@ == "login "@ + self.client_id@,
    {
        let mut s = "login ".to_string();
        s.append(self.client_id.as_str());
        s
    }

    /// The challenge in the answer to a login.
    pub fn challenge(&self, answer: &str) -> (r: Result<String, String>)
        ensures
            match r {
                Ok(challenge) => challenge_in(answer@) == Ok::<Seq<char>, Seq<char>>(challenge@),
                Err(m) => challenge_in(answer@) == Err::<Seq<char>, Seq<char>>(m@),
            },
    {
        if starts_with_text(answer, "301:") {
            let cs = chars_of(answer);
            proof {
                reveal_strlit("301:");
                assert(answer@.subrange(4, cs@.len() as int) =~= answer@.skip(4));
            }
            let rest = copy_range(cs.as_slice(), 4, cs.len());
            Ok(text_of(rest.as_slice()))
        } else {
            let mut m = "Failed to receive challenge from server: ".to_string();
            m.append(answer);
            Err(m)
        }
    }

    /// The line that answers a challenge.
    pub fn auth_line(&self, public_key: &str, signature: &str) -> (s: String)
        ensures
            s@ == "auth \""@ + public_key@ + "\" \""@ + signature@ + "\""@,
    {
        let mut s = "auth \"".to_string();
        s.append(public_key);
        s.append("\" \"");
        s.append(signature);
        s.append("\"");
        s
    }

    /// Judges the answer to the answer to a challenge.
    pub fn check_auth_answer(&self, answer: &str) -> (r: Result<(), String>)
        ensures
            match r {
                Ok(()) => verdict(answer@, "Authentication failed: "@) == Ok::<(), Seq<char>>(()),
                Err(m) => verdict(answer@, "Authentication failed: "@) == Err::<(), Seq<char>>(m@),
            },
    {
        judge(answer, "Authentication failed: ")
    }

    /// The places where a private key was looked for, in that order.
    pub fn describe_attempted_paths(
        personal_key_path: &str,
        used_personal_key: bool,
        resolved_path: &str,
        fallback_path: &str,
    ) -> (tried: Vec<String>)
        ensures
            tried.deep_view() == attempted(
                personal_key_path@,
                used_personal_key,
                resolved_path@,
                fallback_path@,
            ),
    {
        let mut tried: Vec<String> = Vec::new();
        if !used_personal_key {
            tried.push(personal_key_path.to_string());
        }
        tried.push(resolved_path.to_string());
        tried.push(fallback_path.to_string());
        proof {
            assert(tried.deep_view() =~= attempted(
                personal_key_path@,
                used_personal_key,
                resolved_path@,
                fallback_path@,
            ));
        }
        tried
    }

    /// Where a user's own key is.
    pub fn personal_key_path(home: &str) -> (s: String)
        ensures
            s@ == personal_key(home@),
    {
        let mut s = home.to_string();
        s.append("/.ssh/id_ed25519");
        s
    }

    /// Which key to sign with, and whether it is the user's own.
    pub fn choose_key(named: Option<String>, home: &str, has_personal: bool) -> (r: (String, bool))
        ensures
            (r.0@, r.1) == key_choice(named.deep_view(), home@, has_personal),
    {
        match named {
            Some(path) => (path, false),
            None => {
                if has_personal {
                    (Self::personal_key_path(home), true)
                } else {
                    let mut s = home.to_string();
                    s.append("/.ssh/admin_id_ed25519");
                    (s, false)
                }
            },
        }
    }

    /// The message about a missing private key.
    pub fn missing_key_message(tried: &[String], personal_key_path: &str) -> (m: String)
        ensures
            m@ == no_key_message(tried.deep_view(), personal_key_path@),
    {
        let ghost all = tried.deep_view();
        let mut list = String::new();
        let mut i: usize = 0;
        proof {
            assert(list@ =~= path_lines(all.take(0)));
        }
        while i < tried.len()
            invariant
                i <= tried@.len(),
                all == tried.deep_view(),
                list@ == path_lines(all.take(i as int)),
            decreases tried.len() - i,
        {
            proof {
                assert(all.take(i + 1).drop_last() =~= all.take(i as int));
                assert(all.take(i + 1).last() == tried@[i as int]@);
            }
            if i == 0 {
                list.append("  - ");
                proof {
                    assert(list@ =~= "  - "@);
                    assert(all.take(1)[0] == tried@[0]@);
                }
            } else {
                list.append("\n  - ");
            }
            list.append(tried[i].as_str());
            i = i + 1;
        }
        proof {
            assert(all.take(i as int) =~= all);
        }
        let mut m = "No private key found for signing. Checked, in order:\n".to_string();
        m.append(list.as_str());
        m.append(
            "\n\nIf this machine is separate from the hub that generated the admin key, generate a personal key here instead of copying the sensitive admin private key: `ssh-keygen -t ed25519 -f ",
        );
        m.append(personal_key_path);
        m.append(
            "`, then enroll its PUBLIC half (the .pub file) in the hub's /etc/pharos/keys/ directory under a filename containing \"admin\" as its own token (e.g. <name>-admin_id_ed25519.pub), and reload pharos-server. Or set PHAROS_PRIVATE_KEY to point at a specific key file.",
        );
        m
    }
}

// ---------------------------------------------------------------------------
// What holds of responses
// ---------------------------------------------------------------------------

/// What a line of a response means by its code. One of success ends it, with
/// the records read so far or with the words of the line; one of count says how
/// many records there are; a refusal ends it: where a login is asked for, where
/// there are no matches, or with the code and its words. A negative code brings
/// a field, and any other says nothing.
pub proof fn law_codes(r: Reading, code: int, message: Seq<char>)
    ensures
        code == 200 ==> with_message(r, code, message) == Progress::Complete(concluded(r, message)),
        code == 102 ==> with_message(r, code, message) == Progress::More(with_count(r, message)),
        code == 506 ==> (with_message(r, code, message) matches Progress::Complete(
            Response::AuthenticationRequired { challenge },
        ) && challenge.len() == 0),
        code == 501 ==> (with_message(r, code, message) matches Progress::Complete(
            Response::Matches { count, records },
        ) && count == 0 && records.len() == 0),
        code >= 400 && code != 501 && code != 506 ==> with_message(r, code, message)
            == Progress::Complete(Response::Error { code, message }),
        code < 0 ==> with_message(r, code, message) == Progress::More(with_data_text(r, message)),
        0 <= code < 400 && code != 200 && code != 102 ==> with_message(r, code, message)
            == Progress::More(r),
{
}

/// What a response comes to at its end: the records that were read, those under
/// way included, where there are any or were said to be; otherwise the words of
/// its last line.
pub proof fn law_concluded(r: Reading, message: Seq<char>)
    ensures
        r.count <= 0 && r.records.len() == 0 && r.current is None ==> concluded(r, message)
            == Response::Success(message),
        r.count > 0 || r.records.len() > 0 || r.current is Some ==> (concluded(
            r,
            message,
        ) matches Response::Matches { count, records } && count == r.count && records == (
        match r.current {
            Some(record) => r.records + seq![record],
            None => r.records,
        })),
{
    if let Some(record) = r.current {
        assert(r.records.push(record) =~= r.records + seq![record]);
    }
}

/// A field belongs to the record under way where it has the number of that
/// record; with another number it begins a new one, and the one under way is
/// complete.
pub proof fn law_field_read(r: Reading, id: int, field: Pair)
    ensures
        with_data(r, id, field).count == r.count,
        with_data(r, id, field).current matches Some(now) && now.id == id && now.fields.len() > 0
            && now.fields.last() == field,
        r.current is None ==> with_data(r, id, field).records == r.records && with_data(
            r,
            id,
            field,
        ).current->0.fields == seq![field],
        r.current matches Some(record) ==> {
            let next = with_data(r, id, field);
            &&& record.id == id ==> next.records == r.records && next.current->0.fields
                == record.fields.push(field)
            &&& record.id != id ==> next.records == r.records.push(record)
                && next.current->0.fields == seq![field]
        },
{
}

/// How a line with a field is read: the number before the first colon, the name
/// before the second, and the value behind it, without white space around it.
/// Without two colons it says nothing, and a number that is none counts as
/// nought.
pub proof fn law_field_line(
    r: Reading,
    number: Seq<char>,
    name: Seq<char>,
    value: Seq<char>,
)
    requires
        !number.contains(':'),
        !name.contains(':'),
    ensures
        with_data_text(r, number) == r,
        with_data_text(r, number + seq![':'] + name) == r,
        with_data_text(r, number + seq![':'] + (name + seq![':'] + value)) == with_data(
            r,
            match small_integer_of(number) {
                Some(n) => n,
                None => 0,
            },
            (name, trim(value)),
        ),
{
    law_cut(number, ':', name);
    law_cut(name, ':', value);
    law_cut(number, ':', name + seq![':'] + value);
}

/// How a line is read: an empty one ends the response, one without a colon says
/// nothing, and otherwise its code stands before the first colon. A code that
/// is no number is reported.
pub proof fn law_line_read(r: Reading, code: Seq<char>, message: Seq<char>)
    requires
        !code.contains(':'),
    ensures
        with_line(r, Seq::empty()) == Progress::Complete(concluded(r, "Ok"@)),
        trim(code) == code && code.len() > 0 ==> with_line(r, code) == Progress::More(r),
        trim(code + seq![':'] + message) == code + seq![':'] + message ==> with_line(
            r,
            code + seq![':'] + message,
        ) == (match small_integer_of(code) {
            Some(n) => with_message(r, n, trim(message)),
            None => Progress::BadCode(code),
        }),
{
    law_cut(code, ':', message);
    assert(trim(Seq::<char>::empty()).len() == 0);
}

/// A response is read line by line, and the first line that ends it, or that
/// cannot be read, decides.
pub proof fn law_lines_in_order(r: Reading, first: Seq<Seq<char>>, second: Seq<Seq<char>>)
    ensures
        after_lines(r, Seq::empty()) == Progress::More(r),
        after_lines(r, first + second) == match after_lines(r, first) {
            Progress::More(next) => after_lines(next, second),
            other => other,
        },
    decreases first.len(),
{
    if first.len() == 0 {
        assert(first + second =~= second);
    } else {
        assert((first + second).drop_first() =~= first.drop_first() + second);
        if let Progress::More(next) = with_line(r, first[0]) {
            law_lines_in_order(next, first.drop_first(), second);
        }
    }
}

/// The numbers of a response are those of 32 bits.
pub proof fn law_small_numbers(n: nat)
    ensures
        small_integer_of(decimal(n)) == (if n <= 0x7fff_ffff {
            Some(n as int)
        } else {
            None
        }),
        small_integer_of(seq!['-'] + decimal(n)) == (if n <= 0x8000_0000 {
            Some(-(n as int))
        } else {
            None
        }),
{
    crate::numbers::law_decimal_reads_back(n);
    crate::numbers::law_signs(n, Seq::empty());
    assert(seq!['-'] + Seq::<char>::empty() + decimal(n) =~= seq!['-'] + decimal(n));
}

/// A line ends in one line end, whether or not it had one.
pub proof fn law_line_ended(line: Seq<char>)
    ensures
        ended(line).len() > 0 && ended(line).last() == '\n',
        ended(ended(line)) == ended(line),
        (line.len() == 0 || line.last() != '\n') ==> ended(line) == line + seq!['\n'],
        line.len() > 0 && line.last() == '\n' ==> ended(line) == line,
{
    assert(line.push('\n') =~= line + seq!['\n']);
}

/// A server presents itself by its address without the port.
pub proof fn law_host(host: Seq<char>, port: Seq<char>)
    requires
        !host.contains(':'),
    ensures
        host_of(host + seq![':'] + port) == host,
        host_of(host) == host,
{
    law_cut(host, ':', port);
}

/// What a server's answer to an identification, a login or an authentication
/// comes to: success where it begins with the code of success, the challenge
/// where it begins with that of a challenge, and otherwise a complaint that
/// repeats the answer.
pub proof fn law_answers_judged(answer: Seq<char>, rest: Seq<char>, complaint: Seq<char>)
    ensures
        verdict("200"@ + rest, complaint) == Ok::<(), Seq<char>>(()),
        challenge_in("301:"@ + rest) == Ok::<Seq<char>, Seq<char>>(rest),
        answer.len() < 3 || answer.take(3) != "200"@ ==> verdict(answer, complaint) == Err::<
            (),
            Seq<char>,
        >(complaint + answer),
        answer.len() < 4 || answer.take(4) != "301:"@ ==> challenge_in(answer) == Err::<
            Seq<char>,
            Seq<char>,
        >("Failed to receive challenge from server: "@ + answer),
{
    reveal_strlit("200");
    reveal_strlit("301:");
    assert("200"@.len() == 3 && "301:"@.len() == 4);
    assert(("200"@ + rest).take(3) =~= "200"@);
    assert(("301:"@ + rest).take(4) =~= "301:"@);
    assert(("301:"@ + rest).skip(4) =~= rest);
}

/// Which key a client signs with: the one that is named, or else the user's own
/// where there is one, or else that of the administrator. Only the user's own
/// counts as such, and it is listed as tried only where another was taken.
pub proof fn law_key_chosen(
    path: Seq<char>,
    home: Seq<char>,
    has_personal: bool,
    personal: Seq<char>,
    resolved: Seq<char>,
    fallback: Seq<char>,
)
    ensures
        key_choice(Some(path), home, has_personal) == (path, false),
        key_choice(None, home, true) == (home + "/.ssh/id_ed25519"@, true),
        key_choice(None, home, false) == (home + "/.ssh/admin_id_ed25519"@, false),
        attempted(personal, true, resolved, fallback) == seq![resolved, fallback],
        attempted(personal, false, resolved, fallback) == seq![personal, resolved, fallback],
{
}

/// How many records there are is the third word of the line that says so; one
/// that is no number counts as nought, and a line of fewer words says nothing.
pub proof fn law_count_read(r: Reading, message: Seq<char>)
    ensures
        with_count(r, message).records == r.records && with_count(r, message).current == r.current,
        words(message).len() < 3 ==> with_count(r, message).count == r.count,
        words(message).len() >= 3 ==> with_count(r, message).count == (match small_integer_of(
            words(message)[2],
        ) {
            Some(n) => n,
            None => 0,
        }),
{
}

/// The places where a key was looked for are listed one to a line, in their
/// order.
pub proof fn law_paths_listed(paths: Seq<Seq<char>>, path: Seq<char>)
    ensures
        path_lines(seq![path]) == "  - "@ + path,
        paths.len() > 0 ==> path_lines(paths.push(path)) == path_lines(paths) + "\n  - "@ + path,
{
    assert(paths.push(path).drop_last() =~= paths);
}

} // verus!
