//! A client's session: who the client is, what it may do, and how its
//! commands are answered.

use vstd::prelude::*;

use crate::error::Failure;
use crate::error::StorageError;
use crate::error::outcome;
use crate::numbers::decimal;
use crate::numbers::decimal_text;
use crate::options::Options;
use crate::options::SessionOptions;
use crate::options::starting_options;
use crate::record::Entry;
use crate::record::Kind;
use crate::record::Record;
use crate::record::RecordType;
use crate::record::UpsertOutcome;
use crate::record::clone_text;
use crate::record::text_listed;
use crate::reply::answer_to_fields;
use crate::reply::answer_to_query;
use crate::reply::fields_reply;
use crate::reply::no_such_field;
use crate::reply::illegal_value;
use crate::reply::query_reply;
use crate::reply::schema;
use crate::reply::schema_names;
use crate::selection::Pick;
use crate::storage::Storage;
use crate::storage::found;
use crate::store::Pair;
use crate::text::chars_of;
use crate::text::lowercase;
use crate::text::same_text;
use crate::text::to_lowercase;

verus! {

/// What a client asks for.
#[derive(Debug)]
pub enum Command {
    Status,
    Id(String),
    Fields(Vec<String>),
    Login(String),
    Auth { public_key: String, signature: String },
    AuthCheck { public_key: String, signature: String, challenge: String },
    Quit,
    Add(Vec<(String, String)>),
    /// The second list names the fields to show.
    Query { selections: Vec<(Option<String>, String)>, shown: Vec<String> },
    Change {
        selections: Vec<(Option<String>, String)>,
        modifications: Vec<(String, String)>,
        force: bool,
    },
    Delete(Vec<(Option<String>, String)>),
    SetOptions(Vec<String>),
    /// A command of the protocol that is not implemented.
    Unimplemented,
}

/// Why a line is not a command.
#[derive(Debug, Clone, Copy, PartialEq, Eq, Structural)]
pub enum ProtocolError {
    UnknownCommand,
    SyntaxError,
    InvalidArgument,
}

/// The answer to a line that is not a command.
pub open spec fn protocol_error_line(e: ProtocolError) -> Seq<char> {
    match e {
        ProtocolError::UnknownCommand => "598:Command unknown\n"@,
        ProtocolError::SyntaxError => "599:Syntax error\n"@,
        ProtocolError::InvalidArgument => "512:Illegal value\n"@,
    }
}

/// Answers a line that is not a command.
pub fn answer_to_protocol_error(e: ProtocolError) -> (reply: String)
    ensures
        reply@ == protocol_error_line(e),
{
    match e {
        ProtocolError::UnknownCommand => "598:Command unknown\n".to_string(),
        ProtocolError::SyntaxError => "599:Syntax error\n".to_string(),
        ProtocolError::InvalidArgument => "512:Illegal value\n".to_string(),
    }
}

// ---------------------------------------------------------------------------
// Clients
// ---------------------------------------------------------------------------

/// A text begins with another.
pub open spec fn begins_with(s: Seq<char>, start: Seq<char>) -> bool {
    s.len() >= start.len() && s.take(start.len() as int) == start
}

/// A text holds another at a position.
pub open spec fn holds_at(s: Seq<char>, part: Seq<char>, i: int) -> bool {
    0 <= i && i + part.len() <= s.len() && s.subrange(i, i + part.len()) == part
}

/// A text holds another.
pub open spec fn holds(s: Seq<char>, part: Seq<char>) -> bool {
    exists|i: int| holds_at(s, part, i)
}

/// Whether a text holds another at a position.
fn found_at(s: &[char], part: &[char], i: usize) -> (b: bool)
    requires
        i <= s@.len(),
    ensures
        b == holds_at(s@, part@, i as int),
{
    let n: usize = s.len();
    if part.len() > n - i {
        return false;
    }
    let mut j: usize = 0;
    while j < part.len()
        invariant
            j <= part@.len(),
            n == s@.len(),
            i + part@.len() <= n,
            forall|k: int| 0 <= k < j ==> s@.subrange(i as int, i + part@.len())[k] == part@[k],
        decreases part.len() - j,
    {
        if s[i + j] != part[j] {
            proof {
                assert(s@.subrange(i as int, i + part@.len())[j as int] == s@[i + j]);
            }
            return false;
        }
        j = j + 1;
    }
    proof {
        assert(s@.subrange(i as int, i + part@.len()) =~= part@);
    }
    true
}

/// Whether a text begins with another.
pub fn starts_with_text(s: &str, start: &str) -> (b: bool)
    ensures
        b == begins_with(s@, start@),
{
    let cs = chars_of(s);
    let ps = chars_of(start);
    proof {
        if start@.len() <= s@.len() {
            assert(s@.subrange(0, 0int + start@.len()) =~= s@.take(start@.len() as int));
        }
    }
    found_at(cs.as_slice(), ps.as_slice(), 0)
}

/// Whether a text holds another.
pub fn contains_text(s: &str, part: &str) -> (b: bool)
    ensures
        b == holds(s@, part@),
{
    let cs = chars_of(s);
    let ps = chars_of(part);
    let mut i: usize = 0;
    loop
        invariant
            i <= cs@.len(),
            cs@ == s@,
            ps@ == part@,
            forall|j: int| 0 <= j < i ==> !#[trigger] holds_at(s@, part@, j),
        decreases cs@.len() - i,
    {
        if found_at(cs.as_slice(), ps.as_slice(), i) {
            return true;
        }
        if i == cs.len() {
            return false;
        }
        i = i + 1;
    }
}

/// The kind of client that an identification stands for.
pub open spec fn source_of(id: Seq<char>) -> Option<Seq<char>> {
    if id == "mdb"@ {
        Some("mdb"@)
    } else if id == "ph"@ {
        Some("ph"@)
    } else if id == "pharos-scan"@ {
        Some("pharos-scan"@)
    } else if begins_with(id, "pulse-"@) {
        Some("pharos-pulse"@)
    } else if begins_with(id, "web-"@) || id == "pharos-console-web"@ {
        Some("web-console"@)
    } else {
        None
    }
}

/// The kind of client that an identification stands for: `mdb`, `ph`,
/// `pharos-scan`, `pharos-pulse` or `web-console`.
pub fn normalize_source(client_id: &str) -> (r: Option<&'static str>)
    ensures
        r.deep_view() == source_of(client_id@),
{
    if same_text(client_id, "mdb") {
        Some("mdb")
    } else if same_text(client_id, "ph") {
        Some("ph")
    } else if same_text(client_id, "pharos-scan") {
        Some("pharos-scan")
    } else if starts_with_text(client_id, "pulse-") {
        Some("pharos-pulse")
    } else if starts_with_text(client_id, "web-") || same_text(client_id, "pharos-console-web") {
        Some("web-console")
    } else {
        None
    }
}

/// Whether a command that came with the prefix for replicated commands is one:
/// only a peer server's word is taken for it.
pub open spec fn trusted_sync(forwarded: bool, roles: Seq<Seq<char>>) -> bool {
    forwarded && roles.contains("peer"@)
}

/// Whether a replicated command comes from a peer server. From any other
/// client the prefix has no effect.
pub fn is_trusted_sync_peer(is_forwarded: bool, roles: &[String]) -> (b: bool)
    ensures
        b == trusted_sync(is_forwarded, roles.deep_view()),
{
    is_forwarded && text_listed(roles, "peer")
}

// ---------------------------------------------------------------------------
// Limits
// ---------------------------------------------------------------------------

/// The session's limit rules out acting on so many records.
pub open spec fn over_limit(n: nat, o: Options) -> bool {
    o.limit is Some && n > o.limit->0
}

/// A modification would replace a value that one of the records has.
pub open spec fn overrides(matched: Seq<Entry>, mods: Seq<Pair>) -> bool {
    exists|i: int, j: int|
        0 <= i < matched.len() && 0 <= j < mods.len() && (
        #[trigger] matched[i]).fields.contains_key((#[trigger] mods[j]).0)
}

/// Why the session's options rule out a change.
pub open spec fn change_refusal(matched: Seq<Entry>, mods: Seq<Pair>, o: Options) -> Option<
    Failure,
> {
    if over_limit(matched.len(), o) {
        Some(Failure::TooManyEntries(matched.len()))
    } else if o.addonly && overrides(matched, mods) {
        Some(Failure::AddOnlyViolation)
    } else {
        None
    }
}

/// Why the session's options rule out a deletion.
pub open spec fn delete_refusal(matched: Seq<Entry>, o: Options) -> Option<Failure> {
    if over_limit(matched.len(), o) {
        Some(Failure::TooManyEntries(matched.len()))
    } else {
        None
    }
}

fn any_override(matched: &[Record], mods: &[(String, String)]) -> (b: bool)
    ensures
        b == overrides(matched.deep_view(), mods.deep_view()),
{
    let ghost entries = matched.deep_view();
    let ghost pairs = mods.deep_view();
    let mut i: usize = 0;
    while i < matched.len()
        invariant
            i <= matched@.len(),
            entries == matched.deep_view(),
            pairs == mods.deep_view(),
            forall|x: int, y: int|
                0 <= x < i && 0 <= y < pairs.len() ==> !(
                #[trigger] entries[x]).fields.contains_key((#[trigger] pairs[y]).0),
        decreases matched.len() - i,
    {
        let mut j: usize = 0;
        proof {
            assert(entries[i as int] == matched@[i as int]@);
        }
        while j < mods.len()
            invariant
                i < matched@.len(),
                j <= mods@.len(),
                entries == matched.deep_view(),
                pairs == mods.deep_view(),
                entries[i as int] == matched@[i as int]@,
                forall|y: int|
                    0 <= y < j ==> !entries[i as int].fields.contains_key((#[trigger] pairs[y]).0),
            decreases mods.len() - j,
        {
            proof {
                assert(pairs[j as int] == mods@[j as int].deep_view());
            }
            if matched[i].fields.contains_key(mods[j].0.as_str()) {
                proof {
                    assert(entries[i as int].fields.contains_key(pairs[j as int].0));
                }
                return true;
            }
            j = j + 1;
        }
        i = i + 1;
    }
    false
}

/// Checks a change against the session's options.
pub fn check_change_limits(
    matched: &[Record],
    modifications: &[(String, String)],
    options: &SessionOptions,
) -> (r: Result<(), StorageError>)
    ensures
        match r {
            Ok(()) => change_refusal(matched.deep_view(), modifications.deep_view(), options@)
                is None,
            Err(e) => change_refusal(matched.deep_view(), modifications.deep_view(), options@)
                == Some(e@),
        },
{
    if let Some(limit) = options.limit {
        if matched.len() > limit {
            return Err(StorageError::TooManyEntries(matched.len()));
        }
    }
    if options.addonly && any_override(matched, modifications) {
        return Err(StorageError::AddOnlyViolation);
    }
    Ok(())
}

/// Checks a deletion against the session's options.
pub fn check_delete_limit(matched: &[Record], options: &SessionOptions) -> (r: Result<
    (),
    StorageError,
>)
    ensures
        match r {
            Ok(()) => delete_refusal(matched.deep_view(), options@) is None,
            Err(e) => delete_refusal(matched.deep_view(), options@) == Some(e@),
        },
{
    if let Some(limit) = options.limit {
        if matched.len() > limit {
            return Err(StorageError::TooManyEntries(matched.len()));
        }
    }
    Ok(())
}

// ---------------------------------------------------------------------------
// Reactions
// ---------------------------------------------------------------------------

/// What a command did to records, for the counters.
#[derive(Debug, Clone, Copy, PartialEq, Eq, Structural)]
pub enum Action {
    Added,
    Updated,
    Deleted,
}

/// What to tell others about.
#[derive(Debug)]
pub enum Notice {
    Added(Vec<(String, String)>),
    Changed(usize),
    Deleted(usize),
}

/// A `Notice` as a value of the specification.
pub enum News {
    Added(Seq<Pair>),
    Changed(nat),
    Deleted(nat),
}

impl DeepView for Notice {
    type V = News;

    open spec fn deep_view(&self) -> News {
        match self {
            Notice::Added(fields) => News::Added(fields.deep_view()),
            Notice::Changed(n) => News::Changed(*n as nat),
            Notice::Deleted(n) => News::Deleted(*n as nat),
        }
    }
}

/// What is to be done about a command: the reply to send, and what the command
/// is counted and reported as.
#[derive(Debug)]
pub struct Reaction {
    /// What goes to the client.
    pub reply: String,
    /// The session ends.
    pub close: bool,
    /// A line for those who watch the server.
    pub event: Option<String>,
    /// What the command did, for which kind of client, to how many records.
    pub tally: Option<(Action, String, usize)>,
    /// What to notify others of.
    pub notice: Option<Notice>,
    /// The command goes on to the peer servers.
    pub replicate: bool,
    /// The command was cut short: the middleware is not told that it is done.
    pub cut_short: bool,
}

/// A `Reaction` as a value of the specification.
pub struct Effect {
    pub reply: Seq<char>,
    pub close: bool,
    pub event: Option<Seq<char>>,
    pub tally: Option<(Action, Seq<char>, nat)>,
    pub notice: Option<News>,
    pub replicate: bool,
    pub cut_short: bool,
}

impl View for Reaction {
    type V = Effect;

    open spec fn view(&self) -> Effect {
        Effect {
            reply: self.reply@,
            close: self.close,
            event: self.event.deep_view(),
            tally: match self.tally {
                Some((action, source, n)) => Some((action, source@, n as nat)),
                None => None,
            },
            notice: self.notice.deep_view(),
            replicate: self.replicate,
            cut_short: self.cut_short,
        }
    }
}

/// A reply and nothing else.
pub open spec fn only_reply(reply: Seq<char>) -> Effect {
    Effect {
        reply,
        close: false,
        event: None,
        tally: None,
        notice: None,
        replicate: false,
        cut_short: false,
    }
}

fn reply_only(reply: String) -> (r: Reaction)
    ensures
        r@ == only_reply(reply@),
{
    Reaction {
        reply,
        close: false,
        event: None,
        tally: None,
        notice: None,
        replicate: false,
        cut_short: false,
    }
}

// ---------------------------------------------------------------------------
// Sessions
// ---------------------------------------------------------------------------

/// What is known of a client.
#[derive(Debug)]
pub struct Session {
    pub id: Option<String>,
    pub authenticated: bool,
    pub peer_addr: String,
    pub roles: Vec<String>,
    pub teams: Vec<String>,
    pub login_alias: Option<String>,
    pub fingerprint: Option<String>,
    pub options: SessionOptions,
    /// The server sends what its clients write to its peers.
    pub replicating: bool,
}

/// A `Session` as a value of the specification.
pub struct Context {
    pub id: Option<Seq<char>>,
    pub authenticated: bool,
    pub peer_addr: Seq<char>,
    pub roles: Seq<Seq<char>>,
    pub teams: Seq<Seq<char>>,
    pub login_alias: Option<Seq<char>>,
    pub fingerprint: Option<Seq<char>>,
    pub options: Options,
    pub replicating: bool,
}

impl View for Session {
    type V = Context;

    open spec fn view(&self) -> Context {
        Context {
            id: self.id.deep_view(),
            authenticated: self.authenticated,
            peer_addr: self.peer_addr@,
            roles: self.roles.deep_view(),
            teams: self.teams.deep_view(),
            login_alias: self.login_alias.deep_view(),
            fingerprint: self.fingerprint.deep_view(),
            options: self.options@,
            replicating: self.replicating,
        }
    }
}

/// A session that has just begun.
pub open spec fn new_context(peer_addr: Seq<char>, replicating: bool) -> Context {
    Context {
        id: None,
        authenticated: false,
        peer_addr,
        roles: Seq::empty(),
        teams: Seq::empty(),
        login_alias: None,
        fingerprint: None,
        options: starting_options(),
        replicating,
    }
}

/// The kind of records that a client's queries are about, by its
/// identification.
pub open spec fn default_kind(id: Option<Seq<char>>) -> Option<Kind> {
    match id {
        Some(id) => if holds(id, "ph"@) {
            Some(Kind::Person)
        } else if holds(id, "mdb"@) {
            Some(Kind::Machine)
        } else {
            None
        },
        None => None,
    }
}

/// The source of what a client writes, where it is known.
pub open spec fn client_source(id: Option<Seq<char>>) -> Option<Seq<char>> {
    match id {
        Some(id) => source_of(id),
        None => None,
    }
}

/// The label under which a client's writes are counted.
pub open spec fn source_label(id: Option<Seq<char>>) -> Seq<char> {
    client_source(id).unwrap_or("unknown"@)
}

/// The fields that are written for a client: those that it gave, but for any
/// `source`, and the source that it is.
pub open spec fn augmented(fs: Seq<Pair>, id: Option<Seq<char>>) -> Seq<Pair> {
    let given = fs.filter(|p: Pair| p.0 != "source"@);
    match client_source(id) {
        Some(source) => given.push(("source"@, source)),
        None => given,
    }
}

/// The team for which a client writes.
pub open spec fn first_team(teams: Seq<Seq<char>>) -> Option<Seq<char>> {
    if teams.len() == 0 {
        None
    } else {
        Some(teams[0])
    }
}

/// What an addition leads to.
pub open spec fn add_effect(
    c: Context,
    fs: Seq<Pair>,
    forwarded: bool,
    r: Result<UpsertOutcome, Failure>,
) -> Effect {
    let trusted = trusted_sync(forwarded, c.roles);
    match r {
        Ok(done) => Effect {
            reply: "200:Ok\n"@,
            close: false,
            event: Some("["@ + c.peer_addr + "] Added/Updated record"@),
            tally: Some(
                (
                    match done {
                        UpsertOutcome::Created => Action::Added,
                        UpsertOutcome::Updated => Action::Updated,
                    },
                    source_label(c.id),
                    1,
                ),
            ),
            notice: if trusted {
                None
            } else {
                Some(News::Added(fs))
            },
            replicate: !trusted && c.replicating,
            cut_short: false,
        },
        Err(Failure::InvalidArgument(message)) => only_reply(illegal_value(message)),
        Err(Failure::Collision) => only_reply("511:Not authorized to add entries\n"@),
        Err(Failure::Unauthorized) => only_reply("511:Not authorized to add entries\n"@),
        Err(Failure::ReadOnly) => only_reply(
            "517:Operation failed because database is read-only\n"@,
        ),
        Err(_) => only_reply("500:Internal storage error\n"@),
    }
}

/// What a query leads to.
pub open spec fn query_effect(
    c: Context,
    requested: Seq<Seq<char>>,
    r: Result<Seq<Entry>, Failure>,
) -> Effect {
    Effect {
        event: match r {
            Ok(records) => Some(
                "["@ + c.peer_addr + "] Queried records, matches: "@ + decimal(records.len()),
            ),
            Err(_) => None,
        },
        cut_short: r is Err,
        ..only_reply(query_reply(r, requested))
    }
}

/// What a change leads to.
pub open spec fn change_effect(c: Context, forwarded: bool, r: Result<usize, Failure>) -> Effect {
    let trusted = trusted_sync(forwarded, c.roles);
    match r {
        Ok(n) => if n == 0 {
            only_reply("501:No matches to change\n"@)
        } else {
            Effect {
                notice: if trusted {
                    None
                } else {
                    Some(News::Changed(n as nat))
                },
                replicate: !trusted && c.replicating,
                ..only_reply(
                    "200:"@ + decimal(n as nat) + (if n == 1 {
                        " entry changed.\n"@
                    } else {
                        " entries changed.\n"@
                    }),
                )
            }
        },
        Err(Failure::InvalidArgument(message)) => only_reply(illegal_value(message)),
        Err(Failure::TooManyEntries(n)) => only_reply(
            "518:Too many entries selected by change command ("@ + decimal(n) + " matched)\n"@,
        ),
        Err(Failure::AddOnlyViolation) => only_reply(
            "521:Change command would have overridden existing field, and addonly option is on\n"@,
        ),
        Err(Failure::Unauthorized) => only_reply("510:Not authorized to change this entry\n"@),
        Err(Failure::ReadOnly) => only_reply(
            "517:Operation failed because database is read-only\n"@,
        ),
        Err(_) => only_reply("500:Internal storage error\n"@),
    }
}

/// What a deletion leads to.
pub open spec fn delete_effect(c: Context, forwarded: bool, r: Result<usize, Failure>) -> Effect {
    let trusted = trusted_sync(forwarded, c.roles);
    match r {
        Ok(n) => if n == 0 {
            only_reply("501:No matches to delete\n"@)
        } else {
            Effect {
                tally: Some((Action::Deleted, source_label(c.id), n as nat)),
                notice: if trusted {
                    None
                } else {
                    Some(News::Deleted(n as nat))
                },
                replicate: !trusted && c.replicating,
                ..only_reply("200:Ok\n"@)
            }
        },
        Err(Failure::TooManyEntries(n)) => only_reply(
            "518:Too many entries selected by delete command ("@ + decimal(n) + " matched)\n"@,
        ),
        Err(Failure::Unauthorized) => only_reply("516:No authorization for request\n"@),
        Err(Failure::ReadOnly) => only_reply(
            "517:Operation failed because database is read-only\n"@,
        ),
        Err(_) => only_reply("500:Internal storage error\n"@),
    }
}

/// How the session's options may judge a change, given what the directory may
/// answer about the records that it would touch. Without a limit and with
/// replacement allowed, the directory is not asked.
pub open spec fn may_refuse_change<S: Storage>(
    s: &S,
    o: Options,
    picks: Seq<Pick>,
    mods: Seq<Pair>,
    refusal: Option<Failure>,
) -> bool {
    if o.limit is None && !o.addonly {
        refusal is None
    } else {
        exists|q: Result<Seq<Entry>, Failure>| #[trigger]
            s.may_answer(picks, None, q) && refusal == match q {
                Ok(matched) => change_refusal(matched, mods, o),
                Err(e) => Some(e),
            }
    }
}

/// How the session's options may judge a deletion, given what the directory
/// may answer about the records that it would touch. Without a limit, the
/// directory is not asked.
pub open spec fn may_refuse_delete<S: Storage>(
    s: &S,
    o: Options,
    picks: Seq<Pick>,
    refusal: Option<Failure>,
) -> bool {
    if o.limit is None {
        refusal is None
    } else {
        exists|q: Result<Seq<Entry>, Failure>| #[trigger]
            s.may_answer(picks, None, q) && refusal == match q {
                Ok(matched) => delete_refusal(matched, o),
                Err(e) => Some(e),
            }
    }
}

/// How a request for the fields of a directory may be answered.
pub open spec fn may_describe<S: Storage>(s: &S, requested: Seq<Seq<char>>, e: Effect) -> bool {
    exists|q: Result<Seq<Entry>, Failure>| #[trigger]
        s.may_answer(Seq::empty(), None, q) && e == (Effect {
            cut_short: no_such_field(schema(q), requested),
            ..only_reply(fields_reply(schema(q), requested))
        })
}

/// How a query may be answered.
pub open spec fn may_find<S: Storage>(
    s: &S,
    c: Context,
    picks: Seq<Pick>,
    requested: Seq<Seq<char>>,
    e: Effect,
) -> bool {
    exists|q: Result<Seq<Entry>, Failure>| #[trigger]
        s.may_answer(picks, default_kind(c.id), q) && e == query_effect(c, requested, q)
}

/// How an addition may be answered, and what may become of the directory.
pub open spec fn may_put<S: Storage>(
    s: &S,
    after: &S,
    c: Context,
    fs: Seq<Pair>,
    forwarded: bool,
    e: Effect,
) -> bool {
    exists|u: Result<UpsertOutcome, Failure>| #[trigger]
        s.may_upsert(after, augmented(fs, c.id), c.fingerprint, first_team(c.teams), u) && e
            == add_effect(c, augmented(fs, c.id), forwarded, u)
}

/// How a change may be answered, and what may become of the directory. A change
/// that the session's options rule out does not reach it.
pub open spec fn may_alter<S: Storage>(
    s: &S,
    after: &S,
    c: Context,
    picks: Seq<Pick>,
    mods: Seq<Pair>,
    forwarded: bool,
    e: Effect,
) -> bool {
    exists|refusal: Option<Failure>, n: Result<usize, Failure>|
        #![trigger change_effect(c, forwarded, n), may_refuse_change(s, c.options, picks, mods, refusal)]
        {
            &&& may_refuse_change(s, c.options, picks, mods, refusal)
            &&& match refusal {
                Some(f) => n == Err::<usize, Failure>(f) && *after == *s,
                None => s.may_change(after, picks, mods, c.fingerprint, c.teams, n),
            }
            &&& e == change_effect(c, forwarded, n)
        }
}

/// How a deletion may be answered, and what may become of the directory. A
/// deletion that the session's options rule out does not reach it.
pub open spec fn may_drop<S: Storage>(
    s: &S,
    after: &S,
    c: Context,
    picks: Seq<Pick>,
    forwarded: bool,
    e: Effect,
) -> bool {
    exists|refusal: Option<Failure>, n: Result<usize, Failure>|
        #![trigger delete_effect(c, forwarded, n), may_refuse_delete(s, c.options, picks, refusal)]
        {
            &&& may_refuse_delete(s, c.options, picks, refusal)
            &&& match refusal {
                Some(f) => n == Err::<usize, Failure>(f) && *after == *s,
                None => s.may_delete(after, picks, c.fingerprint, c.teams, c.roles, n),
            }
            &&& e == delete_effect(c, forwarded, n)
        }
}

/// What an attempt to authenticate came to.
#[derive(Debug)]
pub enum AuthFinding {
    /// There is no challenge to answer: it expired, or none was asked for.
    NoChallenge,
    /// The signature is not that of a known key on the challenge.
    Rejected,
    /// The key is known, and these are its fingerprint, roles and teams.
    Accepted { fingerprint: String, roles: Vec<String>, teams: Vec<String> },
}

/// What an attempt to authenticate comes to, and whether the challenge is used
/// up: given who logs in, the challenge that is waiting, and the fingerprint,
/// roles and teams of the key whose signature it is. Without a challenge, or a
/// login, there is nothing to answer; a challenge is used up only by a
/// signature that holds.
pub fn settle_auth(
    alias: &Option<String>,
    challenge: &Option<String>,
    verified: Option<(String, Vec<String>, Vec<String>)>,
) -> (r: (AuthFinding, bool))
    ensures
        alias is None || challenge is None ==> r.0 is NoChallenge,
        alias is Some && challenge is Some && verified is None ==> r.0 is Rejected,
        alias is Some && challenge is Some ==> (verified matches Some(v) ==> (r.0
            == AuthFinding::Accepted { fingerprint: v.0, roles: v.1, teams: v.2 })),
        r.1 == (alias is Some && challenge is Some && verified is Some),
{
    if alias.is_none() || challenge.is_none() {
        return (AuthFinding::NoChallenge, false);
    }
    match verified {
        Some((fingerprint, roles, teams)) => (
            AuthFinding::Accepted { fingerprint, roles, teams },
            true,
        ),
        None => (AuthFinding::Rejected, false),
    }
}

/// The session and the reply after an attempt to authenticate.
pub open spec fn auth_outcome(c: Context, finding: AuthFinding) -> (Context, Seq<char>) {
    match finding {
        AuthFinding::NoChallenge => (
            c,
            "506:Request refused; must be logged in to execute (Challenge expired or not found)\n"@,
        ),
        AuthFinding::Rejected => (c, "516:No authorization for request\n"@),
        AuthFinding::Accepted { fingerprint, roles, teams } => (
            Context {
                authenticated: true,
                fingerprint: Some(fingerprint@),
                roles: roles.deep_view(),
                teams: teams.deep_view(),
                ..c
            },
            "200:Ok\n"@,
        ),
    }
}

/// A copy of a list of named values without those of one name.
fn without_name(fields: &[(String, String)], name: &str) -> (r: Vec<(String, String)>)
    ensures
        r.deep_view() == fields.deep_view().filter(|p: Pair| p.0 != name@),
{
    let ghost all = fields.deep_view();
    let ghost keep = |p: Pair| p.0 != name@;
    let mut r: Vec<(String, String)> = Vec::new();
    let mut i: usize = 0;
    proof {
        reveal(Seq::filter);
        assert(r.deep_view() =~= all.take(0).filter(keep));
    }
    while i < fields.len()
        invariant
            i <= fields@.len(),
            all == fields.deep_view(),
            keep == (|p: Pair| p.0 != name@),
            r.deep_view() == all.take(i as int).filter(keep),
        decreases fields.len() - i,
    {
        proof {
            reveal(Seq::filter);
            assert(all.take(i + 1).drop_last() =~= all.take(i as int));
            assert(all.take(i + 1).last() == fields@[i as int].deep_view());
        }
        if !same_text(fields[i].0.as_str(), name) {
            let ghost before = r.deep_view();
            r.push((fields[i].0.clone(), fields[i].1.clone()));
            proof {
                assert(r.deep_view() =~= before.push(all[i as int]));
            }
        }
        i = i + 1;
    }
    proof {
        assert(all.take(i as int) =~= all);
    }
    r
}

/// A copy of a list of named values.
pub fn copy_pairs(fields: &[(String, String)]) -> (r: Vec<(String, String)>)
    ensures
        r.deep_view() == fields.deep_view(),
{
    let mut r: Vec<(String, String)> = Vec::new();
    let mut i: usize = 0;
    while i < fields.len()
        invariant
            i <= fields@.len(),
            r.deep_view() == fields.deep_view().take(i as int),
        decreases fields.len() - i,
    {
        let ghost before = r.deep_view();
        r.push((fields[i].0.clone(), fields[i].1.clone()));
        proof {
            assert(r.deep_view() =~= before.push(fields.deep_view()[i as int]));
            assert(fields.deep_view().take(i + 1) =~= before.push(fields.deep_view()[i as int]));
        }
        i = i + 1;
    }
    proof {
        assert(fields.deep_view().take(i as int) =~= fields.deep_view());
    }
    r
}

fn joined(a: &str, b: &str, c: &str) -> (s: String)
    ensures
        s@ == a@ + b@ + c@,
{
    let mut s = a.to_string();
    s.append(b);
    s.append(c);
    s
}

impl Session {
    /// A session with a client that has just connected.
    pub fn new(peer_addr: &str, replicating: bool) -> (s: Self)
        ensures
            s@ == new_context(peer_addr@, replicating),
    {
        let s = Session {
            id: None,
            authenticated: false,
            peer_addr: peer_addr.to_string(),
            roles: Vec::new(),
            teams: Vec::new(),
            login_alias: None,
            fingerprint: None,
            options: SessionOptions::default(),
            replicating,
        };
        proof {
            assert(s.roles.deep_view() =~= Seq::empty());
            assert(s.teams.deep_view() =~= Seq::empty());
        }
        s
    }

    /// What a client is told when it connects, and what those who watch the
    /// server are.
    pub fn greet(&self) -> (r: Reaction)
        ensures
            r@ == (Effect {
                event: Some("Connection established from "@ + self@.peer_addr),
                ..only_reply("200:Database ready\n"@)
            }),
    {
        let mut event = "Connection established from ".to_string();
        event.append(self.peer_addr.as_str());
        let mut r = reply_only("200:Database ready\n".to_string());
        r.event = Some(event);
        r
    }

    /// Answers a request for the server's state.
    pub fn answer_status(&self) -> (r: Reaction)
        ensures
            r@ == only_reply("100:Pharos server active\n200:Ok\n"@),
    {
        reply_only("100:Pharos server active\n200:Ok\n".to_string())
    }

    /// Takes note of who the client says it is.
    pub fn answer_id(&mut self, id: &str) -> (r: Reaction)
        ensures
            final(self)@ == (Context { id: Some(lowercase(id@)), ..old(self)@ }),
            r@ == only_reply("200:Ok\n"@),
    {
        self.id = Some(to_lowercase(id));
        reply_only("200:Ok\n".to_string())
    }

    /// Describes the fields of the directory.
    pub fn answer_fields<S: Storage>(&self, storage: &S, requested: &[String]) -> (r: Reaction)
        ensures
            may_describe(storage, requested.deep_view(), r@),
    {
        let everything: Vec<(Option<String>, String)> = Vec::new();
        proof {
            assert(everything.deep_view() =~= Seq::empty());
        }
        let all = storage.query(everything.as_slice(), None);
        let names = schema_names(&all);
        let (reply, cut_short) = answer_to_fields(names.as_slice(), requested);
        proof {
            assert(storage.may_answer(Seq::empty(), None, found(all)));
        }
        let mut r = reply_only(reply);
        r.cut_short = cut_short;
        r
    }

    /// Sends a client the challenge that it must sign to log in.
    pub fn answer_login(&mut self, alias: &str, challenge: &str) -> (r: Reaction)
        ensures
            final(self)@ == (Context { login_alias: Some(alias@), ..old(self)@ }),
            r@ == only_reply("301:"@ + challenge@ + "\n"@),
    {
        self.login_alias = Some(alias.to_string());
        reply_only(joined("301:", challenge, "\n"))
    }

    /// Takes note of what an attempt to authenticate came to.
    pub fn answer_auth(&mut self, finding: AuthFinding) -> (r: Reaction)
        ensures
            final(self)@ == auth_outcome(old(self)@, finding).0,
            r@ == only_reply(auth_outcome(old(self)@, finding).1),
    {
        match finding {
            AuthFinding::NoChallenge => reply_only(
                "506:Request refused; must be logged in to execute (Challenge expired or not found)\n".to_string(),
            ),
            AuthFinding::Rejected => reply_only("516:No authorization for request\n".to_string()),
            AuthFinding::Accepted { fingerprint, roles, teams } => {
                self.authenticated = true;
                self.roles = roles;
                self.teams = teams;
                self.fingerprint = Some(fingerprint);
                reply_only("200:Ok\n".to_string())
            },
        }
    }

    /// Answers a request to check a signature.
    pub fn answer_auth_check(&self, verified: bool) -> (r: Reaction)
        ensures
            r@ == only_reply(
                if verified {
                    "200:Ok\n"@
                } else {
                    "516:No authorization for request\n"@
                },
            ),
    {
        if verified {
            reply_only("200:Ok\n".to_string())
        } else {
            reply_only("516:No authorization for request\n".to_string())
        }
    }

    /// Says good-bye.
    pub fn answer_quit(&self) -> (r: Reaction)
        ensures
            r@ == (Effect { close: true, ..only_reply("200:Bye!\n"@) }),
    {
        let mut r = reply_only("200:Bye!\n".to_string());
        r.close = true;
        r
    }

    /// Answers a command of the protocol that is not implemented.
    pub fn answer_unimplemented(&self) -> (r: Reaction)
        ensures
            r@ == only_reply("597:Command recognized, but not yet implemented\n"@),
    {
        reply_only("597:Command recognized, but not yet implemented\n".to_string())
    }

    /// Sets the session's options, or lists them.
    pub fn answer_set(&mut self, tokens: &[String]) -> (r: Reaction)
        ensures
            final(self)@ == (Context {
                options: crate::options::set_outcome(old(self)@.options, tokens.deep_view()).0,
                ..old(self)@
            }),
            r@ == only_reply(
                crate::options::set_outcome(old(self)@.options, tokens.deep_view()).1,
            ),
    {
        let mut options = self.options.clone();
        let reply = options.answer_set(tokens);
        self.options = options;
        reply_only(reply)
    }

    /// The source of what this client writes, where it is known.
    fn source(&self) -> (r: Option<&'static str>)
        ensures
            r.deep_view() == client_source(self@.id),
    {
        match &self.id {
            Some(id) => normalize_source(id.as_str()),
            None => None,
        }
    }

    /// The label under which this client's writes are counted.
    fn label(&self) -> (s: String)
        ensures
            s@ == source_label(self@.id),
    {
        match self.source() {
            Some(s) => s.to_string(),
            None => "unknown".to_string(),
        }
    }

    /// The kind of records that this client's queries are about.
    pub fn default_type(&self) -> (r: Option<RecordType>)
        ensures
            r.deep_view() == default_kind(self@.id),
    {
        match &self.id {
            Some(id) => {
                if contains_text(id.as_str(), "ph") {
                    Some(RecordType::Person)
                } else if contains_text(id.as_str(), "mdb") {
                    Some(RecordType::Machine)
                } else {
                    None
                }
            },
            None => None,
        }
    }

    /// The fields that are written for this client.
    pub fn augment(&self, fields: &[(String, String)]) -> (r: Vec<(String, String)>)
        ensures
            r.deep_view() == augmented(fields.deep_view(), self@.id),
    {
        let mut r = without_name(fields, "source");
        let ghost given = r.deep_view();
        if let Some(source) = self.source() {
            r.push(("source".to_string(), source.to_string()));
            proof {
                assert(r.deep_view() =~= given.push(("source"@, source@)));
            }
        }
        r
    }

    /// Reports what an addition came to.
    pub fn report_add(
        &self,
        fields: Vec<(String, String)>,
        forwarded: bool,
        result: Result<UpsertOutcome, StorageError>,
    ) -> (r: Reaction)
        ensures
            r@ == add_effect(self@, fields.deep_view(), forwarded, outcome(result)),
    {
        match result {
            Ok(done) => {
                let trusted = is_trusted_sync_peer(forwarded, self.roles.as_slice());
                let action = match done {
                    UpsertOutcome::Created => Action::Added,
                    UpsertOutcome::Updated => Action::Updated,
                };
                let notice = if trusted {
                    None
                } else {
                    Some(Notice::Added(fields))
                };
                Reaction {
                    reply: "200:Ok\n".to_string(),
                    close: false,
                    event: Some(joined("[", self.peer_addr.as_str(), "] Added/Updated record")),
                    tally: Some((action, self.label(), 1)),
                    notice,
                    replicate: !trusted && self.replicating,
                    cut_short: false,
                }
            },
            Err(StorageError::InvalidArgument(message)) => reply_only(
                joined("512:Illegal value: ", message.as_str(), "\n"),
            ),
            Err(StorageError::Collision) => reply_only(
                "511:Not authorized to add entries\n".to_string(),
            ),
            Err(StorageError::Unauthorized) => reply_only(
                "511:Not authorized to add entries\n".to_string(),
            ),
            Err(StorageError::ReadOnly) => reply_only(
                "517:Operation failed because database is read-only\n".to_string(),
            ),
            Err(_) => reply_only("500:Internal storage error\n".to_string()),
        }
    }

    /// Adds a record, or updates the one that goes by the given name.
    pub fn answer_add<S: Storage>(
        &self,
        storage: &mut S,
        fields: &[(String, String)],
        forwarded: bool,
    ) -> (r: Reaction)
        requires
            old(storage).has_room(),
        ensures
            may_put(old(storage), final(storage), self@, fields.deep_view(), forwarded, r@),
    {
        let written = self.augment(fields);
        let told = copy_pairs(written.as_slice());
        let team = if self.teams.len() == 0 {
            None
        } else {
            Some(self.teams[0].clone())
        };
        proof {
            assert(team.deep_view() == first_team(self@.teams));
        }
        let ghost start = *storage;
        let result = storage.upsert_record(written, clone_text(&self.fingerprint), team);
        proof {
            assert(start.may_upsert(
                storage,
                augmented(fields.deep_view(), self@.id),
                self@.fingerprint,
                first_team(self@.teams),
                outcome(result),
            ));
        }
        self.report_add(told, forwarded, result)
    }

    /// Reports what a query came to.
    pub fn report_query(
        &self,
        requested: &[String],
        result: &Result<Vec<Record>, StorageError>,
    ) -> (r: Reaction)
        ensures
            r@ == query_effect(self@, requested.deep_view(), found(*result)),
    {
        let mut r = reply_only(answer_to_query(result, requested));
        if let Ok(records) = result {
            let mut event = joined("[", self.peer_addr.as_str(), "] Queried records, matches: ");
            event.append(decimal_text(records.len()).as_str());
            r.event = Some(event);
        } else {
            r.cut_short = true;
        }
        r
    }

    /// Answers a query.
    pub fn answer_query<S: Storage>(
        &self,
        storage: &S,
        selections: &[(Option<String>, String)],
        requested: &[String],
    ) -> (r: Reaction)
        ensures
            may_find(storage, self@, selections.deep_view(), requested.deep_view(), r@),
    {
        let result = storage.query(selections, self.default_type());
        proof {
            assert(storage.may_answer(
                selections.deep_view(),
                default_kind(self@.id),
                found(result),
            ));
        }
        self.report_query(requested, &result)
    }

    /// Reports what a change came to.
    pub fn report_change(&self, forwarded: bool, result: Result<usize, StorageError>) -> (r:
        Reaction)
        ensures
            r@ == change_effect(self@, forwarded, outcome(result)),
    {
        match result {
            Ok(n) => {
                if n == 0 {
                    return reply_only("501:No matches to change\n".to_string());
                }
                let trusted = is_trusted_sync_peer(forwarded, self.roles.as_slice());
                let tail = if n == 1 {
                    " entry changed.\n"
                } else {
                    " entries changed.\n"
                };
                let mut r = reply_only(joined("200:", decimal_text(n).as_str(), tail));
                if !trusted {
                    r.notice = Some(Notice::Changed(n));
                }
                r.replicate = !trusted && self.replicating;
                r
            },
            Err(StorageError::InvalidArgument(message)) => reply_only(
                joined("512:Illegal value: ", message.as_str(), "\n"),
            ),
            Err(StorageError::TooManyEntries(n)) => reply_only(
                joined(
                    "518:Too many entries selected by change command (",
                    decimal_text(n).as_str(),
                    " matched)\n",
                ),
            ),
            Err(StorageError::AddOnlyViolation) => reply_only(
                "521:Change command would have overridden existing field, and addonly option is on\n".to_string(),
            ),
            Err(StorageError::Unauthorized) => reply_only(
                "510:Not authorized to change this entry\n".to_string(),
            ),
            Err(StorageError::ReadOnly) => reply_only(
                "517:Operation failed because database is read-only\n".to_string(),
            ),
            Err(_) => reply_only("500:Internal storage error\n".to_string()),
        }
    }

    /// The records of a change are looked at before it is made.
    pub fn looks_before_change(&self) -> (b: bool)
        ensures
            b == (self@.options.limit is Some || self@.options.addonly),
    {
        self.options.limit.is_some() || self.options.addonly
    }

    /// Sets fields of records, within the limits of the session's options. A
    /// change that they rule out does not reach the directory.
    pub fn answer_change<S: Storage>(
        &self,
        storage: &mut S,
        selections: &[(Option<String>, String)],
        modifications: &[(String, String)],
        forwarded: bool,
    ) -> (r: Reaction)
        ensures
            may_alter(
                old(storage),
                final(storage),
                self@,
                selections.deep_view(),
                modifications.deep_view(),
                forwarded,
                r@,
            ),
    {
        let ghost start = *storage;
        let ghost picks = selections.deep_view();
        let ghost mods = modifications.deep_view();
        if self.looks_before_change() {
            match storage.query(selections, None) {
                Err(e) => {
                    proof {
                        let q: Result<Seq<Entry>, Failure> = Err(e@);
                        assert(start.may_answer(picks, None, q));
                        assert(may_refuse_change(
                            &start,
                            self@.options,
                            picks,
                            mods,
                            Some(e@),
                        ));
                    }
                    return self.report_change(forwarded, Err(e));
                },
                Ok(matched) => {
                    let ghost q: Result<Seq<Entry>, Failure> = Ok(matched.deep_view());
                    proof {
                        assert(start.may_answer(picks, None, q));
                    }
                    match check_change_limits(matched.as_slice(), modifications, &self.options) {
                        Err(e) => {
                            proof {
                                assert(may_refuse_change(
                                    &start,
                                    self@.options,
                                    picks,
                                    mods,
                                    Some(e@),
                                ));
                            }
                            return self.report_change(forwarded, Err(e));
                        },
                        Ok(()) => {},
                    }
                },
            }
        }
        let result = storage.change_record(
            selections,
            modifications,
            clone_text(&self.fingerprint),
            self.teams.as_slice(),
        );
        proof {
            assert(may_refuse_change(&start, self@.options, picks, mods, None));
            let n = outcome(result);
            assert(start.may_change(storage, picks, mods, self@.fingerprint, self@.teams, n));
        }
        self.report_change(forwarded, result)
    }

    /// Reports what a deletion came to.
    pub fn report_delete(&self, forwarded: bool, result: Result<usize, StorageError>) -> (r:
        Reaction)
        ensures
            r@ == delete_effect(self@, forwarded, outcome(result)),
    {
        match result {
            Ok(n) => {
                if n == 0 {
                    return reply_only("501:No matches to delete\n".to_string());
                }
                let trusted = is_trusted_sync_peer(forwarded, self.roles.as_slice());
                let mut r = reply_only("200:Ok\n".to_string());
                r.tally = Some((Action::Deleted, self.label(), n));
                if !trusted {
                    r.notice = Some(Notice::Deleted(n));
                }
                r.replicate = !trusted && self.replicating;
                r
            },
            Err(StorageError::TooManyEntries(n)) => reply_only(
                joined(
                    "518:Too many entries selected by delete command (",
                    decimal_text(n).as_str(),
                    " matched)\n",
                ),
            ),
            Err(StorageError::Unauthorized) => reply_only(
                "516:No authorization for request\n".to_string(),
            ),
            Err(StorageError::ReadOnly) => reply_only(
                "517:Operation failed because database is read-only\n".to_string(),
            ),
            Err(_) => reply_only("500:Internal storage error\n".to_string()),
        }
    }

    /// The records of a deletion are looked at before it is made.
    pub fn looks_before_delete(&self) -> (b: bool)
        ensures
            b == self@.options.limit is Some,
    {
        self.options.limit.is_some()
    }

    /// Deletes records, within the limit of the session's options. A deletion
    /// that it rules out does not reach the directory.
    pub fn answer_delete<S: Storage>(
        &self,
        storage: &mut S,
        selections: &[(Option<String>, String)],
        forwarded: bool,
    ) -> (r: Reaction)
        ensures
            may_drop(
                old(storage),
                final(storage),
                self@,
                selections.deep_view(),
                forwarded,
                r@,
            ),
    {
        let ghost start = *storage;
        let ghost picks = selections.deep_view();
        if self.looks_before_delete() {
            match storage.query(selections, None) {
                Err(e) => {
                    proof {
                        let q: Result<Seq<Entry>, Failure> = Err(e@);
                        assert(start.may_answer(picks, None, q));
                        assert(may_refuse_delete(&start, self@.options, picks, Some(e@)));
                    }
                    return self.report_delete(forwarded, Err(e));
                },
                Ok(matched) => {
                    let ghost q: Result<Seq<Entry>, Failure> = Ok(matched.deep_view());
                    proof {
                        assert(start.may_answer(picks, None, q));
                    }
                    match check_delete_limit(matched.as_slice(), &self.options) {
                        Err(e) => {
                            proof {
                                assert(may_refuse_delete(&start, self@.options, picks, Some(e@)));
                            }
                            return self.report_delete(forwarded, Err(e));
                        },
                        Ok(()) => {},
                    }
                },
            }
        }
        let result = storage.delete_record(
            selections,
            clone_text(&self.fingerprint),
            self.teams.as_slice(),
            self.roles.as_slice(),
        );
        proof {
            assert(may_refuse_delete(&start, self@.options, picks, None));
            let n = outcome(result);
            assert(start.may_delete(
                storage,
                picks,
                self@.fingerprint,
                self@.teams,
                self@.roles,
                n,
            ));
        }
        self.report_delete(forwarded, result)
    }
}

// ---------------------------------------------------------------------------
// What holds of sessions
// ---------------------------------------------------------------------------

/// From a client that is no peer server, the prefix for replicated commands
/// has no effect: what it writes is reported and replicated like any write.
pub proof fn law_prefix_without_effect(
    c: Context,
    fs: Seq<Pair>,
    u: Result<UpsertOutcome, Failure>,
    n: Result<usize, Failure>,
)
    requires
        !c.roles.contains("peer"@),
    ensures
        add_effect(c, fs, true, u) == add_effect(c, fs, false, u),
        change_effect(c, true, n) == change_effect(c, false, n),
        delete_effect(c, true, n) == delete_effect(c, false, n),
{
}

/// A replicated command from a peer server goes no further: nobody is notified
/// of it, and it is not replicated again.
pub proof fn law_replicas_end_here(
    c: Context,
    fs: Seq<Pair>,
    u: Result<UpsertOutcome, Failure>,
    n: Result<usize, Failure>,
)
    requires
        c.roles.contains("peer"@),
    ensures
        !add_effect(c, fs, true, u).replicate && add_effect(c, fs, true, u).notice is None,
        !change_effect(c, true, n).replicate && change_effect(c, true, n).notice is None,
        !delete_effect(c, true, n).replicate && delete_effect(c, true, n).notice is None,
{
}

/// What is refused, or finds no record, leaves no trace: it is not counted,
/// notified of or replicated.
pub proof fn law_refusals_leave_no_trace(
    c: Context,
    fs: Seq<Pair>,
    forwarded: bool,
    e: Failure,
    n: Result<usize, Failure>,
)
    requires
        n == Err::<usize, Failure>(e) || n == Ok::<usize, Failure>(0),
    ensures
        add_effect(c, fs, forwarded, Err(e)) == only_reply(
            add_effect(c, fs, forwarded, Err(e)).reply,
        ),
        change_effect(c, forwarded, n) == only_reply(change_effect(c, forwarded, n).reply),
        delete_effect(c, forwarded, n) == only_reply(delete_effect(c, forwarded, n).reply),
{
}

/// A client cannot choose the source of what it writes: whatever it gives for
/// it, the source that is written is the one that it is known as.
pub proof fn law_source_cannot_be_given(fs: Seq<Pair>, id: Option<Seq<char>>, i: int)
    requires
        0 <= i < augmented(fs, id).len(),
        augmented(fs, id)[i].0 == "source"@,
    ensures
        client_source(id) == Some(augmented(fs, id)[i].1),
        i == augmented(fs, id).len() - 1,
{
    let keep = |p: Pair| p.0 != "source"@;
    lemma_filter_holds(fs, keep);
    let given = fs.filter(keep);
    if i < given.len() {
        assert(augmented(fs, id)[i] == given[i]);
        assert(keep(given[i]));
    }
}

proof fn lemma_filter_holds(fs: Seq<Pair>, keep: spec_fn(Pair) -> bool)
    ensures
        forall|i: int| 0 <= i < fs.filter(keep).len() ==> keep(#[trigger] fs.filter(keep)[i]),
    decreases fs.len(),
{
    reveal(Seq::filter);
    if fs.len() > 0 {
        lemma_filter_holds(fs.drop_last(), keep);
    }
}

/// While the option to add only is on, a change that the session's options let
/// through replaces no value.
pub proof fn law_add_only(matched: Seq<Entry>, mods: Seq<Pair>, o: Options, i: int, j: int)
    requires
        o.addonly,
        change_refusal(matched, mods, o) is None,
        0 <= i < matched.len(),
        0 <= j < mods.len(),
    ensures
        !matched[i].fields.contains_key(mods[j].0),
{
    assert(!overrides(matched, mods));
}

/// With a limit set, what the session's options let through touches no more
/// records than that, and what touches no more is let through: a deletion
/// always, a change unless the option to add only stands against it.
pub proof fn law_limit(matched: Seq<Entry>, mods: Seq<Pair>, o: Options)
    requires
        o.limit is Some,
    ensures
        change_refusal(matched, mods, o) is None ==> matched.len() <= o.limit->0,
        delete_refusal(matched, o) is None <==> matched.len() <= o.limit->0,
        matched.len() > o.limit->0 ==> {
            &&& change_refusal(matched, mods, o) == Some(Failure::TooManyEntries(matched.len()))
            &&& delete_refusal(matched, o) == Some(Failure::TooManyEntries(matched.len()))
        },
        matched.len() <= o.limit->0 && (!o.addonly || forall|i: int, j: int|
            0 <= i < matched.len() && 0 <= j < mods.len() ==> !(
            #[trigger] matched[i]).fields.contains_key((#[trigger] mods[j]).0)) ==> change_refusal(
            matched,
            mods,
            o,
        ) is None,
{
}

/// Without a limit, no number of records is too large: a deletion is let
/// through, and so is a change, unless the option to add only stands against
/// it.
pub proof fn law_no_limit(matched: Seq<Entry>, mods: Seq<Pair>, o: Options)
    requires
        o.limit is None,
    ensures
        delete_refusal(matched, o) is None,
        !o.addonly ==> change_refusal(matched, mods, o) is None,
        !(change_refusal(matched, mods, o) matches Some(Failure::TooManyEntries(_))),
{
}

/// While the option to add only is on, a change within the limit is refused
/// exactly where one of its modifications names a field that one of the records
/// has.
pub proof fn law_add_only_refuses(matched: Seq<Entry>, mods: Seq<Pair>, o: Options, i: int, j: int)
    requires
        o.limit is None || matched.len() <= o.limit->0,
        0 <= i < matched.len(),
        0 <= j < mods.len(),
        matched[i].fields.contains_key(mods[j].0),
    ensures
        o.addonly ==> change_refusal(matched, mods, o) == Some(Failure::AddOnlyViolation),
        !o.addonly ==> change_refusal(matched, mods, o) is None,
{
}

// ---------------------------------------------------------------------------
// Who a client is
// ---------------------------------------------------------------------------

/// A text holds another exactly where it comes apart into what stands before
/// it, the other text, and what stands behind it; it begins with it where
/// nothing stands before it.
pub proof fn law_text_within(before: Seq<char>, part: Seq<char>, after: Seq<char>, s: Seq<char>)
    ensures
        holds(before + part + after, part),
        begins_with(part + after, part),
        holds(s, part) ==> exists|a: Seq<char>, b: Seq<char>| s == #[trigger] around(a, part, b),
        begins_with(s, part) ==> s == part + s.skip(part.len() as int),
{
    let whole = before + part + after;
    let i = before.len() as int;
    assert(whole.subrange(i, i + part.len()) =~= part);
    assert(holds_at(whole, part, i));
    assert((part + after).take(part.len() as int) =~= part);
    if holds(s, part) {
        let k = choose|k: int| holds_at(s, part, k);
        let a = s.take(k);
        let b = s.skip(k + part.len());
        assert(s =~= around(a, part, b)) by {
            assert forall|j: int| 0 <= j < s.len() implies s[j] == around(a, part, b)[j] by {
                if k <= j < k + part.len() {
                    assert(s.subrange(k, k + part.len())[j - k] == s[j]);
                }
            }
        }
    }
    if begins_with(s, part) {
        assert(s =~= s.take(part.len() as int) + s.skip(part.len() as int));
    }
}

/// A text with another before it and another behind it.
pub open spec fn around(before: Seq<char>, part: Seq<char>, after: Seq<char>) -> Seq<char> {
    before + part + after
}

/// What each client is known as: the three tools by their own names, every
/// agent whose name begins with `pulse-` as one, every browser session whose
/// name begins with `web-`, and the web console itself, as another. No other
/// client is known.
pub proof fn law_sources(rest: Seq<char>, id: Seq<char>)
    ensures
        source_of("mdb"@) == Some("mdb"@),
        source_of("ph"@) == Some("ph"@),
        source_of("pharos-scan"@) == Some("pharos-scan"@),
        source_of("pharos-console-web"@) == Some("web-console"@),
        source_of("pulse-"@ + rest) == Some("pharos-pulse"@),
        source_of("web-"@ + rest) == Some("web-console"@),
        source_of(id) is Some ==> id == "mdb"@ || id == "ph"@ || id == "pharos-scan"@ || id
            == "pharos-console-web"@ || (id.len() >= 6 && id == "pulse-"@ + id.skip(6)) || (id.len()
            >= 4 && id == "web-"@ + id.skip(4)),
{
    reveal_strlit("mdb");
    reveal_strlit("ph");
    reveal_strlit("pharos-scan");
    reveal_strlit("pharos-console-web");
    reveal_strlit("pulse-");
    reveal_strlit("web-");
    assert("mdb"@.len() == 3 && "ph"@.len() == 2 && "pharos-scan"@.len() == 11
        && "pharos-console-web"@.len() == 18 && "pulse-"@.len() == 6 && "web-"@.len() == 4);
    let pulse = "pulse-"@ + rest;
    let web = "web-"@ + rest;
    assert(pulse[1] == 'u' && "pharos-scan"@[1] == 'h' && "pharos-console-web"@[1] == 'h');
    assert(web[0] == 'w' && "pulse-"@[0] == 'p' && "pharos-scan"@[0] == 'p');
    law_text_within(Seq::empty(), "pulse-"@, rest, id);
    law_text_within(Seq::empty(), "web-"@, rest, id);
    assert("pharos-scan"@ != "mdb"@);
    if begins_with("pharos-console-web"@, "pulse-"@) {
        assert("pharos-console-web"@.take(6)[1] == 'h');
    }
    if begins_with(web, "pulse-"@) {
        assert(web.take(6)[0] == 'w');
    }
    if begins_with(pulse, "web-"@) {
        assert(pulse.take(4)[0] == 'p');
    }
}

/// What a client looks at when it asks for no type: one with `ph` in its name
/// at people, one with `mdb` in it at machines, and any other, and one that has
/// not said who it is, at everything.
pub proof fn law_default_kind(before: Seq<char>, after: Seq<char>, id: Seq<char>)
    ensures
        default_kind(None) is None,
        default_kind(Some(before + "ph"@ + after)) == Some(Kind::Person),
        !holds(before + "mdb"@ + after, "ph"@) ==> default_kind(Some(before + "mdb"@ + after))
            == Some(Kind::Machine),
        default_kind(Some(id)) == Some(Kind::Person) ==> exists|a: Seq<char>, b: Seq<char>|
            id == #[trigger] around(a, "ph"@, b),
        default_kind(Some(id)) == Some(Kind::Machine) ==> exists|a: Seq<char>, b: Seq<char>|
            id == #[trigger] around(a, "mdb"@, b),
        !(default_kind(Some(id)) matches Some(Kind::Other(_))),
{
    law_text_within(before, "ph"@, after, id);
    law_text_within(before, "mdb"@, after, id);
}

/// What is counted for a client is counted under what it is known as, and under
/// `unknown` where it is not known.
pub proof fn law_source_label(id: Seq<char>)
    ensures
        source_label(None) == "unknown"@,
        source_of(id) is None ==> source_label(Some(id)) == "unknown"@,
        source_of(id) matches Some(source) ==> source_label(Some(id)) == source,
{
}

/// What a client writes is what it gives, but for the source: what it gives for
/// that is left out, and what it is known as is put behind the rest.
pub proof fn law_augmented(
    before: Seq<Pair>,
    value: Seq<char>,
    after: Seq<Pair>,
    fs: Seq<Pair>,
    id: Option<Seq<char>>,
)
    ensures
        augmented(before + seq![("source"@, value)] + after, id) == augmented(before + after, id),
        (forall|i: int| 0 <= i < fs.len() ==> (#[trigger] fs[i]).0 != "source"@) ==> {
            &&& id is None ==> augmented(fs, id) == fs
            &&& id matches Some(name) ==> augmented(fs, id) == match source_of(name) {
                Some(source) => fs + seq![("source"@, source)],
                None => fs,
            }
        },
{
    let keep = |p: Pair| p.0 != "source"@;
    let one = seq![("source"@, value)];
    Seq::<Pair>::filter_distributes_over_add(before + one, after, keep);
    Seq::<Pair>::filter_distributes_over_add(before, one, keep);
    Seq::<Pair>::filter_distributes_over_add(before, after, keep);
    assert(one.filter(keep) =~= Seq::<Pair>::empty()) by {
        reveal(Seq::filter);
        assert(one.drop_last() =~= Seq::<Pair>::empty());
        assert(one.drop_last().filter(keep).len() == 0);
    }
    assert(before.filter(keep) + one.filter(keep) =~= before.filter(keep));
    if forall|i: int| 0 <= i < fs.len() ==> (#[trigger] fs[i]).0 != "source"@ {
        lemma_all_kept(fs, keep);
        if id is Some && source_of(id->0) is Some {
            let source = source_of(id->0)->0;
            assert(fs.push(("source"@, source)) =~= fs + seq![("source"@, source)]);
        }
    }
}

proof fn lemma_all_kept(fs: Seq<Pair>, keep: spec_fn(Pair) -> bool)
    requires
        forall|i: int| 0 <= i < fs.len() ==> keep(#[trigger] fs[i]),
    ensures
        fs.filter(keep) == fs,
    decreases fs.len(),
{
    reveal(Seq::filter);
    if fs.len() > 0 {
        let front = fs.drop_last();
        assert forall|i: int| 0 <= i < front.len() implies keep(#[trigger] front[i]) by {
            assert(front[i] == fs[i]);
        }
        assert(keep(fs[fs.len() - 1]));
        lemma_all_kept(front, keep);
        assert(front.push(fs.last()) =~= fs);
    } else {
        assert(fs.filter(keep) =~= fs);
    }
}

/// A new record belongs to the first of the teams of whoever adds it, and to
/// none where there is none.
pub proof fn law_first_team(team: Seq<char>, others: Seq<Seq<char>>)
    ensures
        first_team(Seq::empty()) is None,
        first_team(seq![team] + others) == Some(team),
{
}

// ---------------------------------------------------------------------------
// What is answered
// ---------------------------------------------------------------------------

/// What an addition is answered, and what else comes of it. It is counted as
/// one that was added or one that was updated; it is passed on, and others hear
/// of it, unless a peer server sent it.
pub proof fn law_add_answered(
    c: Context,
    fs: Seq<Pair>,
    forwarded: bool,
    done: UpsertOutcome,
    message: Seq<char>,
    n: nat,
)
    ensures
        ({
            let e = add_effect(c, fs, forwarded, Ok(done));
            &&& e.reply == "200:Ok\n"@
            &&& !e.close && !e.cut_short
            &&& e.event == Some("["@ + c.peer_addr + "] Added/Updated record"@)
            &&& e.tally matches Some((action, source, count)) && count == 1 && source
                == source_label(c.id) && (action is Added <==> done is Created) && (
            action is Updated <==> done is Updated)
            &&& e.notice == (if forwarded && c.roles.contains("peer"@) {
                None
            } else {
                Some(News::Added(fs))
            })
            &&& e.replicate <==> c.replicating && !(forwarded && c.roles.contains("peer"@))
        }),
        add_effect(c, fs, forwarded, Err(Failure::InvalidArgument(message))).reply
            == "512:Illegal value: "@ + message + "\n"@,
        add_effect(c, fs, forwarded, Err(Failure::Collision)).reply
            == "511:Not authorized to add entries\n"@,
        add_effect(c, fs, forwarded, Err(Failure::Unauthorized)).reply
            == "511:Not authorized to add entries\n"@,
        add_effect(c, fs, forwarded, Err(Failure::ReadOnly)).reply
            == "517:Operation failed because database is read-only\n"@,
        add_effect(c, fs, forwarded, Err(Failure::Internal(message))).reply
            == "500:Internal storage error\n"@,
        add_effect(c, fs, forwarded, Err(Failure::TooManyEntries(n))).reply
            == "500:Internal storage error\n"@,
        add_effect(c, fs, forwarded, Err(Failure::AddOnlyViolation)).reply
            == "500:Internal storage error\n"@,
{
}

/// What a change is answered, and what else comes of it. It says how many
/// records were changed; it is passed on, and others hear of it, unless a peer
/// server sent it or nothing was changed.
pub proof fn law_change_answered(
    c: Context,
    forwarded: bool,
    n: usize,
    message: Seq<char>,
    m: nat,
)
    ensures
        change_effect(c, forwarded, Ok(0)).reply == "501:No matches to change\n"@,
        change_effect(c, forwarded, Ok(1)).reply == "200:"@ + decimal(1) + " entry changed.\n"@,
        n > 1 ==> change_effect(c, forwarded, Ok(n)).reply == "200:"@ + decimal(n as nat)
            + " entries changed.\n"@,
        n > 0 ==> {
            let e = change_effect(c, forwarded, Ok(n));
            &&& !e.close && !e.cut_short && e.event is None && e.tally is None
            &&& e.notice == (if forwarded && c.roles.contains("peer"@) {
                None
            } else {
                Some(News::Changed(n as nat))
            })
            &&& e.replicate <==> c.replicating && !(forwarded && c.roles.contains("peer"@))
        },
        change_effect(c, forwarded, Err(Failure::InvalidArgument(message))).reply
            == "512:Illegal value: "@ + message + "\n"@,
        change_effect(c, forwarded, Err(Failure::TooManyEntries(m))).reply
            == "518:Too many entries selected by change command ("@ + decimal(m) + " matched)\n"@,
        change_effect(c, forwarded, Err(Failure::AddOnlyViolation)).reply
            == "521:Change command would have overridden existing field, and addonly option is on\n"@,
        change_effect(c, forwarded, Err(Failure::Unauthorized)).reply
            == "510:Not authorized to change this entry\n"@,
        change_effect(c, forwarded, Err(Failure::ReadOnly)).reply
            == "517:Operation failed because database is read-only\n"@,
        change_effect(c, forwarded, Err(Failure::Collision)).reply
            == "500:Internal storage error\n"@,
        change_effect(c, forwarded, Err(Failure::Internal(message))).reply
            == "500:Internal storage error\n"@,
{
}

/// What a deletion is answered, and what else comes of it. It is counted with
/// the number of the records; it is passed on, and others hear of it, unless a
/// peer server sent it or nothing was deleted.
pub proof fn law_delete_answered(
    c: Context,
    forwarded: bool,
    n: usize,
    message: Seq<char>,
    m: nat,
)
    ensures
        delete_effect(c, forwarded, Ok(0)).reply == "501:No matches to delete\n"@,
        n > 0 ==> {
            let e = delete_effect(c, forwarded, Ok(n));
            &&& e.reply == "200:Ok\n"@
            &&& !e.close && !e.cut_short && e.event is None
            &&& e.tally matches Some((action, source, count)) && action is Deleted && source
                == source_label(c.id) && count == n
            &&& e.notice == (if forwarded && c.roles.contains("peer"@) {
                None
            } else {
                Some(News::Deleted(n as nat))
            })
            &&& e.replicate <==> c.replicating && !(forwarded && c.roles.contains("peer"@))
        },
        delete_effect(c, forwarded, Err(Failure::TooManyEntries(m))).reply
            == "518:Too many entries selected by delete command ("@ + decimal(m) + " matched)\n"@,
        delete_effect(c, forwarded, Err(Failure::Unauthorized)).reply
            == "516:No authorization for request\n"@,
        delete_effect(c, forwarded, Err(Failure::ReadOnly)).reply
            == "517:Operation failed because database is read-only\n"@,
        delete_effect(c, forwarded, Err(Failure::InvalidArgument(message))).reply
            == "500:Internal storage error\n"@,
        delete_effect(c, forwarded, Err(Failure::AddOnlyViolation)).reply
            == "500:Internal storage error\n"@,
        delete_effect(c, forwarded, Err(Failure::Collision)).reply
            == "500:Internal storage error\n"@,
        delete_effect(c, forwarded, Err(Failure::Internal(message))).reply
            == "500:Internal storage error\n"@,
{
}

/// What comes of a query: its answer, and a word to those who watch the server
/// of how many records there were. One that fails is cut short and they hear
/// nothing. It changes nothing and is not passed on.
pub proof fn law_query_answered(
    c: Context,
    requested: Seq<Seq<char>>,
    found: Seq<Entry>,
    f: Failure,
)
    ensures
        ({
            let e = query_effect(c, requested, Ok(found));
            &&& e.reply == query_reply(Ok(found), requested)
            &&& e.event == Some(
                "["@ + c.peer_addr + "] Queried records, matches: "@ + decimal(found.len()),
            )
            &&& !e.cut_short && !e.close && !e.replicate && e.tally is None && e.notice is None
        }),
        ({
            let e = query_effect(c, requested, Err(f));
            &&& e.reply == query_reply(Err(f), requested)
            &&& e.cut_short
            &&& e.event is None
            &&& !e.close && !e.replicate && e.tally is None && e.notice is None
        }),
{
}

/// A command that cannot be understood is answered by what is wrong with it.
pub proof fn law_protocol_errors()
    ensures
        protocol_error_line(ProtocolError::UnknownCommand) == "598:Command unknown\n"@,
        protocol_error_line(ProtocolError::SyntaxError) == "599:Syntax error\n"@,
        protocol_error_line(ProtocolError::InvalidArgument) == "512:Illegal value\n"@,
{
}

// ---------------------------------------------------------------------------
// Logging in
// ---------------------------------------------------------------------------

/// Only an accepted key logs a client in, and then the client is who the key
/// says: it has the key's fingerprint, roles and teams. Nothing else of the
/// session changes, and a refusal changes nothing at all.
pub proof fn law_login(c: Context, fingerprint: String, roles: Vec<String>, teams: Vec<String>)
    ensures
        auth_outcome(c, AuthFinding::NoChallenge).0 == c,
        auth_outcome(c, AuthFinding::Rejected).0 == c,
        auth_outcome(c, AuthFinding::NoChallenge).1
            == "506:Request refused; must be logged in to execute (Challenge expired or not found)\n"@,
        auth_outcome(c, AuthFinding::Rejected).1 == "516:No authorization for request\n"@,
        ({
            let (after, reply) = auth_outcome(
                c,
                AuthFinding::Accepted { fingerprint, roles, teams },
            );
            &&& reply == "200:Ok\n"@
            &&& after.authenticated
            &&& after.fingerprint == Some(fingerprint@)
            &&& after.roles == roles.deep_view()
            &&& after.teams == teams.deep_view()
            &&& after.id == c.id && after.peer_addr == c.peer_addr && after.login_alias
                == c.login_alias && after.options == c.options && after.replicating
                == c.replicating
        }),
{
}

/// A session begins with nobody logged in, nothing said and every option off.
pub proof fn law_new_session(peer_addr: Seq<char>, replicating: bool)
    ensures
        ({
            let c = new_context(peer_addr, replicating);
            &&& !c.authenticated && c.id is None && c.login_alias is None && c.fingerprint is None
            &&& c.roles.len() == 0 && c.teams.len() == 0
            &&& c.peer_addr == peer_addr && c.replicating == replicating
            &&& !c.options.echo && c.options.limit is None && c.options.charset.len() == 0
                && !c.options.verbose && !c.options.addonly && !c.options.nolog
                && !c.options.external
            &&& default_kind(c.id) is None
            &&& source_label(c.id) == "unknown"@
        }),
{
}

/// A peer is trusted only by its role, and only with what it marks as passed
/// on.
pub proof fn law_trusted(forwarded: bool, roles: Seq<Seq<char>>)
    ensures
        trusted_sync(forwarded, roles) <==> forwarded && exists|i: int|
            0 <= i < roles.len() && #[trigger] roles[i] == "peer"@,
{
    if roles.contains("peer"@) {
        let i = choose|i: int| 0 <= i < roles.len() && roles[i] == "peer"@;
        assert(roles[i] == "peer"@);
    }
}

// ---------------------------------------------------------------------------
// What is asked of the storage
// ---------------------------------------------------------------------------

/// A change that selects more records than the limit, or that would replace a
/// value while the option to add only is on, does not reach the storage: it is
/// answered with the refusal, and nothing changes.
pub proof fn law_change_held_back<S: Storage>(
    s: &S,
    after: &S,
    c: Context,
    picks: Seq<Pick>,
    mods: Seq<Pair>,
    forwarded: bool,
    e: Effect,
    matched: Seq<Entry>,
)
    requires
        may_alter(s, after, c, picks, mods, forwarded, e),
        forall|q: Result<Seq<Entry>, Failure>| #[trigger]
            s.may_answer(picks, None, q) ==> q == Ok::<Seq<Entry>, Failure>(matched),
    ensures
        c.options.limit matches Some(n) && matched.len() > n ==> *after == *s && e == only_reply(
            "518:Too many entries selected by change command ("@ + decimal(matched.len())
                + " matched)\n"@,
        ),
        (c.options.limit is None || matched.len() <= c.options.limit->0) && c.options.addonly && (
        exists|i: int, j: int|
            0 <= i < matched.len() && 0 <= j < mods.len() && (
            #[trigger] matched[i]).fields.contains_key((#[trigger] mods[j]).0)) ==> *after == *s && e
            == only_reply(
            "521:Change command would have overridden existing field, and addonly option is on\n"@,
        ),
{
}

/// A change that the options let through is put to the storage, in the name of
/// the key and the teams of the client, and is answered by what comes of it.
pub proof fn law_change_put_through<S: Storage>(
    s: &S,
    after: &S,
    c: Context,
    picks: Seq<Pick>,
    mods: Seq<Pair>,
    forwarded: bool,
    e: Effect,
    matched: Seq<Entry>,
)
    requires
        may_alter(s, after, c, picks, mods, forwarded, e),
        forall|q: Result<Seq<Entry>, Failure>| #[trigger]
            s.may_answer(picks, None, q) ==> q == Ok::<Seq<Entry>, Failure>(matched),
        c.options.limit is None || matched.len() <= c.options.limit->0,
        !c.options.addonly || forall|i: int, j: int|
            0 <= i < matched.len() && 0 <= j < mods.len() ==> !(
            #[trigger] matched[i]).fields.contains_key((#[trigger] mods[j]).0),
    ensures
        exists|n: Result<usize, Failure>| #[trigger]
            s.may_change(after, picks, mods, c.fingerprint, c.teams, n) && e == change_effect(
                c,
                forwarded,
                n,
            ),
{
    let (refusal, n) = choose|refusal: Option<Failure>, n: Result<usize, Failure>|
        #![trigger change_effect(c, forwarded, n), may_refuse_change(s, c.options, picks, mods, refusal)]
        {
            &&& may_refuse_change(s, c.options, picks, mods, refusal)
            &&& match refusal {
                Some(f) => n == Err::<usize, Failure>(f) && *after == *s,
                None => s.may_change(after, picks, mods, c.fingerprint, c.teams, n),
            }
            &&& e == change_effect(c, forwarded, n)
        };
    assert(refusal is None);
    assert(s.may_change(after, picks, mods, c.fingerprint, c.teams, n));
}

/// A deletion that selects more records than the limit does not reach the
/// storage; any other is put to it, in the name of the key, the teams and the
/// roles of the client.
pub proof fn law_delete_limited<S: Storage>(
    s: &S,
    after: &S,
    c: Context,
    picks: Seq<Pick>,
    forwarded: bool,
    e: Effect,
    matched: Seq<Entry>,
)
    requires
        may_drop(s, after, c, picks, forwarded, e),
        forall|q: Result<Seq<Entry>, Failure>| #[trigger]
            s.may_answer(picks, None, q) ==> q == Ok::<Seq<Entry>, Failure>(matched),
    ensures
        c.options.limit matches Some(n) && matched.len() > n ==> *after == *s && e == only_reply(
            "518:Too many entries selected by delete command ("@ + decimal(matched.len())
                + " matched)\n"@,
        ),
        c.options.limit is None || matched.len() <= c.options.limit->0 ==> exists|
            n: Result<usize, Failure>,
        | #[trigger]
            s.may_delete(after, picks, c.fingerprint, c.teams, c.roles, n) && e == delete_effect(
                c,
                forwarded,
                n,
            ),
{
    let (refusal, n) = choose|refusal: Option<Failure>, n: Result<usize, Failure>|
        #![trigger delete_effect(c, forwarded, n), may_refuse_delete(s, c.options, picks, refusal)]
        {
            &&& may_refuse_delete(s, c.options, picks, refusal)
            &&& match refusal {
                Some(f) => n == Err::<usize, Failure>(f) && *after == *s,
                None => s.may_delete(after, picks, c.fingerprint, c.teams, c.roles, n),
            }
            &&& e == delete_effect(c, forwarded, n)
        };
    if c.options.limit is None || matched.len() <= c.options.limit->0 {
        assert(refusal is None);
        assert(s.may_delete(after, picks, c.fingerprint, c.teams, c.roles, n));
    }
}

/// An addition is put to the storage with the source that the client is known
/// as, in the name of its key and of the first of its teams.
pub proof fn law_addition_put<S: Storage>(
    s: &S,
    after: &S,
    c: Context,
    fs: Seq<Pair>,
    forwarded: bool,
    e: Effect,
    team: Option<Seq<char>>,
)
    requires
        may_put(s, after, c, fs, forwarded, e),
        c.teams.len() == 0 ==> team is None,
        c.teams.len() > 0 ==> team == Some(c.teams[0]),
    ensures
        exists|u: Result<UpsertOutcome, Failure>| #[trigger]
            s.may_upsert(after, augmented(fs, c.id), c.fingerprint, team, u) && e == add_effect(
                c,
                augmented(fs, c.id),
                forwarded,
                u,
            ),
{
    assert(first_team(c.teams) == team);
}

/// A query is put to the storage with the kind that the client looks at; what
/// fields there are is asked of all records.
pub proof fn law_query_put<S: Storage>(
    s: &S,
    c: Context,
    picks: Seq<Pick>,
    requested: Seq<Seq<char>>,
    e: Effect,
    found: Seq<Entry>,
)
    ensures
        may_find(s, c, picks, requested, e) && (forall|q: Result<Seq<Entry>, Failure>| #[trigger]
            s.may_answer(picks, default_kind(c.id), q) ==> q == Ok::<Seq<Entry>, Failure>(found))
            ==> e == query_effect(c, requested, Ok(found)),
        may_describe(s, requested, e) && (forall|q: Result<Seq<Entry>, Failure>| #[trigger]
            s.may_answer(Seq::empty(), None, q) ==> q == Ok::<Seq<Entry>, Failure>(found)) ==> {
            &&& e.reply == fields_reply(schema(Ok(found)), requested)
            &&& !e.close && !e.replicate && e.event is None && e.tally is None && e.notice is None
            &&& e.cut_short <==> no_such_field(schema(Ok(found)), requested)
        },
{
}

} // verus!
