//! Which answer belongs to which command.

use vstd::prelude::*;

use crate::ldap::LdapStorage;
use crate::ldap::filter_of;
use crate::options::set_outcome;
use crate::selection::Pick;
use crate::session::AuthFinding;
use crate::session::Command;
use crate::session::Context;
use crate::session::Effect;
use crate::session::Reaction;
use crate::session::Session;
use crate::session::auth_outcome;
use crate::session::default_kind;
use crate::session::may_alter;
use crate::session::may_describe;
use crate::session::may_drop;
use crate::session::may_find;
use crate::session::may_put;
use crate::session::only_reply;
use crate::storage::Storage;
use crate::text::lowercase;

verus! {

/// What a command needs of the directory.
#[derive(Debug, Clone, Copy, PartialEq, Eq, Structural)]
pub enum Need {
    Nothing,
    Reading,
    Writing,
}

/// What a command needs of the directory.
pub open spec fn need_of(command: Command) -> Need {
    match command {
        Command::Fields(_) | Command::Query { .. } => Need::Reading,
        Command::Add(_) | Command::Change { .. } | Command::Delete(_) => Need::Writing,
        _ => Need::Nothing,
    }
}

impl Command {
    /// What the command needs of the directory.
    pub fn need(&self) -> (n: Need)
        ensures
            n == need_of(*self),
    {
        match self {
            Command::Fields(_) => Need::Reading,
            Command::Query { .. } => Need::Reading,
            Command::Add(_) => Need::Writing,
            Command::Change { .. } => Need::Writing,
            Command::Delete(_) => Need::Writing,
            _ => Need::Nothing,
        }
    }
}

/// What the keeper of the keys supplies to the answer to a command: a challenge
/// to a login, what an attempt to authenticate came to, and whether a signature
/// holds that was to be checked. A command takes one of them at most.
#[derive(Debug)]
pub struct Supplied {
    pub challenge: String,
    pub finding: AuthFinding,
    pub verified: bool,
}

impl Supplied {
    /// Nothing is supplied: no challenge, no attempt, and no signature that
    /// holds.
    pub fn nothing() -> (s: Self)
        ensures
            s.challenge@ == Seq::<char>::empty(),
            s.finding is NoChallenge,
            !s.verified,
    {
        let challenge = String::new();
        Supplied { challenge, finding: AuthFinding::NoChallenge, verified: false }
    }
}

/// The session and the effect after a command that needs nothing of the
/// directory.
pub open spec fn alone(c: Context, command: Command, supplied: Supplied) -> (Context, Effect) {
    match command {
        Command::Status => (c, only_reply("100:Pharos server active\n200:Ok\n"@)),
        Command::Id(id) => (
            Context { id: Some(lowercase(id@)), ..c },
            only_reply("200:Ok\n"@),
        ),
        Command::Login(alias) => (
            Context { login_alias: Some(alias@), ..c },
            only_reply("301:"@ + supplied.challenge@ + "\n"@),
        ),
        Command::Auth { .. } => (
            auth_outcome(c, supplied.finding).0,
            only_reply(auth_outcome(c, supplied.finding).1),
        ),
        Command::AuthCheck { .. } => (
            c,
            only_reply(
                if supplied.verified {
                    "200:Ok\n"@
                } else {
                    "516:No authorization for request\n"@
                },
            ),
        ),
        Command::Quit => (c, Effect { close: true, ..only_reply("200:Bye!\n"@) }),
        Command::SetOptions(tokens) => (
            Context { options: set_outcome(c.options, tokens.deep_view()).0, ..c },
            only_reply(set_outcome(c.options, tokens.deep_view()).1),
        ),
        _ => (c, only_reply("597:Command recognized, but not yet implemented\n"@)),
    }
}

/// How a command that reads the directory may be answered.
pub open spec fn may_read<S: Storage>(s: &S, c: Context, command: Command, e: Effect) -> bool {
    match command {
        Command::Fields(requested) => may_describe(s, requested.deep_view(), e),
        Command::Query { selections, shown } => may_find(
            s,
            c,
            selections.deep_view(),
            shown.deep_view(),
            e,
        ),
        _ => false,
    }
}

/// How a command that writes to the directory may be answered, and what may
/// become of the directory.
pub open spec fn may_write<S: Storage>(
    s: &S,
    after: &S,
    c: Context,
    command: Command,
    forwarded: bool,
    e: Effect,
) -> bool {
    match command {
        Command::Add(fields) => may_put(s, after, c, fields.deep_view(), forwarded, e),
        Command::Change { selections, modifications, .. } => may_alter(
            s,
            after,
            c,
            selections.deep_view(),
            modifications.deep_view(),
            forwarded,
            e,
        ),
        Command::Delete(selections) => may_drop(
            s,
            after,
            c,
            selections.deep_view(),
            forwarded,
            e,
        ),
        _ => false,
    }
}

/// The filter for what a command asks a directory at an LDAP server: what it
/// reads, and for a change or a deletion what it looks at before, where the
/// session's options make it look.
pub open spec fn filter_for(c: Context, command: Command) -> Option<Seq<char>> {
    match command {
        Command::Fields(_) => Some(filter_of(Seq::<Pick>::empty(), None)),
        Command::Query { selections, .. } => Some(
            filter_of(selections.deep_view(), default_kind(c.id)),
        ),
        Command::Change { selections, .. } => if c.options.limit is Some || c.options.addonly {
            Some(filter_of(selections.deep_view(), None))
        } else {
            None
        },
        Command::Delete(selections) => if c.options.limit is Some {
            Some(filter_of(selections.deep_view(), None))
        } else {
            None
        },
        _ => None,
    }
}

impl Session {
    /// Answers a command that needs nothing of the directory; nothing for any
    /// other.
    pub fn answer_alone(&mut self, command: &Command, supplied: Supplied) -> (r: Option<Reaction>)
        ensures
            match r {
                Some(r) => need_of(*command) is Nothing && (final(self)@, r@) == alone(
                    old(self)@,
                    *command,
                    supplied,
                ),
                None => !(need_of(*command) is Nothing) && final(self)@ == old(self)@,
            },
    {
        match command {
            Command::Status => Some(self.answer_status()),
            Command::Id(id) => Some(self.answer_id(id.as_str())),
            Command::Login(alias) => Some(
                self.answer_login(alias.as_str(), supplied.challenge.as_str()),
            ),
            Command::Auth { .. } => Some(self.answer_auth(supplied.finding)),
            Command::AuthCheck { .. } => Some(self.answer_auth_check(supplied.verified)),
            Command::Quit => Some(self.answer_quit()),
            Command::SetOptions(tokens) => Some(self.answer_set(tokens.as_slice())),
            Command::Unimplemented => Some(self.answer_unimplemented()),
            _ => None,
        }
    }

    /// Answers a command that reads the directory; nothing for any other.
    pub fn answer_reading<S: Storage>(&self, storage: &S, command: &Command) -> (r: Option<
        Reaction,
    >)
        ensures
            match r {
                Some(r) => may_read(storage, self@, *command, r@),
                None => !(need_of(*command) is Reading),
            },
    {
        match command {
            Command::Fields(requested) => Some(self.answer_fields(storage, requested.as_slice())),
            Command::Query { selections, shown } => Some(
                self.answer_query(storage, selections.as_slice(), shown.as_slice()),
            ),
            _ => None,
        }
    }

    /// Answers a command that writes to the directory; nothing for any other.
    pub fn answer_writing<S: Storage>(
        &self,
        storage: &mut S,
        command: &Command,
        forwarded: bool,
    ) -> (r: Option<Reaction>)
        requires
            *command is Add ==> old(storage).has_room(),
        ensures
            match r {
                Some(r) => may_write(
                    old(storage),
                    final(storage),
                    self@,
                    *command,
                    forwarded,
                    r@,
                ),
                None => !(need_of(*command) is Writing) && *final(storage) == *old(storage),
            },
    {
        match command {
            Command::Add(fields) => Some(self.answer_add(storage, fields.as_slice(), forwarded)),
            Command::Change { selections, modifications, .. } => Some(
                self.answer_change(
                    storage,
                    selections.as_slice(),
                    modifications.as_slice(),
                    forwarded,
                ),
            ),
            Command::Delete(selections) => Some(
                self.answer_delete(storage, selections.as_slice(), forwarded),
            ),
            _ => None,
        }
    }

    /// Answers a command.
    pub fn answer<S: Storage>(
        &mut self,
        storage: &mut S,
        command: &Command,
        forwarded: bool,
        supplied: Supplied,
    ) -> (r: Reaction)
        requires
            *command is Add ==> old(storage).has_room(),
        ensures
            match need_of(*command) {
                Need::Nothing => (final(self)@, r@) == alone(old(self)@, *command, supplied)
                    && *final(storage) == *old(storage),
                Need::Reading => may_read(old(storage), old(self)@, *command, r@) && final(self)@
                    == old(self)@ && *final(storage) == *old(storage),
                Need::Writing => may_write(
                    old(storage),
                    final(storage),
                    old(self)@,
                    *command,
                    forwarded,
                    r@,
                ) && final(self)@ == old(self)@,
            },
    {
        if let Some(r) = self.answer_alone(command, supplied) {
            return r;
        }
        if let Some(r) = self.answer_reading(storage, command) {
            return r;
        }
        match self.answer_writing(storage, command, forwarded) {
            Some(r) => r,
            None => self.answer_unimplemented(),
        }
    }

    /// The filter for what a command asks a directory at an LDAP server.
    pub fn ldap_filter(&self, ldap: &LdapStorage, command: &Command) -> (f: Option<String>)
        ensures
            f.deep_view() == filter_for(self@, *command),
    {
        match command {
            Command::Fields(_) => {
                let everything: Vec<(Option<String>, String)> = Vec::new();
                proof {
                    assert(everything.deep_view() =~= Seq::empty());
                }
                Some(ldap.build_filter(everything.as_slice(), None))
            },
            Command::Query { selections, .. } => Some(
                ldap.build_filter(selections.as_slice(), self.default_type()),
            ),
            Command::Change { selections, .. } => if self.looks_before_change() {
                Some(ldap.build_filter(selections.as_slice(), None))
            } else {
                None
            },
            Command::Delete(selections) => if self.looks_before_delete() {
                Some(ldap.build_filter(selections.as_slice(), None))
            } else {
                None
            },
            _ => None,
        }
    }
}

// ---------------------------------------------------------------------------
// What holds of commands
// ---------------------------------------------------------------------------

/// Which commands read the directory, which write to it, and which need
/// nothing of it.
pub proof fn law_needs(command: Command)
    ensures
        need_of(command) is Reading <==> command is Fields || command is Query,
        need_of(command) is Writing <==> command is Add || command is Change || command is Delete,
        need_of(command) is Nothing <==> command is Status || command is Id || command is Login
            || command is Auth || command is AuthCheck || command is Quit || command is SetOptions
            || command is Unimplemented,
{
}

/// What a command that needs nothing of the directory changes of the session:
/// who the client is, and nothing else, by its identification; the alias by a
/// login; the options by setting them; key, roles and teams by an
/// authentication. Any other changes nothing. Only leaving closes the session,
/// and nothing is passed on, counted or told to others.
pub proof fn law_alone(c: Context, command: Command, supplied: Supplied)
    ensures
        ({
            let (after, e) = alone(c, command, supplied);
            &&& after.peer_addr == c.peer_addr && after.replicating == c.replicating
            &&& after.id == (match command {
                Command::Id(id) => Some(lowercase(id@)),
                _ => c.id,
            })
            &&& after.login_alias == (match command {
                Command::Login(alias) => Some(alias@),
                _ => c.login_alias,
            })
            &&& !(command is SetOptions) ==> after.options == c.options
            &&& !(command is Auth) ==> after.authenticated == c.authenticated && after.fingerprint
                == c.fingerprint && after.roles == c.roles && after.teams == c.teams
            &&& e.close <==> command is Quit
            &&& !e.replicate && !e.cut_short && e.event is None && e.tally is None
                && e.notice is None
        }),
{
}

/// What a command that needs nothing of the directory is answered.
pub proof fn law_alone_answered(c: Context, command: Command, supplied: Supplied)
    ensures
        ({
            let reply = alone(c, command, supplied).1.reply;
            &&& command is Status ==> reply == "100:Pharos server active\n200:Ok\n"@
            &&& command is Id ==> reply == "200:Ok\n"@
            &&& command is Login ==> reply == "301:"@ + supplied.challenge@ + "\n"@
            &&& command is AuthCheck && supplied.verified ==> reply == "200:Ok\n"@
            &&& command is AuthCheck && !supplied.verified ==> reply
                == "516:No authorization for request\n"@
            &&& command is Quit ==> reply == "200:Bye!\n"@
            &&& command is Unimplemented ==> reply
                == "597:Command recognized, but not yet implemented\n"@
        }),
        command is Auth ==> alone(c, command, supplied).0 == auth_outcome(c, supplied.finding).0
            && alone(c, command, supplied).1.reply == auth_outcome(c, supplied.finding).1,
        command matches Command::SetOptions(tokens) ==> {
            &&& alone(c, command, supplied).0.options == set_outcome(
                c.options,
                tokens.deep_view(),
            ).0
            &&& alone(c, command, supplied).1.reply == set_outcome(
                c.options,
                tokens.deep_view(),
            ).1
        },
{
}

/// What is asked of an LDAP server for a command. A query asks with the kind
/// that the client looks at, and what fields there are is asked of everything.
/// A change and a deletion ask only where they have to know what they would
/// touch, and then of every kind.
pub proof fn law_filter_for(c: Context, command: Command)
    ensures
        command is Fields ==> filter_for(c, command) == Some("(objectClass=*)"@),
        command matches Command::Query { selections, shown } ==> filter_for(c, command) == Some(
            filter_of(selections.deep_view(), default_kind(c.id)),
        ),
        command matches Command::Change { selections, modifications, force } ==> {
            &&& filter_for(c, command) is Some <==> c.options.limit is Some || c.options.addonly
            &&& filter_for(c, command) matches Some(f) ==> f == filter_of(
                selections.deep_view(),
                None,
            )
        },
        command matches Command::Delete(selections) ==> {
            &&& filter_for(c, command) is Some <==> c.options.limit is Some
            &&& filter_for(c, command) matches Some(f) ==> f == filter_of(
                selections.deep_view(),
                None,
            )
        },
        filter_for(c, command) is Some ==> command is Fields || command is Query
            || command is Change || command is Delete,
{
    assert(Seq::<Pick>::empty().map_values(|p: Pick| crate::ldap::pick_filter(p)).len() == 0);
}

/// A command that reads is put as what it is: a query with its selections and
/// the fields that it asks for, a question about fields with the fields.
pub proof fn law_reading<S: Storage>(s: &S, c: Context, command: Command, e: Effect)
    requires
        may_read(s, c, command, e),
    ensures
        command is Fields || command is Query,
        command matches Command::Fields(requested) ==> may_describe(s, requested.deep_view(), e),
        command matches Command::Query { selections, shown } ==> may_find(
            s,
            c,
            selections.deep_view(),
            shown.deep_view(),
            e,
        ),
{
}

/// A command that writes is put as what it is: an addition with its fields, a
/// change with its selections and modifications, a deletion with its
/// selections.
pub proof fn law_writing<S: Storage>(
    s: &S,
    after: &S,
    c: Context,
    command: Command,
    forwarded: bool,
    e: Effect,
)
    requires
        may_write(s, after, c, command, forwarded, e),
    ensures
        command is Add || command is Change || command is Delete,
        command matches Command::Add(fields) ==> may_put(
            s,
            after,
            c,
            fields.deep_view(),
            forwarded,
            e,
        ),
        command matches Command::Change { selections, modifications, force } ==> may_alter(
            s,
            after,
            c,
            selections.deep_view(),
            modifications.deep_view(),
            forwarded,
            e,
        ),
        command matches Command::Delete(selections) ==> may_drop(
            s,
            after,
            c,
            selections.deep_view(),
            forwarded,
            e,
        ),
{
}

} // verus!
