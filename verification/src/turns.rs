//! What is to be done next: logging in where the server asks for it, and
//! waiting for a key or for files.

use vstd::prelude::*;

use crate::client::PharosResponse;
use crate::client::Response;

verus! {

// ---------------------------------------------------------------------------
// Logging in on demand
// ---------------------------------------------------------------------------

/// Where a client stands with a command.
#[derive(Debug, Clone, Copy, PartialEq, Eq, Structural)]
pub enum Stage {
    /// The command was sent.
    Asked,
    /// The server asked for a login, which is under way.
    LoggingIn,
    /// The command was sent again, after the login.
    AskedAgain,
    /// There is an outcome.
    Done,
}

/// What a client is told.
#[derive(Debug)]
pub enum Event {
    /// The server answered the command.
    Answered(PharosResponse),
    /// The login succeeded.
    LoggedIn,
    /// The login failed, and why.
    LoginFailed(String),
}

/// What a client does.
#[derive(Debug)]
pub enum Act {
    /// It sends the command.
    Send,
    /// It logs in.
    LogIn,
    /// It gives the answer to its user.
    Give(PharosResponse),
    /// It gives up.
    Fail(String),
    /// It does nothing: this was not to be expected.
    Ignore,
}

/// An `Event` as a value of the specification.
pub enum Heard {
    Answered(Response),
    LoggedIn,
    LoginFailed(Seq<char>),
}

/// An `Act` as a value of the specification.
pub enum Deed {
    Send,
    LogIn,
    Give(Response),
    Fail(Seq<char>),
    Ignore,
}

impl View for Event {
    type V = Heard;

    open spec fn view(&self) -> Heard {
        match self {
            Event::Answered(r) => Heard::Answered(r@),
            Event::LoggedIn => Heard::LoggedIn,
            Event::LoginFailed(m) => Heard::LoginFailed(m@),
        }
    }
}

impl View for Act {
    type V = Deed;

    open spec fn view(&self) -> Deed {
        match self {
            Act::Send => Deed::Send,
            Act::LogIn => Deed::LogIn,
            Act::Give(r) => Deed::Give(r@),
            Act::Fail(m) => Deed::Fail(m@),
            Act::Ignore => Deed::Ignore,
        }
    }
}

/// Where a client then stands, and what it does.
pub open spec fn turn(stage: Stage, heard: Heard) -> (Stage, Deed) {
    match (stage, heard) {
        (Stage::Asked, Heard::Answered(r)) => if r is AuthenticationRequired {
            (Stage::LoggingIn, Deed::LogIn)
        } else {
            (Stage::Done, Deed::Give(r))
        },
        (Stage::LoggingIn, Heard::LoggedIn) => (Stage::AskedAgain, Deed::Send),
        (Stage::LoggingIn, Heard::LoginFailed(m)) => (Stage::Done, Deed::Fail(m)),
        (Stage::AskedAgain, Heard::Answered(r)) => (Stage::Done, Deed::Give(r)),
        _ => (stage, Deed::Ignore),
    }
}

/// Where a client then stands, and what it does.
pub fn next_turn(stage: Stage, event: Event) -> (r: (Stage, Act))
    ensures
        (r.0, r.1@) == turn(stage, event@),
{
    match (stage, event) {
        (Stage::Asked, Event::Answered(response)) => if response.needs_login() {
            (Stage::LoggingIn, Act::LogIn)
        } else {
            (Stage::Done, Act::Give(response))
        },
        (Stage::LoggingIn, Event::LoggedIn) => (Stage::AskedAgain, Act::Send),
        (Stage::LoggingIn, Event::LoginFailed(m)) => (Stage::Done, Act::Fail(m)),
        (Stage::AskedAgain, Event::Answered(response)) => (Stage::Done, Act::Give(response)),
        _ => (stage, Act::Ignore),
    }
}

/// How often a command is sent again.
pub open spec fn resends(stage: Stage, heard: Seq<Heard>) -> nat
    decreases heard.len(),
{
    if heard.len() == 0 {
        0
    } else {
        let (next, deed) = turn(stage, heard[0]);
        resends(next, heard.drop_first()) + if deed is Send {
            1nat
        } else {
            0nat
        }
    }
}

/// A command is sent again once a login has succeeded that the server asked
/// for, and never otherwise; so whatever a client is told, it sends a command
/// again at most once.
pub proof fn law_sent_again_once(heard: Seq<Heard>, stage: Stage, next: Heard)
    ensures
        resends(Stage::Asked, heard) <= 1,
        turn(stage, next).1 is Send <==> stage is LoggingIn && next is LoggedIn,
        turn(stage, next).0 is LoggingIn && !(stage is LoggingIn) ==> stage is Asked && (
        next matches Heard::Answered(r) && r is AuthenticationRequired),
{
    lemma_resends(Stage::Asked, heard);
}

proof fn lemma_resends(stage: Stage, heard: Seq<Heard>)
    ensures
        resends(stage, heard) <= if stage is Asked || stage is LoggingIn {
            1nat
        } else {
            0nat
        },
    decreases heard.len(),
{
    if heard.len() > 0 {
        lemma_resends(turn(stage, heard[0]).0, heard.drop_first());
    }
}

// ---------------------------------------------------------------------------
// Waiting for a key
// ---------------------------------------------------------------------------

/// What to do about the key to sign with.
#[derive(Debug, Clone, Copy, PartialEq, Eq, Structural)]
pub enum KeyStep {
    /// The key is there.
    UseKey,
    /// So many milliseconds are to be waited.
    Wait(u64),
    /// The key did not come, but the other one is there.
    UseFallback,
    /// There is no key.
    GiveUp,
}

/// What to do about the key to sign with, given whether it is there, how many
/// milliseconds have passed, and whether the other key is there. It has a
/// minute to come.
pub open spec fn key_step(found: bool, waited: nat, fallback_found: bool) -> KeyStep {
    if found {
        KeyStep::UseKey
    } else if waited < 60_000 {
        KeyStep::Wait(1000)
    } else if fallback_found {
        KeyStep::UseFallback
    } else {
        KeyStep::GiveUp
    }
}

/// What to do about the key to sign with.
pub fn seek_key(found: bool, waited_millis: u64, fallback_found: bool) -> (step: KeyStep)
    ensures
        step == key_step(found, waited_millis as nat, fallback_found),
{
    if found {
        KeyStep::UseKey
    } else if waited_millis < 60_000 {
        KeyStep::Wait(1000)
    } else if fallback_found {
        KeyStep::UseFallback
    } else {
        KeyStep::GiveUp
    }
}

/// The other key is used only after a minute, and only where the key itself is
/// not there; and it is an error only where neither is.
pub proof fn law_key_order(found: bool, waited: nat, fallback_found: bool)
    ensures
        found <==> key_step(found, waited, fallback_found) is UseKey,
        key_step(found, waited, fallback_found) is UseFallback ==> !found && waited >= 60_000,
        key_step(found, waited, fallback_found) is GiveUp ==> !found && !fallback_found && waited
            >= 60_000,
        waited >= 60_000 ==> !(key_step(found, waited, fallback_found) is Wait),
{
}

// ---------------------------------------------------------------------------
// Waiting for files
// ---------------------------------------------------------------------------

/// What to do about files that may still come.
#[derive(Debug, Clone, Copy, PartialEq, Eq, Structural)]
pub enum WaitStep {
    /// They are there.
    Ready,
    /// So many milliseconds are to be waited.
    Wait(u64),
    /// They did not come in time.
    GiveUp,
}

/// What to do about a certificate that a client trusts, given whether its file
/// is there and how many milliseconds have passed. It has half a minute to
/// come.
pub fn wait_step(found: bool, waited_millis: u64) -> (s: WaitStep)
    ensures
        s == (if found {
            WaitStep::Ready
        } else if waited_millis < 30_000 {
            WaitStep::Wait(500)
        } else {
            WaitStep::GiveUp
        }),
{
    if found {
        WaitStep::Ready
    } else if waited_millis < 30_000 {
        WaitStep::Wait(500)
    } else {
        WaitStep::GiveUp
    }
}

/// What to do about the files that a server cannot start without, given whether
/// all of them are there, and how many milliseconds of those that they have are
/// gone. Once these are over, the files are not looked for again.
pub fn wait_for_files_step(all_found: bool, waited_millis: u64, limit_millis: u64) -> (s: WaitStep)
    ensures
        s == (if waited_millis >= limit_millis {
            WaitStep::GiveUp
        } else if all_found {
            WaitStep::Ready
        } else {
            WaitStep::Wait(500)
        }),
{
    if waited_millis >= limit_millis {
        WaitStep::GiveUp
    } else if all_found {
        WaitStep::Ready
    } else {
        WaitStep::Wait(500)
    }
}

/// What a client does: with an answer, it gives it to its user, except that the
/// first demand for a login makes it log in; when it is logged in it sends the
/// command again, and when the login fails it gives up with the reason. It
/// stops at an outcome, and what does not fit the stage is passed over.
pub proof fn law_turns(stage: Stage, r: Response, why: Seq<char>, heard: Heard)
    ensures
        turn(Stage::Asked, Heard::Answered(r)) == (if r is AuthenticationRequired {
            (Stage::LoggingIn, Deed::LogIn)
        } else {
            (Stage::Done, Deed::Give(r))
        }),
        turn(Stage::LoggingIn, Heard::LoggedIn) == (Stage::AskedAgain, Deed::Send),
        turn(Stage::LoggingIn, Heard::LoginFailed(why)) == (Stage::Done, Deed::Fail(why)),
        turn(Stage::AskedAgain, Heard::Answered(r)) == (Stage::Done, Deed::Give(r)),
        turn(Stage::Done, heard) == (Stage::Done, Deed::Ignore),
        turn(stage, heard).1 is Ignore <==> turn(stage, heard).0 == stage,
        turn(stage, heard).1 is Give || turn(stage, heard).1 is Fail <==> turn(stage, heard).0
            is Done && !(stage is Done),
{
}

/// How long a key is waited for: a second at a time, for a minute. Then the
/// other key is taken where there is one.
pub proof fn law_key_waiting(waited: nat, fallback_found: bool)
    ensures
        key_step(true, waited, fallback_found) is UseKey,
        waited < 60_000 ==> key_step(false, waited, fallback_found) == KeyStep::Wait(1000),
        waited >= 60_000 ==> key_step(false, waited, true) is UseFallback && key_step(
            false,
            waited,
            false,
        ) is GiveUp,
{
}

} // verus!
