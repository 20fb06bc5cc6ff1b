//! The options of a session, and the command that sets them.

use vstd::prelude::*;

use crate::numbers::decimal;
use crate::numbers::decimal_text;
use crate::numbers::law_decimal_reads_back;
use crate::numbers::natural_of;
use crate::numbers::parse_usize;
use crate::text::Delimiter;
use crate::text::ascii_lower;
use crate::text::cut;
use crate::text::cut_text;
use crate::text::joined;
use crate::text::law_cut;
use crate::text::law_joined;
use crate::text::lowercase;
use crate::text::pieces;
use crate::text::same_ignoring_ascii_case;
use crate::text::same_text;
use crate::text::to_lowercase;
use crate::text::trim;
use crate::text::trim_text;

verus! {

/// What a client can set for its session.
#[derive(Debug)]
pub struct SessionOptions {
    pub echo: bool,
    pub limit: Option<usize>,
    pub charset: String,
    pub verbose: bool,
    pub addonly: bool,
    pub nolog: bool,
    pub external: bool,
}

/// `SessionOptions` as a value of the specification.
pub struct Options {
    pub echo: bool,
    pub limit: Option<usize>,
    pub charset: Seq<char>,
    pub verbose: bool,
    pub addonly: bool,
    pub nolog: bool,
    pub external: bool,
}

impl View for SessionOptions {
    type V = Options;

    open spec fn view(&self) -> Options {
        Options {
            echo: self.echo,
            limit: self.limit,
            charset: self.charset@,
            verbose: self.verbose,
            addonly: self.addonly,
            nolog: self.nolog,
            external: self.external,
        }
    }
}

/// The options that a session starts with: every switch off, and no limit.
pub open spec fn starting_options() -> Options {
    Options {
        echo: false,
        limit: None,
        charset: Seq::empty(),
        verbose: false,
        addonly: false,
        nolog: false,
        external: false,
    }
}

impl Default for SessionOptions {
    fn default() -> (o: Self)
        ensures
            o@ == starting_options(),
    {
        SessionOptions {
            echo: false,
            limit: None,
            charset: String::new(),
            verbose: false,
            addonly: false,
            nolog: false,
            external: false,
        }
    }
}

impl Clone for SessionOptions {
    fn clone(&self) -> (o: Self)
        ensures
            o@ == self@,
    {
        SessionOptions {
            echo: self.echo,
            limit: self.limit,
            charset: self.charset.clone(),
            verbose: self.verbose,
            addonly: self.addonly,
            nolog: self.nolog,
            external: self.external,
        }
    }
}

/// Why options were not set.
#[derive(Debug, Clone, Copy, PartialEq, Eq, Structural)]
pub enum SetFault {
    /// The option takes another kind of value.
    IllegalValue,
    /// There is no such option.
    UnknownOption,
}

/// The position of a switch: `on` or `off`, in any case.
pub open spec fn switch_of(val: Seq<char>) -> Option<bool> {
    if ascii_lower(val) == "on"@ {
        Some(true)
    } else if ascii_lower(val) == "off"@ {
        Some(false)
    } else {
        None
    }
}

/// The limit that a value sets: none for `off`, or a number.
pub open spec fn limit_of(val: Seq<char>) -> Option<Option<usize>> {
    if ascii_lower(val) == "off"@ {
        Some(None)
    } else {
        match natural_of(val) {
            Some(n) => if n <= usize::MAX {
                Some(Some(n as usize))
            } else {
                None
            },
            None => None,
        }
    }
}

/// The options with one of them set. The key is in lower case.
pub open spec fn with_option(o: Options, key: Seq<char>, val: Seq<char>) -> Result<
    Options,
    SetFault,
> {
    if key == "limit"@ {
        match limit_of(val) {
            Some(limit) => Ok(Options { limit, ..o }),
            None => Err(SetFault::IllegalValue),
        }
    } else if key == "charset"@ {
        Ok(Options { charset: val, ..o })
    } else if key == "echo"@ || key == "verbose"@ || key == "addonly"@ || key == "nolog"@ || key
        == "external"@ {
        match switch_of(val) {
            None => Err(SetFault::IllegalValue),
            Some(on) => if key == "echo"@ {
                Ok(Options { echo: on, ..o })
            } else if key == "verbose"@ {
                Ok(Options { verbose: on, ..o })
            } else if key == "addonly"@ {
                Ok(Options { addonly: on, ..o })
            } else if key == "nolog"@ {
                Ok(Options { nolog: on, ..o })
            } else {
                Ok(Options { external: on, ..o })
            },
        }
    } else {
        Err(SetFault::UnknownOption)
    }
}

/// The key of a token `key=value` or `key`.
pub open spec fn token_key(token: Seq<char>) -> Seq<char> {
    match cut(token, '=') {
        Some((key, _)) => trim(key),
        None => trim(token),
    }
}

/// The value of a token `key=value`; `on` where it has none.
pub open spec fn token_value(token: Seq<char>) -> Seq<char> {
    match cut(token, '=') {
        Some((_, val)) => trim(val),
        None => "on"@,
    }
}

/// The options with those of all the tokens set, one after the other; or the
/// fault of the first token that has one.
pub open spec fn with_tokens(o: Options, tokens: Seq<Seq<char>>) -> Result<Options, SetFault>
    decreases tokens.len(),
{
    if tokens.len() == 0 {
        Ok(o)
    } else {
        match with_option(o, lowercase(token_key(tokens[0])), token_value(tokens[0])) {
            Ok(next) => with_tokens(next, tokens.drop_first()),
            Err(fault) => Err(fault),
        }
    }
}

fn read_switch(val: &str) -> (r: Option<bool>)
    ensures
        r == switch_of(val@),
{
    proof {
        reveal_strlit("on");
        reveal_strlit("off");
        assert(ascii_lower("on"@) =~= "on"@);
        assert(ascii_lower("off"@) =~= "off"@);
    }
    if same_ignoring_ascii_case(val, "on") {
        Some(true)
    } else if same_ignoring_ascii_case(val, "off") {
        Some(false)
    } else {
        None
    }
}

fn read_limit(val: &str) -> (r: Option<Option<usize>>)
    ensures
        r == limit_of(val@),
{
    proof {
        reveal_strlit("off");
        assert(ascii_lower("off"@) =~= "off"@);
    }
    if same_ignoring_ascii_case(val, "off") {
        Some(None)
    } else {
        match parse_usize(val) {
            Some(n) => Some(Some(n)),
            None => None,
        }
    }
}

impl SessionOptions {
    /// Sets one option. The key is in lower case.
    pub fn set(&mut self, key: &str, val: &str) -> (r: Result<(), SetFault>)
        ensures
            match r {
                Ok(()) => with_option(old(self)@, key@, val@) == Ok::<Options, SetFault>(
                    final(self)@,
                ),
                Err(fault) => with_option(old(self)@, key@, val@) == Err::<Options, SetFault>(fault)
                    && final(self)@ == old(self)@,
            },
    {
        if same_text(key, "limit") {
            match read_limit(val) {
                Some(limit) => {
                    self.limit = limit;
                    Ok(())
                },
                None => Err(SetFault::IllegalValue),
            }
        } else if same_text(key, "charset") {
            self.charset = val.to_string();
            Ok(())
        } else if same_text(key, "echo") || same_text(key, "verbose") || same_text(key, "addonly")
            || same_text(key, "nolog") || same_text(key, "external") {
            match read_switch(val) {
                None => Err(SetFault::IllegalValue),
                Some(on) => {
                    if same_text(key, "echo") {
                        self.echo = on;
                    } else if same_text(key, "verbose") {
                        self.verbose = on;
                    } else if same_text(key, "addonly") {
                        self.addonly = on;
                    } else if same_text(key, "nolog") {
                        self.nolog = on;
                    } else {
                        self.external = on;
                    }
                    Ok(())
                },
            }
        } else {
            Err(SetFault::UnknownOption)
        }
    }

    /// The options with those of all the tokens set.
    pub fn with_set(&self, tokens: &[String]) -> (r: Result<SessionOptions, SetFault>)
        ensures
            match r {
                Ok(o) => with_tokens(self@, tokens.deep_view()) == Ok::<Options, SetFault>(o@),
                Err(fault) => with_tokens(self@, tokens.deep_view()) == Err::<Options, SetFault>(
                    fault,
                ),
            },
    {
        let ghost all = tokens.deep_view();
        let mut next = self.clone();
        let mut i: usize = 0;
        proof {
            assert(all.skip(0) =~= all);
        }
        while i < tokens.len()
            invariant
                i <= tokens@.len(),
                all == tokens.deep_view(),
                with_tokens(next@, all.skip(i as int)) == with_tokens(self@, all),
            decreases tokens.len() - i,
        {
            proof {
                assert(all.skip(i as int)[0] == tokens@[i as int]@);
                assert(all.skip(i as int).drop_first() =~= all.skip(i + 1));
            }
            let (key, val) = match cut_text(tokens[i].as_str(), '=') {
                Some((key, val)) => (trim_text(key.as_str()), trim_text(val.as_str())),
                None => (trim_text(tokens[i].as_str()), "on".to_string()),
            };
            let low = to_lowercase(key.as_str());
            match next.set(low.as_str(), val.as_str()) {
                Ok(()) => {},
                Err(fault) => {
                    return Err(fault);
                },
            }
            i = i + 1;
        }
        Ok(next)
    }
}

/// The word for the position of a switch.
pub open spec fn switch_word(on: bool) -> Seq<char> {
    if on {
        "on"@
    } else {
        "off"@
    }
}

/// The word for a limit.
pub open spec fn limit_word(limit: Option<usize>) -> Seq<char> {
    match limit {
        Some(n) => decimal(n as nat),
        None => "off"@,
    }
}

/// The lines that list the options.
pub open spec fn option_lines(o: Options) -> Seq<char> {
    "-200:echo:"@ + switch_word(o.echo) + "\n-200:limit:"@ + limit_word(o.limit)
        + "\n-200:charset:"@ + o.charset + "\n-200:verbose:"@ + switch_word(o.verbose)
        + "\n-200:addonly:"@ + switch_word(o.addonly) + "\n-200:nolog:"@ + switch_word(o.nolog)
        + "\n-200:external:"@ + switch_word(o.external) + "\n200:Done.\n"@
}

/// The answer to options that were not set.
pub open spec fn set_fault_line(fault: SetFault) -> Seq<char> {
    match fault {
        SetFault::IllegalValue => "512:Illegal value\n"@,
        SetFault::UnknownOption => "513:Unknown option\n"@,
    }
}

/// The answer to a request to set options, or without tokens to list them; and
/// the options afterwards.
pub open spec fn set_outcome(o: Options, tokens: Seq<Seq<char>>) -> (Options, Seq<char>) {
    if tokens.len() == 0 {
        (o, option_lines(o))
    } else {
        match with_tokens(o, tokens) {
            Ok(next) => (next, "200:Done.\n"@),
            Err(fault) => (o, set_fault_line(fault)),
        }
    }
}

fn switch_text(on: bool) -> (s: &'static str)
    ensures
        s@ == switch_word(on),
{
    if on {
        "on"
    } else {
        "off"
    }
}

fn limit_text(limit: Option<usize>) -> (s: String)
    ensures
        s@ == limit_word(limit),
{
    match limit {
        Some(n) => decimal_text(n),
        None => "off".to_string(),
    }
}

impl SessionOptions {
    /// Lists the options.
    pub fn describe(&self) -> (s: String)
        ensures
            s@ == option_lines(self@),
    {
        let mut s = "-200:echo:".to_string();
        s.append(switch_text(self.echo));
        s.append("\n-200:limit:");
        s.append(limit_text(self.limit).as_str());
        s.append("\n-200:charset:");
        s.append(self.charset.as_str());
        s.append("\n-200:verbose:");
        s.append(switch_text(self.verbose));
        s.append("\n-200:addonly:");
        s.append(switch_text(self.addonly));
        s.append("\n-200:nolog:");
        s.append(switch_text(self.nolog));
        s.append("\n-200:external:");
        s.append(switch_text(self.external));
        s.append("\n200:Done.\n");
        s
    }

    /// Sets options, or without tokens lists them. Where a token has a fault,
    /// no option is set.
    pub fn answer_set(&mut self, tokens: &[String]) -> (reply: String)
        ensures
            (final(self)@, reply@) == set_outcome(old(self)@, tokens.deep_view()),
    {
        if tokens.len() == 0 {
            return self.describe();
        }
        match self.with_set(tokens) {
            Ok(next) => {
                *self = next;
                "200:Done.\n".to_string()
            },
            Err(SetFault::IllegalValue) => "512:Illegal value\n".to_string(),
            Err(SetFault::UnknownOption) => "513:Unknown option\n".to_string(),
        }
    }
}

/// A request with a fault in any of its tokens changes no option.
pub proof fn law_set_all_or_nothing(o: Options, tokens: Seq<Seq<char>>)
    ensures
        with_tokens(o, tokens) is Err ==> set_outcome(o, tokens).0 == o,
{
}

/// The options other than the one that is set stay as they are.
pub open spec fn differ_in_one(o: Options, next: Options, key: Seq<char>) -> bool {
    &&& key != "echo"@ ==> next.echo == o.echo
    &&& key != "limit"@ ==> next.limit == o.limit
    &&& key != "charset"@ ==> next.charset == o.charset
    &&& key != "verbose"@ ==> next.verbose == o.verbose
    &&& key != "addonly"@ ==> next.addonly == o.addonly
    &&& key != "nolog"@ ==> next.nolog == o.nolog
    &&& key != "external"@ ==> next.external == o.external
}

proof fn lemma_option_names()
    ensures
        "echo"@.len() == 4,
        "limit"@.len() == 5,
        "charset"@.len() == 7,
        "verbose"@.len() == 7,
        "addonly"@.len() == 7,
        "nolog"@.len() == 5,
        "external"@.len() == 8,
        "limit"@ != "nolog"@,
        "charset"@ != "verbose"@,
        "charset"@ != "addonly"@,
        "verbose"@ != "addonly"@,
        "on"@ != "off"@,
{
    reveal_strlit("echo");
    reveal_strlit("limit");
    reveal_strlit("charset");
    reveal_strlit("verbose");
    reveal_strlit("addonly");
    reveal_strlit("nolog");
    reveal_strlit("external");
    reveal_strlit("on");
    reveal_strlit("off");
    assert("limit"@[0] == 'l' && "nolog"@[0] == 'n');
    assert("charset"@[0] == 'c' && "verbose"@[0] == 'v' && "addonly"@[0] == 'a');
    assert("on"@.len() == 2 && "off"@.len() == 3);
}

/// A switch is set by `on` and `off`, in either case, and by nothing else.
/// Setting an option changes that option and no other.
pub proof fn law_switches(o: Options, key: Seq<char>, val: Seq<char>)
    requires
        key == "echo"@ || key == "verbose"@ || key == "addonly"@ || key == "nolog"@ || key
            == "external"@,
    ensures
        with_option(o, key, val) is Ok <==> ascii_lower(val) == "on"@ || ascii_lower(val) == "off"@,
        with_option(o, key, val) matches Err(f) ==> f == SetFault::IllegalValue,
        with_option(o, key, val) matches Ok(next) ==> {
            let on = ascii_lower(val) == "on"@;
            &&& differ_in_one(o, next, key)
            &&& key == "echo"@ ==> next.echo == on
            &&& key == "verbose"@ ==> next.verbose == on
            &&& key == "addonly"@ ==> next.addonly == on
            &&& key == "nolog"@ ==> next.nolog == on
            &&& key == "external"@ ==> next.external == on
        },
{
    lemma_option_names();
}

/// The limit is set by a number that fits, and taken away by `off` in either
/// case. Anything else is refused.
pub proof fn law_limit_option(o: Options, n: nat, val: Seq<char>)
    ensures
        with_option(o, "limit"@, decimal(n)) == (if n <= usize::MAX {
            Ok(Options { limit: Some(n as usize), ..o })
        } else {
            Err(SetFault::IllegalValue)
        }),
        ascii_lower(val) == "off"@ ==> with_option(o, "limit"@, val) == Ok::<Options, SetFault>(
            Options { limit: None, ..o },
        ),
        ascii_lower(val) != "off"@ && natural_of(val) is None ==> with_option(o, "limit"@, val)
            == Err::<Options, SetFault>(SetFault::IllegalValue),
        with_option(o, "limit"@, val) matches Ok(next) ==> differ_in_one(o, next, "limit"@),
{
    lemma_option_names();
    law_decimal_reads_back(n);
    crate::numbers::lemma_decimal(n);
    reveal_strlit("off");
    assert("off"@[0] == 'o');
    let first = decimal(n)[0];
    assert(crate::address::digit_value(first, 10) is Some);
    assert(ascii_lower(decimal(n))[0] == first);
    assert(first != 'o');
    assert(ascii_lower(decimal(n)) != "off"@);
}

/// The character set is whatever it is set to, and no other name than those of
/// the seven options is one.
pub proof fn law_option_names(o: Options, key: Seq<char>, val: Seq<char>)
    ensures
        with_option(o, "charset"@, val) == Ok::<Options, SetFault>(Options { charset: val, ..o }),
        with_option(o, key, val) == Err::<Options, SetFault>(SetFault::UnknownOption) <==> key
            != "echo"@ && key != "limit"@ && key != "charset"@ && key != "verbose"@ && key
            != "addonly"@ && key != "nolog"@ && key != "external"@,
{
    lemma_option_names();
}

/// What one argument sets: the option before the first equals sign to the value
/// behind it, both without white space around them, the name in lower case. An
/// argument without an equals sign switches the option on.
pub proof fn law_set_argument(o: Options, key: Seq<char>, val: Seq<char>)
    requires
        !key.contains('='),
    ensures
        with_tokens(o, seq![key + seq!['='] + val]) == with_option(
            o,
            lowercase(trim(key)),
            trim(val),
        ),
        with_tokens(o, seq![key]) == with_option(o, lowercase(trim(key)), "on"@),
{
    law_cut(key, '=', val);
    let token = key + seq!['='] + val;
    law_set_in_order(o, Seq::empty(), seq![token]);
    assert(seq![token].drop_first() =~= Seq::<Seq<char>>::empty());
    assert(seq![key].drop_first() =~= Seq::<Seq<char>>::empty());
    reveal_with_fuel(with_tokens, 2);
}

/// Arguments are set one after the other, and the first that is refused decides.
pub proof fn law_set_in_order(o: Options, first: Seq<Seq<char>>, second: Seq<Seq<char>>)
    ensures
        with_tokens(o, Seq::empty()) == Ok::<Options, SetFault>(o),
        with_tokens(o, first + second) == match with_tokens(o, first) {
            Ok(next) => with_tokens(next, second),
            Err(f) => Err(f),
        },
    decreases first.len(),
{
    if first.len() == 0 {
        assert(first + second =~= second);
    } else {
        assert((first + second).drop_first() =~= first.drop_first() + second);
        match with_option(o, lowercase(token_key(first[0])), token_value(first[0])) {
            Ok(next) => {
                law_set_in_order(next, first.drop_first(), second);
            },
            Err(_) => {},
        }
    }
}

/// What is answered: without arguments, the options as they are, and nothing
/// changes; otherwise that they are set, or why not.
pub proof fn law_set_answered(o: Options, tokens: Seq<Seq<char>>)
    ensures
        set_outcome(o, Seq::empty()) == (o, option_lines(o)),
        tokens.len() > 0 ==> {
            &&& with_tokens(o, tokens) matches Ok(next) ==> set_outcome(o, tokens) == (
                next,
                "200:Done.\n"@,
            )
            &&& with_tokens(o, tokens) == Err::<Options, SetFault>(SetFault::IllegalValue)
                ==> set_outcome(o, tokens) == (o, "512:Illegal value\n"@)
            &&& with_tokens(o, tokens) == Err::<Options, SetFault>(SetFault::UnknownOption)
                ==> set_outcome(o, tokens) == (o, "513:Unknown option\n"@)
        },
{
}

/// The options are listed one to a line, each under its name: a switch as `on`
/// or `off`, the limit as its number or as `off`.
pub proof fn law_options_listed(o: Options)
    requires
        !o.charset.contains('\n'),
    ensures
        ({
            let lines = pieces(option_lines(o), Delimiter::Exactly('\n'));
            &&& lines.len() == 9
            &&& lines[0] == "-200:echo:"@ + on_or_off(o.echo)
            &&& lines[1] == "-200:limit:"@ + (match o.limit {
                Some(n) => decimal(n as nat),
                None => "off"@,
            })
            &&& lines[2] == "-200:charset:"@ + o.charset
            &&& lines[3] == "-200:verbose:"@ + on_or_off(o.verbose)
            &&& lines[4] == "-200:addonly:"@ + on_or_off(o.addonly)
            &&& lines[5] == "-200:nolog:"@ + on_or_off(o.nolog)
            &&& lines[6] == "-200:external:"@ + on_or_off(o.external)
            &&& lines[7] == "200:Done."@
            &&& lines[8].len() == 0
        }),
{
    let l = lines_of(o);
    lemma_lines_end(o);
    law_joined(l, Seq::empty(), '\n');
    lemma_lines_joined(o);
}

/// The lines of the list of options.
spec fn lines_of(o: Options) -> Seq<Seq<char>> {
    seq![
        "-200:echo:"@ + on_or_off(o.echo),
        "-200:limit:"@ + (match o.limit {
            Some(n) => decimal(n as nat),
            None => "off"@,
        }),
        "-200:charset:"@ + o.charset,
        "-200:verbose:"@ + on_or_off(o.verbose),
        "-200:addonly:"@ + on_or_off(o.addonly),
        "-200:nolog:"@ + on_or_off(o.nolog),
        "-200:external:"@ + on_or_off(o.external),
        "200:Done."@,
        Seq::<char>::empty(),
    ]
}

proof fn lemma_labels()
    ensures
        "\n-200:limit:"@ == seq!['\n'] + "-200:limit:"@,
        "\n-200:charset:"@ == seq!['\n'] + "-200:charset:"@,
        "\n-200:verbose:"@ == seq!['\n'] + "-200:verbose:"@,
        "\n-200:addonly:"@ == seq!['\n'] + "-200:addonly:"@,
        "\n-200:nolog:"@ == seq!['\n'] + "-200:nolog:"@,
        "\n-200:external:"@ == seq!['\n'] + "-200:external:"@,
        "\n200:Done.\n"@ == seq!['\n'] + "200:Done."@ + seq!['\n'],
{
    reveal_strlit("-200:limit:");
    reveal_strlit("-200:charset:");
    reveal_strlit("-200:verbose:");
    reveal_strlit("-200:addonly:");
    reveal_strlit("-200:nolog:");
    reveal_strlit("-200:external:");
    reveal_strlit("\n-200:limit:");
    reveal_strlit("\n-200:charset:");
    reveal_strlit("\n-200:verbose:");
    reveal_strlit("\n-200:addonly:");
    reveal_strlit("\n-200:nolog:");
    reveal_strlit("\n-200:external:");
    reveal_strlit("\n200:Done.\n");
    reveal_strlit("200:Done.");
    assert("\n-200:limit:"@ =~= seq!['\n'] + "-200:limit:"@);
    assert("\n-200:charset:"@ =~= seq!['\n'] + "-200:charset:"@);
    assert("\n-200:verbose:"@ =~= seq!['\n'] + "-200:verbose:"@);
    assert("\n-200:addonly:"@ =~= seq!['\n'] + "-200:addonly:"@);
    assert("\n-200:nolog:"@ =~= seq!['\n'] + "-200:nolog:"@);
    assert("\n-200:external:"@ =~= seq!['\n'] + "-200:external:"@);
    assert("\n200:Done.\n"@ =~= seq!['\n'] + "200:Done."@ + seq!['\n']);
}

proof fn lemma_no_end_in(a: Seq<char>, b: Seq<char>)
    requires
        !a.contains('\n'),
        !b.contains('\n'),
    ensures
        !(a + b).contains('\n'),
{
    let s = a + b;
    if s.contains('\n') {
        let k = choose|k: int| 0 <= k < s.len() && s[k] == '\n';
        if k < a.len() {
            assert(a[k] == '\n');
        } else {
            assert(b[k - a.len()] == '\n');
        }
    }
}

proof fn lemma_lines_end(o: Options)
    requires
        !o.charset.contains('\n'),
    ensures
        forall|i: int| 0 <= i < lines_of(o).len() ==> !(#[trigger] lines_of(o)[i]).contains('\n'),
{
    reveal_strlit("-200:echo:");
    reveal_strlit("-200:limit:");
    reveal_strlit("-200:charset:");
    reveal_strlit("-200:verbose:");
    reveal_strlit("-200:addonly:");
    reveal_strlit("-200:nolog:");
    reveal_strlit("-200:external:");
    reveal_strlit("200:Done.");
    reveal_strlit("on");
    reveal_strlit("off");
    assert(!"off"@.contains('\n') && !"on"@.contains('\n'));
    if o.limit is Some {
        lemma_no_line_end(o.limit->0 as nat);
        lemma_no_end_in("-200:limit:"@, decimal(o.limit->0 as nat));
    } else {
        lemma_no_end_in("-200:limit:"@, "off"@);
    }
    lemma_no_end_in("-200:echo:"@, on_or_off(o.echo));
    lemma_no_end_in("-200:charset:"@, o.charset);
    lemma_no_end_in("-200:verbose:"@, on_or_off(o.verbose));
    lemma_no_end_in("-200:addonly:"@, on_or_off(o.addonly));
    lemma_no_end_in("-200:nolog:"@, on_or_off(o.nolog));
    lemma_no_end_in("-200:external:"@, on_or_off(o.external));
}

proof fn lemma_joined_push(list: Seq<Seq<char>>, last: Seq<char>)
    requires
        list.len() > 0,
    ensures
        joined(list.push(last), '\n') == joined(list, '\n') + (seq!['\n'] + last),
{
    assert(list.push(last).drop_last() =~= list);
    assert(joined(list, '\n').push('\n') + last =~= joined(list, '\n') + (seq!['\n'] + last));
}

#[verifier::rlimit(40)]
proof fn lemma_lines_joined(o: Options)
    ensures
        joined(lines_of(o), '\n') == option_lines(o),
{
    lemma_labels();
    let l = lines_of(o);
    let d1 = seq![l[0]];
    let d2 = d1.push(l[1]);
    let d3 = d2.push(l[2]);
    let d4 = d3.push(l[3]);
    let d5 = d4.push(l[4]);
    let d6 = d5.push(l[5]);
    let d7 = d6.push(l[6]);
    let d8 = d7.push(l[7]);
    let d9 = d8.push(l[8]);
    assert(d9 =~= l);
    lemma_joined_push(d1, l[1]);
    lemma_joined_push(d2, l[2]);
    lemma_joined_push(d3, l[3]);
    lemma_joined_push(d4, l[4]);
    lemma_joined_push(d5, l[5]);
    lemma_joined_push(d6, l[6]);
    lemma_joined_push(d7, l[7]);
    lemma_joined_push(d8, l[8]);
    let t1 = "-200:echo:"@ + switch_word(o.echo);
    let t2 = t1 + "\n-200:limit:"@ + limit_word(o.limit);
    let t3 = t2 + "\n-200:charset:"@ + o.charset;
    let t4 = t3 + "\n-200:verbose:"@ + switch_word(o.verbose);
    let t5 = t4 + "\n-200:addonly:"@ + switch_word(o.addonly);
    let t6 = t5 + "\n-200:nolog:"@ + switch_word(o.nolog);
    let t7 = t6 + "\n-200:external:"@ + switch_word(o.external);
    assert(joined(d1, '\n') == t1);
    lemma_line_behind(t1, "\n-200:limit:"@, "-200:limit:"@, limit_word(o.limit));
    assert(joined(d2, '\n') == t2);
    lemma_line_behind(t2, "\n-200:charset:"@, "-200:charset:"@, o.charset);
    assert(joined(d3, '\n') == t3);
    lemma_line_behind(t3, "\n-200:verbose:"@, "-200:verbose:"@, switch_word(o.verbose));
    assert(joined(d4, '\n') == t4);
    lemma_line_behind(t4, "\n-200:addonly:"@, "-200:addonly:"@, switch_word(o.addonly));
    assert(joined(d5, '\n') == t5);
    lemma_line_behind(t5, "\n-200:nolog:"@, "-200:nolog:"@, switch_word(o.nolog));
    assert(joined(d6, '\n') == t6);
    lemma_line_behind(t6, "\n-200:external:"@, "-200:external:"@, switch_word(o.external));
    assert(joined(d7, '\n') == t7);
    let end = seq!['\n'] + "200:Done."@;
    assert((t7 + end) + (seq!['\n'] + Seq::<char>::empty()) =~= t7 + (end + seq!['\n']));
}

proof fn lemma_line_behind(text: Seq<char>, behind: Seq<char>, label: Seq<char>, word: Seq<char>)
    requires
        behind == seq!['\n'] + label,
    ensures
        text + behind + word == text + (seq!['\n'] + (label + word)),
{
    assert(text + behind + word =~= text + (seq!['\n'] + (label + word)));
}

/// How a switch is listed.
pub open spec fn on_or_off(on: bool) -> Seq<char> {
    if on {
        "on"@
    } else {
        "off"@
    }
}

proof fn lemma_no_line_end(n: nat)
    ensures
        !decimal(n).contains('\n'),
{
    crate::numbers::lemma_decimal(n);
    let s = decimal(n);
    assert forall|i: int| 0 <= i < s.len() implies s[i] != '\n' by {
        assert(crate::address::digit_value(s[i], 10) is Some);
    }
}

} // verus!
