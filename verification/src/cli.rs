use vstd::prelude::*;

verus! {

/// The settings the program runs with.
#[derive(Debug, PartialEq, Eq)]
pub struct Cli {
    pub agent: String,
    pub token: String,
    pub session: String,
    /// A single message to send without the full-screen interface.
    pub once: Option<String>,
}

/// What the command line asks for.
#[derive(Debug, PartialEq, Eq)]
pub enum Command {
    Run(Cli),
    Help,
}

/// Why the command line is refused.
#[derive(Debug, PartialEq, Eq)]
pub enum CliError {
    UnknownArgument(String),
    MissingAgent,
    MissingToken,
}

pub struct CliView {
    pub agent: Seq<char>,
    pub token: Seq<char>,
    pub session: Seq<char>,
    pub once: Option<Seq<char>>,
}

pub enum CommandView {
    Run(CliView),
    Help,
}

pub enum CliErrorView {
    UnknownArgument(Seq<char>),
    MissingAgent,
    MissingToken,
}

pub open spec fn opt_view(o: Option<String>) -> Option<Seq<char>> {
    match o {
        Some(s) => Some(s@),
        None => None,
    }
}

impl View for Cli {
    type V = CliView;

    open spec fn view(&self) -> CliView {
        CliView {
            agent: self.agent@,
            token: self.token@,
            session: self.session@,
            once: opt_view(self.once),
        }
    }
}

impl View for Command {
    type V = CommandView;

    open spec fn view(&self) -> CommandView {
        match self {
            Command::Run(c) => CommandView::Run(c@),
            Command::Help => CommandView::Help,
        }
    }
}

impl View for CliError {
    type V = CliErrorView;

    open spec fn view(&self) -> CliErrorView {
        match self {
            CliError::UnknownArgument(a) => CliErrorView::UnknownArgument(a@),
            CliError::MissingAgent => CliErrorView::MissingAgent,
            CliError::MissingToken => CliErrorView::MissingToken,
        }
    }
}

/// What the options read so far have set.
pub struct ScanState {
    pub agent: Option<Seq<char>>,
    pub token: Option<Seq<char>>,
    pub session: Seq<char>,
    pub once: Option<Seq<char>>,
}

pub enum ScanOutcome {
    Done(ScanState),
    Help,
    Unknown(Seq<char>),
}

/// The arguments from `i` on read over `st`. `--agent`, `--token` and
/// `--once` take the next argument, and are unset when there is none;
/// `--session` takes the next argument when there is one; `-h` and
/// `--help` stop the reading; any other argument is refused.
pub open spec fn scan(args: Seq<Seq<char>>, i: int, st: ScanState) -> ScanOutcome
    decreases args.len() - i,
{
    if i < 0 || i >= args.len() {
        ScanOutcome::Done(st)
    } else {
        let a = args[i];
        let next = if i + 1 < args.len() {
            Some(args[i + 1])
        } else {
            None
        };
        let after = if i + 1 < args.len() {
            i + 2
        } else {
            i + 1
        };
        if a == "--agent"@ {
            scan(args, after, ScanState { agent: next, ..st })
        } else if a == "--token"@ {
            scan(args, after, ScanState { token: next, ..st })
        } else if a == "--session"@ {
            scan(
                args,
                after,
                match next {
                    Some(s) => ScanState { session: s, ..st },
                    None => st,
                },
            )
        } else if a == "--once"@ {
            scan(args, after, ScanState { once: next, ..st })
        } else if a == "-h"@ || a == "--help"@ {
            ScanOutcome::Help
        } else {
            ScanOutcome::Unknown(a)
        }
    }
}

/// An unset or empty value counts as missing.
pub open spec fn present(o: Option<Seq<char>>) -> bool {
    o matches Some(s) && s.len() > 0
}

/// The command a finished reading gives: the agent, then the token, must
/// be set and not empty.
pub open spec fn outcome_command(o: ScanOutcome) -> Result<CommandView, CliErrorView> {
    match o {
        ScanOutcome::Help => Ok(CommandView::Help),
        ScanOutcome::Unknown(a) => Err(CliErrorView::UnknownArgument(a)),
        ScanOutcome::Done(st) => if !present(st.agent) {
            Err(CliErrorView::MissingAgent)
        } else if !present(st.token) {
            Err(CliErrorView::MissingToken)
        } else {
            Ok(
                CommandView::Run(
                    CliView {
                        agent: st.agent->0,
                        token: st.token->0,
                        session: st.session,
                        once: st.once,
                    },
                ),
            )
        },
    }
}

/// The command that the arguments `args` (program name left out) and the
/// values of `GHOSTY_AGENT` and `GHOSTY_TOKEN` give; the session defaults to
/// "default".
pub open spec fn command_of(
    env_agent: Option<Seq<char>>,
    env_token: Option<Seq<char>>,
    args: Seq<Seq<char>>,
) -> Result<CommandView, CliErrorView> {
    outcome_command(
        scan(
            args,
            0,
            ScanState { agent: env_agent, token: env_token, session: "default"@, once: None },
        ),
    )
}

pub open spec fn result_view(r: Result<Command, CliError>) -> Result<CommandView, CliErrorView> {
    match r {
        Ok(c) => Ok(c@),
        Err(e) => Err(e@),
    }
}

pub open spec fn strings_of(v: Seq<String>) -> Seq<Seq<char>> {
    v.map_values(|s: String| s@)
}

fn clone_opt(o: &Option<String>) -> (r: Option<String>)
    ensures
        opt_view(r) == opt_view(*o),
{
    match o {
        Some(s) => Some(s.clone()),
        None => None,
    }
}

fn is_present(o: &Option<String>) -> (r: bool)
    ensures
        r == present(opt_view(*o)),
{
    match o {
        Some(s) => !s.as_str().is_empty(),
        None => false,
    }
}

/// Reads the command line.
pub fn parse_args(env_agent: Option<String>, env_token: Option<String>, args: Vec<String>) -> (r:
    Result<Command, CliError>)
    ensures
        result_view(r) == command_of(opt_view(env_agent), opt_view(env_token), strings_of(args@)),
{
    let ghost sargs = strings_of(args@);
    let mut agent = env_agent;
    let mut token = env_token;
    let mut session = "default".to_owned();
    let mut once: Option<String> = None;
    let n = args.len();
    let mut i: usize = 0;
    while i < n
        invariant
            n == args@.len(),
            sargs == strings_of(args@),
            sargs.len() == n,
            i <= n,
            command_of(opt_view(env_agent), opt_view(env_token), sargs) == outcome_command(
                scan(
                    sargs,
                    i as int,
                    ScanState {
                        agent: opt_view(agent),
                        token: opt_view(token),
                        session: session@,
                        once: opt_view(once),
                    },
                ),
            ),
        decreases n - i,
    {
        let a = &args[i];
        assert(sargs[i as int] == a@);
        let has_next = i + 1 < n;
        let next = if has_next {
            Some(args[i + 1].clone())
        } else {
            None
        };
        assert(has_next ==> sargs[i + 1] == args@[i + 1]@);
        let after = if has_next {
            i + 2
        } else {
            i + 1
        };
        if *a == "--agent".to_owned() {
            agent = next;
        } else if *a == "--token".to_owned() {
            token = next;
        } else if *a == "--session".to_owned() {
            match next {
                Some(s) => {
                    session = s;
                },
                None => {},
            }
        } else if *a == "--once".to_owned() {
            once = next;
        } else if *a == "-h".to_owned() || *a == "--help".to_owned() {
            return Ok(Command::Help);
        } else {
            return Err(CliError::UnknownArgument(a.clone()));
        }
        i = after;
    }
    if !is_present(&agent) {
        return Err(CliError::MissingAgent);
    }
    if !is_present(&token) {
        return Err(CliError::MissingToken);
    }
    let agent = match agent {
        Some(s) => s,
        None => String::new(),
    };
    let token = match token {
        Some(s) => s,
        None => String::new(),
    };
    Ok(Command::Run(Cli { agent, token, session, once }))
}

impl CliError {
    /// The message the program prints for this error.
    pub fn message(&self) -> (r: String)
        ensures
            r@ == match self@ {
                CliErrorView::UnknownArgument(a) => "argumento desconocido: "@ + a,
                CliErrorView::MissingAgent =>
                    "falta --agent <id> (o env GHOSTY_AGENT). Obt\u{e9}n uno con el MCP agent_create({})."@,
                CliErrorView::MissingToken =>
                    "falta --token <embedToken> (o env GHOSTY_TOKEN). Es el embedToken de agent_create."@,
            },
    {
        match self {
            CliError::UnknownArgument(a) => {
                let mut m = "argumento desconocido: ".to_owned();
                m.append(a.as_str());
                m
            },
            CliError::MissingAgent => "falta --agent <id> (o env GHOSTY_AGENT). Obt\u{e9}n uno con el MCP agent_create({}).".to_owned(),
            CliError::MissingToken => "falta --token <embedToken> (o env GHOSTY_TOKEN). Es el embedToken de agent_create.".to_owned(),
        }
    }
}

/// An option that takes the argument after it and leaves the token alone.
pub open spec fn takes_value(a: Seq<char>) -> bool {
    a == "--agent"@ || a == "--session"@ || a == "--once"@
}

/// Arguments made of options that take a value, each followed by its value.
pub open spec fn valued_options(pre: Seq<Seq<char>>) -> bool {
    &&& pre.len() % 2 == 0
    &&& forall|j: int| 0 <= j < pre.len() && j % 2 == 0 ==> takes_value(#[trigger] pre[j])
}

proof fn lemma_option_names()
    ensures
        "--agent"@ != "--token"@,
        "--session"@ != "--token"@,
        "--once"@ != "--token"@,
{
    reveal_strlit("--agent");
    reveal_strlit("--token");
    reveal_strlit("--session");
    reveal_strlit("--once");
    assert("--agent"@[2] != "--token"@[2]);
    assert("--session"@.len() != "--token"@.len());
    assert("--once"@.len() != "--token"@.len());
}

/// Reading from `i` and from `j` gives the same when the arguments from
/// there on are the same.
proof fn lemma_scan_same_tail(x: Seq<Seq<char>>, i: int, y: Seq<Seq<char>>, j: int, st: ScanState)
    requires
        0 <= i <= x.len(),
        0 <= j <= y.len(),
        x.skip(i) == y.skip(j),
    ensures
        scan(x, i, st) == scan(y, j, st),
    decreases x.len() - i,
{
    assert(x.skip(i).len() == x.len() - i);
    assert(y.skip(j).len() == y.len() - j);
    if i < x.len() {
        assert(j < y.len());
        assert(x[i] == x.skip(i)[0]);
        assert(y[j] == y.skip(j)[0]);
        if i + 1 < x.len() {
            assert(j + 1 < y.len());
            assert(x[i + 1] == x.skip(i)[1]);
            assert(y[j + 1] == y.skip(j)[1]);
            assert(x.skip(i + 2) =~= x.skip(i).skip(2));
            assert(y.skip(j + 2) =~= y.skip(j).skip(2));
        } else {
            assert(x.skip(i + 1) =~= x.skip(i).skip(1));
            assert(y.skip(j + 1) =~= y.skip(j).skip(1));
        }
        let a = x[i];
        let next = if i + 1 < x.len() { Some(x[i + 1]) } else { None };
        let ai = if i + 1 < x.len() { i + 2 } else { i + 1 };
        let aj = if j + 1 < y.len() { j + 2 } else { j + 1 };
        lemma_scan_same_tail(x, ai, y, aj, ScanState { agent: next, ..st });
        lemma_scan_same_tail(x, ai, y, aj, ScanState { token: next, ..st });
        lemma_scan_same_tail(x, ai, y, aj, ScanState { once: next, ..st });
        match next {
            Some(v) => lemma_scan_same_tail(x, ai, y, aj, ScanState { session: v, ..st }),
            None => lemma_scan_same_tail(x, ai, y, aj, st),
        }
    } else {
        assert(y.skip(j).len() == 0);
    }
}

/// Over options that take a value, reading with `--token v` after them, from
/// any token, is reading without it from the token `v`.
proof fn lemma_scan_token_flag(
    pre: Seq<Seq<char>>,
    v: Seq<char>,
    rest: Seq<Seq<char>>,
    j: int,
    sx: ScanState,
    sy: ScanState,
)
    requires
        valued_options(pre),
        0 <= j <= pre.len(),
        j % 2 == 0,
        sx.agent == sy.agent,
        sx.session == sy.session,
        sx.once == sy.once,
        sy.token == Some(v),
    ensures
        scan(pre + seq!["--token"@, v] + rest, j, sx) == scan(pre + rest, j, sy),
    decreases pre.len() - j,
{
    let x = pre + seq!["--token"@, v] + rest;
    let y = pre + rest;
    lemma_option_names();
    if j == pre.len() {
        assert(x[j] == "--token"@);
        assert(x[j + 1] == v);
        let s2 = ScanState { token: Some(v), ..sx };
        assert(s2 == sy);
        assert(x.skip(j + 2) =~= y.skip(j));
        lemma_scan_same_tail(x, j + 2, y, j, sy);
    } else {
        assert(j + 1 < pre.len());
        assert(takes_value(pre[j]));
        assert(x[j] == pre[j] && y[j] == pre[j]);
        assert(x[j + 1] == pre[j + 1] && y[j + 1] == pre[j + 1]);
        let nv = pre[j + 1];
        lemma_scan_token_flag(pre, v, rest, j + 2, ScanState { agent: Some(nv), ..sx }, ScanState { agent: Some(nv), ..sy });
        lemma_scan_token_flag(pre, v, rest, j + 2, ScanState { session: nv, ..sx }, ScanState { session: nv, ..sy });
        lemma_scan_token_flag(pre, v, rest, j + 2, ScanState { once: Some(nv), ..sx }, ScanState { once: Some(nv), ..sy });
    }
}

/// Reading arguments none of which is `--token` keeps the token.
proof fn lemma_scan_keeps_token(args: Seq<Seq<char>>, i: int, st: ScanState)
    requires
        0 <= i,
        forall|k: int| i <= k < args.len() ==> args[k] != "--token"@,
    ensures
        scan(args, i, st) matches ScanOutcome::Done(s2) ==> s2.token == st.token,
    decreases args.len() - i,
{
    if i < args.len() {
        let next = if i + 1 < args.len() { Some(args[i + 1]) } else { None };
        let after = if i + 1 < args.len() { i + 2 } else { i + 1 };
        lemma_scan_keeps_token(args, after, ScanState { agent: next, ..st });
        lemma_scan_keeps_token(args, after, ScanState { once: next, ..st });
        match next {
            Some(v) => lemma_scan_keeps_token(args, after, ScanState { session: v, ..st }),
            None => lemma_scan_keeps_token(args, after, st),
        }
    }
}

/// Reading options that take a value, then arguments none of which is
/// `--token`, keeps the token.
proof fn lemma_scan_keeps_token_after(pre: Seq<Seq<char>>, rest: Seq<Seq<char>>, j: int, st: ScanState)
    requires
        valued_options(pre),
        0 <= j <= pre.len(),
        j % 2 == 0,
        forall|k: int| 0 <= k < rest.len() ==> rest[k] != "--token"@,
    ensures
        scan(pre + rest, j, st) matches ScanOutcome::Done(s2) ==> s2.token == st.token,
    decreases pre.len() - j,
{
    let y = pre + rest;
    if j == pre.len() {
        assert forall|k: int| j <= k < y.len() implies y[k] != "--token"@ by {
            assert(y[k] == rest[k - j]);
        }
        lemma_scan_keeps_token(y, j, st);
    } else {
        lemma_option_names();
        assert(j + 1 < pre.len());
        assert(takes_value(pre[j]));
        assert(y[j] == pre[j] && y[j + 1] == pre[j + 1]);
        let nv = pre[j + 1];
        lemma_scan_keeps_token_after(pre, rest, j + 2, ScanState { agent: Some(nv), ..st });
        lemma_scan_keeps_token_after(pre, rest, j + 2, ScanState { session: nv, ..st });
        lemma_scan_keeps_token_after(pre, rest, j + 2, ScanState { once: Some(nv), ..st });
    }
}

/// The environment's token is only a fallback: `--token v`, after any
/// options that take a value, reads as if `GHOSTY_TOKEN` held `v`, whatever
/// it holds; and when no `--token` follows, the command runs with `v`.
pub proof fn lemma_token_flag_overrides_env(
    env_agent: Option<Seq<char>>,
    env_token: Option<Seq<char>>,
    pre: Seq<Seq<char>>,
    v: Seq<char>,
    rest: Seq<Seq<char>>,
)
    requires
        valued_options(pre),
    ensures
        command_of(env_agent, env_token, pre + seq!["--token"@, v] + rest) == command_of(
            env_agent,
            Some(v),
            pre + rest,
        ),
        (forall|k: int| 0 <= k < rest.len() ==> rest[k] != "--token"@) ==> (command_of(
            env_agent,
            env_token,
            pre + seq!["--token"@, v] + rest,
        ) matches Ok(CommandView::Run(c)) ==> c.token == v),
{
    let sx = ScanState { agent: env_agent, token: env_token, session: "default"@, once: None };
    let sy = ScanState { agent: env_agent, token: Some(v), session: "default"@, once: None };
    lemma_scan_token_flag(pre, v, rest, 0, sx, sy);
    if forall|k: int| 0 <= k < rest.len() ==> rest[k] != "--token"@ {
        lemma_scan_keeps_token_after(pre, rest, 0, sy);
    }
}

/// An option that takes the argument after it and leaves the agent alone.
pub open spec fn takes_value_not_agent(a: Seq<char>) -> bool {
    a == "--token"@ || a == "--session"@ || a == "--once"@
}

/// Arguments made of options other than `--agent` that take a value, each
/// followed by its value.
pub open spec fn valued_options_not_agent(pre: Seq<Seq<char>>) -> bool {
    &&& pre.len() % 2 == 0
    &&& forall|j: int| 0 <= j < pre.len() && j % 2 == 0 ==> takes_value_not_agent(#[trigger] pre[j])
}

proof fn lemma_option_names_agent()
    ensures
        "--token"@ != "--agent"@,
        "--session"@ != "--agent"@,
        "--once"@ != "--agent"@,
{
    reveal_strlit("--agent");
    reveal_strlit("--token");
    reveal_strlit("--session");
    reveal_strlit("--once");
    assert("--agent"@[2] != "--token"@[2]);
    assert("--session"@.len() != "--agent"@.len());
    assert("--once"@.len() != "--agent"@.len());
}

proof fn lemma_scan_agent_flag(
    pre: Seq<Seq<char>>,
    v: Seq<char>,
    rest: Seq<Seq<char>>,
    j: int,
    sx: ScanState,
    sy: ScanState,
)
    requires
        valued_options_not_agent(pre),
        0 <= j <= pre.len(),
        j % 2 == 0,
        sx.token == sy.token,
        sx.session == sy.session,
        sx.once == sy.once,
        sy.agent == Some(v),
    ensures
        scan(pre + seq!["--agent"@, v] + rest, j, sx) == scan(pre + rest, j, sy),
    decreases pre.len() - j,
{
    let x = pre + seq!["--agent"@, v] + rest;
    let y = pre + rest;
    lemma_option_names_agent();
    if j == pre.len() {
        assert(x[j] == "--agent"@);
        assert(x[j + 1] == v);
        let s2 = ScanState { agent: Some(v), ..sx };
        assert(s2 == sy);
        assert(x.skip(j + 2) =~= y.skip(j));
        lemma_scan_same_tail(x, j + 2, y, j, sy);
    } else {
        assert(j + 1 < pre.len());
        assert(takes_value_not_agent(pre[j]));
        assert(x[j] == pre[j] && y[j] == pre[j]);
        assert(x[j + 1] == pre[j + 1] && y[j + 1] == pre[j + 1]);
        let nv = pre[j + 1];
        lemma_scan_agent_flag(pre, v, rest, j + 2, ScanState { token: Some(nv), ..sx }, ScanState { token: Some(nv), ..sy });
        lemma_scan_agent_flag(pre, v, rest, j + 2, ScanState { session: nv, ..sx }, ScanState { session: nv, ..sy });
        lemma_scan_agent_flag(pre, v, rest, j + 2, ScanState { once: Some(nv), ..sx }, ScanState { once: Some(nv), ..sy });
    }
}

proof fn lemma_scan_keeps_agent(args: Seq<Seq<char>>, i: int, st: ScanState)
    requires
        0 <= i,
        forall|k: int| i <= k < args.len() ==> args[k] != "--agent"@,
    ensures
        scan(args, i, st) matches ScanOutcome::Done(s2) ==> s2.agent == st.agent,
    decreases args.len() - i,
{
    if i < args.len() {
        let next = if i + 1 < args.len() { Some(args[i + 1]) } else { None };
        let after = if i + 1 < args.len() { i + 2 } else { i + 1 };
        lemma_scan_keeps_agent(args, after, ScanState { token: next, ..st });
        lemma_scan_keeps_agent(args, after, ScanState { once: next, ..st });
        match next {
            Some(v) => lemma_scan_keeps_agent(args, after, ScanState { session: v, ..st }),
            None => lemma_scan_keeps_agent(args, after, st),
        }
    }
}

proof fn lemma_scan_keeps_agent_after(pre: Seq<Seq<char>>, rest: Seq<Seq<char>>, j: int, st: ScanState)
    requires
        valued_options_not_agent(pre),
        0 <= j <= pre.len(),
        j % 2 == 0,
        forall|k: int| 0 <= k < rest.len() ==> rest[k] != "--agent"@,
    ensures
        scan(pre + rest, j, st) matches ScanOutcome::Done(s2) ==> s2.agent == st.agent,
    decreases pre.len() - j,
{
    let y = pre + rest;
    if j == pre.len() {
        assert forall|k: int| j <= k < y.len() implies y[k] != "--agent"@ by {
            assert(y[k] == rest[k - j]);
        }
        lemma_scan_keeps_agent(y, j, st);
    } else {
        lemma_option_names_agent();
        assert(j + 1 < pre.len());
        assert(takes_value_not_agent(pre[j]));
        assert(y[j] == pre[j] && y[j + 1] == pre[j + 1]);
        let nv = pre[j + 1];
        lemma_scan_keeps_agent_after(pre, rest, j + 2, ScanState { token: Some(nv), ..st });
        lemma_scan_keeps_agent_after(pre, rest, j + 2, ScanState { session: nv, ..st });
        lemma_scan_keeps_agent_after(pre, rest, j + 2, ScanState { once: Some(nv), ..st });
    }
}

/// The environment's agent is only a fallback: `--agent v`, after any other
/// options that take a value, reads as if `GHOSTY_AGENT` held `v`, whatever
/// it holds; and when no `--agent` follows, the command runs with `v`.
pub proof fn lemma_agent_flag_overrides_env(
    env_agent: Option<Seq<char>>,
    env_token: Option<Seq<char>>,
    pre: Seq<Seq<char>>,
    v: Seq<char>,
    rest: Seq<Seq<char>>,
)
    requires
        valued_options_not_agent(pre),
    ensures
        command_of(env_agent, env_token, pre + seq!["--agent"@, v] + rest) == command_of(
            Some(v),
            env_token,
            pre + rest,
        ),
        (forall|k: int| 0 <= k < rest.len() ==> rest[k] != "--agent"@) ==> (command_of(
            env_agent,
            env_token,
            pre + seq!["--agent"@, v] + rest,
        ) matches Ok(CommandView::Run(c)) ==> c.agent == v),
{
    let sx = ScanState { agent: env_agent, token: env_token, session: "default"@, once: None };
    let sy = ScanState { agent: Some(v), token: env_token, session: "default"@, once: None };
    lemma_scan_agent_flag(pre, v, rest, 0, sx, sy);
    if forall|k: int| 0 <= k < rest.len() ==> rest[k] != "--agent"@ {
        lemma_scan_keeps_agent_after(pre, rest, 0, sy);
    }
}

/// With no arguments the environment decides: the agent must be set and not
/// empty, then the token; the command then runs with both, in the session
/// "default" and without a single message.
pub proof fn lemma_environment_alone(env_agent: Option<Seq<char>>, env_token: Option<Seq<char>>)
    ensures
        command_of(env_agent, env_token, seq![]) == if !(env_agent matches Some(a) && a.len() > 0) {
            Err(CliErrorView::MissingAgent)
        } else if !(env_token matches Some(t) && t.len() > 0) {
            Err(CliErrorView::MissingToken)
        } else {
            Ok(
                CommandView::Run(
                    CliView {
                        agent: env_agent->0,
                        token: env_token->0,
                        session: "default"@,
                        once: None,
                    },
                ),
            )
        },
{
}

} // verus!
