//! What the agent is told on its command line and by its environment.
use vstd::prelude::*;
use vstd::string::*;

use crate::text;

verus! {

/// Whether convergence touches the machine or only its state directory.
#[derive(Debug, Clone, Copy, PartialEq, Eq, Structural)]
pub enum ApplyMode {
    StateDir,
    Linux,
}

/// Where the node's token comes from.
#[derive(Debug, PartialEq, Eq)]
pub enum TokenSource {
    Inline(String),
    File(String),
}

/// A token's source, by its characters.
pub enum TokenView {
    Inline(Seq<char>),
    File(Seq<char>),
}

impl View for TokenSource {
    type V = TokenView;

    open spec fn view(&self) -> TokenView {
        match *self {
            TokenSource::Inline(t) => TokenView::Inline(t@),
            TokenSource::File(p) => TokenView::File(p@),
        }
    }
}

/// The environment's variables that the agent reads.
#[derive(Debug, PartialEq, Eq)]
pub struct Environment {
    /// `BROCADE_AGENT_SERVER`
    pub server: Option<String>,
    /// `BROCADE_NODE_TOKEN`
    pub token: Option<String>,
    /// `BROCADE_NODE_TOKEN_FILE`
    pub token_file: Option<String>,
    /// `BROCADE_AGENT_STATE_DIR`
    pub state_dir: Option<String>,
    /// `BROCADE_AGENT_APPLY`
    pub apply: Option<String>,
}

/// The agent's options. The token is still to be resolved.
#[derive(Debug, PartialEq, Eq)]
pub struct Options {
    pub command: String,
    pub server: String,
    pub token: TokenSource,
    pub state_dir: String,
    pub apply_mode: ApplyMode,
}

/// Options in the middle of reading them.
pub struct Draft {
    pub command: Option<Seq<char>>,
    pub server: Option<Seq<char>>,
    pub token: Option<TokenView>,
    pub state_dir: Seq<char>,
    pub apply_mode: ApplyMode,
}

/// The apply mode of a name.
pub open spec fn mode_of(value: Seq<char>) -> Result<ApplyMode, Seq<char>> {
    if value == "state-dir"@ {
        Ok(ApplyMode::StateDir)
    } else if value == "linux"@ {
        Ok(ApplyMode::Linux)
    } else {
        Err("unknown apply mode "@ + value + "; expected state-dir or linux"@)
    }
}

/// The apply mode of a name.
pub fn parse_apply_mode(value: &str) -> (r: Result<ApplyMode, String>)
    ensures
        match r {
            Ok(m) => mode_of(value@) == Ok::<ApplyMode, Seq<char>>(m),
            Err(e) => mode_of(value@) == Err::<ApplyMode, Seq<char>>(e@),
        },
{
    if text::same_str(value, "state-dir") {
        Ok(ApplyMode::StateDir)
    } else if text::same_str(value, "linux") {
        Ok(ApplyMode::Linux)
    } else {
        let mut out = "unknown apply mode ".to_owned();
        out.append(value);
        out.append("; expected state-dir or linux");
        Err(out)
    }
}

/// The environment's token: inline where that is not blank, else a file's name where
/// that is not.
pub open spec fn token_of(env: Environment) -> Option<TokenView> {
    match text::optional(env.token) {
        Some(t) if text::trim(t).len() > 0 => Some(TokenView::Inline(t)),
        _ => match text::optional(env.token_file) {
            Some(p) if text::trim(p).len() > 0 => Some(TokenView::File(text::trim(p))),
            _ => None,
        },
    }
}

/// What the environment alone says.
pub open spec fn from_environment(env: Environment) -> Result<Draft, Seq<char>> {
    let draft = Draft {
        command: None,
        server: text::optional(env.server),
        token: token_of(env),
        state_dir: match text::optional(env.state_dir) {
            Some(d) => d,
            None => "./brocade-agent-state"@,
        },
        apply_mode: ApplyMode::StateDir,
    };
    match text::optional(env.apply) {
        Some(value) => match mode_of(value) {
            Ok(apply_mode) => Ok(Draft { apply_mode, ..draft }),
            Err(e) => Err(e),
        },
        None => Ok(draft),
    }
}

/// The value of the option at `i`: the argument after it, unless that is an option too.
pub open spec fn value_at(args: Seq<Seq<char>>, i: int) -> Option<Seq<char>> {
    if 0 <= i && i + 1 < args.len() && !text::starts_with(args[i + 1], "--"@) {
        Some(args[i + 1])
    } else {
        None
    }
}

/// What the arguments from `i` on make of a draft. An option takes the argument after
/// it, and one without a value names itself; a name that begins with two dashes and is
/// no option stops the reading, and so does a second argument that is none.
pub open spec fn with_args(args: Seq<Seq<char>>, i: int, draft: Draft) -> Result<Draft, Seq<char>>
    decreases args.len() - i,
{
    if i < 0 || i >= args.len() {
        Ok(draft)
    } else {
        let arg = args[i];
        let value = value_at(args, i);
        if arg == "--server"@ {
            match value {
                Some(v) => with_args(args, i + 2, Draft { server: Some(v), ..draft }),
                None => Err("--server requires a value"@),
            }
        } else if arg == "--token"@ {
            match value {
                Some(v) => with_args(
                    args,
                    i + 2,
                    Draft { token: Some(TokenView::Inline(v)), ..draft },
                ),
                None => Err("--token requires a value"@),
            }
        } else if arg == "--token-file"@ {
            match value {
                Some(v) => with_args(args, i + 2, Draft { token: Some(TokenView::File(v)), ..draft }),
                None => Err("--token-file requires a value"@),
            }
        } else if arg == "--state-dir"@ {
            match value {
                Some(v) => with_args(args, i + 2, Draft { state_dir: v, ..draft }),
                None => Err("--state-dir requires a value"@),
            }
        } else if arg == "--apply"@ {
            match value {
                Some(v) => match mode_of(v) {
                    Ok(apply_mode) => with_args(args, i + 2, Draft { apply_mode, ..draft }),
                    Err(e) => Err(e),
                },
                None => Err("--apply requires state-dir or linux"@),
            }
        } else if text::starts_with(arg, "--"@) {
            Err("unknown option "@ + arg)
        } else {
            match draft.command {
                Some(_) => Err("unexpected extra argument "@ + arg),
                None => with_args(args, i + 1, Draft { command: Some(arg), ..draft }),
            }
        }
    }
}

/// An option whose value is missing names itself, whatever comes after it: the next
/// option is never taken for the value.
pub proof fn lemma_option_without_value_names_itself(args: Seq<Seq<char>>, i: int, draft: Draft)
    requires
        0 <= i < args.len(),
        i + 1 < args.len() ==> text::starts_with(args[i + 1], "--"@),
    ensures
        args[i] == "--server"@ || args[i] == "--token"@ || args[i] == "--token-file"@ || args[i]
            == "--state-dir"@ ==> with_args(args, i, draft) == Err::<Draft, Seq<char>>(
            args[i] + " requires a value"@,
        ),
        args[i] == "--apply"@ ==> with_args(args, i, draft) == Err::<Draft, Seq<char>>(
            "--apply requires state-dir or linux"@,
        ),
{
    reveal_strlit("--server");
    reveal_strlit("--token");
    reveal_strlit("--token-file");
    reveal_strlit("--state-dir");
    reveal_strlit("--apply");
    reveal_strlit(" requires a value");
    reveal_strlit("--server requires a value");
    reveal_strlit("--token requires a value");
    reveal_strlit("--token-file requires a value");
    reveal_strlit("--state-dir requires a value");
    assert("--server"@ + " requires a value"@ =~= "--server requires a value"@);
    assert("--token"@ + " requires a value"@ =~= "--token requires a value"@);
    assert("--token-file"@ + " requires a value"@ =~= "--token-file requires a value"@);
    assert("--state-dir"@ + " requires a value"@ =~= "--state-dir requires a value"@);
    assert("--server"@.len() != "--apply"@.len());
    assert("--token"@[2] == 't');
    assert("--apply"@[2] == 'a');
}

/// Options that are complete.
pub struct OptionsView {
    pub command: Seq<char>,
    pub server: Seq<char>,
    pub token: TokenView,
    pub state_dir: Seq<char>,
    pub apply_mode: ApplyMode,
}

impl View for Options {
    type V = OptionsView;

    open spec fn view(&self) -> OptionsView {
        OptionsView {
            command: self.command@,
            server: self.server@,
            token: self.token@,
            state_dir: self.state_dir@,
            apply_mode: self.apply_mode,
        }
    }
}

/// A draft with what must not be missing, or what is.
pub open spec fn complete(draft: Draft) -> Result<OptionsView, Seq<char>> {
    match draft.server {
        None => Err("--server or BROCADE_AGENT_SERVER is required"@),
        Some(server) => match draft.token {
            None => Err(
                "--token, --token-file, BROCADE_NODE_TOKEN, or BROCADE_NODE_TOKEN_FILE is required"@,
            ),
            Some(token) => Ok(
                OptionsView {
                    command: match draft.command {
                        Some(c) => c,
                        None => "apply-once"@,
                    },
                    server,
                    token,
                    state_dir: draft.state_dir,
                    apply_mode: draft.apply_mode,
                },
            ),
        },
    }
}

/// The options that arguments and environment make together.
pub open spec fn options_of(args: Seq<Seq<char>>, env: Environment) -> Result<
    OptionsView,
    Seq<char>,
> {
    match from_environment(env) {
        Err(e) => Err(e),
        Ok(draft) => match with_args(args, 0, draft) {
            Err(e) => Err(e),
            Ok(draft) => complete(draft),
        },
    }
}

fn blank(s: &str) -> (r: bool)
    ensures
        r == (text::trim(s@).len() == 0),
{
    let chars = text::chars_of(s);
    text::trimmed(chars.as_slice()).len() == 0
}

fn token_from(env: &Environment) -> (r: Option<TokenSource>)
    ensures
        match r {
            Some(t) => token_of(*env) == Some(t@),
            None => token_of(*env) is None,
        },
{
    match &env.token {
        Some(t) => {
            if !blank(t.as_str()) {
                return Some(TokenSource::Inline(t.as_str().to_owned()));
            }
        },
        None => {},
    }
    match &env.token_file {
        Some(p) => {
            if blank(p.as_str()) {
                None
            } else {
                let chars = text::chars_of(p.as_str());
                Some(TokenSource::File(text::string_of(text::trimmed(chars.as_slice()))))
            }
        },
        None => None,
    }
}

fn value_after(args: &Vec<String>, i: usize) -> (r: Option<&str>)
    requires
        i < args@.len(),
    ensures
        match r {
            Some(v) => value_at(text::string_views(args@), i as int) == Some(v@),
            None => value_at(text::string_views(args@), i as int) is None,
        },
{
    let ghost all = text::string_views(args@);
    if args.len() - i < 2 {
        return None;
    }
    let value = args[i + 1].as_str();
    assert(all[i + 1] == value@);
    let chars = text::chars_of(value);
    if text::begins(chars.as_slice(), "--") {
        None
    } else {
        Some(value)
    }
}

fn concatenated(option: &str, what: &str) -> (r: String)
    ensures
        r@ == option@ + what@,
{
    let mut out = option.to_owned();
    out.append(what);
    out
}

impl Options {
    /// The options from the command line and the environment, of which the command
    /// line wins.
    pub fn parse_with_env(args: &Vec<String>, env: &Environment) -> (r: Result<Options, String>)
        ensures
            match r {
                Ok(o) => options_of(text::string_views(args@), *env) == Ok::<
                    OptionsView,
                    Seq<char>,
                >(o@),
                Err(e) => options_of(text::string_views(args@), *env) == Err::<
                    OptionsView,
                    Seq<char>,
                >(e@),
            },
    {
        let ghost all = text::string_views(args@);
        let mut command: Option<String> = None;
        let mut server: Option<String> = match &env.server {
            Some(s) => Some(s.as_str().to_owned()),
            None => None,
        };
        let mut token: Option<TokenSource> = token_from(env);
        let mut state_dir: String = match &env.state_dir {
            Some(d) => d.as_str().to_owned(),
            None => "./brocade-agent-state".to_owned(),
        };
        let mut apply_mode: ApplyMode = match &env.apply {
            Some(value) => match parse_apply_mode(value.as_str()) {
                Ok(m) => m,
                Err(e) => {
                    return Err(e);
                },
            },
            None => ApplyMode::StateDir,
        };
        let ghost first = from_environment(*env)->Ok_0;
        let n: usize = args.len();
        let mut i: usize = 0;
        assert(all.len() == n);
        while i < n
            invariant
                n == args@.len(),
                all.len() == n,
                i <= n,
                all == text::string_views(args@),
                from_environment(*env) == Ok::<Draft, Seq<char>>(first),
                with_args(all, 0, first) == with_args(
                    all,
                    i as int,
                    Draft {
                        command: text::optional(command),
                        server: text::optional(server),
                        token: match token {
                            Some(t) => Some(t@),
                            None => None,
                        },
                        state_dir: state_dir@,
                        apply_mode,
                    },
                ),
            decreases n - i,
        {
            let arg = args[i].as_str();
            assert(all[i as int] == arg@);
            if text::same_str(arg, "--server") {
                let value = match value_after(args, i) {
                    Some(value) => value,
                    None => {
                        return Err("--server requires a value".to_owned());
                    },
                };
                server = Some(value.to_owned());
                i = i + 2;
            } else if text::same_str(arg, "--token") {
                let value = match value_after(args, i) {
                    Some(value) => value,
                    None => {
                        return Err("--token requires a value".to_owned());
                    },
                };
                token = Some(TokenSource::Inline(value.to_owned()));
                i = i + 2;
            } else if text::same_str(arg, "--token-file") {
                let value = match value_after(args, i) {
                    Some(value) => value,
                    None => {
                        return Err("--token-file requires a value".to_owned());
                    },
                };
                token = Some(TokenSource::File(value.to_owned()));
                i = i + 2;
            } else if text::same_str(arg, "--state-dir") {
                let value = match value_after(args, i) {
                    Some(value) => value,
                    None => {
                        return Err("--state-dir requires a value".to_owned());
                    },
                };
                state_dir = value.to_owned();
                i = i + 2;
            } else if text::same_str(arg, "--apply") {
                let value = match value_after(args, i) {
                    Some(value) => value,
                    None => {
                        return Err("--apply requires state-dir or linux".to_owned());
                    },
                };
                match parse_apply_mode(value) {
                    Ok(m) => {
                        apply_mode = m;
                    },
                    Err(e) => {
                        return Err(e);
                    },
                }
                i = i + 2;
            } else {
                let chars = text::chars_of(arg);
                if text::begins(chars.as_slice(), "--") {
                    return Err(concatenated("unknown option ", arg));
                }
                if command.is_some() {
                    return Err(concatenated("unexpected extra argument ", arg));
                }
                command = Some(arg.to_owned());
                i = i + 1;
            }
        }
        let command = match command {
            Some(c) => c,
            None => "apply-once".to_owned(),
        };
        match server {
            None => Err("--server or BROCADE_AGENT_SERVER is required".to_owned()),
            Some(server) => match token {
                None => Err(
                    "--token, --token-file, BROCADE_NODE_TOKEN, or BROCADE_NODE_TOKEN_FILE is required".to_owned(),
                ),
                Some(token) => Ok(Options { command, server, token, state_dir, apply_mode }),
            },
        }
    }
}

/// A token without the blanks around it, or what is said of one that is only blanks.
pub open spec fn normalized(token: Seq<char>, source: Seq<char>) -> Result<Seq<char>, Seq<char>> {
    if text::trim(token).len() == 0 {
        Err(source + " must not be empty"@)
    } else {
        Ok(text::trim(token))
    }
}

/// A token without the blanks around it.
pub fn normalize_token(token: &str, source: &str) -> (r: Result<String, String>)
    ensures
        match r {
            Ok(t) => normalized(token@, source@) == Ok::<Seq<char>, Seq<char>>(t@),
            Err(e) => normalized(token@, source@) == Err::<Seq<char>, Seq<char>>(e@),
        },
{
    let chars = text::chars_of(token);
    let kept = text::trimmed(chars.as_slice());
    if kept.len() == 0 {
        Err(concatenated(source, " must not be empty"))
    } else {
        Ok(text::string_of(kept))
    }
}

/// The token behind a source: the one given, or what its file holds. A file that
/// could not be read is named.
pub fn resolve_token(source: &TokenSource, file: Result<&str, &str>) -> (r: Result<String, String>)
    ensures
        ({
            let told = match source@ {
                TokenView::Inline(t) => normalized(t, "--token/BROCADE_NODE_TOKEN"@),
                TokenView::File(p) => match file {
                    Ok(t) => normalized(t@, "token file "@ + p),
                    Err(e) => Err("failed to read token file "@ + p + ": "@ + e@),
                },
            };
            match r {
                Ok(t) => told == Ok::<Seq<char>, Seq<char>>(t@),
                Err(e) => told == Err::<Seq<char>, Seq<char>>(e@),
            }
        }),
{
    match source {
        TokenSource::Inline(t) => normalize_token(t.as_str(), "--token/BROCADE_NODE_TOKEN"),
        TokenSource::File(p) => match file {
            Ok(t) => normalize_token(t, concatenated("token file ", p.as_str()).as_str()),
            Err(error) => {
                let mut out = "failed to read token file ".to_owned();
                out.append(p.as_str());
                out.append(": ");
                out.append(error);
                Err(out)
            },
        },
    }
}

/// Without an argument or a variable that says so, convergence does not touch the
/// machine.
pub proof fn lemma_linux_is_never_the_default(args: Seq<Seq<char>>, env: Environment)
    requires
        env.apply is None,
        forall|i: int| 0 <= i < args.len() ==> #[trigger] args[i] != "--apply"@,
        options_of(args, env) is Ok,
    ensures
        options_of(args, env)->Ok_0.apply_mode == ApplyMode::StateDir,
{
    lemma_mode_is_kept(args, 0, from_environment(env)->Ok_0);
}

proof fn lemma_mode_is_kept(args: Seq<Seq<char>>, i: int, draft: Draft)
    requires
        0 <= i,
        forall|k: int| 0 <= k < args.len() ==> #[trigger] args[k] != "--apply"@,
        with_args(args, i, draft) is Ok,
    ensures
        with_args(args, i, draft)->Ok_0.apply_mode == draft.apply_mode,
    decreases args.len() - i,
{
    if i < args.len() {
        let arg = args[i];
        if arg == "--server"@ {
            lemma_mode_is_kept(args, i + 2, Draft { server: Some(args[i + 1]), ..draft });
        } else if arg == "--token"@ {
            lemma_mode_is_kept(
                args,
                i + 2,
                Draft { token: Some(TokenView::Inline(args[i + 1])), ..draft },
            );
        } else if arg == "--token-file"@ {
            lemma_mode_is_kept(
                args,
                i + 2,
                Draft { token: Some(TokenView::File(args[i + 1])), ..draft },
            );
        } else if arg == "--state-dir"@ {
            lemma_mode_is_kept(args, i + 2, Draft { state_dir: args[i + 1], ..draft });
        } else {
            lemma_mode_is_kept(args, i + 1, Draft { command: Some(arg), ..draft });
        }
    }
}

/// Where the command line names a server, the environment's does not matter.
pub proof fn lemma_command_line_wins(
    server: Seq<char>,
    rest: Seq<Seq<char>>,
    env: Environment,
    other: Option<String>,
)
    ensures
        options_of(seq!["--server"@, server] + rest, env) == options_of(
            seq!["--server"@, server] + rest,
            Environment { server: other, ..env },
        ),
{
    let args = seq!["--server"@, server] + rest;
    assert(args[0] == "--server"@);
    assert(args[1] == server);
    let changed = Environment { server: other, ..env };
    assert(token_of(env) == token_of(changed));
    reveal_with_fuel(with_args, 2);
}

proof fn lemma_reading_goes_on(args: Seq<Seq<char>>, i: int, draft: Draft)
    requires
        0 <= i <= args.len(),
    ensures
        with_args(args, i, draft) == with_args(args.skip(i), 0, draft),
{
    lemma_reading_from(args, i, 0, draft);
}

proof fn lemma_reading_from(args: Seq<Seq<char>>, i: int, j: int, draft: Draft)
    requires
        0 <= i <= args.len(),
        0 <= j,
    ensures
        with_args(args, i + j, draft) == with_args(args.skip(i), j, draft),
    decreases args.len() - i - j,
{
    let rest = args.skip(i);
    if i + j < args.len() {
        let arg = args[i + j];
        assert(rest[j] == arg);
        assert(i + j + 1 < args.len() ==> rest[j + 1] == args[i + j + 1]);
        assert(value_at(args, i + j) == value_at(rest, j));
        if let Some(v) = value_at(rest, j) {
            lemma_reading_from(args, i, j + 2, Draft { server: Some(v), ..draft });
            lemma_reading_from(args, i, j + 2, Draft { token: Some(TokenView::Inline(v)), ..draft });
            lemma_reading_from(args, i, j + 2, Draft { token: Some(TokenView::File(v)), ..draft });
            lemma_reading_from(args, i, j + 2, Draft { state_dir: v, ..draft });
            if let Ok(apply_mode) = mode_of(v) {
                lemma_reading_from(args, i, j + 2, Draft { apply_mode, ..draft });
            }
        }
        lemma_reading_from(args, i, j + 1, Draft { command: Some(arg), ..draft });
    }
}

/// Each option sets what it is for and nothing else, and what stands behind its value is read
/// as if it stood alone; so of an option that is given twice the last one counts. A name sets
/// the command where there is none yet.
pub proof fn lemma_each_option_sets_its_own(
    name: Seq<char>,
    value: Seq<char>,
    rest: Seq<Seq<char>>,
    draft: Draft,
)
    requires
        !text::starts_with(value, "--"@),
    ensures
        ({
            let read = with_args(seq![name, value] + rest, 0, draft);
            &&& name == "--server"@ ==> read == with_args(
                rest,
                0,
                Draft { server: Some(value), ..draft },
            )
            &&& name == "--token"@ ==> read == with_args(
                rest,
                0,
                Draft { token: Some(TokenView::Inline(value)), ..draft },
            )
            &&& name == "--token-file"@ ==> read == with_args(
                rest,
                0,
                Draft { token: Some(TokenView::File(value)), ..draft },
            )
            &&& name == "--state-dir"@ ==> read == with_args(
                rest,
                0,
                Draft { state_dir: value, ..draft },
            )
            &&& name == "--apply"@ && value == "linux"@ ==> read == with_args(
                rest,
                0,
                Draft { apply_mode: ApplyMode::Linux, ..draft },
            )
            &&& name == "--apply"@ && value == "state-dir"@ ==> read == with_args(
                rest,
                0,
                Draft { apply_mode: ApplyMode::StateDir, ..draft },
            )
            &&& name == "--apply"@ && value != "linux"@ && value != "state-dir"@ ==> read is Err
        }),
        draft.command is None ==> with_args(seq![value] + rest, 0, draft) == with_args(
            rest,
            0,
            Draft { command: Some(value), ..draft },
        ),
        draft.command is Some ==> with_args(seq![value] + rest, 0, draft) is Err,
{
    let args = seq![name, value] + rest;
    assert(args[0] == name && args[1] == value);
    assert(args.skip(2) =~= rest);
    let alone = seq![value] + rest;
    assert(alone[0] == value);
    assert(alone.skip(1) =~= rest);
    reveal_strlit("--");
    reveal_strlit("--server");
    reveal_strlit("--token");
    reveal_strlit("--token-file");
    reveal_strlit("--state-dir");
    reveal_strlit("--apply");
    reveal_strlit("linux");
    reveal_strlit("state-dir");
    assert("--server"@.subrange(0, 2) =~= "--"@);
    assert("--token"@.subrange(0, 2) =~= "--"@);
    assert("--token-file"@.subrange(0, 2) =~= "--"@);
    assert("--state-dir"@.subrange(0, 2) =~= "--"@);
    assert("--apply"@.subrange(0, 2) =~= "--"@);
    assert("--token"@[2] == 't' && "--apply"@[2] == 'a');
    assert("linux"@.len() != "state-dir"@.len());
    lemma_reading_goes_on(args, 2, Draft { server: Some(value), ..draft });
    lemma_reading_goes_on(args, 2, Draft { token: Some(TokenView::Inline(value)), ..draft });
    lemma_reading_goes_on(args, 2, Draft { token: Some(TokenView::File(value)), ..draft });
    lemma_reading_goes_on(args, 2, Draft { state_dir: value, ..draft });
    lemma_reading_goes_on(args, 2, Draft { apply_mode: ApplyMode::Linux, ..draft });
    lemma_reading_goes_on(args, 2, Draft { apply_mode: ApplyMode::StateDir, ..draft });
    lemma_reading_goes_on(alone, 1, Draft { command: Some(value), ..draft });
}

/// What the environment alone says: a token that is given comes before a file that holds one,
/// and what is blank counts as not given; the state directory and the mode have their defaults.
pub proof fn lemma_environment_is_taken_as_given(env: Environment)
    ensures
        from_environment(env) matches Ok(draft) ==> {
            &&& draft.command is None
            &&& draft.server == text::optional(env.server)
            &&& env.state_dir is None ==> draft.state_dir == "./brocade-agent-state"@
            &&& env.state_dir matches Some(dir) ==> draft.state_dir == dir@
            &&& env.apply is None ==> draft.apply_mode == ApplyMode::StateDir
            &&& draft.apply_mode == ApplyMode::Linux <==> env.apply is Some && env.apply->0@
                == "linux"@
            &&& env.token is Some && text::trim(env.token->0@).len() > 0 ==> draft.token == Some(
                TokenView::Inline(env.token->0@),
            )
            &&& (env.token is None || text::trim(env.token->0@).len() == 0) && env.token_file is Some
                && text::trim(env.token_file->0@).len() > 0 ==> draft.token == Some(
                TokenView::File(text::trim(env.token_file->0@)),
            )
            &&& (env.token is None || text::trim(env.token->0@).len() == 0) && (
            env.token_file is None || text::trim(env.token_file->0@).len() == 0)
                ==> draft.token is None
        },
        from_environment(env) is Err <==> env.apply is Some && env.apply->0@ != "linux"@
            && env.apply->0@ != "state-dir"@,
{
    reveal_strlit("linux");
    reveal_strlit("state-dir");
    assert("linux"@.len() != "state-dir"@.len());
}

/// Options are complete exactly where a server and a token are given; a command that is not
/// given is a single round.
pub proof fn lemma_server_and_token_are_needed(draft: Draft)
    ensures
        complete(draft) is Ok <==> draft.server is Some && draft.token is Some,
        complete(draft) matches Ok(options) ==> {
            &&& Some(options.server) == draft.server && Some(options.token) == draft.token
            &&& options.state_dir == draft.state_dir && options.apply_mode == draft.apply_mode
            &&& draft.command is Some ==> Some(options.command) == draft.command
            &&& draft.command is None ==> options.command == "apply-once"@
        },
{
}

} // verus!
