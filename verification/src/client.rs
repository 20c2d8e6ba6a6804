//! The command lines that reach a node through the system `ssh` client (or
//! `sshpass`), and the quoting of remote commands.
//!
//! Running a command stays with the caller: a client turns a node into a
//! `CommandPlan` (program, arguments, environment), and judges what the
//! command gave back.
use vstd::prelude::*;
use vstd::string::*;

use crate::config::{SecretRef, SshAuth, SshNode, auth_type_name};
use crate::error::{ErrorView, ForgeError};
use crate::paths::{join_path, path_join, split_on, last_index_of, lemma_last_index_of};
use crate::text::{
    all_digits, chars_of, decimal, decimal_string, digit_char, digit_value, digits_value, has_prefix,
    is_digit, parse_unsigned, opt_text, owned, push_char, starts_with_at,
    string_of, texts, trim, trimmed,
};

verus! {

/// A program to start, with its arguments and the environment variables it gets.
#[derive(Debug)]
pub struct CommandPlan {
    pub program: String,
    pub args: Vec<String>,
    pub env: Vec<(String, String)>,
}

/// A command plan by its texts.
pub struct PlanView {
    pub program: Seq<char>,
    pub args: Seq<Seq<char>>,
    pub env: Seq<(Seq<char>, Seq<char>)>,
}

/// Where a password comes from, when the node record does not hold it.
#[derive(Debug)]
pub enum SecretSource {
    /// The environment variable of that name.
    Env(String),
    /// A line read from standard input after the prompt `SSH password: `.
    Prompt,
}

/// A password source by its texts.
pub enum SourceView {
    Env(Seq<char>),
    Prompt,
}

/// A resolved secret, or where to get it.
#[derive(Debug)]
pub enum Secret {
    Value(String),
    Fetch(SecretSource),
}

/// The first step of reaching a node: either the command is ready, or the
/// password must be fetched first (then `password_command` gives the command).
#[derive(Debug)]
pub enum CommandStep {
    Ready(CommandPlan),
    NeedPassword(SecretSource),
}

pub enum StepView {
    Ready(PlanView),
    NeedPassword(SourceView),
}

/// What a finished command gave back.
#[derive(Debug)]
pub struct CommandOutput {
    pub success: bool,
    pub stdout: String,
    pub stderr: String,
}

/// A client for one node.
#[derive(Debug)]
pub struct SshClient {
    pub node: SshNode,
}

pub open spec fn env_texts(v: Seq<(String, String)>) -> Seq<(Seq<char>, Seq<char>)> {
    v.map_values(|p: (String, String)| (p.0@, p.1@))
}

pub open spec fn plan_view(p: CommandPlan) -> PlanView {
    PlanView { program: p.program@, args: texts(p.args@), env: env_texts(p.env@) }
}

pub open spec fn source_view(s: SecretSource) -> SourceView {
    match s {
        SecretSource::Env(name) => SourceView::Env(name@),
        SecretSource::Prompt => SourceView::Prompt,
    }
}

pub open spec fn step_view(s: CommandStep) -> StepView {
    match s {
        CommandStep::Ready(p) => StepView::Ready(plan_view(p)),
        CommandStep::NeedPassword(src) => StepView::NeedPassword(source_view(src)),
    }
}

/// `~` alone is the home directory, and `~/rest` is `rest` under it, when
/// the home directory is known; any other path stays as it is.
pub open spec fn expanded(path: Seq<char>, home: Option<Seq<char>>) -> Seq<char> {
    if path == seq!['~'] {
        match home {
            Some(h) => h,
            None => path,
        }
    } else if has_prefix(path, seq!['~', '/']) {
        match home {
            Some(h) => path_join(h, path.subrange(2, path.len() as int)),
            None => path,
        }
    } else {
        path
    }
}

/// `user@host`.
pub open spec fn ssh_target(n: SshNode) -> Seq<char> {
    n.user@ + "@"@ + n.host@
}

/// The arguments every plain `ssh` call starts with.
pub open spec fn ssh_args(n: SshNode) -> Seq<Seq<char>> {
    seq![
        "-p"@,
        decimal(n.port as nat),
        "-o"@,
        "ConnectTimeout=10"@,
        "-o"@,
        "StrictHostKeyChecking=accept-new"@,
        ssh_target(n),
    ]
}

/// The `sshpass` command for password auth, with the password in `SSHPASS`.
pub open spec fn password_plan(n: SshNode, password: Seq<char>) -> PlanView {
    PlanView {
        program: "sshpass"@,
        args: seq![
            "-e"@,
            "ssh"@,
            "-p"@,
            decimal(n.port as nat),
            "-o"@,
            "ConnectTimeout=10"@,
            "-o"@,
            "StrictHostKeyChecking=accept-new"@,
            "-o"@,
            "PreferredAuthentications=password"@,
            "-o"@,
            "PubkeyAuthentication=no"@,
            ssh_target(n),
        ],
        env: seq![("SSHPASS"@, password)],
    }
}

/// Where a password comes from: a password in the record wins; otherwise
/// the reference says `env:NAME`, `prompt`, `plain:VALUE`, or is the
/// password itself.
pub open spec fn secret_result(password_ref: Option<SecretRef>, plain: Option<String>) -> Result<
    Result<Seq<char>, SourceView>,
    ErrorView,
> {
    match plain {
        Some(p) => Ok(Ok(p@)),
        None => match password_ref {
            None => Err(ErrorView::PasswordRequired),
            Some(r) => {
                let v = r.text();
                if has_prefix(v, "env:"@) {
                    Ok(Err(SourceView::Env(v.subrange(4, v.len() as int))))
                } else if v == "prompt"@ {
                    Ok(Err(SourceView::Prompt))
                } else if has_prefix(v, "plain:"@) {
                    Ok(Ok(v.subrange(6, v.len() as int)))
                } else {
                    Ok(Ok(v))
                }
            },
        },
    }
}

/// The first step of reaching node `n`, given the home directory and whether
/// `sshpass` is installed.
pub open spec fn base_step(n: SshNode, home: Option<Seq<char>>, sshpass: bool) -> Result<
    StepView,
    ErrorView,
> {
    match n.auth {
        SshAuth::Password { password_ref, password } => {
            if !sshpass {
                Err(ErrorView::SshpassMissing)
            } else {
                match secret_result(password_ref, password) {
                    Err(e) => Err(e),
                    Ok(Ok(p)) => Ok(StepView::Ready(password_plan(n, p))),
                    Ok(Err(src)) => Ok(StepView::NeedPassword(src)),
                }
            }
        },
        SshAuth::KeyPair { key_path, .. } => Ok(
            StepView::Ready(
                PlanView {
                    program: "ssh"@,
                    args: ssh_args(n) + seq!["-i"@, expanded(key_path@, home)],
                    env: seq![],
                },
            ),
        ),
        SshAuth::Certificate { key_path, cert_path, .. } => Ok(
            StepView::Ready(
                PlanView {
                    program: "ssh"@,
                    args: ssh_args(n) + seq![
                        "-i"@,
                        expanded(key_path@, home),
                        "-o"@,
                        "CertificateFile="@ + expanded(cert_path@, home),
                    ],
                    env: seq![],
                },
            ),
        ),
        SshAuth::Agent { identities_only } => Ok(
            StepView::Ready(
                PlanView {
                    program: "ssh"@,
                    args: if identities_only {
                        ssh_args(n) + seq!["-o"@, "IdentitiesOnly=yes"@]
                    } else {
                        ssh_args(n)
                    },
                    env: seq![],
                },
            ),
        ),
        SshAuth::OpenSshConfig { host_alias, config_path } => Ok(
            StepView::Ready(
                PlanView {
                    program: "ssh"@,
                    args: (match config_path {
                        Some(p) => seq!["-F"@, expanded(p@, home)],
                        None => seq![],
                    }) + seq![
                        match host_alias {
                            Some(a) => a@,
                            None => n.host@,
                        },
                    ],
                    env: seq![],
                },
            ),
        ),
        _ => Err(ErrorView::AuthNotImplemented(auth_type_name(n.auth))),
    }
}

/// A character that needs no quoting for the shell.
pub open spec fn shell_safe(c: char) -> bool {
    ||| ('a' <= c && c <= 'z')
    ||| ('A' <= c && c <= 'Z')
    ||| ('0' <= c && c <= '9')
    ||| c == '_'
    ||| c == '+'
    ||| c == '-'
    ||| c == '.'
    ||| c == '/'
    ||| c == ':'
    ||| c == '='
    ||| c == ','
    ||| c == '@'
    ||| c == '%'
}

/// Every `'` written as `'\''`.
pub open spec fn escape_quotes(s: Seq<char>) -> Seq<char>
    decreases s.len(),
{
    if s.len() == 0 {
        seq![]
    } else {
        escape_quotes(s.drop_last()) + if s.last() == '\'' {
            seq!['\'', '\\', '\'', '\'']
        } else {
            seq![s.last()]
        }
    }
}

/// One argument as a shell word: as it is when it is not empty and every
/// character is safe, otherwise in single quotes (the empty argument as `''`).
pub open spec fn shell_quoted(v: Seq<char>) -> Seq<char> {
    if v.len() > 0 && forall|i: int| 0 <= i < v.len() ==> shell_safe(#[trigger] v[i]) {
        v
    } else {
        seq!['\''] + escape_quotes(v) + seq!['\'']
    }
}

/// The arguments as shell words, separated by single spaces.
pub open spec fn shell_joined(args: Seq<Seq<char>>) -> Seq<char>
    decreases args.len(),
{
    if args.len() == 0 {
        seq![]
    } else if args.len() == 1 {
        shell_quoted(args[0])
    } else {
        shell_joined(args.drop_last()) + seq![' '] + shell_quoted(args.last())
    }
}

/// The text with every trailing `\r` and `\n` removed.
pub open spec fn without_line_end(s: Seq<char>) -> Seq<char>
    decreases s.len(),
{
    if s.len() > 0 && (s.last() == '\r' || s.last() == '\n') {
        without_line_end(s.drop_last())
    } else {
        s
    }
}

/// The places to look for an executable named `name`, for a `PATH` value:
/// each entry of the list joined with the name; none without a `PATH`.
pub open spec fn candidates(path_var: Option<Seq<char>>, name: Seq<char>) -> Seq<Seq<char>> {
    match path_var {
        Some(p) => split_on(p, ':').map_values(|dir: Seq<char>| path_join(dir, name)),
        None => seq![],
    }
}

fn push_arg(args: &mut Vec<String>, a: String)
    ensures
        final(args)@ == old(args)@.push(a),
        texts(final(args)@) == texts(old(args)@).push(a@),
{
    args.push(a);
    assert(texts(args@) =~= texts(old(args)@).push(a@));
}

fn push_lit(args: &mut Vec<String>, a: &str)
    ensures
        texts(final(args)@) == texts(old(args)@).push(a@),
{
    push_arg(args, owned(a));
}

/// The path with a leading `~` put under the home directory.
pub fn expand_tilde(path: &str, home: &Option<String>) -> (r: String)
    ensures
        r@ == expanded(path@, opt_text(*home)),
{
    let v = chars_of(path);
    let tilde = vec!['~'];
    let tilde_slash = vec!['~', '/'];
    assert(v@.subrange(0, v@.len() as int) =~= v@);
    if v.len() == 1 && v[0] == '~' {
        assert(v@ =~= seq!['~']);
        return match home {
            Some(h) => h.clone(),
            None => String::from_str(path),
        };
    }
    assert(v@ != seq!['~']) by {
        if v@.len() == 1 {
            assert(v@[0] == seq!['~'][0] ==> v@ =~= seq!['~']);
        }
    }
    if starts_with_at(&v, 0, &tilde_slash) {
        assert(tilde_slash@ =~= seq!['~', '/']);
        match home {
            Some(h) => {
                let rest = string_of(&v, 2, v.len());
                join_path(h.as_str(), rest.as_str())
            },
            None => String::from_str(path),
        }
    } else {
        assert(tilde_slash@ =~= seq!['~', '/']);
        String::from_str(path)
    }
}

/// Where the password comes from (see `secret_result`).
pub fn resolve_secret(password_ref: Option<&SecretRef>, plain: Option<&String>) -> (r: Result<
    Secret,
    ForgeError,
>)
    ensures
        match (
            r,
            secret_result(
                match password_ref {
                    Some(x) => Some(*x),
                    None => None,
                },
                match plain {
                    Some(x) => Some(*x),
                    None => None,
                },
            ),
        ) {
            (Ok(Secret::Value(v)), Ok(Ok(w))) => v@ == w,
            (Ok(Secret::Fetch(src)), Ok(Err(w))) => source_view(src) == w,
            (Err(e), Err(w)) => e@ == w,
            _ => false,
        },
{
    if let Some(password) = plain {
        return Ok(Secret::Value(password.clone()));
    }
    let secret_ref = match password_ref {
        Some(x) => x,
        None => {
            return Err(ForgeError::PasswordRequired);
        },
    };
    let value = secret_ref.value();
    let v = chars_of(value);
    let env_prefix = vec!['e', 'n', 'v', ':'];
    let plain_prefix = vec!['p', 'l', 'a', 'i', 'n', ':'];
    proof {
        reveal_strlit("env:");
        reveal_strlit("prompt");
        reveal_strlit("plain:");
        assert(env_prefix@ =~= "env:"@);
        assert(plain_prefix@ =~= "plain:"@);
        assert(v@.subrange(0, v@.len() as int) =~= v@);
    }
    if starts_with_at(&v, 0, &env_prefix) {
        return Ok(Secret::Fetch(SecretSource::Env(string_of(&v, 4, v.len()))));
    }
    if value.unicode_len() == 6 && v[0] == 'p' && v[1] == 'r' && v[2] == 'o' && v[3] == 'm' && v[4]
        == 'p' && v[5] == 't' {
        assert(v@ =~= "prompt"@);
        return Ok(Secret::Fetch(SecretSource::Prompt));
    }
    assert(v@ != "prompt"@) by {
        if v@ == "prompt"@ {
            assert(v@[0] == 'p' && v@[1] == 'r' && v@[2] == 'o' && v@[3] == 'm' && v@[4] == 'p'
                && v@[5] == 't');
        }
    }
    if starts_with_at(&v, 0, &plain_prefix) {
        return Ok(Secret::Value(string_of(&v, 6, v.len())));
    }
    Ok(Secret::Value(String::from_str(value)))
}

/// The text without its trailing `\r` and `\n` characters
/// (`trim_end_matches(['\r', '\n'])`), as for a line read from a terminal.
pub fn trim_line_end(s: &str) -> (r: String)
    ensures
        r@ == without_line_end(s@),
{
    let v = chars_of(s);
    let mut j = v.len();
    assert(v@.subrange(0, j as int) =~= v@);
    while j > 0 && (v[j - 1] == '\r' || v[j - 1] == '\n')
        invariant
            j <= v@.len(),
            without_line_end(v@) == without_line_end(v@.subrange(0, j as int)),
        decreases j,
    {
        assert(v@.subrange(0, j as int).drop_last() =~= v@.subrange(0, j - 1));
        j -= 1;
    }
    string_of(&v, 0, j)
}

/// The full paths at which `name` would be found for the `PATH` value `path_var`.
pub fn command_candidates(path_var: &Option<String>, name: &str) -> (r: Vec<String>)
    ensures
        texts(r@) == candidates(opt_text(*path_var), name@),
{
    match path_var {
        None => {
            let r: Vec<String> = Vec::new();
            assert(texts(r@) =~= Seq::<Seq<char>>::empty());
            r
        },
        Some(p) => {
            let v = chars_of(p.as_str());
            let mut out: Vec<String> = Vec::new();
            let mut start: usize = 0;
            let mut i: usize = 0;
            let ghost f = |dir: Seq<char>| path_join(dir, name@);
            // Pieces are found left to right; `split_on` is stated right to left.
            while i < v.len()
                invariant
                    start <= i <= v@.len(),
                    start == 0 || v@[start - 1] == ':',
                    forall|k: int| start <= k < i ==> v@[k] != ':',
                    start == 0 ==> out@.len() == 0,
                    forall|d: Seq<char>| #[trigger] f(d) == path_join(d, name@),
                    start > 0 ==> texts(out@) == split_on(v@.subrange(0, start - 1), ':').map_values(f),
                decreases v.len() - i,
            {
                if v[i] == ':' {
                    let piece = string_of(&v, start, i);
                    let full = join_path(piece.as_str(), name);
                    let ghost before = texts(out@);
                    push_arg(&mut out, full);
                    proof {
                        let s = v@.subrange(0, i as int);
                        assert(f(piece@) == full@);
                        if start == 0 {
                            assert forall|k: int| 0 <= k < s.len() implies s[k] != ':' by {
                                assert(s[k] == v@[k]);
                            }
                            lemma_no_colon(s);
                            assert(s =~= piece@);
                            assert(before =~= Seq::<Seq<char>>::empty());
                            assert(split_on(s, ':').map_values(f) =~= seq![full@]);
                            assert(texts(out@) =~= split_on(s, ':').map_values(f));
                        } else {
                            lemma_split_last(v@, start as int, i as int);
                            let prev = split_on(v@.subrange(0, start - 1), ':');
                            assert(split_on(s, ':') == prev.push(piece@));
                            assert(prev.push(piece@).map_values(f) =~= prev.map_values(f).push(f(piece@)));
                            assert(texts(out@) =~= split_on(s, ':').map_values(f));
                        }
                    }
                    start = i + 1;
                }
                i += 1;
            }
            let piece = string_of(&v, start, v.len());
            let full = join_path(piece.as_str(), name);
            let ghost before = texts(out@);
            push_arg(&mut out, full);
            proof {
                let s = v@;
                assert(f(piece@) == full@);
                assert(v@.subrange(0, v@.len() as int) =~= v@);
                if start == 0 {
                    lemma_no_colon(s);
                    assert(s =~= piece@);
                    assert(before =~= Seq::<Seq<char>>::empty());
                    assert(split_on(s, ':').map_values(f) =~= seq![full@]);
                    assert(texts(out@) =~= split_on(s, ':').map_values(f));
                } else {
                    lemma_split_last(v@, start as int, v@.len() as int);
                    let prev = split_on(v@.subrange(0, start - 1), ':');
                    assert(split_on(s, ':') == prev.push(piece@));
                    assert(prev.push(piece@).map_values(f) =~= prev.map_values(f).push(f(piece@)));
                    assert(texts(out@) =~= split_on(s, ':').map_values(f));
                }
            }
            out
        },
    }
}

proof fn lemma_no_colon(s: Seq<char>)
    requires
        forall|k: int| 0 <= k < s.len() ==> s[k] != ':',
    ensures
        split_on(s, ':') == seq![s],
{
    lemma_last_index_of(s, ':');
    if last_index_of(s, ':') >= 0 {
        assert(s[last_index_of(s, ':')] == ':');
    }
}

/// Splitting a prefix that ends with a piece after the separator at `start - 1`.
proof fn lemma_split_last(v: Seq<char>, start: int, i: int)
    requires
        0 < start <= i <= v.len(),
        v[start - 1] == ':',
        forall|k: int| start <= k < i ==> v[k] != ':',
    ensures
        split_on(v.subrange(0, i), ':') == split_on(v.subrange(0, start - 1), ':').push(
            v.subrange(start, i),
        ),
{
    let s = v.subrange(0, i);
    lemma_last_index_of(s, ':');
    let k = last_index_of(s, ':');
    assert(s[start - 1] == ':');
    if k != start - 1 {
        if k < start - 1 {
            assert(s[start - 1] != ':');
        } else {
            assert(s[k] == v[k]);
        }
    }
    assert(s.subrange(0, k) =~= v.subrange(0, start - 1));
    assert(s.subrange(k + 1, s.len() as int) =~= v.subrange(start, i));
}

/// Whether every character of `v` is safe.
fn all_safe(v: &Vec<char>) -> (r: bool)
    ensures
        r == forall|i: int| 0 <= i < v@.len() ==> shell_safe(#[trigger] v@[i]),
{
    let mut i: usize = 0;
    while i < v.len()
        invariant
            i <= v@.len(),
            forall|k: int| 0 <= k < i ==> shell_safe(#[trigger] v@[k]),
        decreases v.len() - i,
    {
        let c = v[i];
        let ok = ('a' <= c && c <= 'z') || ('A' <= c && c <= 'Z') || ('0' <= c && c <= '9') || c
            == '_' || c == '+' || c == '-' || c == '.' || c == '/' || c == ':' || c == '=' || c
            == ',' || c == '@' || c == '%';
        if !ok {
            assert(!shell_safe(v@[i as int]));
            return false;
        }
        i += 1;
    }
    true
}

/// One argument as a shell word (see `shell_quoted`).
pub fn shell_quote(value: &str) -> (r: String)
    ensures
        r@ == shell_quoted(value@),
{
    let v = chars_of(value);
    if v.len() > 0 && all_safe(&v) {
        return String::from_str(value);
    }
    let mut out = String::new();
    push_char(&mut out, '\'');
    let mut i: usize = 0;
    assert(v@.subrange(0, 0) =~= Seq::<char>::empty());
    assert(out@ =~= seq!['\''] + escape_quotes(v@.subrange(0, 0)));
    while i < v.len()
        invariant
            i <= v@.len(),
            out@ == seq!['\''] + escape_quotes(v@.subrange(0, i as int)),
        decreases v.len() - i,
    {
        let c = v[i];
        let ghost p = v@.subrange(0, i + 1);
        assert(p.drop_last() =~= v@.subrange(0, i as int));
        assert(p.last() == c);
        if c == '\'' {
            push_char(&mut out, '\'');
            push_char(&mut out, '\\');
            push_char(&mut out, '\'');
            push_char(&mut out, '\'');
        } else {
            push_char(&mut out, c);
        }
        assert(out@ =~= seq!['\''] + escape_quotes(p));
        i += 1;
    }
    push_char(&mut out, '\'');
    assert(v@.subrange(0, v@.len() as int) =~= v@);
    assert(out@ =~= seq!['\''] + escape_quotes(v@) + seq!['\'']);
    out
}

/// The arguments as one remote command line (see `shell_joined`).
pub fn shell_join(args: &[String]) -> (r: String)
    ensures
        r@ == shell_joined(texts(args@)),
{
    let mut out = String::new();
    let mut i: usize = 0;
    assert(texts(args@).subrange(0, 0) =~= Seq::<Seq<char>>::empty());
    while i < args.len()
        invariant
            i <= args@.len(),
            out@ == shell_joined(texts(args@).subrange(0, i as int)),
        decreases args.len() - i,
    {
        let ghost p = texts(args@).subrange(0, i + 1);
        assert(p.drop_last() =~= texts(args@).subrange(0, i as int));
        assert(p.last() == args@[i as int]@);
        if i > 0 {
            push_char(&mut out, ' ');
        }
        let q = shell_quote(args[i].as_str());
        out.append(q.as_str());
        proof {
            if i == 0 {
                assert(out@ =~= shell_quoted(p[0]));
            } else {
                assert(out@ =~= shell_joined(p.drop_last()) + seq![' '] + shell_quoted(p.last()));
            }
        }
        i += 1;
    }
    assert(texts(args@).subrange(0, args@.len() as int) =~= texts(args@));
    out
}

/// The plan with the remote command added as its one last argument: what a
/// run of `remote` on the node starts.
pub fn with_remote(plan: CommandPlan, remote: String) -> (r: CommandPlan)
    ensures
        plan_view(r) == (PlanView {
            program: plan_view(plan).program,
            args: plan_view(plan).args.push(remote@),
            env: plan_view(plan).env,
        }),
{
    let mut p = plan;
    push_arg(&mut p.args, remote);
    p
}

/// The remote command that checks that a node is reachable.
pub fn ping_command() -> (r: &'static str)
    ensures
        r@ == "true"@,
{
    "true"
}

/// The exit code to pass on: the command's, or 1 when it has none (killed by a signal).
pub fn exit_code(code: Option<i32>) -> (r: i32)
    ensures
        r == match code {
            Some(c) => c,
            None => 1i32,
        },
{
    match code {
        Some(c) => c,
        None => 1,
    }
}

impl SshClient {
    /// A client for `node`.
    pub fn new(node: SshNode) -> (r: SshClient)
        ensures
            r.node == node,
    {
        SshClient { node }
    }

    /// Whether reaching the node needs `sshpass` (password auth only).
    pub fn needs_sshpass(&self) -> (r: bool)
        ensures
            r == (self.node.auth is Password),
    {
        match &self.node.auth {
            SshAuth::Password { .. } => true,
            _ => false,
        }
    }

    /// The `user@host` target.
    fn target(&self) -> (r: String)
        ensures
            r@ == ssh_target(self.node),
    {
        let mut t = self.node.user.clone();
        t.append("@");
        t.append(self.node.host.as_str());
        t
    }

    /// `ssh` with the port, the timeout, the host key policy and the target.
    fn ssh_command(&self) -> (r: CommandPlan)
        ensures
            plan_view(r) == (PlanView { program: "ssh"@, args: ssh_args(self.node), env: seq![] }),
    {
        let mut args: Vec<String> = Vec::new();
        push_lit(&mut args, "-p");
        push_arg(&mut args, decimal_string(self.node.port as u64));
        push_lit(&mut args, "-o");
        push_lit(&mut args, "ConnectTimeout=10");
        push_lit(&mut args, "-o");
        push_lit(&mut args, "StrictHostKeyChecking=accept-new");
        push_arg(&mut args, self.target());
        let env: Vec<(String, String)> = Vec::new();
        let r = CommandPlan { program: owned("ssh"), args, env };
        assert(texts(r.args@) =~= ssh_args(self.node));
        assert(env_texts(r.env@) =~= Seq::<(Seq<char>, Seq<char>)>::empty());
        r
    }

    /// The `sshpass` command for password auth, given the password.
    pub fn password_command(&self, password: String) -> (r: CommandPlan)
        ensures
            plan_view(r) == password_plan(self.node, password@),
    {
        let mut args: Vec<String> = Vec::new();
        push_lit(&mut args, "-e");
        push_lit(&mut args, "ssh");
        push_lit(&mut args, "-p");
        push_arg(&mut args, decimal_string(self.node.port as u64));
        push_lit(&mut args, "-o");
        push_lit(&mut args, "ConnectTimeout=10");
        push_lit(&mut args, "-o");
        push_lit(&mut args, "StrictHostKeyChecking=accept-new");
        push_lit(&mut args, "-o");
        push_lit(&mut args, "PreferredAuthentications=password");
        push_lit(&mut args, "-o");
        push_lit(&mut args, "PubkeyAuthentication=no");
        push_arg(&mut args, self.target());
        let mut env: Vec<(String, String)> = Vec::new();
        let ghost pw = password@;
        env.push((owned("SSHPASS"), password));
        let r = CommandPlan { program: owned("sshpass"), args, env };
        assert(texts(r.args@) =~= password_plan(self.node, pw).args);
        assert(env_texts(r.env@) =~= password_plan(self.node, pw).env);
        r
    }

    /// The first step of reaching the node, given the home directory (for
    /// paths under `~`) and whether `sshpass` is installed.
    pub fn base_command(&self, home: &Option<String>, sshpass_installed: bool) -> (r: Result<
        CommandStep,
        ForgeError,
    >)
        ensures
            match (r, base_step(self.node, opt_text(*home), sshpass_installed)) {
                (Ok(s), Ok(v)) => step_view(s) == v,
                (Err(e), Err(v)) => e@ == v,
                _ => false,
            },
    {
        match &self.node.auth {
            SshAuth::Password { password_ref, password } => {
                if !sshpass_installed {
                    return Err(ForgeError::SshpassMissing);
                }
                match resolve_secret(password_ref.as_ref(), password.as_ref()) {
                    Err(e) => Err(e),
                    Ok(Secret::Value(p)) => Ok(CommandStep::Ready(self.password_command(p))),
                    Ok(Secret::Fetch(src)) => Ok(CommandStep::NeedPassword(src)),
                }
            },
            SshAuth::KeyPair { key_path, .. } => {
                let mut command = self.ssh_command();
                let ghost before = command.args@;
                push_lit(&mut command.args, "-i");
                push_arg(&mut command.args, expand_tilde(key_path.as_str(), home));
                assert(texts(command.args@) =~= ssh_args(self.node) + seq![
                    "-i"@,
                    expanded(key_path@, opt_text(*home)),
                ]);
                Ok(CommandStep::Ready(command))
            },
            SshAuth::Certificate { key_path, cert_path, .. } => {
                let mut command = self.ssh_command();
                push_lit(&mut command.args, "-i");
                push_arg(&mut command.args, expand_tilde(key_path.as_str(), home));
                push_lit(&mut command.args, "-o");
                let mut option = owned("CertificateFile=");
                let cert = expand_tilde(cert_path.as_str(), home);
                option.append(cert.as_str());
                push_arg(&mut command.args, option);
                assert(texts(command.args@) =~= ssh_args(self.node) + seq![
                    "-i"@,
                    expanded(key_path@, opt_text(*home)),
                    "-o"@,
                    "CertificateFile="@ + expanded(cert_path@, opt_text(*home)),
                ]);
                Ok(CommandStep::Ready(command))
            },
            SshAuth::Agent { identities_only } => {
                let mut command = self.ssh_command();
                if *identities_only {
                    push_lit(&mut command.args, "-o");
                    push_lit(&mut command.args, "IdentitiesOnly=yes");
                    assert(texts(command.args@) =~= ssh_args(self.node) + seq![
                        "-o"@,
                        "IdentitiesOnly=yes"@,
                    ]);
                }
                Ok(CommandStep::Ready(command))
            },
            SshAuth::OpenSshConfig { host_alias, config_path } => {
                let mut args: Vec<String> = Vec::new();
                if let Some(config_path) = config_path {
                    push_lit(&mut args, "-F");
                    push_arg(&mut args, expand_tilde(config_path.as_str(), home));
                }
                let target = match host_alias {
                    Some(a) => a.clone(),
                    None => self.node.host.clone(),
                };
                push_arg(&mut args, target);
                let env: Vec<(String, String)> = Vec::new();
                let command = CommandPlan { program: owned("ssh"), args, env };
                assert(env_texts(command.env@) =~= Seq::<(Seq<char>, Seq<char>)>::empty());
                assert(texts(command.args@) =~= base_step(self.node, opt_text(*home), true)->Ok_0->Ready_0.args);
                Ok(CommandStep::Ready(command))
            },
            other => Err(ForgeError::AuthNotImplemented { auth: owned(other.type_label()) }),
        }
    }

    /// What a finished command means: its standard output when it succeeded,
    /// otherwise a failure naming the node, with the trimmed standard error.
    pub fn run(&self, output: CommandOutput) -> (r: Result<String, ForgeError>)
        ensures
            output.success ==> (r matches Ok(s) && s@ == output.stdout@),
            !output.success ==> (r matches Err(e) && e@ == ErrorView::CommandFailed(
                self.node.name@,
                trimmed(output.stderr@),
            )),
    {
        if !output.success {
            let stderr = trim(output.stderr.as_str());
            return Err(ForgeError::CommandFailed { node: self.node.name.clone(), stderr });
        }
        Ok(output.stdout)
    }

    /// The remote command line for `args`, each quoted for the shell; there
    /// must be at least one.
    pub fn run_args(&self, args: &[String]) -> (r: Result<String, ForgeError>)
        ensures
            args@.len() == 0 ==> (r matches Err(e) && e@ == ErrorView::RemoteCommandRequired),
            args@.len() > 0 ==> (r matches Ok(s) && s@ == shell_joined(texts(args@))),
    {
        if args.len() == 0 {
            return Err(ForgeError::RemoteCommandRequired);
        }
        Ok(shell_join(args))
    }
}

/// Where a reader of shell words stands: the words read, the word being
/// read, and whether it is inside single quotes or just after a backslash.
pub struct ShellState {
    pub words: Seq<Seq<char>>,
    pub cur: Option<Seq<char>>,
    pub quoted: bool,
    pub escaped: bool,
    /// No shell operator or expansion character has been read outside
    /// quotes and not escaped.
    pub clean: bool,
}

/// A character that a POSIX shell does not read literally when it stands
/// outside quotes: control operators and redirections (`| & ; < > ( )`),
/// expansions (`$` and backquote), double quotes, pattern characters
/// (`* ? [ ]`), comments (`#`), tilde expansion (`~`), and the braces and
/// `!` and `^` that some shells give meaning to.
pub open spec fn shell_special(c: char) -> bool {
    ||| c == '|'
    ||| c == '&'
    ||| c == ';'
    ||| c == '<'
    ||| c == '>'
    ||| c == '('
    ||| c == ')'
    ||| c == '$'
    ||| c == '`'
    ||| c == '"'
    ||| c == '*'
    ||| c == '?'
    ||| c == '['
    ||| c == ']'
    ||| c == '#'
    ||| c == '~'
    ||| c == '{'
    ||| c == '}'
    ||| c == '!'
    ||| c == '^'
}

/// A blank that separates shell words.
pub open spec fn shell_blank(c: char) -> bool {
    c == ' ' || c == '\t' || c == '\n'
}

/// One character of POSIX word splitting and quote removal, for text that
/// holds no expansions: inside single quotes everything is literal up to
/// the closing quote; outside, a backslash makes the next character
/// literal, a quote opens a quoted part, and blanks end the word.
pub open spec fn shell_step(st: ShellState, c: char) -> ShellState {
    let w = match st.cur {
        Some(w) => w,
        None => seq![],
    };
    if st.quoted {
        if c == '\'' {
            ShellState { words: st.words, cur: st.cur, quoted: false, escaped: false, clean: st.clean }
        } else {
            ShellState { words: st.words, cur: Some(w.push(c)), quoted: true, escaped: false, clean: st.clean }
        }
    } else if st.escaped {
        ShellState { words: st.words, cur: Some(w.push(c)), quoted: false, escaped: false, clean: st.clean }
    } else if c == '\\' {
        ShellState { words: st.words, cur: Some(w), quoted: false, escaped: true, clean: st.clean }
    } else if c == '\'' {
        ShellState { words: st.words, cur: Some(w), quoted: true, escaped: false, clean: st.clean }
    } else if shell_blank(c) {
        match st.cur {
            Some(w) => ShellState { words: st.words.push(w), cur: None, quoted: false, escaped: false, clean: st.clean },
            None => st,
        }
    } else {
        ShellState {
            words: st.words,
            cur: Some(w.push(c)),
            quoted: false,
            escaped: false,
            clean: st.clean && !shell_special(c),
        }
    }
}

pub open spec fn shell_run(st: ShellState, s: Seq<char>) -> ShellState
    decreases s.len(),
{
    if s.len() == 0 {
        st
    } else {
        shell_step(shell_run(st, s.drop_last()), s.last())
    }
}

pub open spec fn idle(words: Seq<Seq<char>>) -> ShellState {
    ShellState { words, cur: None, quoted: false, escaped: false, clean: true }
}

pub open spec fn in_word(words: Seq<Seq<char>>, w: Seq<char>) -> ShellState {
    ShellState { words, cur: Some(w), quoted: false, escaped: false, clean: true }
}

pub open spec fn in_quotes(words: Seq<Seq<char>>, w: Seq<char>) -> ShellState {
    ShellState { words, cur: Some(w), quoted: true, escaped: false, clean: true }
}

/// The simple command a shell reads from `s`: its words, when every
/// character outside quotes is read literally and no quote or escape is left
/// open; `None` otherwise.
pub open spec fn shell_command(s: Seq<char>) -> Option<Seq<Seq<char>>> {
    let st = shell_run(idle(seq![]), s);
    if st.clean && !st.quoted && !st.escaped {
        Some(
            match st.cur {
                Some(w) => st.words.push(w),
                None => st.words,
            },
        )
    } else {
        None
    }
}

/// The words the shell reads from `s`.
pub open spec fn shell_words(s: Seq<char>) -> Seq<Seq<char>> {
    let st = shell_run(idle(seq![]), s);
    match st.cur {
        Some(w) => st.words.push(w),
        None => st.words,
    }
}

proof fn lemma_run_concat(st: ShellState, a: Seq<char>, b: Seq<char>)
    ensures
        shell_run(st, a + b) == shell_run(shell_run(st, a), b),
    decreases b.len(),
{
    if b.len() == 0 {
        assert(a + b =~= a);
    } else {
        lemma_run_concat(st, a, b.drop_last());
        assert((a + b).drop_last() =~= a + b.drop_last());
        assert((a + b).last() == b.last());
    }
}

proof fn lemma_run_safe(words: Seq<Seq<char>>, v: Seq<char>)
    requires
        forall|i: int| 0 <= i < v.len() ==> shell_safe(#[trigger] v[i]),
    ensures
        shell_run(idle(words), v) == if v.len() == 0 {
            idle(words)
        } else {
            in_word(words, v)
        },
    decreases v.len(),
{
    if v.len() > 0 {
        let t = v.drop_last();
        assert forall|i: int| 0 <= i < t.len() implies shell_safe(#[trigger] t[i]) by {
            assert(t[i] == v[i]);
        }
        lemma_run_safe(words, t);
        assert(shell_safe(v[v.len() - 1]));
        if t.len() == 0 {
            assert(seq![].push(v.last()) =~= v);
        } else {
            assert(t.push(v.last()) =~= v);
        }
    }
}

proof fn lemma_run_push(st: ShellState, s: Seq<char>, c: char)
    ensures
        shell_run(st, s.push(c)) == shell_step(shell_run(st, s), c),
{
    assert(s.push(c).drop_last() =~= s);
    assert(s.push(c).last() == c);
}

proof fn lemma_run_one(st: ShellState, c: char)
    ensures
        shell_run(st, seq![c]) == shell_step(st, c),
{
    lemma_run_push(st, seq![], c);
    assert(Seq::<char>::empty().push(c) =~= seq![c]);
}

proof fn lemma_run_escaped(words: Seq<Seq<char>>, x: Seq<char>, s: Seq<char>)
    ensures
        shell_run(in_quotes(words, x), escape_quotes(s)) == in_quotes(words, x + s),
    decreases s.len(),
{
    if s.len() == 0 {
        assert(x + s =~= x);
    } else {
        let t = s.drop_last();
        lemma_run_escaped(words, x, t);
        let c = s.last();
        let y = x + t;
        let q = in_quotes(words, y);
        assert(y.push(c) =~= x + s);
        if c == '\'' {
            let p1 = seq!['\''];
            let p2 = p1.push('\\');
            let p3 = p2.push('\'');
            let p4 = p3.push('\'');
            assert(p4 =~= seq!['\'', '\\', '\'', '\'']);
            lemma_run_one(q, '\'');
            lemma_run_push(q, p1, '\\');
            lemma_run_push(q, p2, '\'');
            lemma_run_push(q, p3, '\'');
            assert(shell_run(q, p1) == in_word(words, y));
            assert(shell_run(q, p2) == ShellState { words, cur: Some(y), quoted: false, escaped: true, clean: true });
            assert(shell_run(q, p3) == in_word(words, y.push('\'')));
            assert(shell_run(q, p4) == in_quotes(words, y.push('\'')));
            lemma_run_concat(in_quotes(words, x), escape_quotes(t), p4);
        } else {
            lemma_run_one(q, c);
            lemma_run_concat(in_quotes(words, x), escape_quotes(t), seq![c]);
        }
    }
}

proof fn lemma_run_quoted(words: Seq<Seq<char>>, v: Seq<char>)
    ensures
        shell_run(idle(words), shell_quoted(v)) == in_word(words, v),
{
    if v.len() > 0 && forall|i: int| 0 <= i < v.len() ==> shell_safe(#[trigger] v[i]) {
        lemma_run_safe(words, v);
    } else {
        let open = seq!['\''];
        lemma_run_one(idle(words), '\'');
        assert(shell_run(idle(words), open) == in_quotes(words, seq![]));
        lemma_run_concat(idle(words), open, escape_quotes(v));
        lemma_run_escaped(words, seq![], v);
        assert(Seq::<char>::empty() + v =~= v);
        lemma_run_concat(idle(words), open + escape_quotes(v), open);
        lemma_run_one(in_quotes(words, v), '\'');
    }
}

proof fn lemma_run_joined(args: Seq<Seq<char>>)
    requires
        args.len() > 0,
    ensures
        shell_run(idle(seq![]), shell_joined(args)) == in_word(args.drop_last(), args.last()),
    decreases args.len(),
{
    if args.len() == 1 {
        lemma_run_quoted(seq![], args[0]);
        assert(args.drop_last() =~= Seq::<Seq<char>>::empty());
    } else {
        let d = args.drop_last();
        lemma_run_joined(d);
        let space = seq![' '];
        lemma_run_one(in_word(d.drop_last(), d.last()), ' ');
        lemma_run_concat(idle(seq![]), shell_joined(d), space);
        assert(d.drop_last().push(d.last()) =~= d);
        lemma_run_concat(idle(seq![]), shell_joined(d) + space, shell_quoted(args.last()));
        lemma_run_quoted(d, args.last());
    }
}

/// A remote command line made by `shell_join` reads back, word for word, as
/// the arguments it was made from, empty arguments included, as one simple
/// command: no character of any argument reaches the shell as an operator,
/// an expansion or a pattern.
pub proof fn law_shell_join_round_trip(args: Seq<Seq<char>>)
    ensures
        shell_words(shell_joined(args)) == args,
        shell_command(shell_joined(args)) == Some(args),
{
    if args.len() == 0 {
        assert(shell_words(shell_joined(args)) =~= args);
    } else {
        lemma_run_joined(args);
        assert(args.drop_last().push(args.last()) =~= args);
    }
}

/// The arguments pass the port `port` to ssh: `-p` followed by a number that
/// reads as `port`.
pub open spec fn passes_port(args: Seq<Seq<char>>, port: u16) -> bool {
    exists|i: int|
        0 <= i && i + 1 < args.len() && #[trigger] args[i] == "-p"@ && parse_unsigned(
            args[i + 1],
            u16::MAX as nat,
        ) == Some(port as nat)
}

proof fn lemma_decimal_reads_back(n: nat)
    ensures
        decimal(n).len() > 0,
        all_digits(decimal(n)),
        digits_value(decimal(n)) == n,
    decreases n,
{
    let c = digit_char(n % 10);
    assert(((n % 10 + 48) as u8) as u32 == n % 10 + 48);
    assert(is_digit(c) && digit_value(c) == n % 10);
    if n >= 10 {
        lemma_decimal_reads_back(n / 10);
        let d = decimal(n);
        assert(d.drop_last() == decimal(n / 10));
        assert(d.last() == c);
        assert((n / 10) * 10 + n % 10 == n) by (nonlinear_arith);
        assert(digits_value(d) == digits_value(decimal(n / 10)) * 10 + digit_value(c));
        assert forall|i: int| 0 <= i < d.len() implies is_digit(#[trigger] d[i]) by {
            if i < d.len() - 1 {
                assert(d[i] == decimal(n / 10)[i]);
            }
        }
    } else {
        let d = decimal(n);
        assert(d.drop_last() =~= Seq::<char>::empty());
        assert(d.last() == c);
        assert(n % 10 == n);
        assert(digits_value(d) == digits_value(d.drop_last()) * 10 + digit_value(c));
    }
}

/// The decimal text of a port reads back as that port.
proof fn lemma_port_text(port: u16)
    ensures
        parse_unsigned(decimal(port as nat), u16::MAX as nat) == Some(port as nat),
{
    lemma_decimal_reads_back(port as nat);
    let d = decimal(port as nat);
    assert(is_digit(d[0]));
}

/// Every command that reaches a node through `ssh` with `user@host` (plain
/// ssh for key-pair, certificate and agent auth, `sshpass ... ssh` for
/// password auth) passes the node's own port with `-p`.
pub proof fn law_plans_pass_port(n: SshNode, home: Option<Seq<char>>, sshpass: bool, password: Seq<char>)
    ensures
        passes_port(password_plan(n, password).args, n.port),
        password_plan(n, password).program == "sshpass"@ && password_plan(n, password).args[1]
            == "ssh"@,
        base_step(n, home, sshpass) matches Ok(StepView::Ready(p)) ==> !(n.auth is OpenSshConfig)
            ==> passes_port(p.args, n.port),
{
    lemma_port_text(n.port);
    let pa = password_plan(n, password).args;
    assert(pa[2] == "-p"@ && pa[3] == decimal(n.port as nat));
    if let Ok(StepView::Ready(p)) = base_step(n, home, sshpass) {
        if !(n.auth is OpenSshConfig) {
            match n.auth {
                SshAuth::Password { password_ref, password } => {
                    assert(p.args[2] == "-p"@ && p.args[3] == decimal(n.port as nat));
                },
                _ => {
                    assert(p.args[0] == "-p"@ && p.args[1] == decimal(n.port as nat));
                },
            }
        }
    }
}

} // verus!
