use forge::client::{
    command_candidates, exit_code, expand_tilde, resolve_secret, shell_join, shell_quote,
    ping_command, trim_line_end, with_remote, CommandOutput, CommandStep, Secret, SecretSource, SshClient,
};
use forge::config::{SecretRef, SshAuth, SshNode};

fn client(auth: SshAuth) -> SshClient {
    SshClient::new(SshNode {
        name: "dev".to_string(),
        host: "1.2.3.4".to_string(),
        port: 2222,
        user: "ubuntu".to_string(),
        auth,
        labels: vec![],
    })
}

fn ready(step: CommandStep) -> (String, Vec<String>, Vec<(String, String)>) {
    match step {
        CommandStep::Ready(plan) => (plan.program, plan.args, plan.env),
        CommandStep::NeedPassword(_) => panic!("expected a ready command"),
    }
}

fn strs(v: &[&str]) -> Vec<String> {
    v.iter().map(|s| s.to_string()).collect()
}

#[test]
fn quote_leaves_safe_words() {
    assert_eq!(shell_quote("uname"), "uname");
    assert_eq!(shell_quote("-a"), "-a");
    assert_eq!(shell_quote("a_b+c-d./e:f=g,h@i%j"), "a_b+c-d./e:f=g,h@i%j");
}

#[test]
fn quote_wraps_unsafe_words() {
    assert_eq!(shell_quote("hello world"), "'hello world'");
    assert_eq!(shell_quote("it's"), "'it'\\''s'");
    assert_eq!(shell_quote("$HOME"), "'$HOME'");
    assert_eq!(shell_quote("~"), "'~'");
    assert_eq!(shell_quote(""), "''");
}

#[test]
fn join_quotes_each_argument() {
    assert_eq!(shell_join(&strs(&["uname", "-a"])), "uname -a");
    assert_eq!(shell_join(&strs(&["echo", "a b", "c'd"])), "echo 'a b' 'c'\\''d'");
    assert_eq!(shell_join(&[]), "");
    assert_eq!(shell_join(&strs(&["printf", "%s", ""])), "printf %s ''");
}

#[test]
fn remote_command_is_the_last_argument() {
    let c = client(SshAuth::Agent { identities_only: false });
    let plan = match c.base_command(&None, false).unwrap() {
        CommandStep::Ready(plan) => plan,
        CommandStep::NeedPassword(_) => panic!("expected a ready command"),
    };
    let plan = with_remote(plan, "uname -a".to_string());
    assert_eq!(plan.program, "ssh");
    assert_eq!(plan.args.len(), 8);
    assert_eq!(plan.args[6], "ubuntu@1.2.3.4");
    assert_eq!(plan.args[7], "uname -a");
    assert_eq!(ping_command(), "true");
}

#[test]
fn only_password_auth_needs_sshpass() {
    assert!(client(SshAuth::Password { password_ref: None, password: None }).needs_sshpass());
    assert!(!client(SshAuth::Agent { identities_only: false }).needs_sshpass());
}

#[test]
fn run_args_needs_a_command() {
    let c = client(SshAuth::Agent { identities_only: false });
    assert_eq!(c.run_args(&[]).unwrap_err().message(), "remote command is required");
    assert_eq!(c.run_args(&strs(&["ls", "-l"])).unwrap(), "ls -l");
}

#[test]
fn run_judges_output() {
    let c = client(SshAuth::Agent { identities_only: false });
    let ok = c
        .run(CommandOutput { success: true, stdout: "out\n".to_string(), stderr: "warn".to_string() })
        .unwrap();
    assert_eq!(ok, "out\n");
    let err = c
        .run(CommandOutput { success: false, stdout: String::new(), stderr: "  denied \n".to_string() })
        .unwrap_err();
    assert_eq!(err.message(), "SSH command failed on dev: denied");
}

#[test]
fn exit_code_defaults_to_one() {
    assert_eq!(exit_code(Some(3)), 3);
    assert_eq!(exit_code(Some(0)), 0);
    assert_eq!(exit_code(None), 1);
}

#[test]
fn key_pair_command() {
    let c = client(SshAuth::KeyPair { key_path: "~/.ssh/id".to_string(), passphrase_ref: None, passphrase: None });
    let (program, args, env) = ready(c.base_command(&Some("/home/me".to_string()), false).unwrap());
    assert_eq!(program, "ssh");
    assert_eq!(
        args,
        strs(&[
            "-p", "2222", "-o", "ConnectTimeout=10", "-o", "StrictHostKeyChecking=accept-new",
            "ubuntu@1.2.3.4", "-i", "/home/me/.ssh/id"
        ])
    );
    assert!(env.is_empty());
}

#[test]
fn certificate_command() {
    let c = client(SshAuth::Certificate {
        key_path: "/k".to_string(),
        cert_path: "~/c.pub".to_string(),
        passphrase_ref: None,
        passphrase: None,
    });
    let (_, args, _) = ready(c.base_command(&None, true).unwrap());
    assert_eq!(&args[7..], &strs(&["-i", "/k", "-o", "CertificateFile=~/c.pub"])[..]);
}

#[test]
fn agent_command() {
    let (_, args, _) = ready(client(SshAuth::Agent { identities_only: true }).base_command(&None, false).unwrap());
    assert_eq!(args.len(), 9);
    assert_eq!(&args[7..], &strs(&["-o", "IdentitiesOnly=yes"])[..]);
    let (_, args, _) = ready(client(SshAuth::Agent { identities_only: false }).base_command(&None, false).unwrap());
    assert_eq!(args.len(), 7);
}

#[test]
fn openssh_config_command() {
    let c = client(SshAuth::OpenSshConfig { host_alias: Some("box".to_string()), config_path: Some("~/cfg".to_string()) });
    let (program, args, _) = ready(c.base_command(&Some("/h".to_string()), false).unwrap());
    assert_eq!(program, "ssh");
    assert_eq!(args, strs(&["-F", "/h/cfg", "box"]));
    let c = client(SshAuth::OpenSshConfig { host_alias: None, config_path: None });
    let (_, args, _) = ready(c.base_command(&None, false).unwrap());
    assert_eq!(args, strs(&["1.2.3.4"]));
}

#[test]
fn password_command_needs_sshpass() {
    let c = client(SshAuth::Password { password_ref: None, password: Some("pw".to_string()) });
    assert_eq!(
        c.base_command(&None, false).unwrap_err().message(),
        "password auth requires sshpass to be installed"
    );
    let (program, args, env) = ready(c.base_command(&None, true).unwrap());
    assert_eq!(program, "sshpass");
    assert_eq!(args[0], "-e");
    assert_eq!(args[1], "ssh");
    assert_eq!(args.last().unwrap(), "ubuntu@1.2.3.4");
    assert!(args.contains(&"PubkeyAuthentication=no".to_string()));
    assert_eq!(env, vec![("SSHPASS".to_string(), "pw".to_string())]);
}

#[test]
fn password_from_environment_or_prompt() {
    let c = client(SshAuth::Password { password_ref: Some(SecretRef::String("env:PW".to_string())), password: None });
    match c.base_command(&None, true).unwrap() {
        CommandStep::NeedPassword(SecretSource::Env(name)) => assert_eq!(name, "PW"),
        other => panic!("unexpected {other:?}"),
    }
    let c = client(SshAuth::Password { password_ref: Some(SecretRef::String("prompt".to_string())), password: None });
    assert!(matches!(c.base_command(&None, true).unwrap(), CommandStep::NeedPassword(SecretSource::Prompt)));
}

#[test]
fn unimplemented_auths_are_refused() {
    assert_eq!(
        client(SshAuth::KeyboardInteractive).base_command(&None, true).unwrap_err().message(),
        "SSH auth type 'keyboard_interactive' is modeled but not implemented yet"
    );
    assert!(client(SshAuth::NoAuth).base_command(&None, true).is_err());
}

#[test]
fn secret_resolution() {
    let r = |s: &str| SecretRef::String(s.to_string());
    let plain = "direct".to_string();
    assert!(matches!(resolve_secret(Some(&r("env:X")), Some(&plain)).unwrap(), Secret::Value(v) if v == "direct"));
    assert!(matches!(resolve_secret(Some(&r("env:TOKEN")), None).unwrap(), Secret::Fetch(SecretSource::Env(n)) if n == "TOKEN"));
    assert!(matches!(resolve_secret(Some(&r("prompt")), None).unwrap(), Secret::Fetch(SecretSource::Prompt)));
    assert!(matches!(resolve_secret(Some(&r("plain:abc")), None).unwrap(), Secret::Value(v) if v == "abc"));
    assert!(matches!(resolve_secret(Some(&r("hunter2")), None).unwrap(), Secret::Value(v) if v == "hunter2"));
    assert!(matches!(resolve_secret(Some(&r("prompts")), None).unwrap(), Secret::Value(v) if v == "prompts"));
    assert_eq!(
        resolve_secret(None, None).unwrap_err().message(),
        "password auth requires password_ref or password"
    );
}

#[test]
fn tilde_expansion() {
    let home = Some("/home/me".to_string());
    assert_eq!(expand_tilde("~", &home), "/home/me");
    assert_eq!(expand_tilde("~/x/y", &home), "/home/me/x/y");
    assert_eq!(expand_tilde("~x", &home), "~x");
    assert_eq!(expand_tilde("/abs", &home), "/abs");
    assert_eq!(expand_tilde("~/x", &None), "~/x");
    assert_eq!(expand_tilde("~//abs", &home), "/abs");
}

#[test]
fn line_end_trimming() {
    assert_eq!(trim_line_end("secret\r\n"), "secret");
    assert_eq!(trim_line_end("a\n\n\r"), "a");
    assert_eq!(trim_line_end(" a "), " a ");
}

#[test]
fn candidates_from_path() {
    let path = Some("/usr/bin::/bin/".to_string());
    assert_eq!(
        command_candidates(&path, "sshpass"),
        strs(&["/usr/bin/sshpass", "sshpass", "/bin/sshpass"])
    );
    assert!(command_candidates(&None, "sshpass").is_empty());
    assert_eq!(command_candidates(&Some(String::new()), "x"), strs(&["x"]));
}
