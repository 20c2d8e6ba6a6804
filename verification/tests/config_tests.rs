use forge::config::{default_port, ImportMode, NodeFileFormat, SecretRef, SshAuth, SshNode, SshNodeFile};
use forge::error::ForgeError;

fn key_node(name: &str) -> SshNode {
    SshNode {
        name: name.to_string(),
        host: "1.2.3.5".to_string(),
        port: 22,
        user: "ubuntu".to_string(),
        auth: SshAuth::KeyPair {
            key_path: "~/.ssh/id_ed25519".to_string(),
            passphrase_ref: None,
            passphrase: None,
        },
        labels: vec![],
    }
}

#[test]
fn default_port_is_22() {
    assert_eq!(default_port(), 22);
}

#[test]
fn valid_node_passes() {
    assert!(key_node("dev-key").validate().is_ok());
}

#[test]
fn blank_name_is_refused() {
    let node = key_node(" \t ");
    let err = node.validate().unwrap_err();
    assert!(matches!(err, ForgeError::NameRequired));
    assert_eq!(err.message(), "SSH node name is required");
}

#[test]
fn blank_host_is_refused_with_name() {
    let mut node = key_node("dev");
    node.host = "   ".to_string();
    let err = node.validate().unwrap_err();
    assert_eq!(err.message(), "SSH node host is required for dev");
}

#[test]
fn blank_user_is_refused() {
    let mut node = key_node("dev");
    node.user = "\u{3000}".to_string();
    assert_eq!(node.validate().unwrap_err().message(), "SSH node user is required for dev");
}

#[test]
fn host_checked_before_user() {
    let mut node = key_node("dev");
    node.host = "".to_string();
    node.user = "".to_string();
    assert!(matches!(node.validate().unwrap_err(), ForgeError::HostRequired { .. }));
}

#[test]
fn password_auth_needs_a_source() {
    let auth = SshAuth::Password { password_ref: None, password: None };
    assert_eq!(
        auth.validate("n1").unwrap_err().message(),
        "password auth requires password_ref or password for n1"
    );
    let auth = SshAuth::Password { password_ref: Some(SecretRef::String("env:X".to_string())), password: None };
    assert!(auth.validate("n1").is_ok());
    let auth = SshAuth::Password { password_ref: None, password: Some("secret".to_string()) };
    assert!(auth.validate("n1").is_ok());
}

#[test]
fn key_pair_needs_key_path() {
    let auth = SshAuth::KeyPair { key_path: String::new(), passphrase_ref: None, passphrase: None };
    assert_eq!(auth.validate("k").unwrap_err().message(), "key_pair auth requires key_path for k");
}

#[test]
fn certificate_needs_both_paths() {
    let auth = SshAuth::Certificate {
        key_path: String::new(),
        cert_path: String::new(),
        passphrase_ref: None,
        passphrase: None,
    };
    assert_eq!(auth.validate("c").unwrap_err().message(), "certificate auth requires key_path for c");
    let auth = SshAuth::Certificate {
        key_path: "k".to_string(),
        cert_path: String::new(),
        passphrase_ref: None,
        passphrase: None,
    };
    assert_eq!(auth.validate("c").unwrap_err().message(), "certificate auth requires cert_path for c");
}

#[test]
fn other_auths_need_nothing() {
    assert!(SshAuth::Agent { identities_only: false }.validate("a").is_ok());
    assert!(SshAuth::NoAuth.validate("a").is_ok());
    assert!(SshAuth::HostBased.validate("a").is_ok());
}

#[test]
fn type_labels_match_file_tags() {
    assert_eq!(SshAuth::Password { password_ref: None, password: None }.type_label(), "password");
    assert_eq!(
        SshAuth::KeyPair { key_path: "k".into(), passphrase_ref: None, passphrase: None }.type_label(),
        "key_pair"
    );
    assert_eq!(SshAuth::Agent { identities_only: true }.type_label(), "agent");
    assert_eq!(SshAuth::KeyboardInteractive.type_label(), "keyboard_interactive");
    assert_eq!(SshAuth::GssApi { delegate_credentials: false }.type_label(), "gssapi");
    assert_eq!(SshAuth::HostBased.type_label(), "hostbased");
    assert_eq!(SshAuth::NoAuth.type_label(), "none");
    assert_eq!(SshAuth::OpenSshConfig { host_alias: None, config_path: None }.type_label(), "openssh_config");
}

#[test]
fn secret_ref_value() {
    assert_eq!(SecretRef::String("env:PW".to_string()).value(), "env:PW");
}

#[test]
fn file_with_duplicate_names_is_refused() {
    let file = SshNodeFile { nodes: vec![key_node("a"), key_node("b"), key_node("a")] };
    let err = file.validate().unwrap_err();
    assert_eq!(err.message(), "duplicate SSH node name in import file: a");
}

#[test]
fn file_reports_first_problem() {
    let mut bad = key_node("b");
    bad.user = String::new();
    let file = SshNodeFile { nodes: vec![key_node("a"), bad, key_node("a")] };
    assert_eq!(file.validate().unwrap_err().message(), "SSH node user is required for b");
    assert!(SshNodeFile { nodes: vec![] }.validate().is_ok());
}

#[test]
fn file_formats_by_extension() {
    assert_eq!(SshNodeFile::format_of("nodes.json").unwrap(), NodeFileFormat::Json);
    assert_eq!(SshNodeFile::format_of("/tmp/a/nodes.yaml").unwrap(), NodeFileFormat::Yaml);
    assert_eq!(SshNodeFile::format_of("./x.tar.yml").unwrap(), NodeFileFormat::Yaml);
    assert_eq!(SshNodeFile::format_of("dir/nodes.yaml/").unwrap(), NodeFileFormat::Yaml);
    assert_eq!(
        SshNodeFile::format_of("nodes.toml").unwrap_err().message(),
        "unsupported SSH node file extension: toml"
    );
    assert_eq!(
        SshNodeFile::format_of("nodes").unwrap_err().message(),
        "SSH node file must use .yaml, .yml, or .json"
    );
    assert!(matches!(SshNodeFile::format_of(".yaml").unwrap_err(), ForgeError::MissingExtension));
    assert!(matches!(SshNodeFile::format_of("a/..").unwrap_err(), ForgeError::MissingExtension));
    assert!(matches!(
        SshNodeFile::format_of("a.").unwrap_err(),
        ForgeError::UnsupportedExtension { .. }
    ));
    assert_eq!(SshNodeFile::format_of("a/b.json/.").unwrap(), NodeFileFormat::Json);
}

#[test]
fn import_modes_differ() {
    assert_ne!(ImportMode::Merge, ImportMode::Replace);
    assert_ne!(ImportMode::DryRun, ImportMode::Merge);
}
