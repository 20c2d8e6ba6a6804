use forge::cli::{build_auth, import_mode, import_summary, labels_from_pairs, parse_label, redact_auth, AuthKind};
use forge::config::{ImportMode, ImportReport, SecretRef, SshAuth, SshNode, SshNodeFile};
use forge::provider::SshProvider;
use forge::store::SshNodeStore;

#[test]
fn labels_parse_at_first_equals() {
    assert_eq!(parse_label("env=dev").unwrap(), ("env".to_string(), "dev".to_string()));
    assert_eq!(parse_label("a=b=c").unwrap(), ("a".to_string(), "b=c".to_string()));
    assert_eq!(parse_label("k=").unwrap(), ("k".to_string(), String::new()));
    assert_eq!(parse_label("novalue").unwrap_err(), "labels must use key=value format");
    assert_eq!(parse_label(" =x").unwrap_err(), "label key cannot be empty");
}

#[test]
fn labels_sorted_last_wins() {
    let pairs = vec![
        ("team".to_string(), "a".to_string()),
        ("env".to_string(), "dev".to_string()),
        ("team".to_string(), "b".to_string()),
    ];
    assert_eq!(
        labels_from_pairs(pairs),
        vec![("env".to_string(), "dev".to_string()), ("team".to_string(), "b".to_string())]
    );
    assert!(labels_from_pairs(vec![]).is_empty());
}

#[test]
fn build_password_auth() {
    let auth = build_auth(AuthKind::Password, Some("env:PW".to_string()), None, None, None).unwrap();
    match auth {
        SshAuth::Password { password_ref: Some(SecretRef::String(r)), password: None } => assert_eq!(r, "env:PW"),
        other => panic!("unexpected {other:?}"),
    }
}

#[test]
fn build_key_auths() {
    assert_eq!(
        build_auth(AuthKind::KeyPair, None, None, None, None).unwrap_err().message(),
        "--key is required for key-pair auth"
    );
    assert!(matches!(
        build_auth(AuthKind::KeyPair, None, None, Some("k".to_string()), None).unwrap(),
        SshAuth::KeyPair { key_path, passphrase_ref: None, passphrase: None } if key_path == "k"
    ));
    assert_eq!(
        build_auth(AuthKind::Certificate, None, None, None, Some("c".to_string())).unwrap_err().message(),
        "--key is required for certificate auth"
    );
    assert_eq!(
        build_auth(AuthKind::Certificate, None, None, Some("k".to_string()), None).unwrap_err().message(),
        "--cert is required for certificate auth"
    );
    assert!(matches!(
        build_auth(AuthKind::Certificate, None, None, Some("k".to_string()), Some("c".to_string())).unwrap(),
        SshAuth::Certificate { key_path, cert_path, .. } if key_path == "k" && cert_path == "c"
    ));
}

#[test]
fn redaction_hides_plain_password() {
    let mut auth = SshAuth::Password {
        password_ref: Some(SecretRef::String("prompt".to_string())),
        password: Some("secret".to_string()),
    };
    redact_auth(&mut auth);
    match &auth {
        SshAuth::Password { password_ref: Some(SecretRef::String(r)), password: Some(p) } => {
            assert_eq!(r, "prompt");
            assert_eq!(p, "<redacted>");
        }
        other => panic!("unexpected {other:?}"),
    }
    let mut auth = SshAuth::Password { password_ref: None, password: None };
    redact_auth(&mut auth);
    assert!(matches!(auth, SshAuth::Password { password: None, .. }));
    let mut auth = SshAuth::KeyPair {
        key_path: "k".to_string(),
        passphrase_ref: Some(SecretRef::String("env:PP".to_string())),
        passphrase: Some("secret".to_string()),
    };
    redact_auth(&mut auth);
    assert!(matches!(&auth, SshAuth::KeyPair { key_path, passphrase: Some(p), passphrase_ref: Some(_) }
        if key_path == "k" && p == "<redacted>"));
    let mut auth = SshAuth::Certificate {
        key_path: "k".to_string(),
        cert_path: "c".to_string(),
        passphrase_ref: None,
        passphrase: Some("secret".to_string()),
    };
    redact_auth(&mut auth);
    assert!(matches!(&auth, SshAuth::Certificate { cert_path, passphrase: Some(p), .. }
        if cert_path == "c" && p == "<redacted>"));
    let mut auth = SshAuth::KeyPair { key_path: "k".to_string(), passphrase_ref: None, passphrase: None };
    redact_auth(&mut auth);
    assert!(matches!(auth, SshAuth::KeyPair { passphrase: None, .. }));
    let mut auth = SshAuth::Agent { identities_only: true };
    redact_auth(&mut auth);
    assert!(matches!(auth, SshAuth::Agent { identities_only: true }));
}

#[test]
fn import_mode_from_flags() {
    assert_eq!(import_mode(true, false), ImportMode::DryRun);
    assert_eq!(import_mode(true, true), ImportMode::DryRun);
    assert_eq!(import_mode(false, true), ImportMode::Replace);
    assert_eq!(import_mode(false, false), ImportMode::Merge);
}

#[test]
fn import_summaries() {
    let report = ImportReport { imported: 3, replaced: 1, skipped: 0 };
    assert_eq!(import_summary(&report, true), "dry run succeeded: 3 new SSH nodes validated");
    assert_eq!(import_summary(&report, false), "imported 3 SSH nodes, replaced 1, skipped 0");
}

#[test]
fn provider_lists_and_execs() {
    let provider = SshProvider::new(SshNodeStore::at("/tmp/x".to_string()));
    assert_eq!(provider.name(), "ssh");
    let node = SshNode {
        name: "a".to_string(),
        host: "h".to_string(),
        port: 2200,
        user: "u".to_string(),
        auth: SshAuth::Agent { identities_only: false },
        labels: vec![("env".to_string(), "dev".to_string())],
    };
    let file = SshNodeFile { nodes: vec![node.clone()] };
    let list = provider.list_nodes(Some(file.clone())).unwrap();
    assert_eq!(list.len(), 1);
    assert_eq!(list[0].provider, "ssh");
    assert_eq!(list[0].port, 2200);
    assert_eq!(list[0].labels, node.labels);
    let (client, line) = provider
        .exec(Some(file.clone()), "a", &["echo".to_string(), "hi there".to_string()])
        .unwrap();
    assert_eq!(client.node.name, "a");
    assert_eq!(line, "echo 'hi there'");
    assert_eq!(provider.exec(Some(file.clone()), "a", &[]).unwrap_err().message(), "remote command is required");
    assert_eq!(provider.exec(Some(file), "b", &[]).unwrap_err().message(), "SSH node not found: b");
    assert!(provider.client_for(None, "a").is_err());
}

#[test]
fn listed_labels_are_sorted() {
    let provider = SshProvider::new(SshNodeStore::at("/tmp/x".to_string()));
    let node = SshNode {
        name: "a".to_string(),
        host: "h".to_string(),
        port: 22,
        user: "u".to_string(),
        auth: SshAuth::Agent { identities_only: false },
        labels: vec![
            ("zone".to_string(), "1".to_string()),
            ("env".to_string(), "dev".to_string()),
            ("zone".to_string(), "2".to_string()),
        ],
    };
    let list = provider.list_nodes(Some(SshNodeFile { nodes: vec![node] })).unwrap();
    assert_eq!(
        list[0].labels,
        vec![("env".to_string(), "dev".to_string()), ("zone".to_string(), "2".to_string())]
    );
}
