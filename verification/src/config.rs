//! SSH node records, the file that holds them, and their validation.
use vstd::prelude::*;
use vstd::string::*;

use crate::error::{ErrorView, ForgeError, fault_of};
use crate::paths::{file_extension, path_extension};
use crate::text::{blank, is_blank, owned};

verus! {

/// A reference to a secret: `env:NAME`, `prompt`, `plain:VALUE`, or a literal.
#[derive(Debug, Clone)]
pub enum SecretRef {
    String(String),
}

/// How a node is authenticated. Paths are held as text.
#[derive(Debug, Clone)]
pub enum SshAuth {
    Password { password_ref: Option<SecretRef>, password: Option<String> },
    KeyPair { key_path: String, passphrase_ref: Option<SecretRef>, passphrase: Option<String> },
    Certificate {
        key_path: String,
        cert_path: String,
        passphrase_ref: Option<SecretRef>,
        passphrase: Option<String>,
    },
    Agent { identities_only: bool },
    KeyboardInteractive,
    GssApi { delegate_credentials: bool },
    HostBased,
    NoAuth,
    OpenSshConfig { host_alias: Option<String>, config_path: Option<String> },
}

/// One SSH node. `labels` holds key/value pairs in increasing order of key,
/// each key once (see `crate::cli::keys_sorted`).
#[derive(Debug, Clone)]
pub struct SshNode {
    pub name: String,
    pub host: String,
    pub port: u16,
    pub user: String,
    pub auth: SshAuth,
    pub labels: Vec<(String, String)>,
}

/// The contents of a node file.
#[derive(Debug, Clone)]
pub struct SshNodeFile {
    pub nodes: Vec<SshNode>,
}

/// What an import does with nodes whose names are already stored.
#[derive(Debug, Clone, Copy, PartialEq, Eq, Structural)]
pub enum ImportMode {
    Merge,
    Replace,
    DryRun,
}

/// The counts an import reports.
#[derive(Debug, Clone, Copy, PartialEq, Eq, Structural)]
pub struct ImportReport {
    pub imported: usize,
    pub replaced: usize,
    pub skipped: usize,
}

/// The encodings a node file may use.
#[derive(Debug, Clone, Copy, PartialEq, Eq, Structural)]
pub enum NodeFileFormat {
    Json,
    Yaml,
}

/// The error that `SshAuth::validate` reports for `auth` on the node named `node`, if any.
pub open spec fn auth_fault(auth: SshAuth, node: Seq<char>) -> Option<ErrorView> {
    match auth {
        SshAuth::Password { password_ref, password } => {
            if password_ref is None && password is None {
                Some(ErrorView::PasswordSourceRequired(node))
            } else {
                None
            }
        },
        SshAuth::KeyPair { key_path, .. } => {
            if key_path@.len() == 0 {
                Some(ErrorView::KeyPairKeyPathRequired(node))
            } else {
                None
            }
        },
        SshAuth::Certificate { key_path, cert_path, .. } => {
            if key_path@.len() == 0 {
                Some(ErrorView::CertificateKeyPathRequired(node))
            } else if cert_path@.len() == 0 {
                Some(ErrorView::CertificateCertPathRequired(node))
            } else {
                None
            }
        },
        _ => None,
    }
}

/// The error that `SshNode::validate` reports for `n`, if any: a blank name,
/// host or user, in that order, then the auth check.
pub open spec fn node_fault(n: SshNode) -> Option<ErrorView> {
    if is_blank(n.name@) {
        Some(ErrorView::NameRequired)
    } else if is_blank(n.host@) {
        Some(ErrorView::HostRequired(n.name@))
    } else if is_blank(n.user@) {
        Some(ErrorView::UserRequired(n.name@))
    } else {
        auth_fault(n.auth, n.name@)
    }
}

/// Some node before position `i` has the name of the node at `i`.
pub open spec fn name_taken(nodes: Seq<SshNode>, i: int) -> bool {
    exists|j: int| 0 <= j < i && (#[trigger] nodes[j]).name@ == nodes[i].name@
}

/// The first error found when the nodes from position `i` on are checked in order.
pub open spec fn nodes_fault_from(nodes: Seq<SshNode>, i: int) -> Option<ErrorView>
    decreases nodes.len() - i,
{
    if i < 0 || i >= nodes.len() {
        None
    } else if node_fault(nodes[i]) is Some {
        node_fault(nodes[i])
    } else if name_taken(nodes, i) {
        Some(ErrorView::DuplicateName(nodes[i].name@))
    } else {
        nodes_fault_from(nodes, i + 1)
    }
}

/// The error that `SshNodeFile::validate` reports for a file holding `nodes`, if any.
pub open spec fn nodes_fault(nodes: Seq<SshNode>) -> Option<ErrorView> {
    nodes_fault_from(nodes, 0)
}

/// No two of the nodes share a name.
pub open spec fn unique_names(nodes: Seq<SshNode>) -> bool {
    forall|i: int, j: int|
        0 <= i < j < nodes.len() ==> (#[trigger] nodes[i]).name@ != (#[trigger] nodes[j]).name@
}

/// Every node passes its own check.
pub open spec fn all_nodes_valid(nodes: Seq<SshNode>) -> bool {
    forall|i: int| 0 <= i < nodes.len() ==> node_fault(#[trigger] nodes[i]) is None
}

/// The name `SshAuth::type_name` gives each kind of auth.
pub open spec fn auth_type_name(auth: SshAuth) -> Seq<char> {
    match auth {
        SshAuth::Password { .. } => "password"@,
        SshAuth::KeyPair { .. } => "key_pair"@,
        SshAuth::Certificate { .. } => "certificate"@,
        SshAuth::Agent { .. } => "agent"@,
        SshAuth::KeyboardInteractive => "keyboard_interactive"@,
        SshAuth::GssApi { .. } => "gssapi"@,
        SshAuth::HostBased => "hostbased"@,
        SshAuth::NoAuth => "none"@,
        SshAuth::OpenSshConfig { .. } => "openssh_config"@,
    }
}

/// What `SshNodeFile::format_of` returns for a file at `path`: by its
/// extension, `json` or `yaml`/`yml`; any other extension, or none, is refused.
pub open spec fn format_result(path: Seq<char>) -> Result<NodeFileFormat, ErrorView> {
    match path_extension(path) {
        Some(ext) => if ext == "json"@ {
            Ok(NodeFileFormat::Json)
        } else if ext == "yaml"@ || ext == "yml"@ {
            Ok(NodeFileFormat::Yaml)
        } else {
            Err(ErrorView::UnsupportedExtension(ext))
        },
        None => Err(ErrorView::MissingExtension),
    }
}

/// The port a node uses when its record names none.
pub fn default_port() -> (port: u16)
    ensures
        port == 22,
{
    22
}

impl SecretRef {
    /// The text of the reference.
    pub fn value(&self) -> (r: &str)
        ensures
            r@ == self.text(),
    {
        match self {
            SecretRef::String(value) => value.as_str(),
        }
    }

    pub open spec fn text(&self) -> Seq<char> {
        match self {
            SecretRef::String(value) => value@,
        }
    }
}

impl SshAuth {
    /// Checks the fields that this kind of auth needs, for the node named `node_name`.
    pub fn validate(&self, node_name: &str) -> (r: Result<(), ForgeError>)
        ensures
            fault_of(r) == auth_fault(*self, node_name@),
    {
        match self {
            SshAuth::Password { password_ref, password } => {
                if password_ref.is_none() && password.is_none() {
                    return Err(ForgeError::PasswordSourceRequired { node: owned(node_name) });
                }
            },
            SshAuth::KeyPair { key_path, .. } => {
                if key_path.as_str().is_empty() {
                    return Err(ForgeError::KeyPairKeyPathRequired { node: owned(node_name) });
                }
            },
            SshAuth::Certificate { key_path, cert_path, .. } => {
                if key_path.as_str().is_empty() {
                    return Err(ForgeError::CertificateKeyPathRequired { node: owned(node_name) });
                }
                if cert_path.as_str().is_empty() {
                    return Err(ForgeError::CertificateCertPathRequired { node: owned(node_name) });
                }
            },
            _ => {},
        }
        Ok(())
    }

    /// The name of this kind of auth, as node files write it.
    pub fn type_label(&self) -> (r: &'static str)
        ensures
            r@ == auth_type_name(*self),
    {
        match self {
            SshAuth::Password { .. } => "password",
            SshAuth::KeyPair { .. } => "key_pair",
            SshAuth::Certificate { .. } => "certificate",
            SshAuth::Agent { .. } => "agent",
            SshAuth::KeyboardInteractive => "keyboard_interactive",
            SshAuth::GssApi { .. } => "gssapi",
            SshAuth::HostBased => "hostbased",
            SshAuth::NoAuth => "none",
            SshAuth::OpenSshConfig { .. } => "openssh_config",
        }
    }
}

impl SshNode {
    /// Checks that the node has a name, a host and a user that are not
    /// blank, and what its auth needs.
    pub fn validate(&self) -> (r: Result<(), ForgeError>)
        ensures
            fault_of(r) == node_fault(*self),
    {
        if blank(self.name.as_str()) {
            return Err(ForgeError::NameRequired);
        }
        if blank(self.host.as_str()) {
            return Err(ForgeError::HostRequired { node: self.name.clone() });
        }
        if blank(self.user.as_str()) {
            return Err(ForgeError::UserRequired { node: self.name.clone() });
        }
        self.auth.validate(self.name.as_str())
    }
}

/// Whether some node among the first `i` is named like the node at `i`.
fn name_seen(nodes: &Vec<SshNode>, i: usize) -> (r: bool)
    requires
        i < nodes@.len(),
    ensures
        r == name_taken(nodes@, i as int),
{
    let mut j: usize = 0;
    while j < i
        invariant
            j <= i < nodes@.len(),
            forall|k: int| 0 <= k < j ==> nodes@[k].name@ != nodes@[i as int].name@,
        decreases i - j,
    {
        if nodes[j].name == nodes[i].name {
            assert(nodes@[j as int].name@ == nodes@[i as int].name@);
            return true;
        }
        j += 1;
    }
    assert(!name_taken(nodes@, i as int)) by {
        if name_taken(nodes@, i as int) {
            let k = choose|k: int|
                0 <= k < i && (#[trigger] nodes@[k]).name@ == nodes@[i as int].name@;
            assert(nodes@[k].name@ != nodes@[i as int].name@);
        }
    }
    false
}

impl SshNodeFile {
    /// Checks every node in order, and that no two share a name; the first
    /// problem found is reported.
    pub fn validate(&self) -> (r: Result<(), ForgeError>)
        ensures
            fault_of(r) == nodes_fault(self.nodes@),
    {
        let mut i: usize = 0;
        while i < self.nodes.len()
            invariant
                i <= self.nodes@.len(),
                nodes_fault(self.nodes@) == nodes_fault_from(self.nodes@, i as int),
            decreases self.nodes.len() - i,
        {
            let checked = self.nodes[i].validate();
            if let Err(e) = checked {
                return Err(e);
            }
            if name_seen(&self.nodes, i) {
                return Err(ForgeError::DuplicateName { name: self.nodes[i].name.clone() });
            }
            i += 1;
        }
        Ok(())
    }

    /// The encoding of the node file at `path`, by its extension.
    pub fn format_of(path: &str) -> (r: Result<NodeFileFormat, ForgeError>)
        ensures
            match (r, format_result(path@)) {
                (Ok(f), Ok(g)) => f == g,
                (Err(e), Err(g)) => e@ == g,
                _ => false,
            },
    {
        match file_extension(path) {
            Some(ext) => {
                if ext == owned("json") {
                    Ok(NodeFileFormat::Json)
                } else if ext == owned("yaml") || ext == owned("yml") {
                    Ok(NodeFileFormat::Yaml)
                } else {
                    Err(ForgeError::UnsupportedExtension { extension: ext })
                }
            },
            None => Err(ForgeError::MissingExtension),
        }
    }
}

/// A node file's check passes exactly when every node passes its own
/// check and no two nodes share a name.
pub proof fn law_file_check(nodes: Seq<SshNode>)
    ensures
        nodes_fault(nodes) is None <==> (all_nodes_valid(nodes) && unique_names(nodes)),
{
    lemma_nodes_fault_from(nodes, 0);
}

proof fn lemma_nodes_fault_from(nodes: Seq<SshNode>, i: int)
    requires
        0 <= i <= nodes.len(),
    ensures
        nodes_fault_from(nodes, i) is None <==> (forall|k: int|
            i <= k < nodes.len() ==> node_fault(#[trigger] nodes[k]) is None && !name_taken(nodes, k)),
    decreases nodes.len() - i,
{
    if i < nodes.len() {
        lemma_nodes_fault_from(nodes, i + 1);
    }
    if i == 0 {
        if (forall|k: int|
            0 <= k < nodes.len() ==> node_fault(#[trigger] nodes[k]) is None && !name_taken(nodes, k)) {
            assert forall|a: int, b: int| 0 <= a < b < nodes.len() implies (#[trigger] nodes[a]).name@
                != (#[trigger] nodes[b]).name@ by {
                assert(!name_taken(nodes, b));
            }
        }
        if all_nodes_valid(nodes) && unique_names(nodes) {
            assert forall|k: int| 0 <= k < nodes.len() implies node_fault(#[trigger] nodes[k]) is None
                && !name_taken(nodes, k) by {
                if name_taken(nodes, k) {
                    let j = choose|j: int| 0 <= j < k && (#[trigger] nodes[j]).name@ == nodes[k].name@;
                    assert(nodes[j].name@ != nodes[k].name@);
                }
            }
        }
    }
}

} // verus!
