//! The errors of the library and the text that reports each of them.
use vstd::prelude::*;
use vstd::string::*;

verus! {

/// Every way in which an operation of the library refuses its input.
#[derive(Debug)]
pub enum ForgeError {
    NameRequired,
    HostRequired { node: String },
    UserRequired { node: String },
    PasswordSourceRequired { node: String },
    KeyPairKeyPathRequired { node: String },
    CertificateKeyPathRequired { node: String },
    CertificateCertPathRequired { node: String },
    DuplicateName { name: String },
    NodeExists { name: String },
    NodeNotFound { name: String },
    HomeNotFound,
    UnsupportedExtension { extension: String },
    MissingExtension,
    RemoteCommandRequired,
    CommandFailed { node: String, stderr: String },
    SshpassMissing,
    PasswordRequired,
    EnvVarNotSet { name: String },
    AuthNotImplemented { auth: String },
    KeyPairKeyRequired,
    CertificateKeyRequired,
    CertificateCertRequired,
}

/// An error with its texts taken as character sequences.
pub enum ErrorView {
    NameRequired,
    HostRequired(Seq<char>),
    UserRequired(Seq<char>),
    PasswordSourceRequired(Seq<char>),
    KeyPairKeyPathRequired(Seq<char>),
    CertificateKeyPathRequired(Seq<char>),
    CertificateCertPathRequired(Seq<char>),
    DuplicateName(Seq<char>),
    NodeExists(Seq<char>),
    NodeNotFound(Seq<char>),
    HomeNotFound,
    UnsupportedExtension(Seq<char>),
    MissingExtension,
    RemoteCommandRequired,
    CommandFailed(Seq<char>, Seq<char>),
    SshpassMissing,
    PasswordRequired,
    EnvVarNotSet(Seq<char>),
    AuthNotImplemented(Seq<char>),
    KeyPairKeyRequired,
    CertificateKeyRequired,
    CertificateCertRequired,
}

impl View for ForgeError {
    type V = ErrorView;

    open spec fn view(&self) -> ErrorView {
        match self {
            ForgeError::NameRequired => ErrorView::NameRequired,
            ForgeError::HostRequired { node } => ErrorView::HostRequired(node@),
            ForgeError::UserRequired { node } => ErrorView::UserRequired(node@),
            ForgeError::PasswordSourceRequired { node } => ErrorView::PasswordSourceRequired(node@),
            ForgeError::KeyPairKeyPathRequired { node } => ErrorView::KeyPairKeyPathRequired(node@),
            ForgeError::CertificateKeyPathRequired { node } => ErrorView::CertificateKeyPathRequired(
                node@,
            ),
            ForgeError::CertificateCertPathRequired { node } =>
                ErrorView::CertificateCertPathRequired(node@),
            ForgeError::DuplicateName { name } => ErrorView::DuplicateName(name@),
            ForgeError::NodeExists { name } => ErrorView::NodeExists(name@),
            ForgeError::NodeNotFound { name } => ErrorView::NodeNotFound(name@),
            ForgeError::HomeNotFound => ErrorView::HomeNotFound,
            ForgeError::UnsupportedExtension { extension } => ErrorView::UnsupportedExtension(
                extension@,
            ),
            ForgeError::MissingExtension => ErrorView::MissingExtension,
            ForgeError::RemoteCommandRequired => ErrorView::RemoteCommandRequired,
            ForgeError::CommandFailed { node, stderr } => ErrorView::CommandFailed(node@, stderr@),
            ForgeError::SshpassMissing => ErrorView::SshpassMissing,
            ForgeError::PasswordRequired => ErrorView::PasswordRequired,
            ForgeError::EnvVarNotSet { name } => ErrorView::EnvVarNotSet(name@),
            ForgeError::AuthNotImplemented { auth } => ErrorView::AuthNotImplemented(auth@),
            ForgeError::KeyPairKeyRequired => ErrorView::KeyPairKeyRequired,
            ForgeError::CertificateKeyRequired => ErrorView::CertificateKeyRequired,
            ForgeError::CertificateCertRequired => ErrorView::CertificateCertRequired,
        }
    }
}

/// The error of a result, by its view; `None` for success.
pub open spec fn fault_of<T>(r: Result<T, ForgeError>) -> Option<ErrorView> {
    match r {
        Ok(_) => None,
        Err(e) => Some(e@),
    }
}

/// An executable result agrees with a result stated over views.
pub open spec fn agrees<T>(r: Result<T, ForgeError>, s: Result<T, ErrorView>) -> bool {
    match (r, s) {
        (Ok(a), Ok(b)) => a == b,
        (Err(e), Err(v)) => e@ == v,
        _ => false,
    }
}

/// The text that reports an error.
pub open spec fn error_text(e: ErrorView) -> Seq<char> {
    match e {
        ErrorView::NameRequired => "SSH node name is required"@,
        ErrorView::HostRequired(node) => "SSH node host is required for "@ + node,
        ErrorView::UserRequired(node) => "SSH node user is required for "@ + node,
        ErrorView::PasswordSourceRequired(node) =>
            "password auth requires password_ref or password for "@ + node,
        ErrorView::KeyPairKeyPathRequired(node) => "key_pair auth requires key_path for "@ + node,
        ErrorView::CertificateKeyPathRequired(node) =>
            "certificate auth requires key_path for "@ + node,
        ErrorView::CertificateCertPathRequired(node) =>
            "certificate auth requires cert_path for "@ + node,
        ErrorView::DuplicateName(name) => "duplicate SSH node name in import file: "@ + name,
        ErrorView::NodeExists(name) => "SSH node already exists: "@ + name,
        ErrorView::NodeNotFound(name) => "SSH node not found: "@ + name,
        ErrorView::HomeNotFound => "failed to locate home directory from HOME"@,
        ErrorView::UnsupportedExtension(ext) => "unsupported SSH node file extension: "@ + ext,
        ErrorView::MissingExtension => "SSH node file must use .yaml, .yml, or .json"@,
        ErrorView::RemoteCommandRequired => "remote command is required"@,
        ErrorView::CommandFailed(node, stderr) => "SSH command failed on "@ + node + ": "@
            + stderr,
        ErrorView::SshpassMissing => "password auth requires sshpass to be installed"@,
        ErrorView::PasswordRequired => "password auth requires password_ref or password"@,
        ErrorView::EnvVarNotSet(name) => "environment variable is not set: "@ + name,
        ErrorView::AuthNotImplemented(auth) => "SSH auth type '"@ + auth
            + "' is modeled but not implemented yet"@,
        ErrorView::KeyPairKeyRequired => "--key is required for key-pair auth"@,
        ErrorView::CertificateKeyRequired => "--key is required for certificate auth"@,
        ErrorView::CertificateCertRequired => "--cert is required for certificate auth"@,
    }
}

fn text_then(lead: &str, tail: &String) -> (r: String)
    ensures
        r@ == lead@ + tail@,
{
    let mut r = String::from_str(lead);
    r.append(tail.as_str());
    r
}

impl ForgeError {
    /// The text that reports this error.
    pub fn message(&self) -> (r: String)
        ensures
            r@ == error_text(self@),
    {
        match self {
            ForgeError::NameRequired => String::from_str("SSH node name is required"),
            ForgeError::HostRequired { node } => text_then("SSH node host is required for ", node),
            ForgeError::UserRequired { node } => text_then("SSH node user is required for ", node),
            ForgeError::PasswordSourceRequired { node } => text_then(
                "password auth requires password_ref or password for ",
                node,
            ),
            ForgeError::KeyPairKeyPathRequired { node } => text_then(
                "key_pair auth requires key_path for ",
                node,
            ),
            ForgeError::CertificateKeyPathRequired { node } => text_then(
                "certificate auth requires key_path for ",
                node,
            ),
            ForgeError::CertificateCertPathRequired { node } => text_then(
                "certificate auth requires cert_path for ",
                node,
            ),
            ForgeError::DuplicateName { name } => text_then(
                "duplicate SSH node name in import file: ",
                name,
            ),
            ForgeError::NodeExists { name } => text_then("SSH node already exists: ", name),
            ForgeError::NodeNotFound { name } => text_then("SSH node not found: ", name),
            ForgeError::HomeNotFound => String::from_str(
                "failed to locate home directory from HOME",
            ),
            ForgeError::UnsupportedExtension { extension } => text_then(
                "unsupported SSH node file extension: ",
                extension,
            ),
            ForgeError::MissingExtension => String::from_str(
                "SSH node file must use .yaml, .yml, or .json",
            ),
            ForgeError::RemoteCommandRequired => String::from_str("remote command is required"),
            ForgeError::CommandFailed { node, stderr } => {
                let mut r = text_then("SSH command failed on ", node);
                r.append(": ");
                r.append(stderr.as_str());
                r
            },
            ForgeError::SshpassMissing => String::from_str(
                "password auth requires sshpass to be installed",
            ),
            ForgeError::PasswordRequired => String::from_str(
                "password auth requires password_ref or password",
            ),
            ForgeError::EnvVarNotSet { name } => text_then(
                "environment variable is not set: ",
                name,
            ),
            ForgeError::AuthNotImplemented { auth } => {
                let mut r = text_then("SSH auth type '", auth);
                r.append("' is modeled but not implemented yet");
                r
            },
            ForgeError::KeyPairKeyRequired => String::from_str(
                "--key is required for key-pair auth",
            ),
            ForgeError::CertificateKeyRequired => String::from_str(
                "--key is required for certificate auth",
            ),
            ForgeError::CertificateCertRequired => String::from_str(
                "--cert is required for certificate auth",
            ),
        }
    }
}

} // verus!
