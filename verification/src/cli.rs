//! What the command line builds from its options: auth records, labels,
//! the import mode, redacted records and the import summary.
use vstd::prelude::*;
use vstd::string::*;

use crate::client::secret_result;
use crate::config::{ImportMode, ImportReport, SecretRef, SshAuth, auth_fault};
use crate::error::{ErrorView, ForgeError};
use crate::text::{
    TextOrder, blank, chars_of, compare_text, decimal, decimal_string, find_char, index_of,
    is_blank, lemma_lt_asymmetric, lemma_lt_transitive, owned, string_of, text_lt,
};

verus! {

/// The kinds of auth that `node add` can create.
#[derive(Debug, Clone, Copy, PartialEq, Eq, Structural)]
pub enum AuthKind {
    Password,
    KeyPair,
    Certificate,
}

/// The auth that `node add` makes from its options.
pub open spec fn auth_result(
    auth: AuthKind,
    password_ref: Option<String>,
    password: Option<String>,
    key: Option<String>,
    cert: Option<String>,
) -> Result<SshAuth, ErrorView> {
    match auth {
        AuthKind::Password => Ok(
            SshAuth::Password {
                password_ref: match password_ref {
                    Some(r) => Some(SecretRef::String(r)),
                    None => None,
                },
                password,
            },
        ),
        AuthKind::KeyPair => match key {
            Some(k) => Ok(SshAuth::KeyPair { key_path: k, passphrase_ref: None, passphrase: None }),
            None => Err(ErrorView::KeyPairKeyRequired),
        },
        AuthKind::Certificate => match (key, cert) {
            (Some(k), Some(c)) => Ok(
                SshAuth::Certificate {
                    key_path: k,
                    cert_path: c,
                    passphrase_ref: None,
                    passphrase: None,
                },
            ),
            (None, _) => Err(ErrorView::CertificateKeyRequired),
            (Some(_), None) => Err(ErrorView::CertificateCertRequired),
        },
    }
}

/// What `--label key=value` gives: split at the first `=`; the key must not
/// be blank.
pub open spec fn label_result(v: Seq<char>) -> Result<(Seq<char>, Seq<char>), Seq<char>> {
    let k = index_of(v, '=');
    if k < 0 {
        Err("labels must use key=value format"@)
    } else if is_blank(v.subrange(0, k)) {
        Err("label key cannot be empty"@)
    } else {
        Ok((v.subrange(0, k), v.subrange(k + 1, v.len() as int)))
    }
}

/// The labels as a map from key to value.
pub open spec fn label_map(v: Seq<(String, String)>) -> Map<Seq<char>, Seq<char>> {
    Map::new(
        |k: Seq<char>| exists|j: int| 0 <= j < v.len() && (#[trigger] v[j]).0@ == k,
        |k: Seq<char>| v[choose|j: int| 0 <= j < v.len() && (#[trigger] v[j]).0@ == k].1@,
    )
}

/// The map that key/value pairs make when taken in order, a later value of
/// a key replacing an earlier one.
pub open spec fn pairs_map(pairs: Seq<(String, String)>) -> Map<Seq<char>, Seq<char>>
    decreases pairs.len(),
{
    if pairs.len() == 0 {
        Map::empty()
    } else {
        pairs_map(pairs.drop_last()).insert(pairs.last().0@, pairs.last().1@)
    }
}

/// The labels are in strictly increasing order of key.
pub open spec fn keys_sorted(v: Seq<(String, String)>) -> bool {
    forall|i: int, j: int| 0 <= i < j < v.len() ==> text_lt((#[trigger] v[i]).0@, (#[trigger] v[j]).0@)
}

/// The import mode of `node import`: a dry run, else a replacing import,
/// else a merge.
pub fn import_mode(dry_run: bool, replace: bool) -> (r: ImportMode)
    ensures
        r == if dry_run {
            ImportMode::DryRun
        } else if replace {
            ImportMode::Replace
        } else {
            ImportMode::Merge
        },
{
    if dry_run {
        ImportMode::DryRun
    } else if replace {
        ImportMode::Replace
    } else {
        ImportMode::Merge
    }
}

/// The line `node import` prints after a successful import.
pub fn import_summary(report: &ImportReport, dry_run: bool) -> (r: String)
    ensures
        dry_run ==> r@ == "dry run succeeded: "@ + decimal(report.imported as nat)
            + " new SSH nodes validated"@,
        !dry_run ==> r@ == "imported "@ + decimal(report.imported as nat) + " SSH nodes, replaced "@
            + decimal(report.replaced as nat) + ", skipped "@ + decimal(report.skipped as nat),
{
    if dry_run {
        let mut r = owned("dry run succeeded: ");
        r.append(decimal_string(report.imported as u64).as_str());
        r.append(" new SSH nodes validated");
        r
    } else {
        let mut r = owned("imported ");
        r.append(decimal_string(report.imported as u64).as_str());
        r.append(" SSH nodes, replaced ");
        r.append(decimal_string(report.replaced as u64).as_str());
        r.append(", skipped ");
        r.append(decimal_string(report.skipped as u64).as_str());
        r
    }
}

/// The auth record for `node add`, from its `--auth` kind and options.
pub fn build_auth(
    auth: AuthKind,
    password_ref: Option<String>,
    password: Option<String>,
    key: Option<String>,
    cert: Option<String>,
) -> (r: Result<SshAuth, ForgeError>)
    ensures
        match (r, auth_result(auth, password_ref, password, key, cert)) {
            (Ok(a), Ok(b)) => a == b,
            (Err(e), Err(f)) => e@ == f,
            _ => false,
        },
{
    match auth {
        AuthKind::Password => Ok(
            SshAuth::Password {
                password_ref: match password_ref {
                    Some(r) => Some(SecretRef::String(r)),
                    None => None,
                },
                password,
            },
        ),
        AuthKind::KeyPair => match key {
            Some(k) => Ok(SshAuth::KeyPair { key_path: k, passphrase_ref: None, passphrase: None }),
            None => Err(ForgeError::KeyPairKeyRequired),
        },
        AuthKind::Certificate => {
            let key_path = match key {
                Some(k) => k,
                None => {
                    return Err(ForgeError::CertificateKeyRequired);
                },
            };
            let cert_path = match cert {
                Some(c) => c,
                None => {
                    return Err(ForgeError::CertificateCertRequired);
                },
            };
            Ok(
                SshAuth::Certificate {
                    key_path,
                    cert_path,
                    passphrase_ref: None,
                    passphrase: None,
                },
            )
        },
    }
}

/// `node add --auth password` keeps both options it is given: the record's
/// password is the `--password` option, and its reference is present exactly
/// when `--password-ref` is, holding that text. So a record built from either
/// option passes the auth check of any node, and one built from a password
/// hands that very password to `sshpass`. The key-based kinds keep their paths
/// and fail exactly when a path is missing.
pub proof fn law_build_auth_keeps_options(
    auth: AuthKind,
    password_ref: Option<String>,
    password: Option<String>,
    key: Option<String>,
    cert: Option<String>,
    node: Seq<char>,
)
    ensures
        auth == AuthKind::Password ==> (auth_result(auth, password_ref, password, key, cert) matches Ok(
            SshAuth::Password { password_ref: r, password: p },
        ) && p == password && (r is Some <==> password_ref is Some) && (password_ref is Some
            ==> r.unwrap().text() == password_ref.unwrap()@) && ((password_ref is Some || password is Some)
            ==> auth_fault(SshAuth::Password { password_ref: r, password: p }, node) is None) && (
        password is Some ==> secret_result(r, p) == Ok::<Result<Seq<char>, crate::client::SourceView>, ErrorView>(
            Ok(password.unwrap()@),
        ))),
        auth == AuthKind::KeyPair ==> match key {
            Some(k) => auth_result(auth, password_ref, password, key, cert) matches Ok(
                SshAuth::KeyPair { key_path, .. },
            ) && key_path == k,
            None => auth_result(auth, password_ref, password, key, cert) == Err::<SshAuth, ErrorView>(
                ErrorView::KeyPairKeyRequired,
            ),
        },
        auth == AuthKind::Certificate ==> match (key, cert) {
            (Some(k), Some(c)) => auth_result(auth, password_ref, password, key, cert) matches Ok(
                SshAuth::Certificate { key_path, cert_path, .. },
            ) && key_path == k && cert_path == c,
            (None, _) => auth_result(auth, password_ref, password, key, cert) == Err::<SshAuth, ErrorView>(
                ErrorView::CertificateKeyRequired,
            ),
            (Some(_), None) => auth_result(auth, password_ref, password, key, cert) == Err::<
                SshAuth,
                ErrorView,
            >(ErrorView::CertificateCertRequired),
        },
{
}

/// Reads `--label key=value`.
pub fn parse_label(value: &str) -> (r: Result<(String, String), String>)
    ensures
        match (r, label_result(value@)) {
            (Ok((k, v)), Ok((k2, v2))) => k@ == k2 && v@ == v2,
            (Err(m), Err(m2)) => m@ == m2,
            _ => false,
        },
{
    let v = chars_of(value);
    let eq = match find_char(&v, 0, v.len(), '=') {
        Some(k) => k,
        None => {
            assert(v@.subrange(0, v@.len() as int) =~= v@);
            return Err(owned("labels must use key=value format"));
        },
    };
    assert(v@.subrange(0, v@.len() as int) =~= v@);
    let key = string_of(&v, 0, eq);
    if blank(key.as_str()) {
        return Err(owned("label key cannot be empty"));
    }
    let rest = string_of(&v, eq + 1, v.len());
    Ok((key, rest))
}

/// Hides the secrets held in the record: a password, or the passphrase of
/// a key-pair or certificate key, reads `<redacted>` instead; everything
/// else stays as it was.
pub fn redact_auth(auth: &mut SshAuth)
    ensures
        match *old(auth) {
            SshAuth::Password { password_ref, password: Some(_) } => match *final(auth) {
                SshAuth::Password { password_ref: r2, password: Some(p) } => r2 == password_ref
                    && p@ == "<redacted>"@,
                _ => false,
            },
            SshAuth::KeyPair { key_path, passphrase_ref, passphrase: Some(_) } => match *final(auth) {
                SshAuth::KeyPair { key_path: k2, passphrase_ref: r2, passphrase: Some(p) } => k2
                    == key_path && r2 == passphrase_ref && p@ == "<redacted>"@,
                _ => false,
            },
            SshAuth::Certificate { key_path, cert_path, passphrase_ref, passphrase: Some(_) } =>
                match *final(auth) {
                SshAuth::Certificate {
                    key_path: k2,
                    cert_path: c2,
                    passphrase_ref: r2,
                    passphrase: Some(p),
                } => k2 == key_path && c2 == cert_path && r2 == passphrase_ref && p@
                    == "<redacted>"@,
                _ => false,
            },
            _ => *final(auth) == *old(auth),
        },
{
    match auth {
        SshAuth::Password { password, .. } => {
            if password.is_some() {
                *password = Some(owned("<redacted>"));
            }
        },
        SshAuth::KeyPair { passphrase, .. } => {
            if passphrase.is_some() {
                *passphrase = Some(owned("<redacted>"));
            }
        },
        SshAuth::Certificate { passphrase, .. } => {
            if passphrase.is_some() {
                *passphrase = Some(owned("<redacted>"));
            }
        },
        _ => {},
    }
}

pub proof fn lemma_label_map_at(v: Seq<(String, String)>, j: int)
    requires
        keys_sorted(v),
        0 <= j < v.len(),
    ensures
        label_map(v).contains_key(v[j].0@),
        label_map(v)[v[j].0@] == v[j].1@,
{
    let k = v[j].0@;
    assert(v[j].0@ == k);
    let c = choose|c: int| 0 <= c < v.len() && (#[trigger] v[c]).0@ == k;
    if c < j {
        lemma_lt_asymmetric(v[c].0@, v[j].0@);
    }
    if j < c {
        lemma_lt_asymmetric(v[j].0@, v[c].0@);
    }
}

/// Where the key `key` belongs among labels sorted by key, and whether it is there.
fn locate_key(out: &Vec<(String, String)>, key: &String) -> (r: (usize, bool))
    requires
        keys_sorted(out@),
    ensures
        r.0 <= out@.len(),
        forall|j: int| 0 <= j < r.0 ==> text_lt((#[trigger] out@[j]).0@, key@),
        r.1 <==> (r.0 < out@.len() && out@[r.0 as int].0@ == key@),
        !r.1 ==> forall|j: int| r.0 <= j < out@.len() ==> text_lt(key@, (#[trigger] out@[j]).0@),
        r.1 ==> forall|j: int| r.0 < j < out@.len() ==> text_lt(key@, (#[trigger] out@[j]).0@),
{
    let kc = chars_of(key.as_str());
    let mut i: usize = 0;
    while i < out.len()
        invariant
            i <= out@.len(),
            kc@ == key@,
            keys_sorted(out@),
            forall|j: int| 0 <= j < i ==> text_lt((#[trigger] out@[j]).0@, key@),
        decreases out.len() - i,
    {
        let nc = chars_of(out[i].0.as_str());
        match compare_text(&nc, &kc) {
            TextOrder::Before => {
                i += 1;
            },
            TextOrder::Same => {
                assert forall|j: int| i < j < out@.len() implies text_lt(
                    key@,
                    (#[trigger] out@[j]).0@,
                ) by {
                    assert(text_lt(out@[i as int].0@, out@[j].0@));
                }
                return (i, true);
            },
            TextOrder::After => {
                assert forall|j: int| i <= j < out@.len() implies text_lt(
                    key@,
                    (#[trigger] out@[j]).0@,
                ) by {
                    if j > i {
                        assert(text_lt(out@[i as int].0@, out@[j].0@));
                        lemma_lt_transitive(key@, out@[i as int].0@, out@[j].0@);
                    }
                }
                proof {
                    lemma_lt_asymmetric(key@, out@[i as int].0@);
                }
                return (i, false);
            },
        }
    }
    (i, false)
}

/// The labels a list of `key=value` options makes: in increasing order of
/// key, each key once, with the last value given for it.
pub fn labels_from_pairs(pairs: Vec<(String, String)>) -> (r: Vec<(String, String)>)
    ensures
        keys_sorted(r@),
        label_map(r@) == pairs_map(pairs@),
{
    let ghost orig = pairs@;
    let n = pairs.len();
    let mut rest = pairs;
    let mut out: Vec<(String, String)> = Vec::new();
    let mut i: usize = 0;
    assert(label_map(out@) =~= pairs_map(orig.subrange(0, 0)));
    while i < n
        invariant
            i <= n,
            n == orig.len(),
            rest@ == orig.subrange(i as int, n as int),
            keys_sorted(out@),
            label_map(out@) == pairs_map(orig.subrange(0, i as int)),
        decreases n - i,
    {
        let p = rest.remove(0);
        assert(p == orig[i as int]);
        let ghost key = p.0@;
        let ghost val = p.1@;
        let ghost v = out@;
        let (at, found) = locate_key(&out, &p.0);
        proof {
            assert(orig.subrange(0, i + 1).drop_last() =~= orig.subrange(0, i as int));
            assert(orig.subrange(0, i + 1).last() == p);
        }
        if found {
            out.set(at, p);
            proof {
                let w = out@;
                assert forall|a: int, b: int| 0 <= a < b < w.len() implies text_lt(
                    (#[trigger] w[a]).0@,
                    (#[trigger] w[b]).0@,
                ) by {
                    if a != at && b != at {
                        assert(text_lt(v[a].0@, v[b].0@));
                    }
                }
                let mw = label_map(w);
                let mv = label_map(v).insert(key, val);
                assert forall|k: Seq<char>| mw.contains_key(k) <==> mv.contains_key(k) by {
                    if mw.contains_key(k) {
                        let j = choose|j: int| 0 <= j < w.len() && (#[trigger] w[j]).0@ == k;
                        if j != at {
                            assert(v[j].0@ == k);
                        }
                    }
                    if mv.contains_key(k) && k != key {
                        let j = choose|j: int| 0 <= j < v.len() && (#[trigger] v[j]).0@ == k;
                        assert(w[j].0@ == k);
                    }
                    if k == key {
                        assert(w[at as int].0@ == k);
                    }
                }
                assert forall|k: Seq<char>| mw.contains_key(k) implies mw[k] == mv[k] by {
                    let j = choose|j: int| 0 <= j < w.len() && (#[trigger] w[j]).0@ == k;
                    lemma_label_map_at(w, j);
                    if j != at {
                        lemma_label_map_at(v, j);
                    }
                }
                assert(mw =~= mv);
            }
        } else {
            out.insert(at, p);
            proof {
                let w = out@;
                assert forall|a: int, b: int| 0 <= a < b < w.len() implies text_lt(
                    (#[trigger] w[a]).0@,
                    (#[trigger] w[b]).0@,
                ) by {
                    if b < at {
                        assert(text_lt(v[a].0@, v[b].0@));
                    } else if b == at {
                        assert(text_lt(v[a].0@, key));
                    } else if a < at {
                        assert(text_lt(v[a].0@, v[b - 1].0@));
                    } else if a == at {
                        assert(text_lt(key, v[b - 1].0@));
                    } else {
                        assert(text_lt(v[a - 1].0@, v[b - 1].0@));
                    }
                }
                let mw = label_map(w);
                let mv = label_map(v).insert(key, val);
                assert forall|k: Seq<char>| mw.contains_key(k) <==> mv.contains_key(k) by {
                    if mw.contains_key(k) {
                        let j = choose|j: int| 0 <= j < w.len() && (#[trigger] w[j]).0@ == k;
                        if j < at {
                            assert(v[j].0@ == k);
                        } else if j > at {
                            assert(v[j - 1].0@ == k);
                        }
                    }
                    if mv.contains_key(k) && k != key {
                        let j = choose|j: int| 0 <= j < v.len() && (#[trigger] v[j]).0@ == k;
                        if j < at {
                            assert(w[j].0@ == k);
                        } else {
                            assert(w[j + 1].0@ == k);
                        }
                    }
                    if k == key {
                        assert(w[at as int].0@ == k);
                    }
                }
                assert forall|k: Seq<char>| mw.contains_key(k) implies mw[k] == mv[k] by {
                    let j = choose|j: int| 0 <= j < w.len() && (#[trigger] w[j]).0@ == k;
                    lemma_label_map_at(w, j);
                    if j < at {
                        lemma_label_map_at(v, j);
                    } else if j > at {
                        lemma_label_map_at(v, j - 1);
                    } else {
                        if mv.contains_key(k) && k != key {
                        }
                    }
                }
                assert forall|j: int| 0 <= j < v.len() implies (#[trigger] v[j]).0@ != key by {
                    if j < at {
                        lemma_lt_asymmetric(v[j].0@, key);
                    } else {
                        lemma_lt_asymmetric(key, v[j].0@);
                    }
                }
                assert(mw =~= mv);
            }
        }
        i += 1;
    }
    assert(orig.subrange(0, n as int) =~= orig);
    out
}

} // verus!
