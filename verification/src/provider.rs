//! The SSH provider: listings of its nodes, and clients for single nodes.
use vstd::prelude::*;
use vstd::string::*;

use crate::cli::{keys_sorted, label_map, labels_from_pairs, pairs_map};
use crate::client::{SshClient, shell_joined};
use crate::config::{SshNode, SshNodeFile};
use crate::error::{ErrorView, ForgeError};
use crate::node::NodeSummary;
use crate::store::{SshNodeStore, file_nodes, get_result, loaded};
use crate::text::{owned, texts};

verus! {

/// The SSH provider, over its node store.
#[derive(Debug)]
pub struct SshProvider {
    pub store: SshNodeStore,
}

/// `s` lists the node `n` under the provider `ssh`, its labels as a map:
/// in increasing order of key, each key once, with the last value the node
/// gives it.
pub open spec fn summarizes(s: NodeSummary, n: SshNode) -> bool {
    &&& s.name == n.name
    &&& s.provider@ == "ssh"@
    &&& s.host == n.host
    &&& s.user == n.user
    &&& s.port == n.port
    &&& keys_sorted(s.labels@)
    &&& label_map(s.labels@) == pairs_map(n.labels@)
}

/// What a provider's `list_nodes` gives for a store holding `stored`: one
/// summary per node, in order; a store that does not load gives its error.
pub open spec fn lists(r: Result<Vec<NodeSummary>, ForgeError>, stored: Option<Seq<SshNode>>) -> bool {
    match (r, loaded(stored)) {
        (Ok(v), Ok(nodes)) => v@.len() == nodes.len() && forall|i: int|
            0 <= i < nodes.len() ==> summarizes(#[trigger] v@[i], nodes[i]),
        (Err(e), Err(f)) => e@ == f,
        _ => false,
    }
}

impl SshProvider {
    /// The provider over `store`.
    pub fn new(store: SshNodeStore) -> (r: SshProvider)
        ensures
            r.store == store,
    {
        SshProvider { store }
    }

    /// The name of the provider.
    pub fn name(&self) -> (r: &'static str)
        ensures
            r@ == "ssh"@,
    {
        "ssh"
    }

    /// The nodes of the store whose file holds `file`, as summaries.
    pub fn list_nodes(&self, file: Option<SshNodeFile>) -> (r: Result<Vec<NodeSummary>, ForgeError>)
        ensures
            lists(r, file_nodes(file)),
    {
        let nodes = match self.store.load(file) {
            Ok(v) => v,
            Err(e) => {
                return Err(e);
            },
        };
        let ghost orig = nodes@;
        let n = nodes.len();
        let mut rest = nodes;
        let mut out: Vec<NodeSummary> = Vec::new();
        let mut i: usize = 0;
        while i < n
            invariant
                i <= n,
                n == orig.len(),
                rest@ == orig.subrange(i as int, n as int),
                out@.len() == i,
                forall|k: int| 0 <= k < i ==> summarizes(#[trigger] out@[k], orig[k]),
            decreases n - i,
        {
            let node = rest.remove(0);
            assert(node == orig[i as int]);
            out.push(
                NodeSummary {
                    name: node.name,
                    provider: owned("ssh"),
                    host: node.host,
                    user: node.user,
                    port: node.port,
                    labels: labels_from_pairs(node.labels),
                },
            );
            i += 1;
        }
        Ok(out)
    }

    /// A client for the node named `name` in the store whose file holds
    /// `file` (what `ping` and `inspect` run their commands through).
    pub fn client_for(&self, file: Option<SshNodeFile>, name: &str) -> (r: Result<SshClient, ForgeError>)
        ensures
            match (r, get_result(file_nodes(file), name@)) {
                (Ok(c), Ok(n)) => c.node == n,
                (Err(e), Err(f)) => e@ == f,
                _ => false,
            },
    {
        let node = match self.store.get(file, name) {
            Ok(n) => n,
            Err(e) => {
                return Err(e);
            },
        };
        Ok(SshClient::new(node))
    }

    /// For running `args` on the node named `name`: the node's client and
    /// the remote command line. The node is looked up first; then there must
    /// be a command.
    pub fn exec(&self, file: Option<SshNodeFile>, name: &str, args: &[String]) -> (r: Result<
        (SshClient, String),
        ForgeError,
    >)
        ensures
            match (r, get_result(file_nodes(file), name@)) {
                (Ok((c, line)), Ok(n)) => c.node == n && args@.len() > 0 && line@ == shell_joined(
                    texts(args@),
                ),
                (Err(e), Ok(_)) => args@.len() == 0 && e@ == ErrorView::RemoteCommandRequired,
                (Err(e), Err(f)) => e@ == f,
                _ => false,
            },
    {
        let client = match self.client_for(file, name) {
            Ok(c) => c,
            Err(e) => {
                return Err(e);
            },
        };
        match client.run_args(args) {
            Ok(line) => Ok((client, line)),
            Err(e) => Err(e),
        }
    }
}

} // verus!
