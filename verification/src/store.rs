//! The SSH node store: the node file under `~/.forge`, and what adding,
//! removing, looking up and importing nodes do to its contents.
//!
//! Each operation takes what the store file holds (`None` when there is no
//! file) and gives back what is to be written, so that reading and writing
//! stay with the caller.
use vstd::prelude::*;
use vstd::string::*;

use crate::config::{
    ImportMode, ImportReport, SshNode, SshNodeFile, all_nodes_valid, law_file_check,
    node_fault, nodes_fault, unique_names,
};
use crate::error::{ErrorView, ForgeError, agrees, fault_of};
use crate::paths::{join_path, path_join};
use crate::text::{TextOrder, chars_of, compare_text, lemma_lt_asymmetric, lemma_lt_transitive, owned, text_lt};

verus! {

/// Where the SSH node file lives, relative to the home directory.
pub open spec fn store_suffix() -> Seq<char> {
    ".forge/providers/ssh/nodes.yaml"@
}

/// The node store of the SSH provider: the path of its node file.
#[derive(Debug)]
pub struct SshNodeStore {
    path: String,
}

/// The nodes of a file, if there is one.
pub open spec fn file_nodes(file: Option<SshNodeFile>) -> Option<Seq<SshNode>> {
    match file {
        Some(f) => Some(f.nodes@),
        None => None,
    }
}

/// An executable result holding a file agrees with a result stated over node sequences.
pub open spec fn agrees_file(r: Result<SshNodeFile, ForgeError>, s: Result<Seq<SshNode>, ErrorView>) -> bool {
    match (r, s) {
        (Ok(f), Ok(nodes)) => f.nodes@ == nodes,
        (Err(e), Err(v)) => e@ == v,
        _ => false,
    }
}

/// What loading gives for a store that holds `stored`: no file is an empty
/// store; a file is checked.
pub open spec fn loaded(stored: Option<Seq<SshNode>>) -> Result<Seq<SshNode>, ErrorView> {
    match stored {
        None => Ok(Seq::empty()),
        Some(nodes) => match nodes_fault(nodes) {
            Some(e) => Err(e),
            None => Ok(nodes),
        },
    }
}

/// The position of the first node named `name`, if any.
pub open spec fn name_index(nodes: Seq<SshNode>, name: Seq<char>) -> Option<int> {
    if exists|i: int| 0 <= i < nodes.len() && (#[trigger] nodes[i]).name@ == name {
        Some(
            choose|i: int|
                0 <= i < nodes.len() && (#[trigger] nodes[i]).name@ == name && forall|j: int|
                    0 <= j < i ==> nodes[j].name@ != name,
        )
    } else {
        None
    }
}

/// Keeps the nodes not named `name`.
pub open spec fn other_than(name: Seq<char>) -> spec_fn(SshNode) -> bool {
    |n: SshNode| n.name@ != name
}

/// What adding `node` to a store holding `stored` leaves in it: the node is
/// checked, then the store; a node of the same name is replaced when
/// `replace` is set and refused otherwise; a new name goes at the end.
pub open spec fn add_result(stored: Option<Seq<SshNode>>, node: SshNode, replace: bool) -> Result<
    Seq<SshNode>,
    ErrorView,
> {
    match node_fault(node) {
        Some(e) => Err(e),
        None => match loaded(stored) {
            Err(e) => Err(e),
            Ok(nodes) => match name_index(nodes, node.name@) {
                Some(i) => if replace {
                    Ok(nodes.update(i, node))
                } else {
                    Err(ErrorView::NodeExists(node.name@))
                },
                None => Ok(nodes.push(node)),
            },
        },
    }
}

/// What removing the node named `name` leaves in a store holding `stored`:
/// every node of that name goes; if none does, the name is not found.
pub open spec fn remove_result(stored: Option<Seq<SshNode>>, name: Seq<char>) -> Result<
    Seq<SshNode>,
    ErrorView,
> {
    match loaded(stored) {
        Err(e) => Err(e),
        Ok(nodes) => {
            let kept = nodes.filter(other_than(name));
            if kept.len() == nodes.len() {
                Err(ErrorView::NodeNotFound(name))
            } else {
                Ok(kept)
            }
        },
    }
}

/// The node named `name` in a store holding `stored`.
pub open spec fn get_result(stored: Option<Seq<SshNode>>, name: Seq<char>) -> Result<SshNode, ErrorView> {
    match loaded(stored) {
        Err(e) => Err(e),
        Ok(nodes) => match name_index(nodes, name) {
            Some(i) => Ok(nodes[i]),
            None => Err(ErrorView::NodeNotFound(name)),
        },
    }
}

/// The nodes keyed by name.
pub open spec fn node_map(v: Seq<SshNode>) -> Map<Seq<char>, SshNode> {
    Map::new(
        |k: Seq<char>| exists|j: int| 0 <= j < v.len() && (#[trigger] v[j]).name@ == k,
        |k: Seq<char>| v[choose|j: int| 0 <= j < v.len() && (#[trigger] v[j]).name@ == k],
    )
}

/// The nodes are in strictly increasing order of name.
pub open spec fn sorted_by_name(v: Seq<SshNode>) -> bool {
    forall|i: int, j: int| 0 <= i < j < v.len() ==> text_lt((#[trigger] v[i]).name@, (#[trigger] v[j]).name@)
}

/// An import of `nodes[i..]` into the nodes `m`, with `imported` and
/// `replaced` counted so far: a new name is added and counted as imported;
/// a stored name is overwritten and counted as replaced under `Replace`, and
/// refused under the other modes.
pub open spec fn import_fold(
    m: Map<Seq<char>, SshNode>,
    imported: nat,
    replaced: nat,
    nodes: Seq<SshNode>,
    i: int,
    mode: ImportMode,
) -> Result<(Map<Seq<char>, SshNode>, nat, nat), ErrorView>
    decreases nodes.len() - i,
{
    if i < 0 || i >= nodes.len() {
        Ok((m, imported, replaced))
    } else {
        let n = nodes[i];
        if m.contains_key(n.name@) {
            if mode == ImportMode::Replace {
                import_fold(m.insert(n.name@, n), imported, replaced + 1, nodes, i + 1, mode)
            } else {
                Err(ErrorView::NodeExists(n.name@))
            }
        } else {
            import_fold(m.insert(n.name@, n), imported + 1, replaced, nodes, i + 1, mode)
        }
    }
}

/// What importing `incoming` into a store holding `stored` gives: the
/// incoming file is checked, then the store, then each incoming node is
/// imported in order. The result is the nodes by name and the two counts.
pub open spec fn import_result(
    incoming: Seq<SshNode>,
    stored: Option<Seq<SshNode>>,
    mode: ImportMode,
) -> Result<(Map<Seq<char>, SshNode>, nat, nat), ErrorView> {
    match nodes_fault(incoming) {
        Some(e) => Err(e),
        None => match loaded(stored) {
            Err(e) => Err(e),
            Ok(olds) => import_fold(node_map(olds), 0, 0, incoming, 0, mode),
        },
    }
}

pub proof fn lemma_name_index_found(nodes: Seq<SshNode>, name: Seq<char>, i: int)
    requires
        0 <= i < nodes.len(),
        nodes[i].name@ == name,
        forall|j: int| 0 <= j < i ==> nodes[j].name@ != name,
    ensures
        name_index(nodes, name) == Some(i),
{
    assert(nodes[i].name@ == name);
    let c = choose|c: int|
        0 <= c < nodes.len() && (#[trigger] nodes[c]).name@ == name && forall|j: int|
            0 <= j < c ==> nodes[j].name@ != name;
    assert(0 <= c < nodes.len() && nodes[c].name@ == name && forall|j: int|
        0 <= j < c ==> nodes[j].name@ != name);
    if c < i {
        assert(nodes[c].name@ != name);
    }
    if i < c {
        assert(nodes[i].name@ != name);
    }
}

pub proof fn lemma_sorted_unique(v: Seq<SshNode>)
    requires
        sorted_by_name(v),
    ensures
        unique_names(v),
{
    assert forall|i: int, j: int| 0 <= i < j < v.len() implies (#[trigger] v[i]).name@ != (
    #[trigger] v[j]).name@ by {
        lemma_lt_asymmetric(v[i].name@, v[j].name@);
    }
}

pub proof fn lemma_node_map_at(v: Seq<SshNode>, j: int)
    requires
        unique_names(v),
        0 <= j < v.len(),
    ensures
        node_map(v).contains_key(v[j].name@),
        node_map(v)[v[j].name@] == v[j],
{
    let k = v[j].name@;
    assert(v[j].name@ == k);
    let c = choose|c: int| 0 <= c < v.len() && (#[trigger] v[c]).name@ == k;
    if c < j {
        assert(v[c].name@ != v[j].name@);
    }
    if j < c {
        assert(v[j].name@ != v[c].name@);
    }
}

/// Putting `n` in place of the node of the same name at `i`.
pub proof fn lemma_node_map_update(v: Seq<SshNode>, i: int, n: SshNode)
    requires
        unique_names(v),
        0 <= i < v.len(),
        v[i].name@ == n.name@,
    ensures
        unique_names(v.update(i, n)),
        node_map(v.update(i, n)) == node_map(v).insert(n.name@, n),
{
    let w = v.update(i, n);
    assert forall|a: int, b: int| 0 <= a < b < w.len() implies (#[trigger] w[a]).name@ != (
    #[trigger] w[b]).name@ by {
        assert(v[a].name@ != v[b].name@);
    }
    let mw = node_map(w);
    let mv = node_map(v).insert(n.name@, n);
    assert forall|k: Seq<char>| mw.contains_key(k) <==> mv.contains_key(k) by {
        if mw.contains_key(k) {
            let j = choose|j: int| 0 <= j < w.len() && (#[trigger] w[j]).name@ == k;
            if j != i {
                assert(v[j].name@ == k);
            }
        }
        if mv.contains_key(k) && k != n.name@ {
            let j = choose|j: int| 0 <= j < v.len() && (#[trigger] v[j]).name@ == k;
            assert(w[j].name@ == k);
        }
        if k == n.name@ {
            assert(w[i].name@ == k);
        }
    }
    assert forall|k: Seq<char>| mw.contains_key(k) implies mw[k] == mv[k] by {
        let j = choose|j: int| 0 <= j < w.len() && (#[trigger] w[j]).name@ == k;
        lemma_node_map_at(w, j);
        if j != i {
            lemma_node_map_at(v, j);
        }
    }
    assert(mw =~= mv);
}

/// Putting `n`, whose name is new, at position `i`.
pub proof fn lemma_node_map_insert(v: Seq<SshNode>, i: int, n: SshNode)
    requires
        unique_names(v),
        0 <= i <= v.len(),
        forall|j: int| 0 <= j < v.len() ==> (#[trigger] v[j]).name@ != n.name@,
    ensures
        unique_names(v.insert(i, n)),
        node_map(v.insert(i, n)) == node_map(v).insert(n.name@, n),
{
    let w = v.insert(i, n);
    assert forall|a: int, b: int| 0 <= a < b < w.len() implies (#[trigger] w[a]).name@ != (
    #[trigger] w[b]).name@ by {
        if a < i && b < i {
            assert(v[a].name@ != v[b].name@);
        } else if a < i && b > i {
            assert(v[a].name@ != v[b - 1].name@);
        } else if a > i {
            assert(v[a - 1].name@ != v[b - 1].name@);
        } else if a == i {
            assert(v[b - 1].name@ != n.name@);
        } else {
            assert(v[a].name@ != n.name@);
        }
    }
    let mw = node_map(w);
    let mv = node_map(v).insert(n.name@, n);
    assert forall|k: Seq<char>| mw.contains_key(k) <==> mv.contains_key(k) by {
        if mw.contains_key(k) {
            let j = choose|j: int| 0 <= j < w.len() && (#[trigger] w[j]).name@ == k;
            if j < i {
                assert(v[j].name@ == k);
            } else if j > i {
                assert(v[j - 1].name@ == k);
            }
        }
        if mv.contains_key(k) && k != n.name@ {
            let j = choose|j: int| 0 <= j < v.len() && (#[trigger] v[j]).name@ == k;
            if j < i {
                assert(w[j].name@ == k);
            } else {
                assert(w[j + 1].name@ == k);
            }
        }
        if k == n.name@ {
            assert(w[i].name@ == k);
        }
    }
    assert forall|k: Seq<char>| mw.contains_key(k) implies mw[k] == mv[k] by {
        let j = choose|j: int| 0 <= j < w.len() && (#[trigger] w[j]).name@ == k;
        lemma_node_map_at(w, j);
        if j < i {
            lemma_node_map_at(v, j);
        } else if j > i {
            lemma_node_map_at(v, j - 1);
        }
    }
    assert(mw =~= mv);
}

/// The position of the first node named `name`.
fn index_of_name(nodes: &Vec<SshNode>, name: &String) -> (r: Option<usize>)
    ensures
        match r {
            Some(i) => name_index(nodes@, name@) == Some(i as int) && i < nodes@.len(),
            None => name_index(nodes@, name@) is None,
        },
{
    let mut i: usize = 0;
    while i < nodes.len()
        invariant
            i <= nodes@.len(),
            forall|j: int| 0 <= j < i ==> (#[trigger] nodes@[j]).name@ != name@,
        decreases nodes.len() - i,
    {
        if nodes[i].name == *name {
            proof {
                lemma_name_index_found(nodes@, name@, i as int);
            }
            return Some(i);
        }
        i += 1;
    }
    None
}

/// Where a node named `key` belongs among nodes sorted by name, and whether
/// a node of that name is already there.
fn locate(out: &Vec<SshNode>, key: &String) -> (r: (usize, bool))
    requires
        sorted_by_name(out@),
    ensures
        r.0 <= out@.len(),
        forall|j: int| 0 <= j < r.0 ==> text_lt((#[trigger] out@[j]).name@, key@),
        r.1 <==> (r.0 < out@.len() && out@[r.0 as int].name@ == key@),
        !r.1 ==> forall|j: int| r.0 <= j < out@.len() ==> text_lt(key@, (#[trigger] out@[j]).name@),
        r.1 ==> forall|j: int| r.0 < j < out@.len() ==> text_lt(key@, (#[trigger] out@[j]).name@),
{
    let kc = chars_of(key.as_str());
    let mut i: usize = 0;
    while i < out.len()
        invariant
            i <= out@.len(),
            kc@ == key@,
            sorted_by_name(out@),
            forall|j: int| 0 <= j < i ==> text_lt((#[trigger] out@[j]).name@, key@),
        decreases out.len() - i,
    {
        let nc = chars_of(out[i].name.as_str());
        match compare_text(&nc, &kc) {
            TextOrder::Before => {
                i += 1;
            },
            TextOrder::Same => {
                assert forall|j: int| i < j < out@.len() implies text_lt(
                    key@,
                    (#[trigger] out@[j]).name@,
                ) by {
                    assert(text_lt(out@[i as int].name@, out@[j].name@));
                }
                return (i, true);
            },
            TextOrder::After => {
                assert forall|j: int| i <= j < out@.len() implies text_lt(
                    key@,
                    (#[trigger] out@[j]).name@,
                ) by {
                    if j > i {
                        assert(text_lt(out@[i as int].name@, out@[j].name@));
                        lemma_lt_transitive(key@, out@[i as int].name@, out@[j].name@);
                    }
                }
                proof {
                    lemma_lt_asymmetric(key@, out@[i as int].name@);
                }
                return (i, false);
            },
        }
    }
    (i, false)
}

/// Puts `n` among the nodes sorted by name, in place of a node of the same
/// name if there is one.
fn place(out: &mut Vec<SshNode>, n: SshNode, at: usize, found: bool)
    requires
        sorted_by_name(old(out)@),
        at <= old(out)@.len(),
        forall|j: int| 0 <= j < at ==> text_lt((#[trigger] old(out)@[j]).name@, n.name@),
        found <==> (at < old(out)@.len() && old(out)@[at as int].name@ == n.name@),
        !found ==> forall|j: int|
            at <= j < old(out)@.len() ==> text_lt(n.name@, (#[trigger] old(out)@[j]).name@),
        found ==> forall|j: int|
            at < j < old(out)@.len() ==> text_lt(n.name@, (#[trigger] old(out)@[j]).name@),
    ensures
        sorted_by_name(final(out)@),
        node_map(final(out)@) == node_map(old(out)@).insert(n.name@, n),
        found ==> final(out)@ == old(out)@.update(at as int, n),
        !found ==> final(out)@ == old(out)@.insert(at as int, n),
{
    let ghost v = out@;
    let ghost key = n.name@;
    proof {
        lemma_sorted_unique(v);
    }
    if found {
        out.set(at, n);
        proof {
            lemma_node_map_update(v, at as int, n);
            let w = out@;
            assert forall|a: int, b: int| 0 <= a < b < w.len() implies text_lt(
                (#[trigger] w[a]).name@,
                (#[trigger] w[b]).name@,
            ) by {
                if a != at && b != at {
                    assert(text_lt(v[a].name@, v[b].name@));
                }
            }
        }
    } else {
        proof {
            assert forall|j: int| 0 <= j < v.len() implies (#[trigger] v[j]).name@ != key by {
                if j < at {
                    lemma_lt_asymmetric(v[j].name@, key);
                } else {
                    lemma_lt_asymmetric(key, v[j].name@);
                }
            }
            lemma_node_map_insert(v, at as int, n);
        }
        out.insert(at, n);
        proof {
            let w = out@;
            assert(w == v.insert(at as int, n));
            assert forall|a: int, b: int| 0 <= a < b < w.len() implies text_lt(
                (#[trigger] w[a]).name@,
                (#[trigger] w[b]).name@,
            ) by {
                if b < at {
                    assert(text_lt(v[a].name@, v[b].name@));
                } else if b == at {
                    assert(text_lt(v[a].name@, key));
                } else if a < at {
                    assert(text_lt(v[a].name@, v[b - 1].name@));
                } else if a == at {
                    assert(text_lt(key, v[b - 1].name@));
                } else {
                    assert(text_lt(v[a - 1].name@, v[b - 1].name@));
                }
            }
        }
    }
}

impl SshNodeStore {
    /// The store in the home directory `home` (`$HOME`), at
    /// `.forge/providers/ssh/nodes.yaml`; without a home directory there is none.
    pub fn default(home: Option<String>) -> (r: Result<SshNodeStore, ForgeError>)
        ensures
            match home {
                Some(h) => r matches Ok(s) && s.file_path() == path_join(h@, store_suffix()),
                None => r matches Err(e) && e@ == ErrorView::HomeNotFound,
            },
    {
        match home {
            Some(h) => Ok(SshNodeStore { path: join_path(h.as_str(), ".forge/providers/ssh/nodes.yaml") }),
            None => Err(ForgeError::HomeNotFound),
        }
    }

    /// The directory of Forge's own files under the home directory `home`,
    /// which holds the store: `.forge`.
    pub fn forge_dir(home: &str) -> (r: String)
        ensures
            r@ == path_join(home@, ".forge"@),
    {
        join_path(home, ".forge")
    }

    /// The contents `init` gives a new `config.yaml`.
    pub fn default_config() -> (r: &'static str)
        ensures
            r@ == "version: 1\nproviders:\n  ssh:\n    enabled: true\n"@,
    {
        "version: 1\nproviders:\n  ssh:\n    enabled: true\n"
    }

    /// The store whose node file is at `path`.
    pub fn at(path: String) -> (r: SshNodeStore)
        ensures
            r.file_path() == path@,
    {
        SshNodeStore { path }
    }

    /// The path of the node file.
    pub closed spec fn file_path(&self) -> Seq<char> {
        self.path@
    }

    /// The path of the node file.
    pub fn path(&self) -> (r: &str)
        ensures
            r@ == self.file_path(),
    {
        self.path.as_str()
    }

    /// The nodes of the store, given what its file holds (`None` when there
    /// is no file): no file is an empty store; a file must pass its check.
    pub fn load(&self, file: Option<SshNodeFile>) -> (r: Result<Vec<SshNode>, ForgeError>)
        ensures
            match (r, loaded(file_nodes(file))) {
                (Ok(v), Ok(s)) => v@ == s,
                (Err(e), Err(s)) => e@ == s,
                _ => false,
            },
    {
        match file {
            None => Ok(Vec::new()),
            Some(f) => {
                let checked = f.validate();
                match checked {
                    Err(e) => Err(e),
                    Ok(()) => Ok(f.nodes),
                }
            },
        }
    }

    /// The file to write for `nodes`, which must pass the file check.
    pub fn save(&self, nodes: Vec<SshNode>) -> (r: Result<SshNodeFile, ForgeError>)
        ensures
            fault_of(r) == nodes_fault(nodes@),
            r matches Ok(f) ==> f.nodes@ == nodes@,
    {
        let file = SshNodeFile { nodes };
        let checked = file.validate();
        match checked {
            Err(e) => Err(e),
            Ok(()) => Ok(file),
        }
    }

    /// Adds `node` to the store whose file holds `file`, replacing a node of
    /// the same name only when `replace` is set; gives the file to write.
    pub fn add(&self, file: Option<SshNodeFile>, node: SshNode, replace: bool) -> (r: Result<
        SshNodeFile,
        ForgeError,
    >)
        ensures
            agrees_file(r, add_result(file_nodes(file), node, replace)),
    {
        let checked = node.validate();
        if let Err(e) = checked {
            return Err(e);
        }
        let mut nodes = match self.load(file) {
            Ok(v) => v,
            Err(e) => {
                return Err(e);
            },
        };
        let ghost before = nodes@;
        proof {
            law_file_check(before);
        }
        match index_of_name(&nodes, &node.name) {
            Some(i) => {
                if !replace {
                    return Err(ForgeError::NodeExists { name: node.name });
                }
                let ghost n = node;
                nodes.set(i, node);
                proof {
                    assert(nodes@ == before.update(i as int, n));
                    assert forall|a: int, b: int| 0 <= a < b < nodes@.len() implies (
                    #[trigger] nodes@[a]).name@ != (#[trigger] nodes@[b]).name@ by {
                        assert(before[a].name@ != before[b].name@);
                    }
                    assert forall|a: int| 0 <= a < nodes@.len() implies node_fault(
                        #[trigger] nodes@[a],
                    ) is None by {
                        if a != i {
                            assert(nodes@[a] == before[a]);
                        }
                    }
                    law_file_check(nodes@);
                }
            },
            None => {
                let ghost n = node;
                proof {
                    assert forall|j: int| 0 <= j < before.len() implies (#[trigger] before[j]).name@
                        != n.name@ by {
                        if before[j].name@ == n.name@ {
                            assert(exists|i: int| 0 <= i < before.len() && (#[trigger] before[i]).name@ == n.name@);
                        }
                    }
                }
                nodes.push(node);
                proof {
                    assert forall|a: int, b: int| 0 <= a < b < nodes@.len() implies (
                    #[trigger] nodes@[a]).name@ != (#[trigger] nodes@[b]).name@ by {
                        if b < before.len() {
                            assert(before[a].name@ != before[b].name@);
                        } else {
                            assert(before[a].name@ != n.name@);
                        }
                    }
                    assert forall|a: int| 0 <= a < nodes@.len() implies node_fault(
                        #[trigger] nodes@[a],
                    ) is None by {
                        if a < before.len() {
                            assert(nodes@[a] == before[a]);
                        }
                    }
                    law_file_check(nodes@);
                }
            },
        }
        self.save(nodes)
    }

    /// Removes the node named `name` from the store whose file holds `file`;
    /// gives the file to write.
    pub fn remove(&self, file: Option<SshNodeFile>, name: &str) -> (r: Result<SshNodeFile, ForgeError>)
        ensures
            agrees_file(r, remove_result(file_nodes(file), name@)),
    {
        let nodes = match self.load(file) {
            Ok(v) => v,
            Err(e) => {
                return Err(e);
            },
        };
        let ghost orig = nodes@;
        proof {
            law_file_check(orig);
        }
        let target = owned(name);
        let n = nodes.len();
        let mut rest = nodes;
        let mut kept: Vec<SshNode> = Vec::new();
        let mut i: usize = 0;
        assert(orig.subrange(0, 0).filter(other_than(name@)) =~= Seq::<SshNode>::empty()) by {
            reveal(Seq::filter);
        }
        assert(orig.subrange(0, n as int) =~= orig);
        while i < n
            invariant
                i <= n,
                n == orig.len(),
                target@ == name@,
                rest@ == orig.subrange(i as int, n as int),
                kept@ == orig.subrange(0, i as int).filter(other_than(name@)),
                all_nodes_valid(orig),
                unique_names(orig),
                all_nodes_valid(kept@),
                unique_names(kept@),
                forall|a: int|
                    0 <= a < kept@.len() ==> exists|j: int|
                        0 <= j < i && (#[trigger] orig[j]).name@ == (#[trigger] kept@[a]).name@,
            decreases n - i,
        {
            let node = rest.remove(0);
            assert(node == orig[i as int]);
            let ghost before = kept@;
            proof {
                reveal(Seq::filter);
                assert(orig.subrange(0, i + 1).drop_last() =~= orig.subrange(0, i as int));
                assert(orig.subrange(0, i + 1).last() == orig[i as int]);
            }
            if !(node.name == target) {
                kept.push(node);
                proof {
                    assert forall|a: int, b: int| 0 <= a < b < kept@.len() implies (
                    #[trigger] kept@[a]).name@ != (#[trigger] kept@[b]).name@ by {
                        if b < before.len() {
                            assert(before[a].name@ != before[b].name@);
                        } else {
                            let j = choose|j: int|
                                0 <= j < i && (#[trigger] orig[j]).name@ == before[a].name@;
                            assert(orig[j].name@ != orig[i as int].name@);
                        }
                    }
                    assert forall|a: int| 0 <= a < kept@.len() implies exists|j: int|
                        0 <= j < i + 1 && (#[trigger] orig[j]).name@ == (#[trigger] kept@[a]).name@ by {
                        if a < before.len() {
                            let j = choose|j: int|
                                0 <= j < i && (#[trigger] orig[j]).name@ == before[a].name@;
                            assert(orig[j].name@ == kept@[a].name@);
                        } else {
                            assert(orig[i as int].name@ == kept@[a].name@);
                        }
                    }
                    assert forall|a: int| 0 <= a < kept@.len() implies node_fault(
                        #[trigger] kept@[a],
                    ) is None by {
                        if a < before.len() {
                            assert(kept@[a] == before[a]);
                        } else {
                            assert(kept@[a] == orig[i as int]);
                        }
                    }
                }
            } else {
                proof {
                    assert forall|a: int| 0 <= a < kept@.len() implies exists|j: int|
                        0 <= j < i + 1 && (#[trigger] orig[j]).name@ == (#[trigger] kept@[a]).name@ by {
                        let j = choose|j: int|
                            0 <= j < i && (#[trigger] orig[j]).name@ == kept@[a].name@;
                        assert(orig[j].name@ == kept@[a].name@);
                    }
                }
            }
            i += 1;
        }
        if kept.len() == n {
            return Err(ForgeError::NodeNotFound { name: target });
        }
        proof {
            law_file_check(kept@);
        }
        self.save(kept)
    }

    /// The node named `name` in the store whose file holds `file`.
    pub fn get(&self, file: Option<SshNodeFile>, name: &str) -> (r: Result<SshNode, ForgeError>)
        ensures
            agrees(r, get_result(file_nodes(file), name@)),
    {
        let mut nodes = match self.load(file) {
            Ok(v) => v,
            Err(e) => {
                return Err(e);
            },
        };
        let target = owned(name);
        match index_of_name(&nodes, &target) {
            Some(i) => Ok(nodes.remove(i)),
            None => Err(ForgeError::NodeNotFound { name: target }),
        }
    }
    /// Imports the nodes of `incoming` into the store whose file holds
    /// `file`. Nodes come out in increasing order of name. Gives the counts,
    /// and the file to write unless `mode` is a dry run.
    pub fn import_file(&self, incoming: SshNodeFile, file: Option<SshNodeFile>, mode: ImportMode) -> (r:
        Result<(ImportReport, Option<SshNodeFile>), ForgeError>)
        ensures
            match (r, import_result(incoming.nodes@, file_nodes(file), mode)) {
                (Ok((report, saved)), Ok((m, imported, replaced))) => {
                    &&& report.imported as nat == imported
                    &&& report.replaced as nat == replaced
                    &&& report.skipped == 0
                    &&& (mode == ImportMode::DryRun <==> saved is None)
                    &&& (saved matches Some(f) ==> sorted_by_name(f.nodes@) && node_map(f.nodes@) == m)
                },
                (Err(e), Err(v)) => e@ == v,
                _ => false,
            },
    {
        let checked = incoming.validate();
        if let Err(e) = checked {
            return Err(e);
        }
        let ghost stored = file_nodes(file);
        let olds = match self.load(file) {
            Ok(v) => v,
            Err(e) => {
                return Err(e);
            },
        };
        let ghost inc = incoming.nodes@;
        let ghost ov = olds@;
        let ghost outcome = import_result(inc, stored, mode);
        assert(outcome == import_fold(node_map(ov), 0, 0, inc, 0, mode));
        proof {
            law_file_check(inc);
            law_file_check(ov);
        }
        let mut out: Vec<SshNode> = Vec::new();
        let n0 = olds.len();
        let mut rest = olds;
        let mut i: usize = 0;
        assert(ov.subrange(0, 0) =~= Seq::<SshNode>::empty());
        assert(node_map(out@) =~= node_map(ov.subrange(0, 0)));
        assert(ov.subrange(0, n0 as int) =~= ov);
        while i < n0
            invariant
                i <= n0,
                n0 == ov.len(),
                rest@ == ov.subrange(i as int, n0 as int),
                sorted_by_name(out@),
                node_map(out@) == node_map(ov.subrange(0, i as int)),
                all_nodes_valid(out@),
                all_nodes_valid(ov),
                unique_names(ov),
            decreases n0 - i,
        {
            let node = rest.remove(0);
            assert(node == ov[i as int]);
            let ghost before = out@;
            let ghost pre = ov.subrange(0, i as int);
            let (at, found) = locate(&out, &node.name);
            place(&mut out, node, at, found);
            proof {
                assert(unique_names(pre)) by {
                    assert forall|a: int, b: int| 0 <= a < b < pre.len() implies (#[trigger] pre[a]).name@
                        != (#[trigger] pre[b]).name@ by {
                        assert(ov[a].name@ != ov[b].name@);
                    }
                }
                assert forall|j: int| 0 <= j < pre.len() implies (#[trigger] pre[j]).name@
                    != ov[i as int].name@ by {
                    assert(ov[j].name@ != ov[i as int].name@);
                }
                lemma_node_map_insert(pre, pre.len() as int, ov[i as int]);
                assert(pre.insert(pre.len() as int, ov[i as int]) =~= ov.subrange(0, i + 1));
                assert forall|a: int| 0 <= a < out@.len() implies node_fault(#[trigger] out@[a]) is None by {
                    if found {
                        if a != at {
                            assert(out@[a] == before[a]);
                        }
                    } else {
                        if a < at {
                            assert(out@[a] == before[a]);
                        } else if a > at {
                            assert(out@[a] == before[a - 1]);
                        }
                    }
                }
            }
            i += 1;
        }
        let n1 = incoming.nodes.len();
        let mut rest = incoming.nodes;
        let mut imported: usize = 0;
        let mut replaced: usize = 0;
        let mut j: usize = 0;
        assert(inc.subrange(0, n1 as int) =~= inc);
        while j < n1
            invariant
                j <= n1,
                n1 == inc.len(),
                rest@ == inc.subrange(j as int, n1 as int),
                imported + replaced == j,
                sorted_by_name(out@),
                all_nodes_valid(out@),
                all_nodes_valid(inc),
                import_fold(node_map(out@), imported as nat, replaced as nat, inc, j as int, mode)
                    == outcome,
                outcome == import_result(incoming.nodes@, file_nodes(file), mode),
            decreases n1 - j,
        {
            let node = rest.remove(0);
            assert(node == inc[j as int]);
            let ghost before = out@;
            let ghost key = node.name@;
            let (at, found) = locate(&out, &node.name);
            proof {
                lemma_sorted_unique(before);
                if found {
                    lemma_node_map_at(before, at as int);
                } else {
                    if node_map(before).contains_key(key) {
                        let c = choose|c: int| 0 <= c < before.len() && (#[trigger] before[c]).name@ == key;
                        if c < at {
                            lemma_lt_asymmetric(before[c].name@, key);
                        } else {
                            lemma_lt_asymmetric(key, before[c].name@);
                        }
                    }
                }
            }
            if found {
                match mode {
                    ImportMode::Replace => {
                        place(&mut out, node, at, found);
                        replaced += 1;
                    },
                    _ => {
                        assert(node_map(out@).contains_key(key));
                        assert(inc[j as int].name@ == key);
                        assert(import_fold(node_map(out@), imported as nat, replaced as nat, inc, j as int, mode)
                            == Err::<(Map<Seq<char>, SshNode>, nat, nat), ErrorView>(ErrorView::NodeExists(key)));
                        return Err(ForgeError::NodeExists { name: node.name });
                    },
                }
            } else {
                place(&mut out, node, at, found);
                imported += 1;
            }
            proof {
                assert forall|a: int| 0 <= a < out@.len() implies node_fault(#[trigger] out@[a]) is None by {
                    if found {
                        if a != at {
                            assert(out@[a] == before[a]);
                        }
                    } else {
                        if a < at {
                            assert(out@[a] == before[a]);
                        } else if a > at {
                            assert(out@[a] == before[a - 1]);
                        }
                    }
                }
            }
            j += 1;
        }
        let report = ImportReport { imported, replaced, skipped: 0 };
        match mode {
            ImportMode::DryRun => Ok((report, None)),
            _ => {
                proof {
                    lemma_sorted_unique(out@);
                    law_file_check(out@);
                }
                let ghost final_nodes = out@;
                match self.save(out) {
                    Ok(f) => Ok((report, Some(f))),
                    Err(e) => Err(e),
                }
            },
        }
    }
}

/// With unique names, `name_index` finds the one node of that name.
pub proof fn lemma_name_index_unique(nodes: Seq<SshNode>, key: Seq<char>)
    requires
        unique_names(nodes),
    ensures
        match name_index(nodes, key) {
            Some(i) => 0 <= i < nodes.len() && nodes[i].name@ == key,
            None => forall|j: int| 0 <= j < nodes.len() ==> (#[trigger] nodes[j]).name@ != key,
        },
{
    if exists|i: int| 0 <= i < nodes.len() && (#[trigger] nodes[i]).name@ == key {
        let i = choose|i: int| 0 <= i < nodes.len() && (#[trigger] nodes[i]).name@ == key;
        assert forall|j: int| 0 <= j < i implies nodes[j].name@ != key by {
            assert(nodes[j].name@ != nodes[i].name@);
        }
        lemma_name_index_found(nodes, key, i);
    }
}

/// A store that loads holds valid nodes with unique names.
pub proof fn lemma_loaded_valid(stored: Option<Seq<SshNode>>)
    ensures
        loaded(stored) matches Ok(nodes) ==> all_nodes_valid(nodes) && unique_names(nodes),
{
    if let Some(nodes) = stored {
        law_file_check(nodes);
    }
}

/// What a successful add leaves holds valid nodes with unique names.
pub proof fn lemma_add_result_valid(stored: Option<Seq<SshNode>>, node: SshNode, replace: bool)
    ensures
        add_result(stored, node, replace) matches Ok(nodes) ==> all_nodes_valid(nodes) && unique_names(
            nodes,
        ),
{
    lemma_loaded_valid(stored);
    if let Ok(nodes) = add_result(stored, node, replace) {
        let old_nodes = loaded(stored)->Ok_0;
        lemma_name_index_unique(old_nodes, node.name@);
        match name_index(old_nodes, node.name@) {
            Some(i) => {
                assert forall|a: int, b: int| 0 <= a < b < nodes.len() implies (
                #[trigger] nodes[a]).name@ != (#[trigger] nodes[b]).name@ by {
                    assert(old_nodes[a].name@ != old_nodes[b].name@);
                }
                assert forall|a: int| 0 <= a < nodes.len() implies node_fault(#[trigger] nodes[a])
                    is None by {
                    if a != i {
                        assert(nodes[a] == old_nodes[a]);
                    }
                }
            },
            None => {
                assert forall|a: int, b: int| 0 <= a < b < nodes.len() implies (
                #[trigger] nodes[a]).name@ != (#[trigger] nodes[b]).name@ by {
                    if b < old_nodes.len() {
                        assert(old_nodes[a].name@ != old_nodes[b].name@);
                    } else {
                        assert(old_nodes[a].name@ != node.name@);
                    }
                }
                assert forall|a: int| 0 <= a < nodes.len() implies node_fault(#[trigger] nodes[a])
                    is None by {
                    if a < old_nodes.len() {
                        assert(nodes[a] == old_nodes[a]);
                    }
                }
            },
        }
    }
}

/// Keeping some of the nodes of a valid store keeps it valid, and drops
/// nothing the predicate keeps.
pub proof fn lemma_filter_valid(s: Seq<SshNode>, p: spec_fn(SshNode) -> bool)
    requires
        all_nodes_valid(s),
        unique_names(s),
    ensures
        all_nodes_valid(s.filter(p)),
        unique_names(s.filter(p)),
        forall|i: int| 0 <= i < s.filter(p).len() ==> p(#[trigger] s.filter(p)[i]),
        forall|i: int|
            0 <= i < s.filter(p).len() ==> exists|j: int|
                0 <= j < s.len() && (#[trigger] s[j]).name@ == (#[trigger] s.filter(p)[i]).name@,
        (exists|i: int| 0 <= i < s.len() && !p(#[trigger] s[i])) ==> s.filter(p).len() < s.len(),
        s.filter(p).len() <= s.len(),
    decreases s.len(),
{
    reveal(Seq::filter);
    if s.len() > 0 {
        let t = s.drop_last();
        assert(all_nodes_valid(t)) by {
            assert forall|i: int| 0 <= i < t.len() implies node_fault(#[trigger] t[i]) is None by {
                assert(t[i] == s[i]);
            }
        }
        assert(unique_names(t)) by {
            assert forall|a: int, b: int| 0 <= a < b < t.len() implies (#[trigger] t[a]).name@ != (
            #[trigger] t[b]).name@ by {
                assert(s[a].name@ != s[b].name@);
            }
        }
        lemma_filter_valid(t, p);
        let ft = t.filter(p);
        let f = s.filter(p);
        if p(s.last()) {
            assert(f == ft.push(s.last()));
            assert forall|a: int, b: int| 0 <= a < b < f.len() implies (#[trigger] f[a]).name@ != (
            #[trigger] f[b]).name@ by {
                if b < ft.len() {
                    assert(ft[a].name@ != ft[b].name@);
                } else {
                    let j = choose|j: int|
                        0 <= j < t.len() && (#[trigger] t[j]).name@ == (#[trigger] ft[a]).name@;
                    assert(s[j].name@ != s[s.len() - 1].name@);
                }
            }
            assert forall|i: int| 0 <= i < f.len() implies exists|j: int|
                0 <= j < s.len() && (#[trigger] s[j]).name@ == (#[trigger] f[i]).name@ by {
                if i < ft.len() {
                    let j = choose|j: int|
                        0 <= j < t.len() && (#[trigger] t[j]).name@ == (#[trigger] ft[i]).name@;
                    assert(s[j].name@ == f[i].name@);
                } else {
                    assert(s[s.len() - 1].name@ == f[i].name@);
                }
            }
            assert forall|i: int| 0 <= i < f.len() implies node_fault(#[trigger] f[i]) is None by {
                if i < ft.len() {
                    assert(f[i] == ft[i]);
                }
            }
            if exists|i: int| 0 <= i < s.len() && !p(#[trigger] s[i]) {
                let i = choose|i: int| 0 <= i < s.len() && !p(#[trigger] s[i]);
                assert(t[i] == s[i]);
            }
        } else {
            assert(f == ft);
            assert forall|i: int| 0 <= i < f.len() implies exists|j: int|
                0 <= j < s.len() && (#[trigger] s[j]).name@ == (#[trigger] f[i]).name@ by {
                let j = choose|j: int|
                    0 <= j < t.len() && (#[trigger] t[j]).name@ == (#[trigger] ft[i]).name@;
                assert(s[j].name@ == f[i].name@);
            }
        }
    }
}

/// A store written after a successful add loads back as exactly what was written.
pub proof fn law_add_then_load(stored: Option<Seq<SshNode>>, node: SshNode, replace: bool)
    ensures
        add_result(stored, node, replace) matches Ok(nodes) ==> loaded(Some(nodes)) == Ok::<
            Seq<SshNode>,
            ErrorView,
        >(nodes),
{
    lemma_add_result_valid(stored, node, replace);
    if let Ok(nodes) = add_result(stored, node, replace) {
        law_file_check(nodes);
    }
}

/// After a successful add, looking the node up by its name gives it back.
pub proof fn law_get_after_add(stored: Option<Seq<SshNode>>, node: SshNode, replace: bool)
    ensures
        add_result(stored, node, replace) is Ok ==> get_result(
            Some(add_result(stored, node, replace)->Ok_0),
            node.name@,
        ) == Ok::<SshNode, ErrorView>(node),
{
    law_add_then_load(stored, node, replace);
    lemma_add_result_valid(stored, node, replace);
    lemma_loaded_valid(stored);
    if let Ok(nodes) = add_result(stored, node, replace) {
        let old_nodes = loaded(stored)->Ok_0;
        lemma_name_index_unique(old_nodes, node.name@);
        lemma_name_index_unique(nodes, node.name@);
        let k = match name_index(old_nodes, node.name@) {
            Some(i) => i,
            None => old_nodes.len() as int,
        };
        assert(nodes[k] == node);
        let c = name_index(nodes, node.name@)->Some_0;
        if c != k {
            assert(nodes[c].name@ != nodes[k].name@);
        }
    }
}

/// Adding without `replace` a node whose name is stored is refused.
pub proof fn law_add_refuses_stored_name(stored: Option<Seq<SshNode>>, node: SshNode)
    requires
        node_fault(node) is None,
        loaded(stored) matches Ok(nodes) && exists|i: int|
            0 <= i < nodes.len() && (#[trigger] nodes[i]).name@ == node.name@,
    ensures
        add_result(stored, node, false) == Err::<Seq<SshNode>, ErrorView>(
            ErrorView::NodeExists(node.name@),
        ),
{
    lemma_loaded_valid(stored);
    lemma_name_index_unique(loaded(stored)->Ok_0, node.name@);
}

/// After a successful add, removing that name succeeds, what is left loads
/// back, and the name is no longer found.
pub proof fn law_remove_after_add(stored: Option<Seq<SshNode>>, node: SshNode, replace: bool)
    ensures
        add_result(stored, node, replace) is Ok ==> {
            let added = add_result(stored, node, replace)->Ok_0;
            &&& remove_result(Some(added), node.name@) is Ok
            &&& loaded(Some(remove_result(Some(added), node.name@)->Ok_0)) == remove_result(
                Some(added),
                node.name@,
            )
            &&& get_result(Some(remove_result(Some(added), node.name@)->Ok_0), node.name@) == Err::<
                SshNode,
                ErrorView,
            >(ErrorView::NodeNotFound(node.name@))
        },
{
    law_add_then_load(stored, node, replace);
    law_get_after_add(stored, node, replace);
    lemma_add_result_valid(stored, node, replace);
    if let Ok(added) = add_result(stored, node, replace) {
        let key = node.name@;
        lemma_name_index_unique(added, key);
        let i = name_index(added, key)->Some_0;
        assert(!other_than(key)(added[i]));
        lemma_filter_valid(added, other_than(key));
        let kept = added.filter(other_than(key));
        law_file_check(kept);
        assert forall|j: int| 0 <= j < kept.len() implies (#[trigger] kept[j]).name@ != key by {
            assert(other_than(key)(kept[j]));
        }
        lemma_name_index_unique(kept, key);
    }
}

/// A store written after a successful removal loads back as what was written.
pub proof fn law_remove_then_load(stored: Option<Seq<SshNode>>, name: Seq<char>)
    ensures
        remove_result(stored, name) matches Ok(kept) ==> loaded(Some(kept)) == Ok::<
            Seq<SshNode>,
            ErrorView,
        >(kept),
{
    lemma_loaded_valid(stored);
    if let Ok(nodes) = loaded(stored) {
        lemma_filter_valid(nodes, other_than(name));
        law_file_check(nodes.filter(other_than(name)));
    }
}

/// A filter that every item passes keeps the sequence whole.
proof fn lemma_filter_keeps_all(s: Seq<SshNode>, p: spec_fn(SshNode) -> bool)
    requires
        forall|j: int| 0 <= j < s.len() ==> p(#[trigger] s[j]),
    ensures
        s.filter(p) == s,
    decreases s.len(),
{
    reveal(Seq::filter);
    if s.len() > 0 {
        let d = s.drop_last();
        assert forall|j: int| 0 <= j < d.len() implies p(#[trigger] d[j]) by {
            assert(d[j] == s[j]);
        }
        lemma_filter_keeps_all(d, p);
        assert(p(s[s.len() - 1]));
        assert(d.push(s.last()) =~= s);
    }
}

/// A filter that only the item at `i` fails drops exactly that item.
proof fn lemma_filter_drops_one(s: Seq<SshNode>, p: spec_fn(SshNode) -> bool, i: int)
    requires
        0 <= i < s.len(),
        !p(s[i]),
        forall|j: int| 0 <= j < s.len() && j != i ==> p(#[trigger] s[j]),
    ensures
        s.filter(p) == s.remove(i),
    decreases s.len(),
{
    reveal(Seq::filter);
    let d = s.drop_last();
    if i == s.len() - 1 {
        assert forall|j: int| 0 <= j < d.len() implies p(#[trigger] d[j]) by {
            assert(d[j] == s[j]);
        }
        lemma_filter_keeps_all(d, p);
        assert(s.remove(i) =~= d);
    } else {
        assert forall|j: int| 0 <= j < d.len() && j != i implies p(#[trigger] d[j]) by {
            assert(d[j] == s[j]);
        }
        assert(d[i] == s[i]);
        lemma_filter_drops_one(d, p, i);
        assert(p(s[s.len() - 1]));
        assert(d.remove(i).push(s.last()) =~= s.remove(i));
    }
}

/// Removing a name takes out exactly the stored node of that name and keeps
/// every other node, in order: when the store loads and its node at `i` has
/// that name, what is left is the stored nodes without the one at `i`; when
/// no stored node has the name, the removal reports it not found; a store
/// that does not load gives its own error.
pub proof fn law_remove_takes_only_that_name(stored: Option<Seq<SshNode>>, name: Seq<char>)
    ensures
        loaded(stored) matches Err(e) ==> remove_result(stored, name) == Err::<Seq<SshNode>, ErrorView>(e),
        loaded(stored) matches Ok(nodes) ==> forall|i: int|
            0 <= i < nodes.len() && (#[trigger] nodes[i]).name@ == name ==> remove_result(stored, name)
                == Ok::<Seq<SshNode>, ErrorView>(nodes.remove(i)),
        loaded(stored) matches Ok(nodes) ==> ((forall|i: int|
            0 <= i < nodes.len() ==> (#[trigger] nodes[i]).name@ != name) ==> remove_result(stored, name)
            == Err::<Seq<SshNode>, ErrorView>(ErrorView::NodeNotFound(name))),
{
    lemma_loaded_valid(stored);
    if let Ok(nodes) = loaded(stored) {
        let p = other_than(name);
        assert forall|i: int| 0 <= i < nodes.len() && (#[trigger] nodes[i]).name@ == name implies remove_result(
            stored,
            name,
        ) == Ok::<Seq<SshNode>, ErrorView>(nodes.remove(i)) by {
            assert forall|j: int| 0 <= j < nodes.len() && j != i implies p(#[trigger] nodes[j]) by {
                if j < i {
                    assert(nodes[j].name@ != nodes[i].name@);
                } else {
                    assert(nodes[i].name@ != nodes[j].name@);
                }
            }
            lemma_filter_drops_one(nodes, p, i);
        }
        if forall|i: int| 0 <= i < nodes.len() ==> (#[trigger] nodes[i]).name@ != name {
            assert forall|j: int| 0 <= j < nodes.len() implies p(#[trigger] nodes[j]) by {
                assert(nodes[j].name@ != name);
            }
            lemma_filter_keeps_all(nodes, p);
        }
    }
}

proof fn lemma_fold_counts(
    m: Map<Seq<char>, SshNode>,
    a: nat,
    b: nat,
    nodes: Seq<SshNode>,
    i: int,
    mode: ImportMode,
)
    requires
        0 <= i <= nodes.len(),
    ensures
        import_fold(m, a, b, nodes, i, mode) matches Ok((_, a2, b2)) ==> a2 + b2 == a + b + nodes.len()
            - i && (mode != ImportMode::Replace ==> b2 == b),
    decreases nodes.len() - i,
{
    if i < nodes.len() {
        let n = nodes[i];
        if m.contains_key(n.name@) {
            lemma_fold_counts(m.insert(n.name@, n), a, b + 1, nodes, i + 1, mode);
        } else {
            lemma_fold_counts(m.insert(n.name@, n), a + 1, b, nodes, i + 1, mode);
        }
    }
}

/// A successful import counts every incoming node once, as imported or as
/// replaced, and skips none; outside `Replace` nothing is replaced.
pub proof fn law_import_counts(incoming: Seq<SshNode>, stored: Option<Seq<SshNode>>, mode: ImportMode)
    ensures
        import_result(incoming, stored, mode) matches Ok((_, imported, replaced)) ==> imported
            + replaced == incoming.len() && (mode != ImportMode::Replace ==> replaced == 0),
{
    if let Ok(olds) = loaded(stored) {
        lemma_fold_counts(node_map(olds), 0, 0, incoming, 0, mode);
    }
}

proof fn lemma_fold_dry_run(m: Map<Seq<char>, SshNode>, a: nat, b: nat, nodes: Seq<SshNode>, i: int)
    ensures
        import_fold(m, a, b, nodes, i, ImportMode::DryRun) == import_fold(
            m,
            a,
            b,
            nodes,
            i,
            ImportMode::Merge,
        ),
    decreases nodes.len() - i,
{
    if 0 <= i < nodes.len() {
        let n = nodes[i];
        if !m.contains_key(n.name@) {
            lemma_fold_dry_run(m.insert(n.name@, n), a + 1, b, nodes, i + 1);
        }
    }
}

/// A dry run reports what a merge would, and fails where a merge would.
pub proof fn law_dry_run_is_merge(incoming: Seq<SshNode>, stored: Option<Seq<SshNode>>)
    ensures
        import_result(incoming, stored, ImportMode::DryRun) == import_result(
            incoming,
            stored,
            ImportMode::Merge,
        ),
{
    if let Ok(olds) = loaded(stored) {
        lemma_fold_dry_run(node_map(olds), 0, 0, incoming, 0);
    }
}

proof fn lemma_fold_contents(
    m: Map<Seq<char>, SshNode>,
    a: nat,
    b: nat,
    nodes: Seq<SshNode>,
    i: int,
    mode: ImportMode,
)
    requires
        0 <= i <= nodes.len(),
        unique_names(nodes),
    ensures
        import_fold(m, a, b, nodes, i, mode) matches Ok((m2, _, _)) ==> m2 == m.union_prefer_right(
            node_map(nodes.subrange(i, nodes.len() as int)),
        ),
    decreases nodes.len() - i,
{
    let rest = nodes.subrange(i, nodes.len() as int);
    assert(unique_names(rest)) by {
        assert forall|x: int, y: int| 0 <= x < y < rest.len() implies (#[trigger] rest[x]).name@
            != (#[trigger] rest[y]).name@ by {
            assert(nodes[x + i].name@ != nodes[y + i].name@);
        }
    }
    if i < nodes.len() {
        let n = nodes[i];
        let m1 = m.insert(n.name@, n);
        lemma_fold_contents(m1, a, b + 1, nodes, i + 1, mode);
        lemma_fold_contents(m1, a + 1, b, nodes, i + 1, mode);
        let tail = nodes.subrange(i + 1, nodes.len() as int);
        assert(rest =~= tail.insert(0, n));
        assert forall|j: int| 0 <= j < tail.len() implies (#[trigger] tail[j]).name@ != n.name@ by {
            assert(nodes[j + i + 1].name@ != nodes[i].name@);
        }
        assert(unique_names(tail)) by {
            assert forall|x: int, y: int| 0 <= x < y < tail.len() implies (#[trigger] tail[x]).name@
                != (#[trigger] tail[y]).name@ by {
                assert(nodes[x + i + 1].name@ != nodes[y + i + 1].name@);
            }
        }
        lemma_node_map_insert(tail, 0, n);
        assert(m1.union_prefer_right(node_map(tail)) =~= m.union_prefer_right(node_map(rest)));
    } else {
        assert(node_map(rest) =~= Map::<Seq<char>, SshNode>::empty());
        assert(m.union_prefer_right(node_map(rest)) =~= m);
    }
}

/// A successful import leaves the stored nodes with the incoming ones laid
/// over them: every incoming node under its name, every other stored node
/// as it was.
pub proof fn law_import_contents(incoming: Seq<SshNode>, stored: Option<Seq<SshNode>>, mode: ImportMode)
    ensures
        import_result(incoming, stored, mode) matches Ok((m, _, _)) ==> m == node_map(
            loaded(stored)->Ok_0,
        ).union_prefer_right(node_map(incoming)),
{
    if nodes_fault(incoming) is None {
        law_file_check(incoming);
        if let Ok(olds) = loaded(stored) {
            lemma_fold_contents(node_map(olds), 0, 0, incoming, 0, mode);
            assert(incoming.subrange(0, incoming.len() as int) =~= incoming);
        }
    }
}

/// A file that a successful import writes (nodes in order of name, by name
/// what the import gives) loads back as exactly what was written.
pub proof fn law_import_then_load(
    incoming: Seq<SshNode>,
    stored: Option<Seq<SshNode>>,
    mode: ImportMode,
    written: Seq<SshNode>,
)
    requires
        import_result(incoming, stored, mode) is Ok,
        sorted_by_name(written),
        node_map(written) == import_result(incoming, stored, mode)->Ok_0.0,
    ensures
        loaded(Some(written)) == Ok::<Seq<SshNode>, ErrorView>(written),
{
    law_import_contents(incoming, stored, mode);
    law_file_check(incoming);
    lemma_loaded_valid(stored);
    lemma_sorted_unique(written);
    let olds = loaded(stored)->Ok_0;
    let m = import_result(incoming, stored, mode)->Ok_0.0;
    assert forall|j: int| 0 <= j < written.len() implies node_fault(#[trigger] written[j]) is None by {
        lemma_node_map_at(written, j);
        let k = written[j].name@;
        if node_map(incoming).contains_key(k) {
            let c = choose|c: int| 0 <= c < incoming.len() && (#[trigger] incoming[c]).name@ == k;
            assert(node_fault(incoming[c]) is None);
        } else {
            let c = choose|c: int| 0 <= c < olds.len() && (#[trigger] olds[c]).name@ == k;
            assert(node_fault(olds[c]) is None);
        }
    }
    law_file_check(written);
}

} // verus!
