//! Workspace walking: enumerate every materialized repository directory
//! under a root by descending the fixed three-level hierarchy
//! host -> owner -> name.
//!
//! The walker works on a snapshot of the directory tree passed in as a
//! value, so what it collects, what it skips, and when it fails are all
//! stated and proved. Non-directory entries at any level are skipped; a
//! directory that cannot be listed aborts the whole walk.

use vstd::prelude::*;

use crate::errors::WalkError;
use crate::paths::{join_path, join_seq, strs_view};

verus! {

/// One entry of a listed directory: its name and what it is.
pub struct DirEntry {
    /// The entry's name (one path segment).
    pub name: String,
    /// What the entry is.
    pub node: FsNode,
}

/// A snapshot of one node of the filesystem.
pub enum FsNode {
    /// Anything that is not a directory.
    File,
    /// A directory: whether it can be listed, and its entries when it can.
    Dir {
        /// Whether listing the directory succeeds.
        readable: bool,
        /// The directory's entries, in listing order.
        entries: Vec<DirEntry>,
    },
}

/// Whether a node is a directory.
pub open spec fn is_dir_node(n: FsNode) -> bool {
    n is Dir
}

/// Whether a node is a directory that can be listed.
pub open spec fn node_readable(n: FsNode) -> bool {
    match n {
        FsNode::File => false,
        FsNode::Dir { readable, .. } => readable,
    }
}

/// The entries of a node (empty for a non-directory).
pub open spec fn node_entries(n: FsNode) -> Seq<DirEntry> {
    match n {
        FsNode::File => Seq::empty(),
        FsNode::Dir { entries, .. } => entries@,
    }
}

/// An owner-level entry lets the walk proceed when, if it is a directory at
/// all, it can be listed.
pub open spec fn owner_ok(e: DirEntry) -> bool {
    is_dir_node(e.node) ==> node_readable(e.node)
}

/// A host-level entry lets the walk proceed when, if it is a directory, it
/// can be listed and every owner-level directory under it can be listed too.
pub open spec fn host_ok(e: DirEntry) -> bool {
    is_dir_node(e.node) ==> node_readable(e.node) && (forall|j: int|
        0 <= j < node_entries(e.node).len() ==> owner_ok(#[trigger] node_entries(e.node)[j]))
}

/// The whole walk succeeds exactly when the root is a listable directory
/// and every directory reached at the host and owner levels is listable.
pub open spec fn walk_ok(root: FsNode) -> bool {
    &&& node_readable(root)
    &&& forall|i: int| 0 <= i < node_entries(root).len() ==> host_ok(#[trigger] node_entries(root)[i])
}

/// The repository paths contributed by the entries of one owner directory
/// with path `prefix`: one path per directory entry, in order.
pub open spec fn repos_in_owner(prefix: Seq<char>, entries: Seq<DirEntry>) -> Seq<Seq<char>>
    decreases entries.len(),
{
    if entries.len() == 0 {
        Seq::empty()
    } else {
        repos_in_owner(prefix, entries.drop_last()) + (if is_dir_node(entries.last().node) {
            seq![join_seq(prefix, entries.last().name@)]
        } else {
            Seq::empty()
        })
    }
}

/// The repository paths contributed by the entries of one host directory
/// with path `prefix`.
pub open spec fn repos_in_host(prefix: Seq<char>, entries: Seq<DirEntry>) -> Seq<Seq<char>>
    decreases entries.len(),
{
    if entries.len() == 0 {
        Seq::empty()
    } else {
        repos_in_host(prefix, entries.drop_last()) + (if is_dir_node(entries.last().node) {
            repos_in_owner(
                join_seq(prefix, entries.last().name@),
                node_entries(entries.last().node),
            )
        } else {
            Seq::empty()
        })
    }
}

/// The repository paths under a root with path `root_path` and host-level
/// entries `entries`.
pub open spec fn repos_in_root(root_path: Seq<char>, entries: Seq<DirEntry>) -> Seq<Seq<char>>
    decreases entries.len(),
{
    if entries.len() == 0 {
        Seq::empty()
    } else {
        repos_in_root(root_path, entries.drop_last()) + (if is_dir_node(entries.last().node) {
            repos_in_host(
                join_seq(root_path, entries.last().name@),
                node_entries(entries.last().node),
            )
        } else {
            Seq::empty()
        })
    }
}

/// A root holding exactly one host/owner/name chain of listable directories
/// walks without error to exactly one repository path: the root path joined
/// with the three names in order.
pub proof fn lemma_walk_single_triple(
    root_path: Seq<char>,
    root: FsNode,
    host: DirEntry,
    owner: DirEntry,
    repo: DirEntry,
)
    requires
        node_readable(root),
        node_entries(root) == seq![host],
        node_readable(host.node),
        node_entries(host.node) == seq![owner],
        node_readable(owner.node),
        node_entries(owner.node) == seq![repo],
        is_dir_node(repo.node),
    ensures
        walk_ok(root),
        repos_in_root(root_path, node_entries(root)) =~= seq![
            join_seq(join_seq(join_seq(root_path, host.name@), owner.name@), repo.name@),
        ],
{
    let hp = join_seq(root_path, host.name@);
    let op = join_seq(hp, owner.name@);
    assert(seq![host].drop_last() =~= Seq::<DirEntry>::empty());
    assert(seq![owner].drop_last() =~= Seq::<DirEntry>::empty());
    assert(seq![repo].drop_last() =~= Seq::<DirEntry>::empty());
    assert(repos_in_owner(op, Seq::<DirEntry>::empty()) =~= Seq::<Seq<char>>::empty());
    assert(repos_in_host(hp, Seq::<DirEntry>::empty()) =~= Seq::<Seq<char>>::empty());
    assert(repos_in_root(root_path, Seq::<DirEntry>::empty()) =~= Seq::<Seq<char>>::empty());
    assert(repos_in_owner(op, seq![repo]) =~= seq![join_seq(op, repo.name@)]);
    assert(repos_in_host(hp, seq![owner]) =~= seq![join_seq(op, repo.name@)]);
    assert(repos_in_root(root_path, seq![host]) =~= seq![join_seq(op, repo.name@)]);
    assert forall|i: int| 0 <= i < node_entries(root).len() implies host_ok(
        #[trigger] node_entries(root)[i],
    ) by {
        assert(node_entries(root)[i] == host);
    }
}

/// A root that is a listable directory with no entries walks without error
/// to the empty sequence of repository paths.
pub proof fn lemma_walk_empty_root(root_path: Seq<char>, root: FsNode)
    requires
        node_readable(root),
        node_entries(root) == Seq::<DirEntry>::empty(),
    ensures
        walk_ok(root),
        repos_in_root(root_path, node_entries(root)) =~= Seq::<Seq<char>>::empty(),
{
}

/// A non-directory entry at the host level neither contributes a repository
/// path nor makes the walk fail.
pub proof fn lemma_walk_skips_host_files(
    root_path: Seq<char>,
    entries: Seq<DirEntry>,
    e: DirEntry,
)
    requires
        !is_dir_node(e.node),
    ensures
        host_ok(e),
        repos_in_root(root_path, entries.push(e)) =~= repos_in_root(root_path, entries),
{
    assert(entries.push(e).drop_last() =~= entries);
    assert(entries.push(e).last() == e);
}

/// Walk the three-level hierarchy under the directory at `dir` whose
/// snapshot is `root`, and collect the path of every repository directory,
/// in listing order.
///
/// Fails exactly when the root itself, or a directory reached at the host
/// or owner level, cannot be listed; non-directory entries are skipped.
pub fn walk_root(dir: &str, root: &FsNode) -> (r: Result<Vec<String>, WalkError>)
    ensures
        match r {
            Result::Ok(v) => walk_ok(*root) && strs_view(v@) == repos_in_root(
                dir@,
                node_entries(*root),
            ),
            Result::Err(e) => !walk_ok(*root) && e == WalkError::Unreadable,
        },
{
    let hosts: &Vec<DirEntry> = match root {
        FsNode::File => {
            return Err(WalkError::Unreadable);
        },
        FsNode::Dir { readable, entries } => {
            if !*readable {
                return Err(WalkError::Unreadable);
            }
            entries
        },
    };
    let mut out: Vec<String> = Vec::new();
    let mut i: usize = 0;
    while i < hosts.len()
        invariant
            node_readable(*root),
            node_entries(*root) == hosts@,
            0 <= i <= hosts@.len(),
            forall|p: int| 0 <= p < i ==> host_ok(#[trigger] hosts@[p]),
            strs_view(out@) == repos_in_root(dir@, hosts@.take(i as int)),
        decreases hosts@.len() - i,
    {
        match &hosts[i].node {
            FsNode::File => {},
            FsNode::Dir { readable, entries } => {
                let owners: &Vec<DirEntry> = entries;
                if !*readable {
                    proof {
                        assert(!host_ok(hosts@[i as int]));
                    }
                    return Err(WalkError::Unreadable);
                }
                let hp = join_path(dir, hosts[i].name.as_str());
                let mut j: usize = 0;
                while j < owners.len()
                    invariant
                        node_readable(*root),
                        node_entries(*root) == hosts@,
                        0 <= i < hosts@.len(),
                        forall|p: int| 0 <= p < i ==> host_ok(#[trigger] hosts@[p]),
                        is_dir_node(hosts@[i as int].node),
                        node_readable(hosts@[i as int].node),
                        node_entries(hosts@[i as int].node) == owners@,
                        hp@ == join_seq(dir@, hosts@[i as int].name@),
                        0 <= j <= owners@.len(),
                        forall|q: int| 0 <= q < j ==> owner_ok(#[trigger] owners@[q]),
                        strs_view(out@) == repos_in_root(dir@, hosts@.take(i as int))
                            + repos_in_host(hp@, owners@.take(j as int)),
                    decreases owners@.len() - j,
                {
                    match &owners[j].node {
                        FsNode::File => {},
                        FsNode::Dir { readable, entries } => {
                            let repos: &Vec<DirEntry> = entries;
                            if !*readable {
                                proof {
                                    assert(!owner_ok(owners@[j as int]));
                                    assert(!host_ok(hosts@[i as int]));
                                }
                                return Err(WalkError::Unreadable);
                            }
                            let op = join_path(hp.as_str(), owners[j].name.as_str());
                            let mut k: usize = 0;
                            while k < repos.len()
                                invariant
                                    node_readable(*root),
                                    node_entries(*root) == hosts@,
                                    0 <= i < hosts@.len(),
                                    forall|p: int| 0 <= p < i ==> host_ok(#[trigger] hosts@[p]),
                                    is_dir_node(hosts@[i as int].node),
                                    node_readable(hosts@[i as int].node),
                                    node_entries(hosts@[i as int].node) == owners@,
                                    hp@ == join_seq(dir@, hosts@[i as int].name@),
                                    0 <= j < owners@.len(),
                                    forall|q: int| 0 <= q < j ==> owner_ok(#[trigger] owners@[q]),
                                    is_dir_node(owners@[j as int].node),
                                    node_readable(owners@[j as int].node),
                                    node_entries(owners@[j as int].node) == repos@,
                                    op@ == join_seq(hp@, owners@[j as int].name@),
                                    0 <= k <= repos@.len(),
                                    strs_view(out@) == repos_in_root(dir@, hosts@.take(i as int))
                                        + repos_in_host(hp@, owners@.take(j as int))
                                        + repos_in_owner(op@, repos@.take(k as int)),
                                decreases repos@.len() - k,
                            {
                                let ghost prev = out@;
                                match &repos[k].node {
                                    FsNode::File => {},
                                    FsNode::Dir { .. } => {
                                        out.push(join_path(op.as_str(), repos[k].name.as_str()));
                                    },
                                }
                                proof {
                                    assert(repos@.take(k + 1).drop_last() =~= repos@.take(k as int));
                                    assert(repos@.take(k + 1).last() == repos@[k as int]);
                                    if is_dir_node(repos@[k as int].node) {
                                        assert(out@.drop_last() =~= prev);
                                        assert(strs_view(out@) =~= repos_in_root(
                                            dir@,
                                            hosts@.take(i as int),
                                        ) + repos_in_host(hp@, owners@.take(j as int))
                                            + repos_in_owner(op@, repos@.take(k + 1)));
                                    } else {
                                        assert(strs_view(out@) =~= repos_in_root(
                                            dir@,
                                            hosts@.take(i as int),
                                        ) + repos_in_host(hp@, owners@.take(j as int))
                                            + repos_in_owner(op@, repos@.take(k + 1)));
                                    }
                                }
                                k = k + 1;
                            }
                            proof {
                                assert(repos@.take(repos@.len() as int) =~= repos@);
                            }
                        },
                    }
                    proof {
                        assert(owners@.take(j + 1).drop_last() =~= owners@.take(j as int));
                        assert(owners@.take(j + 1).last() == owners@[j as int]);
                        assert(strs_view(out@) =~= repos_in_root(dir@, hosts@.take(i as int))
                            + repos_in_host(hp@, owners@.take(j + 1)));
                    }
                    j = j + 1;
                }
                proof {
                    assert(owners@.take(owners@.len() as int) =~= owners@);
                }
            },
        }
        proof {
            assert(hosts@.take(i + 1).drop_last() =~= hosts@.take(i as int));
            assert(hosts@.take(i + 1).last() == hosts@[i as int]);
            assert(strs_view(out@) =~= repos_in_root(dir@, hosts@.take(i + 1)));
        }
        i = i + 1;
    }
    proof {
        assert(hosts@.take(hosts@.len() as int) =~= hosts@);
    }
    Ok(out)
}

} // verus!
