//! Snapshot model of a directory tree, with the verified size aggregator and
//! the verified best-effort cleaner.
//!
//! A node is either a `File` with a byte size (and a flag recording whether a
//! deletion attempt on it would fail, e.g. because it is open or locked), a
//! `Dir` with a list of child nodes, or `Missing`: a path that does not exist
//! or an entry whose metadata cannot be read. Missing entries contribute
//! nothing to any total and are left in place by the cleaner, which is how
//! unreadable entries degrade gracefully instead of failing the pass.

use vstd::prelude::*;

verus! {

/// One entry of a directory-tree snapshot.
#[derive(Debug, PartialEq, Eq)]
pub enum FsNode {
    /// A path that does not exist, or an entry whose metadata could not be
    /// read; treated as empty everywhere.
    Missing,
    /// A regular file of `size` bytes; `locked` records that deleting it
    /// would fail (open, locked, or permission denied).
    File { size: u64, locked: bool },
    /// A directory with its child entries.
    Dir { entries: Vec<FsNode> },
}

/// The mathematical model of a directory tree; children are a `Seq`.
pub enum Tree {
    Missing,
    File { size: u64, locked: bool },
    Dir { entries: Seq<Tree> },
}

/// The model of a sequence of sibling nodes, element by element.
pub open spec fn view_seq(s: Seq<FsNode>) -> Seq<Tree>
    decreases s,
{
    if s.len() == 0 {
        Seq::empty()
    } else {
        view_seq(s.drop_last()).push(s.last()@)
    }
}

impl View for FsNode {
    type V = Tree;

    open spec fn view(&self) -> Tree
        decreases self,
    {
        match self {
            FsNode::Missing => Tree::Missing,
            FsNode::File { size, locked } => Tree::File { size: *size, locked: *locked },
            FsNode::Dir { entries } => Tree::Dir { entries: view_seq(entries@) },
        }
    }
}

/// `view_seq` is the pointwise view of its argument.
pub proof fn lemma_view_seq(s: Seq<FsNode>)
    ensures
        view_seq(s).len() == s.len(),
        forall|i: int| 0 <= i < s.len() ==> view_seq(s)[i] == #[trigger] s[i]@,
    decreases s,
{
    if s.len() == 0 {
        assert(view_seq(s) =~= Seq::<Tree>::empty());
    } else {
        lemma_view_seq(s.drop_last());
        assert(view_seq(s) == view_seq(s.drop_last()).push(s.last()@));
        assert forall|i: int| 0 <= i < s.len() implies view_seq(s)[i] == #[trigger] s[i]@ by {
            if i < s.len() - 1 {
                assert(s.drop_last()[i] == s[i]);
                assert(view_seq(s.drop_last())[i] == s.drop_last()[i]@);
            }
        }
    }
}

/// Total size in bytes of all regular files in the tree.
pub open spec fn size_of(t: Tree) -> nat
    decreases t,
{
    match t {
        Tree::Missing => 0,
        Tree::File { size, .. } => size as nat,
        Tree::Dir { entries } => size_of_seq(entries),
    }
}

/// Total size in bytes of all regular files under a sequence of nodes.
pub open spec fn size_of_seq(s: Seq<Tree>) -> nat
    decreases s,
{
    if s.len() == 0 {
        0
    } else {
        size_of_seq(s.drop_last()) + size_of(s.last())
    }
}

/// Measuring a directory equals the sum over its immediate children: the
/// size of a directory node is, by construction, the sum of the sizes of the
/// subtrees rooted at its entries (files directly present included).
pub proof fn lemma_size_additivity(entries: Seq<Tree>)
    ensures
        size_of((Tree::Dir { entries })) == size_of_seq(entries),
{
}

/// Sizes add over concatenation of sibling lists.
pub proof fn lemma_size_of_seq_concat(a: Seq<Tree>, b: Seq<Tree>)
    ensures
        size_of_seq(a + b) == size_of_seq(a) + size_of_seq(b),
    decreases b,
{
    if b.len() == 0 {
        assert(a + b =~= a);
    } else {
        lemma_size_of_seq_concat(a, b.drop_last());
        assert((a + b).drop_last() =~= a + b.drop_last());
        assert((a + b).last() == b.last());
    }
}

/// A missing or unreadable path contributes nothing to a measurement.
pub proof fn lemma_missing_measures_zero()
    ensures
        size_of(Tree::Missing) == 0,
{
}

/// Recursively sums the sizes of all regular files reachable from `node`.
/// Missing or unreadable entries contribute zero; the traversal is read-only
/// and never fails.
#[verifier::loop_isolation(false)]
pub fn calculate_dir_size(node: &FsNode) -> (total: u64)
    requires
        size_of(node@) <= u64::MAX,
    ensures
        total == size_of(node@),
    decreases node,
{
    match node {
        FsNode::Missing => 0,
        FsNode::File { size, .. } => *size,
        FsNode::Dir { entries } => {
            let ghost s = view_seq(entries@);
            proof {
                lemma_view_seq(entries@);
            }
            let mut total: u64 = 0;
            let mut i: usize = 0;
            while i < entries.len()
                invariant
                    i <= entries.len(),
                    total == size_of_seq(s.take(i as int)),
                decreases entries.len() - i,
            {
                proof {
                    assert(s.take(i as int + 1).drop_last() =~= s.take(i as int));
                    assert(s.take(i as int + 1).last() == s[i as int]);
                    assert(s.take(i as int) + s.skip(i as int) =~= s);
                    lemma_size_of_seq_concat(s.take(i as int), s.skip(i as int));
                    lemma_size_of_seq_skip_first(s, i as int);
                    assert(decreases_to!(*node => entries@[i as int]));
                }
                let child_total = calculate_dir_size(&entries[i]);
                total = total + child_total;
                i = i + 1;
            }
            proof {
                assert(s.take(entries@.len() as int) =~= s);
            }
            total
        },
    }
}

/// What remains of one entry after a best-effort clean; `None` means the
/// entry is removed. A file is removed unless deleting it fails (`locked`);
/// a directory's entries are cleaned first and the directory itself is
/// removed exactly when nothing is left in it; a missing or unreadable entry
/// is left in place.
pub open spec fn clean_entry(t: Tree) -> Option<Tree>
    decreases t,
{
    match t {
        Tree::Missing => Some(Tree::Missing),
        Tree::File { size, locked } => if locked {
            Some(Tree::File { size, locked })
        } else {
            None
        },
        Tree::Dir { entries } => if clean_seq(entries).len() == 0 {
            None
        } else {
            Some(Tree::Dir { entries: clean_seq(entries) })
        },
    }
}

/// The remnant of one cleaned entry as a (possibly empty) sibling list.
pub open spec fn entry_remnant(o: Option<Tree>) -> Seq<Tree> {
    match o {
        Some(t) => seq![t],
        None => Seq::empty(),
    }
}

/// What remains of a sequence of sibling entries after a best-effort clean.
pub open spec fn clean_seq(s: Seq<Tree>) -> Seq<Tree>
    decreases s,
{
    if s.len() == 0 {
        Seq::empty()
    } else {
        clean_seq(s.drop_last()) + entry_remnant(clean_entry(s.last()))
    }
}

/// Number of files that one cleaning pass deletes under an entry.
pub open spec fn removed_files(t: Tree) -> nat
    decreases t,
{
    match t {
        Tree::Missing => 0,
        Tree::File { locked, .. } => if locked {
            0
        } else {
            1
        },
        Tree::Dir { entries } => removed_files_seq(entries),
    }
}

/// Number of files that one cleaning pass deletes under a sibling list.
pub open spec fn removed_files_seq(s: Seq<Tree>) -> nat
    decreases s,
{
    if s.len() == 0 {
        0
    } else {
        removed_files_seq(s.drop_last()) + removed_files(s.last())
    }
}

/// Bytes that one cleaning pass reclaims under an entry.
pub open spec fn removed_bytes(t: Tree) -> nat
    decreases t,
{
    match t {
        Tree::Missing => 0,
        Tree::File { size, locked } => if locked {
            0
        } else {
            size as nat
        },
        Tree::Dir { entries } => removed_bytes_seq(entries),
    }
}

/// Bytes that one cleaning pass reclaims under a sibling list.
pub open spec fn removed_bytes_seq(s: Seq<Tree>) -> nat
    decreases s,
{
    if s.len() == 0 {
        0
    } else {
        removed_bytes_seq(s.drop_last()) + removed_bytes(s.last())
    }
}

/// What remains of a whole cache root after a cleaning pass: its contents
/// are cleaned, but the root itself is always kept, even when it ends up
/// empty. Cleaning a root that is not a directory changes nothing.
pub open spec fn clean_root(t: Tree) -> Tree {
    match t {
        Tree::Dir { entries } => Tree::Dir { entries: clean_seq(entries) },
        _ => t,
    }
}

/// Files deleted by a cleaning pass over a whole cache root.
pub open spec fn root_removed_files(t: Tree) -> nat {
    match t {
        Tree::Dir { entries } => removed_files_seq(entries),
        _ => 0,
    }
}

/// Bytes reclaimed by a cleaning pass over a whole cache root.
pub open spec fn root_removed_bytes(t: Tree) -> nat {
    match t {
        Tree::Dir { entries } => removed_bytes_seq(entries),
        _ => 0,
    }
}

/// Splitting off the first element of a suffix: the size of the suffix from
/// `i` is the size of element `i` plus the size of the suffix from `i + 1`.
pub proof fn lemma_size_of_seq_skip_first(s: Seq<Tree>, i: int)
    requires
        0 <= i < s.len(),
    ensures
        size_of_seq(s.skip(i)) == size_of(s[i]) + size_of_seq(s.skip(i + 1)),
{
    assert(s.skip(i).take(1) =~= seq![s[i]]);
    assert(s.skip(i).skip(1) =~= s.skip(i + 1));
    assert(s.skip(i).take(1) + s.skip(i).skip(1) =~= s.skip(i));
    lemma_size_of_seq_concat(s.skip(i).take(1), s.skip(i).skip(1));
    assert(size_of_seq(seq![s[i]]) == size_of(s[i])) by {
        assert(seq![s[i]].drop_last() =~= Seq::<Tree>::empty());
        assert(seq![s[i]].last() == s[i]);
        assert(size_of_seq(Seq::<Tree>::empty()) == 0);
    }
}

/// Cleaning distributes over concatenation of sibling lists.
pub proof fn lemma_clean_seq_concat(a: Seq<Tree>, b: Seq<Tree>)
    ensures
        clean_seq(a + b) == clean_seq(a) + clean_seq(b),
    decreases b,
{
    if b.len() == 0 {
        assert(a + b =~= a);
        assert(clean_seq(a) + clean_seq(b) =~= clean_seq(a));
    } else {
        lemma_clean_seq_concat(a, b.drop_last());
        assert((a + b).drop_last() =~= a + b.drop_last());
        assert((a + b).last() == b.last());
        assert(clean_seq(a) + clean_seq(b) =~= clean_seq(a) + (clean_seq(b.drop_last())
            + entry_remnant(clean_entry(b.last()))));
    }
}

/// Deleted-file counts add over concatenation of sibling lists.
pub proof fn lemma_removed_files_seq_concat(a: Seq<Tree>, b: Seq<Tree>)
    ensures
        removed_files_seq(a + b) == removed_files_seq(a) + removed_files_seq(b),
    decreases b,
{
    if b.len() == 0 {
        assert(a + b =~= a);
    } else {
        lemma_removed_files_seq_concat(a, b.drop_last());
        assert((a + b).drop_last() =~= a + b.drop_last());
        assert((a + b).last() == b.last());
    }
}

/// Reclaimed-byte counts add over concatenation of sibling lists.
pub proof fn lemma_removed_bytes_seq_concat(a: Seq<Tree>, b: Seq<Tree>)
    ensures
        removed_bytes_seq(a + b) == removed_bytes_seq(a) + removed_bytes_seq(b),
    decreases b,
{
    if b.len() == 0 {
        assert(a + b =~= a);
    } else {
        lemma_removed_bytes_seq_concat(a, b.drop_last());
        assert((a + b).drop_last() =~= a + b.drop_last());
        assert((a + b).last() == b.last());
    }
}

/// Unfolds each sibling-list measure on a one-entry list.
proof fn lemma_seq_singleton(t: Tree)
    ensures
        size_of_seq(seq![t]) == size_of(t),
        removed_files_seq(seq![t]) == removed_files(t),
        removed_bytes_seq(seq![t]) == removed_bytes(t),
        clean_seq(seq![t]) == entry_remnant(clean_entry(t)),
{
    assert(seq![t].drop_last() =~= Seq::<Tree>::empty());
    assert(seq![t].last() == t);
    assert(size_of_seq(Seq::<Tree>::empty()) == 0);
    assert(removed_files_seq(Seq::<Tree>::empty()) == 0);
    assert(removed_bytes_seq(Seq::<Tree>::empty()) == 0);
    assert(clean_seq(Seq::<Tree>::empty()) == Seq::<Tree>::empty());
    assert(Seq::<Tree>::empty() + entry_remnant(clean_entry(t)) =~= entry_remnant(
        clean_entry(t),
    ));
}

/// Deletes every file it can under `node` and removes the directories that
/// deletion leaves empty, adding the number of deleted files and the
/// reclaimed bytes to the caller-provided accumulators. Entries whose
/// deletion would fail are skipped silently and left in place; the node
/// passed in is itself never removed, so the returned tree is what the path
/// of `node` holds after the pass.
#[verifier::loop_isolation(false)]
pub fn clean_directory(node: &FsNode, cleaned_count: &mut u64, cleaned_size: &mut u64) -> (cleaned:
    FsNode)
    requires
        *old(cleaned_count) + root_removed_files(node@) <= u64::MAX,
        *old(cleaned_size) + root_removed_bytes(node@) <= u64::MAX,
    ensures
        cleaned@ == clean_root(node@),
        *final(cleaned_count) == *old(cleaned_count) + root_removed_files(node@),
        *final(cleaned_size) == *old(cleaned_size) + root_removed_bytes(node@),
    decreases node,
{
    match node {
        FsNode::Missing => FsNode::Missing,
        FsNode::File { size, locked } => FsNode::File { size: *size, locked: *locked },
        FsNode::Dir { entries } => {
            let ghost s = view_seq(entries@);
            proof {
                lemma_view_seq(entries@);
            }
            let mut out: Vec<FsNode> = Vec::new();
            let mut i: usize = 0;
            while i < entries.len()
                invariant
                    i <= entries.len(),
                    view_seq(out@) == clean_seq(s.take(i as int)),
                    *cleaned_count == *old(cleaned_count) + removed_files_seq(s.take(i as int)),
                    *cleaned_size == *old(cleaned_size) + removed_bytes_seq(s.take(i as int)),
                decreases entries.len() - i,
            {
                proof {
                    assert(s.take(i as int + 1).drop_last() =~= s.take(i as int));
                    assert(s.take(i as int + 1).last() == s[i as int]);
                    assert(s.take(i as int + 1) + s.skip(i as int + 1) =~= s);
                    lemma_removed_files_seq_concat(s.take(i as int + 1), s.skip(i as int + 1));
                    lemma_removed_bytes_seq_concat(s.take(i as int + 1), s.skip(i as int + 1));
                    assert(node@ == (Tree::Dir { entries: s }));
                    assert(root_removed_files(node@) == removed_files_seq(s));
                    assert(root_removed_bytes(node@) == removed_bytes_seq(s));
                    assert(removed_files_seq(s.take(i as int + 1)) == removed_files_seq(
                        s.take(i as int),
                    ) + removed_files(s[i as int]));
                    assert(removed_bytes_seq(s.take(i as int + 1)) == removed_bytes_seq(
                        s.take(i as int),
                    ) + removed_bytes(s[i as int]));
                    assert(removed_files_seq(s) == removed_files_seq(s.take(i as int + 1))
                        + removed_files_seq(s.skip(i as int + 1)));
                    assert(removed_bytes_seq(s) == removed_bytes_seq(s.take(i as int + 1))
                        + removed_bytes_seq(s.skip(i as int + 1)));
                }
                let ghost prev = out@;
                let child = &entries[i];
                proof {
                    assert(entries@[i as int]@ == s[i as int]);
                    assert(child@ == s[i as int]);
                }
                match child {
                    FsNode::Missing => {
                        out.push(FsNode::Missing);
                        proof {
                            assert(out@.drop_last() =~= prev);
                            assert(view_seq(out@) == view_seq(prev).push(Tree::Missing));
                            assert(clean_seq(s.take(i as int)) + seq![Tree::Missing] =~= view_seq(
                                out@,
                            ));
                        }
                    },
                    FsNode::File { size, locked } => {
                        if *locked {
                            out.push(FsNode::File { size: *size, locked: true });
                            proof {
                                assert(out@.drop_last() =~= prev);
                                assert(out@.last()@ == (Tree::File {
                                    size: *size,
                                    locked: true,
                                }));
                                assert(clean_seq(s.take(i as int)) + entry_remnant(
                                    clean_entry(s[i as int]),
                                ) =~= view_seq(out@));
                            }
                        } else {
                            *cleaned_count = *cleaned_count + 1;
                            *cleaned_size = *cleaned_size + *size;
                            proof {
                                assert(clean_seq(s.take(i as int)) + entry_remnant(
                                    clean_entry(s[i as int]),
                                ) =~= clean_seq(s.take(i as int)));
                            }
                        }
                    },
                    FsNode::Dir { .. } => {
                        proof {
                            assert(decreases_to!(*node => entries@[i as int]));
                            assert(root_removed_files(child@) == removed_files(s[i as int]));
                            assert(root_removed_bytes(child@) == removed_bytes(s[i as int]));
                        }
                        let cleaned_child = clean_directory(child, cleaned_count, cleaned_size);
                        let keep = match &cleaned_child {
                            FsNode::Dir { entries: ce } => {
                                proof {
                                    lemma_view_seq(ce@);
                                }
                                ce.len() > 0
                            },
                            _ => true,
                        };
                        proof {
                            assert(cleaned_child@ is Dir);
                            assert(keep == (clean_entry(s[i as int]) is Some));
                        }
                        if keep {
                            out.push(cleaned_child);
                            proof {
                                assert(out@.drop_last() =~= prev);
                                assert(clean_seq(s.take(i as int)) + entry_remnant(
                                    clean_entry(s[i as int]),
                                ) =~= view_seq(out@));
                            }
                        } else {
                            proof {
                                assert(clean_seq(s.take(i as int)) + entry_remnant(
                                    clean_entry(s[i as int]),
                                ) =~= clean_seq(s.take(i as int)));
                            }
                        }
                    },
                }
                i = i + 1;
            }
            proof {
                assert(s.take(entries@.len() as int) =~= s);
            }
            FsNode::Dir { entries: out }
        },
    }
}

/// A cleaning pass leaves the cache root itself in place: cleaning a
/// directory yields a directory (possibly empty), and a root that is not a
/// directory is untouched.
pub proof fn lemma_clean_preserves_root(t: Tree)
    ensures
        t is Dir ==> clean_root(t) is Dir,
        !(t is Dir) ==> clean_root(t) == t,
{
}

proof fn lemma_clean_entry_idempotent(t: Tree)
    ensures
        match clean_entry(t) {
            Some(m) => clean_entry(m) == Some(m) && removed_files(m) == 0 && removed_bytes(m)
                == 0,
            None => true,
        },
    decreases t,
{
    match t {
        Tree::Missing => {
        },
        Tree::File { .. } => {
        },
        Tree::Dir { entries } => {
            lemma_clean_seq_idempotent(entries);
        },
    }
}

proof fn lemma_clean_seq_idempotent(s: Seq<Tree>)
    ensures
        clean_seq(clean_seq(s)) == clean_seq(s),
        removed_files_seq(clean_seq(s)) == 0,
        removed_bytes_seq(clean_seq(s)) == 0,
    decreases s,
{
    if s.len() == 0 {
    } else {
        let d = s.drop_last();
        lemma_clean_seq_idempotent(d);
        lemma_clean_entry_idempotent(s.last());
        let r = entry_remnant(clean_entry(s.last()));
        lemma_clean_seq_concat(clean_seq(d), r);
        lemma_removed_files_seq_concat(clean_seq(d), r);
        lemma_removed_bytes_seq_concat(clean_seq(d), r);
        match clean_entry(s.last()) {
            Some(m) => {
                lemma_seq_singleton(m);
            },
            None => {
                assert(clean_seq(d) + r =~= clean_seq(d));
                assert(clean_seq(Seq::<Tree>::empty()) == Seq::<Tree>::empty());
            },
        }
    }
}

/// A second cleaning pass over an unmodified tree finds nothing to do: it
/// deletes no file, reclaims no byte, and leaves the tree exactly as the
/// first pass left it.
pub proof fn lemma_clean_idempotent(t: Tree)
    ensures
        root_removed_files(clean_root(t)) == 0,
        root_removed_bytes(clean_root(t)) == 0,
        clean_root(clean_root(t)) == clean_root(t),
{
    match t {
        Tree::Dir { entries } => {
            lemma_clean_seq_idempotent(entries);
        },
        _ => {
        },
    }
}

proof fn lemma_clean_entry_conserves(t: Tree)
    ensures
        removed_bytes(t) + size_of_seq(entry_remnant(clean_entry(t))) == size_of(t),
    decreases t,
{
    match t {
        Tree::Missing => {
            lemma_seq_singleton(Tree::Missing);
        },
        Tree::File { size, locked } => {
            lemma_seq_singleton(Tree::File { size, locked });
        },
        Tree::Dir { entries } => {
            lemma_clean_seq_conserves(entries);
            if clean_seq(entries).len() > 0 {
                lemma_seq_singleton(Tree::Dir { entries: clean_seq(entries) });
            }
        },
    }
}

proof fn lemma_clean_seq_conserves(s: Seq<Tree>)
    ensures
        removed_bytes_seq(s) + size_of_seq(clean_seq(s)) == size_of_seq(s),
    decreases s,
{
    if s.len() == 0 {
    } else {
        let d = s.drop_last();
        lemma_clean_seq_conserves(d);
        lemma_clean_entry_conserves(s.last());
        lemma_size_of_seq_concat(clean_seq(d), entry_remnant(clean_entry(s.last())));
    }
}

/// Nothing is lost in the accounting: the bytes a cleaning pass reclaims
/// from a root plus the bytes still present afterwards equal the bytes
/// present before.
pub proof fn lemma_clean_conserves_size(t: Tree)
    ensures
        root_removed_bytes(t) + size_of(clean_root(t)) == size_of(t),
{
    match t {
        Tree::Dir { entries } => {
            lemma_clean_seq_conserves(entries);
        },
        _ => {
        },
    }
}

} // verus!
