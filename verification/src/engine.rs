//! Cache engine: owns the snapshot of all cache roots and the timestamp of
//! the most recent completed cleaning pass, and drives measurement and
//! cleaning across every root.
//!
//! Time is handed in by the caller as a millisecond reading of its clock, so
//! that every decision made here is a function of its arguments.

use vstd::prelude::*;

use crate::tree::FsNode;
use crate::tree::Tree;
use crate::tree::calculate_dir_size;
use crate::tree::clean_directory;
use crate::tree::clean_root;
use crate::tree::lemma_clean_conserves_size;
use crate::tree::lemma_clean_idempotent;
use crate::tree::lemma_size_of_seq_concat;
use crate::tree::lemma_size_of_seq_skip_first;
use crate::tree::lemma_view_seq;
use crate::tree::root_removed_bytes;
use crate::tree::root_removed_files;
use crate::tree::size_of_seq;
use crate::tree::view_seq;

verus! {

/// Tally of one cleaning pass: how many files were deleted and how many
/// bytes they held. Produced per invocation and not accumulated across runs.
#[derive(Clone, Copy, PartialEq, Eq, Structural, Debug)]
pub struct CleanOutcome {
    pub files_deleted: u64,
    pub bytes_reclaimed: u64,
}

/// Every cache root after one cleaning pass.
pub open spec fn clean_roots(ts: Seq<Tree>) -> Seq<Tree>
    decreases ts,
{
    if ts.len() == 0 {
        Seq::empty()
    } else {
        clean_roots(ts.drop_last()).push(clean_root(ts.last()))
    }
}

/// Files deleted by one cleaning pass across a sequence of roots.
pub open spec fn roots_removed_files(ts: Seq<Tree>) -> nat
    decreases ts,
{
    if ts.len() == 0 {
        0
    } else {
        roots_removed_files(ts.drop_last()) + root_removed_files(ts.last())
    }
}

/// Bytes reclaimed by one cleaning pass across a sequence of roots.
pub open spec fn roots_removed_bytes(ts: Seq<Tree>) -> nat
    decreases ts,
{
    if ts.len() == 0 {
        0
    } else {
        roots_removed_bytes(ts.drop_last()) + root_removed_bytes(ts.last())
    }
}

/// Elapsed time since the recorded clean, at clock reading `now_ms`: `None`
/// when no clean has happened yet, and zero when the recorded timestamp lies
/// in the caller's future.
pub open spec fn age_spec(last_clean_ms: Option<u64>, now_ms: u64) -> Option<u64> {
    match last_clean_ms {
        Some(t) => if now_ms >= t {
            Some((now_ms - t) as u64)
        } else {
            Some(0u64)
        },
        None => None,
    }
}

/// Deleted-file tallies add over concatenation of root lists.
pub proof fn lemma_roots_removed_files_concat(a: Seq<Tree>, b: Seq<Tree>)
    ensures
        roots_removed_files(a + b) == roots_removed_files(a) + roots_removed_files(b),
    decreases b,
{
    if b.len() == 0 {
        assert(a + b =~= a);
    } else {
        lemma_roots_removed_files_concat(a, b.drop_last());
        assert((a + b).drop_last() =~= a + b.drop_last());
        assert((a + b).last() == b.last());
    }
}

/// Reclaimed-byte tallies add over concatenation of root lists.
pub proof fn lemma_roots_removed_bytes_concat(a: Seq<Tree>, b: Seq<Tree>)
    ensures
        roots_removed_bytes(a + b) == roots_removed_bytes(a) + roots_removed_bytes(b),
    decreases b,
{
    if b.len() == 0 {
        assert(a + b =~= a);
    } else {
        lemma_roots_removed_bytes_concat(a, b.drop_last());
        assert((a + b).drop_last() =~= a + b.drop_last());
        assert((a + b).last() == b.last());
    }
}

/// Nothing is lost in the accounting across roots: the bytes one pass
/// reclaims plus the bytes still present afterwards equal the bytes present
/// before.
pub proof fn lemma_clean_roots_conserve(ts: Seq<Tree>)
    ensures
        roots_removed_bytes(ts) + size_of_seq(clean_roots(ts)) == size_of_seq(ts),
    decreases ts,
{
    if ts.len() > 0 {
        lemma_clean_roots_conserve(ts.drop_last());
        lemma_clean_conserves_size(ts.last());
        assert(clean_roots(ts).drop_last() =~= clean_roots(ts.drop_last()));
        assert(clean_roots(ts).last() == clean_root(ts.last()));
    }
}

/// A second cleaning pass across unmodified roots deletes nothing, reclaims
/// nothing, and leaves every root as the first pass left it.
pub proof fn lemma_clean_roots_idempotent(ts: Seq<Tree>)
    ensures
        roots_removed_files(clean_roots(ts)) == 0,
        roots_removed_bytes(clean_roots(ts)) == 0,
        clean_roots(clean_roots(ts)) == clean_roots(ts),
    decreases ts,
{
    if ts.len() > 0 {
        lemma_clean_roots_idempotent(ts.drop_last());
        lemma_clean_idempotent(ts.last());
        assert(clean_roots(ts).drop_last() =~= clean_roots(ts.drop_last()));
        assert(clean_roots(ts).last() == clean_root(ts.last()));
        assert(clean_roots(clean_roots(ts)).drop_last() =~= clean_roots(
            clean_roots(ts).drop_last(),
        ));
    }
}

/// Orchestrates measurement and cleaning across a fixed list of cache
/// roots, and remembers when the last cleaning pass completed.
pub struct CacheEngine {
    roots: Vec<FsNode>,
    last_clean_ms: Option<u64>,
}

impl CacheEngine {
    /// The mathematical model of the engine's cache roots.
    pub closed spec fn roots_model(self) -> Seq<Tree> {
        view_seq(self.roots@)
    }

    /// The recorded clock reading of the last completed clean, if any.
    pub closed spec fn last_clean(self) -> Option<u64> {
        self.last_clean_ms
    }

    /// Builds an engine over the given cache roots; no clean has happened
    /// yet.
    pub fn new(roots: Vec<FsNode>) -> (engine: Self)
        ensures
            engine.roots_model() == view_seq(roots@),
            engine.last_clean() is None,
    {
        CacheEngine { roots, last_clean_ms: None }
    }

    /// Replaces the snapshot of the cache roots with a fresh one, keeping
    /// the record of when the last clean completed.
    pub fn set_roots(&mut self, roots: Vec<FsNode>)
        ensures
            final(self).roots_model() == view_seq(roots@),
            final(self).last_clean() == old(self).last_clean(),
    {
        self.roots = roots;
    }

    /// Measures the aggregate size in bytes of all cache roots. Missing
    /// roots count as empty; the engine's state is not changed.
    #[verifier::loop_isolation(false)]
    pub fn measure(&self) -> (total: u64)
        requires
            size_of_seq(self.roots_model()) <= u64::MAX,
        ensures
            total == size_of_seq(self.roots_model()),
    {
        let ghost s = view_seq(self.roots@);
        proof {
            lemma_view_seq(self.roots@);
        }
        let mut total: u64 = 0;
        let mut i: usize = 0;
        while i < self.roots.len()
            invariant
                i <= self.roots.len(),
                total == size_of_seq(s.take(i as int)),
            decreases self.roots.len() - i,
        {
            proof {
                assert(s.take(i as int + 1).drop_last() =~= s.take(i as int));
                assert(s.take(i as int + 1).last() == s[i as int]);
                assert(s.take(i as int) + s.skip(i as int) =~= s);
                lemma_size_of_seq_concat(s.take(i as int), s.skip(i as int));
                lemma_size_of_seq_skip_first(s, i as int);
            }
            let root_total = calculate_dir_size(&self.roots[i]);
            total = total + root_total;
            i = i + 1;
        }
        proof {
            assert(s.take(self.roots@.len() as int) =~= s);
        }
        total
    }

    /// Runs one cleaning pass over every root in sequence, records the
    /// caller's clock reading as the time of this clean, then re-measures
    /// and returns the tally together with the refreshed aggregate size.
    #[verifier::loop_isolation(false)]
    pub fn clean(&mut self, now_ms: u64) -> (r: (CleanOutcome, u64))
        requires
            roots_removed_files(old(self).roots_model()) <= u64::MAX,
            roots_removed_bytes(old(self).roots_model()) <= u64::MAX,
            size_of_seq(old(self).roots_model()) <= u64::MAX,
        ensures
            final(self).roots_model() == clean_roots(old(self).roots_model()),
            final(self).last_clean() == Some(now_ms),
            r.0.files_deleted == roots_removed_files(old(self).roots_model()),
            r.0.bytes_reclaimed == roots_removed_bytes(old(self).roots_model()),
            r.1 == size_of_seq(final(self).roots_model()),
            r.0.bytes_reclaimed + r.1 == size_of_seq(old(self).roots_model()),
    {
        let ghost s = view_seq(self.roots@);
        proof {
            lemma_view_seq(self.roots@);
        }
        let mut files: u64 = 0;
        let mut bytes: u64 = 0;
        let mut new_roots: Vec<FsNode> = Vec::new();
        let mut i: usize = 0;
        while i < self.roots.len()
            invariant
                i <= self.roots.len(),
                view_seq(new_roots@) == clean_roots(s.take(i as int)),
                files == roots_removed_files(s.take(i as int)),
                bytes == roots_removed_bytes(s.take(i as int)),
            decreases self.roots.len() - i,
        {
            let ghost prev = new_roots@;
            proof {
                assert(s.take(i as int + 1).drop_last() =~= s.take(i as int));
                assert(s.take(i as int + 1).last() == s[i as int]);
                assert(s.take(i as int + 1) + s.skip(i as int + 1) =~= s);
                lemma_roots_removed_files_concat(s.take(i as int + 1), s.skip(i as int + 1));
                lemma_roots_removed_bytes_concat(s.take(i as int + 1), s.skip(i as int + 1));
                assert(self.roots@[i as int]@ == s[i as int]);
            }
            let cleaned = clean_directory(&self.roots[i], &mut files, &mut bytes);
            new_roots.push(cleaned);
            proof {
                assert(new_roots@.drop_last() =~= prev);
                assert(new_roots@.last()@ == clean_root(s[i as int]));
                assert(view_seq(new_roots@) == clean_roots(s.take(i as int + 1)));
            }
            i = i + 1;
        }
        proof {
            assert(s.take(self.roots@.len() as int) =~= s);
        }
        self.roots = new_roots;
        self.last_clean_ms = Some(now_ms);
        proof {
            lemma_clean_roots_conserve(s);
        }
        let size_after = self.measure();
        (CleanOutcome { files_deleted: files, bytes_reclaimed: bytes }, size_after)
    }

    /// Elapsed milliseconds since the last completed clean at clock reading
    /// `now_ms`, or `None` if no clean has happened in this engine's
    /// lifetime.
    pub fn last_clean_age(&self, now_ms: u64) -> (age: Option<u64>)
        ensures
            age == age_spec(self.last_clean(), now_ms),
    {
        match self.last_clean_ms {
            None => None,
            Some(t) => if now_ms >= t {
                Some(now_ms - t)
            } else {
                Some(0)
            },
        }
    }
}

} // verus!
