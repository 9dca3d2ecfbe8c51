//! What a sync did, and the counts shown of it.

use crate::decide::Winner;
use crate::relpath::RelPath;
use crate::text::{cat, cat3, decimal, number, string_of};
use vstd::prelude::*;
use vstd::std_specs::convert::FromSpecImpl;

verus! {

/// A recorded conflict and where the losing version was preserved.
#[derive(Debug)]
pub struct ConflictRecord {
    /// The conflicted path.
    pub path: RelPath,
    /// Which side won.
    pub winner: Winner,
    /// Local path of the preserved (losing) copy.
    pub conflict_copy: String,
}

/// What [`ConflictRecord`] says.
pub struct ConflictView {
    /// The conflicted path.
    pub path: Seq<char>,
    /// Which side won.
    pub winner: Winner,
    /// Local path of the preserved (losing) copy.
    pub conflict_copy: Seq<char>,
}

impl View for ConflictRecord {
    type V = ConflictView;

    open spec fn view(&self) -> ConflictView {
        ConflictView {
            path: self.path@,
            winner: self.winner,
            conflict_copy: self.conflict_copy@,
        }
    }
}

/// What a sync did, classified by outcome (not by direction). Files and empty
/// directories are counted together: a newly-mirrored empty dir is `added`, a
/// pruned one is `removed`.
#[derive(Debug)]
pub struct SyncReport {
    /// Files/dirs that newly appeared (no prior baseline) on either side.
    pub added: Vec<RelPath>,
    /// Files/dirs that were deleted on either side.
    pub removed: Vec<RelPath>,
    /// Existing files whose content changed on either side.
    pub modified: Vec<RelPath>,
    /// Conflicts that were resolved (kept as records so the preserved copy can
    /// be logged).
    pub conflicts: Vec<ConflictRecord>,
}

/// What [`SyncReport`] says.
#[verifier::ext_equal]
pub struct ReportView {
    /// The paths that newly appeared.
    pub added: Seq<Seq<char>>,
    /// The paths that were deleted.
    pub removed: Seq<Seq<char>>,
    /// The paths whose content changed.
    pub modified: Seq<Seq<char>>,
    /// The conflicts that were resolved.
    pub conflicts: Seq<ConflictView>,
}

/// The texts of a sequence of paths.
pub open spec fn paths(v: Seq<RelPath>) -> Seq<Seq<char>> {
    v.map_values(|p: RelPath| p@)
}

impl View for SyncReport {
    type V = ReportView;

    open spec fn view(&self) -> ReportView {
        ReportView {
            added: paths(self.added@),
            removed: paths(self.removed@),
            modified: paths(self.modified@),
            conflicts: self.conflicts@.map_values(|c: ConflictRecord| c@),
        }
    }
}

impl ReportView {
    /// The report of a sync that did nothing.
    pub open spec fn blank() -> ReportView {
        ReportView { added: seq![], removed: seq![], modified: seq![], conflicts: seq![] }
    }

    /// The report with `path` written: modified if it had a baseline, else added.
    pub open spec fn wrote(self, path: Seq<char>, had_baseline: bool) -> ReportView {
        if had_baseline {
            ReportView { modified: self.modified.push(path), ..self }
        } else {
            ReportView { added: self.added.push(path), ..self }
        }
    }

    /// The report with `path` removed.
    pub open spec fn dropped(self, path: Seq<char>) -> ReportView {
        ReportView { removed: self.removed.push(path), ..self }
    }

    /// The report with a conflict resolved.
    pub open spec fn clashed(self, c: ConflictView) -> ReportView {
        ReportView { conflicts: self.conflicts.push(c), ..self }
    }
}

impl SyncReport {
    /// The report of a sync that did nothing.
    pub fn new() -> (out: SyncReport)
        ensures
            out@ == ReportView::blank(),
    {
        let out = SyncReport {
            added: Vec::new(),
            removed: Vec::new(),
            modified: Vec::new(),
            conflicts: Vec::new(),
        };
        assert(out@ =~= ReportView::blank());
        out
    }

    /// Whether the sync changed nothing at all.
    pub fn is_empty(&self) -> (out: bool)
        ensures
            out == (self@ == ReportView::blank()),
    {
        let out = self.added.len() == 0 && self.removed.len() == 0 && self.modified.len() == 0
            && self.conflicts.len() == 0;
        assert(self@.added.len() == self.added@.len());
        assert(self@.removed.len() == self.removed@.len());
        assert(self@.modified.len() == self.modified@.len());
        assert(self@.conflicts.len() == self.conflicts@.len());
        if out {
            assert(self@ =~= ReportView::blank());
        }
        out
    }

    /// Record a written file/dir as `added` (no baseline) or `modified`.
    pub fn record_write(&mut self, key: &RelPath, had_baseline: bool)
        ensures
            final(self)@ == old(self)@.wrote(key@, had_baseline),
    {
        if had_baseline {
            self.modified.push(key.clone());
        } else {
            self.added.push(key.clone());
        }
        assert(self@ =~= old(self)@.wrote(key@, had_baseline));
    }

    /// Record a removed file/dir.
    pub fn record_removal(&mut self, key: &RelPath)
        ensures
            final(self)@ == old(self)@.dropped(key@),
    {
        self.removed.push(key.clone());
        assert(self@ =~= old(self)@.dropped(key@));
    }

    /// Record a resolved conflict.
    pub fn record_conflict(&mut self, key: &RelPath, winner: Winner, conflict_copy: String)
        ensures
            final(self)@ == old(self)@.clashed(
                (ConflictView { path: key@, winner, conflict_copy: conflict_copy@ }),
            ),
    {
        let record = ConflictRecord { path: key.clone(), winner, conflict_copy };
        self.conflicts.push(record);
        assert(self@ =~= old(self)@.clashed(
            ConflictView { path: key@, winner, conflict_copy: conflict_copy@ },
        ));
    }
}

/// Compact counts for a sync run, suitable for status display and IPC. Rendered
/// as `+added -removed *modified ~conflicted`.
#[derive(Debug, Clone, Copy, PartialEq, Eq, Structural)]
pub struct SyncSummary {
    /// Files/dirs added.
    pub added: usize,
    /// Files/dirs removed.
    pub removed: usize,
    /// Files modified.
    pub modified: usize,
    /// Conflicts resolved.
    pub conflicted: usize,
}

impl SyncSummary {
    /// The counts as `+added -removed *modified ~conflicted`.
    pub open spec fn text(self) -> Seq<char> {
        "+"@ + decimal(self.added as nat) + " -"@ + decimal(self.removed as nat) + " *"@ + decimal(
            self.modified as nat,
        ) + " ~"@ + decimal(self.conflicted as nat)
    }

    /// The counts as `+added -removed *modified ~conflicted`.
    pub fn render(&self) -> (out: String)
        ensures
            out@ == self.text(),
    {
        let a = cat("+", count(self.added).as_str());
        let b = cat3(a.as_str(), " -", count(self.removed).as_str());
        let c = cat3(b.as_str(), " *", count(self.modified).as_str());
        cat3(c.as_str(), " ~", count(self.conflicted).as_str())
    }
}

/// A count in decimal digits.
pub fn count(n: usize) -> (out: String)
    ensures
        out@ == decimal(n as nat),
{
    let digits = number(n as u64);
    string_of(digits.as_slice())
}

impl From<&SyncReport> for SyncSummary {
    fn from(r: &SyncReport) -> (out: Self) {
        SyncSummary {
            added: r.added.len(),
            removed: r.removed.len(),
            modified: r.modified.len(),
            conflicted: r.conflicts.len(),
        }
    }
}

impl FromSpecImpl<&SyncReport> for SyncSummary {
    open spec fn obeys_from_spec() -> bool {
        true
    }

    open spec fn from_spec(r: &SyncReport) -> Self {
        SyncSummary {
            added: r.added.len(),
            removed: r.removed.len(),
            modified: r.modified.len(),
            conflicted: r.conflicts.len(),
        }
    }
}

/// A summary shows each count behind its own sign, in a fixed order.
pub proof fn law_summary_shows_every_count(s: SyncSummary)
    ensures
        s.text() == seq!['+'] + decimal(s.added as nat) + seq![' ', '-'] + decimal(
            s.removed as nat,
        ) + seq![' ', '*'] + decimal(s.modified as nat) + seq![' ', '~'] + decimal(
            s.conflicted as nat,
        ),
{
    reveal_strlit("+");
    reveal_strlit(" -");
    reveal_strlit(" *");
    reveal_strlit(" ~");
    assert("+"@ =~= seq!['+']);
    assert(" -"@ =~= seq![' ', '-']);
    assert(" *"@ =~= seq![' ', '*']);
    assert(" ~"@ =~= seq![' ', '~']);
}

/// A report that something was added to is longer by it, and what it held stays.
pub proof fn law_reports_only_grow(r: ReportView, path: Seq<char>, known: bool, c: ConflictView)
    ensures
        ({
            let w = r.wrote(path, known);
            &&& known ==> w.modified == r.modified.push(path) && w.added == r.added
            &&& !known ==> w.added == r.added.push(path) && w.modified == r.modified
            &&& w.removed == r.removed && w.conflicts == r.conflicts
        }),
        r.dropped(path) == (ReportView { removed: r.removed.push(path), ..r }),
        r.clashed(c) == (ReportView { conflicts: r.conflicts.push(c), ..r }),
{
}

} // verus!
