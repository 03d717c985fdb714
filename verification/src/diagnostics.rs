//! Errors and warnings of files.
use crate::path::Path;
use crate::path_map::AtPath;
use crate::proto;
use crate::sum_tree::{by_key, SumTree};
use std::sync::Arc;
use vstd::prelude::*;

verus! {

/// How bad a diagnostic is.
#[derive(Copy, Clone, PartialEq, Eq, Debug, Structural)]
pub enum DiagnosticSeverity {
    Error,
    Warning,
    Information,
    Hint,
}

/// Something that a language server says of a range of a file.
#[derive(Debug, PartialEq, Eq)]
pub struct DiagnosticEntry {
    pub start_row: u32,
    pub start_column: u32,
    pub end_row: u32,
    pub end_column: u32,
    pub severity: DiagnosticSeverity,
    /// Whether the diagnostic stands for itself, and is no note to another one.
    pub is_primary: bool,
    pub message: String,
}

impl Clone for DiagnosticEntry {
    fn clone(&self) -> (r: Self)
        ensures
            r == *self,
    {
        DiagnosticEntry {
            start_row: self.start_row,
            start_column: self.start_column,
            end_row: self.end_row,
            end_column: self.end_column,
            severity: self.severity,
            is_primary: self.is_primary,
            message: self.message.clone(),
        }
    }
}

/// The number of primary diagnostics of a severity.
pub open spec fn primary_count(ds: Seq<DiagnosticEntry>, severity: DiagnosticSeverity) -> nat
    decreases ds.len(),
{
    if ds.len() == 0 {
        0
    } else {
        let d = ds.last();
        primary_count(ds.drop_last(), severity) + if d.is_primary && d.severity == severity {
            1nat
        } else {
            0nat
        }
    }
}

/// How many errors and warnings a file has.
#[derive(Copy, Clone, PartialEq, Eq, Debug, Structural)]
pub struct DiagnosticSummary {
    pub language_server_id: usize,
    pub error_count: usize,
    pub warning_count: usize,
}

impl Default for DiagnosticSummary {
    fn default() -> (r: Self)
        ensures
            r == (DiagnosticSummary { language_server_id: 0, error_count: 0, warning_count: 0 }),
    {
        DiagnosticSummary { language_server_id: 0, error_count: 0, warning_count: 0 }
    }
}

/// Whether a message tells of a summary.
pub open spec fn is_summary_message(
    summary: DiagnosticSummary,
    path: Seq<char>,
    m: proto::DiagnosticSummary,
) -> bool {
    &&& m.path@ == path
    &&& m.language_server_id == summary.language_server_id
    &&& m.error_count == summary.error_count as u32
    &&& m.warning_count == summary.warning_count as u32
}

impl DiagnosticSummary {
    /// Whether there is nothing to tell.
    pub open spec fn is_nothing(&self) -> bool {
        self.error_count == 0 && self.warning_count == 0
    }

    /// The summary of diagnostics.
    pub fn new(language_server_id: usize, diagnostics: &Vec<DiagnosticEntry>) -> (r: Self)
        ensures
            r.language_server_id == language_server_id,
            r.error_count == primary_count(diagnostics@, DiagnosticSeverity::Error),
            r.warning_count == primary_count(diagnostics@, DiagnosticSeverity::Warning),
    {
        let mut error_count: usize = 0;
        let mut warning_count: usize = 0;
        let ghost ds = diagnostics@;
        let mut i: usize = 0;
        assert(ds.take(0) =~= Seq::empty());
        while i < diagnostics.len()
            invariant
                i <= diagnostics.len(),
                ds == diagnostics@,
                error_count <= i,
                warning_count <= i,
                error_count == primary_count(ds.take(i as int), DiagnosticSeverity::Error),
                warning_count == primary_count(ds.take(i as int), DiagnosticSeverity::Warning),
            decreases diagnostics.len() - i,
        {
            assert(ds.take(i + 1).drop_last() =~= ds.take(i as int));
            let d = &diagnostics[i];
            if d.is_primary {
                match d.severity {
                    DiagnosticSeverity::Error => {
                        error_count = error_count + 1;
                    },
                    DiagnosticSeverity::Warning => {
                        warning_count = warning_count + 1;
                    },
                    _ => {},
                }
            }
            i = i + 1;
        }
        assert(ds.take(ds.len() as int) =~= ds);
        DiagnosticSummary { language_server_id, error_count, warning_count }
    }

    /// Whether there is nothing to tell.
    pub fn is_empty(&self) -> (r: bool)
        ensures
            r == self.is_nothing(),
    {
        self.error_count == 0 && self.warning_count == 0
    }

    /// The message that tells of the summary.
    pub fn to_proto(&self, path: &Path) -> (r: proto::DiagnosticSummary)
        ensures
            is_summary_message(*self, path@, r),
    {
        proto::DiagnosticSummary {
            path: path.to_text(),
            language_server_id: self.language_server_id as u64,
            error_count: self.error_count as u32,
            warning_count: self.warning_count as u32,
        }
    }

    /// The summary that a message tells of.
    pub fn from_proto(summary: &proto::DiagnosticSummary) -> (r: Self)
        ensures
            r.language_server_id == summary.language_server_id as usize,
            r.error_count == summary.error_count as usize,
            r.warning_count == summary.warning_count as usize,
    {
        DiagnosticSummary {
            language_server_id: summary.language_server_id as usize,
            error_count: summary.error_count as usize,
            warning_count: summary.warning_count as usize,
        }
    }
}

/// A message that tells of a summary gives the summary back, where its counts fit in the message.
pub proof fn law_summary_message_round_trip(
    summary: DiagnosticSummary,
    path: Seq<char>,
    m: proto::DiagnosticSummary,
)
    requires
        is_summary_message(summary, path, m),
        summary.error_count <= u32::MAX,
        summary.warning_count <= u32::MAX,
    ensures
        m.language_server_id as usize == summary.language_server_id,
        m.error_count as usize == summary.error_count,
        m.warning_count as usize == summary.warning_count,
{
}

/// Summaries by path.
pub type Summaries = Map<Seq<Seq<char>>, DiagnosticSummary>;

/// What is kept of the summaries of a worktree, by path.
pub open spec fn summaries_of(s: Seq<AtPath<DiagnosticSummary>>) -> Summaries {
    by_key(s).map_values(|a: AtPath<DiagnosticSummary>| a.value)
}

/// Summaries once that of a path is replaced: an empty one is not kept.
pub open spec fn with_summary(
    summaries: Summaries,
    path: Seq<Seq<char>>,
    summary: DiagnosticSummary,
) -> Summaries {
    if summary.is_nothing() {
        summaries.remove(path)
    } else {
        summaries.insert(path, summary)
    }
}

/// Replaces the summary of a path. An empty one is not kept. Gives back the one that was there.
pub fn set_summary(
    summaries: &mut SumTree<AtPath<DiagnosticSummary>>,
    path: Arc<Path>,
    summary: DiagnosticSummary,
) -> (r: Option<DiagnosticSummary>)
    requires
        old(summaries).wf(),
    ensures
        final(summaries).wf(),
        summaries_of(final(summaries)@) == with_summary(
            summaries_of(old(summaries)@),
            path.comps(),
            summary,
        ),
        r is Some <==> summaries_of(old(summaries)@).contains_key(path.comps()),
        r matches Some(s) ==> s == summaries_of(old(summaries)@)[path.comps()],
{
    let ghost before = summaries_of(summaries@);
    let removed = summaries.remove(&path);
    let ghost c = path.comps();
    assert(summaries_of(summaries@) =~= before.remove(c));
    if !summary.is_empty() {
        let _ = summaries.insert_or_replace(AtPath { path, value: summary });
        assert(summaries_of(summaries@) =~= before.insert(c, summary));
    }
    match removed {
        Some(a) => Some(a.value),
        None => None,
    }
}

/// Lists summaries in the order of their paths.
pub fn list_summaries(summaries: &SumTree<AtPath<DiagnosticSummary>>) -> (r: Vec<
    (Arc<Path>, DiagnosticSummary),
>)
    ensures
        r@.len() == summaries@.len(),
        forall|i: int|
            #![trigger r@[i]]
            0 <= i < r@.len() ==> r@[i] == (summaries@[i].path, summaries@[i].value),
{
    let mut r: Vec<(Arc<Path>, DiagnosticSummary)> = Vec::new();
    let mut i: usize = 0;
    while i < summaries.len()
        invariant
            i <= summaries@.len(),
            r@.len() == i,
            forall|k: int|
                #![trigger r@[k]]
                0 <= k < i ==> r@[k] == (summaries@[k].path, summaries@[k].value),
        decreases summaries@.len() - i,
    {
        let a = summaries.item(i);
        r.push((a.path.clone(), a.value));
        i = i + 1;
    }
    r
}

} // verus!
