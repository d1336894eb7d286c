//! From a snapshot of a tree to its report.

use crate::extension::is_allowed;
use crate::record::all_sound;
use crate::report::aggregate;
use crate::report::lemma_report_sound;
use crate::report::summaries_of;
use crate::report::AggregateReport;
use crate::walk::lemma_scan_sound;
use crate::walk::scan;
use crate::walk::survey;
use crate::walk::Node;
use crate::walk::Problem;
use vstd::prelude::*;

verus! {

/// What a run over a tree gives: the report, and what could not be read.
#[derive(Debug)]
pub struct Tally {
    pub report: AggregateReport,
    pub problems: Vec<Problem>,
}

/// Walks the tree under `root` and reports on the files that count. The
/// report holds no extension but those on the allow-list.
pub fn tally(root: &Node) -> (outcome: Tally)
    ensures
        outcome.report.deep_view() == summaries_of(scan(*root, Seq::empty()).files),
        outcome.problems.deep_view() == scan(*root, Seq::empty()).problems,
        forall|k: int|
            0 <= k < outcome.report.deep_view().len() ==> is_allowed(
                (#[trigger] outcome.report.deep_view()[k]).extension,
            ) && all_sound(outcome.report.deep_view()[k].top_files),
{
    let found = survey(root);
    proof {
        lemma_scan_sound(*root, Seq::empty());
        lemma_report_sound(found.files.deep_view());
    }
    Tally { report: aggregate(&found.files), problems: found.problems }
}

} // verus!
