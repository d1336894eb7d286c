//! The walk over a directory tree. The tree is handed over as a snapshot:
//! for every directory its rules and what listing it gave, for every file
//! what reading it gave. The walk decides entry by entry what is skipped,
//! what is descended into and what is counted, and notes what it wanted and
//! could not get.

use crate::extension::classification;
use crate::extension::classify;
use crate::order::lemma_last_item;
use crate::order::lemma_same_length;
use crate::record::all_sound;
use crate::record::FileRecord;
use crate::record::RecordView;
use crate::rules::chain_sources;
use crate::rules::chain_verdict;
use crate::rules::judge;
use crate::rules::RuleSet;
use crate::rules::RuleSource;
use crate::rules::Verdict;
use vstd::prelude::*;

verus! {

/// One entry of a directory tree, as it was found.
pub enum Node {
    /// Anything that is no directory. `lines` is the number of lines that
    /// were read from it, or the reason why it could not be read.
    File { path: String, lines: Result<usize, String> },
    /// A directory, with the rules of its own pattern file. `entries` is
    /// what its listing gave, or the reason why it could not be listed.
    Dir { path: String, rules: RuleSet, entries: Result<Vec<Node>, String> },
}

impl Node {
    /// The path of the entry.
    pub open spec fn path(self) -> Seq<char> {
        match self {
            Node::File { path, .. } => path@,
            Node::Dir { path, .. } => path@,
        }
    }

    /// Whether the entry is a directory.
    pub open spec fn is_dir(self) -> bool {
        self is Dir
    }

    /// The number of lines with which a file enters the tally: those read,
    /// or none where it could not be read.
    pub open spec fn measured(self) -> nat {
        match self {
            Node::File { lines: Ok(n), .. } => n as nat,
            _ => 0,
        }
    }

    /// Why the entry could not be read, if it could not.
    pub open spec fn failure(self) -> Option<Seq<char>> {
        match self {
            Node::File { lines: Err(reason), .. } => Some(reason@),
            Node::Dir { entries: Err(reason), .. } => Some(reason@),
            _ => None,
        }
    }
}

/// What is done with one entry, as plain values.
pub ghost enum Plan {
    /// The entry adds nothing.
    Skip,
    /// The entry is a directory to walk.
    Descend,
    /// The entry is a file to count under the extension given.
    Measure(Seq<char>),
}

/// What is done with one entry.
#[derive(Debug)]
pub enum Step {
    /// The entry adds nothing.
    Skip,
    /// The entry is a directory to walk.
    Descend,
    /// The entry is a file to count under `extension`.
    Measure { extension: String },
}

impl View for Step {
    type V = Plan;

    open spec fn view(&self) -> Plan {
        match self {
            Step::Skip => Plan::Skip,
            Step::Descend => Plan::Descend,
            Step::Measure { extension } => Plan::Measure(extension@),
        }
    }
}

/// The rule of the walk for one entry. An excluded entry is skipped, file
/// or directory. Any other directory is walked. Any other file is counted
/// if its extension is on the allow-list and skipped if not.
pub open spec fn plan_for(verdict: Verdict, path: Seq<char>, is_dir: bool) -> Plan {
    if verdict == Verdict::Excluded {
        Plan::Skip
    } else if is_dir {
        Plan::Descend
    } else {
        match classification(path) {
            Some(extension) => Plan::Measure(extension),
            None => Plan::Skip,
        }
    }
}

/// The plan for `entry` under the rules `chain` of its directory and those
/// above it.
pub open spec fn plan_of(entry: Node, chain: Seq<Option<RuleSource>>) -> Plan {
    plan_for(chain_verdict(chain, entry.path(), entry.is_dir()), entry.path(), entry.is_dir())
}

/// Applies the rule of the walk to one entry, given what the rules said of
/// it.
pub fn plan_entry(verdict: Verdict, path: &str, is_dir: bool) -> (step: Step)
    ensures
        step@ == plan_for(verdict, path@, is_dir),
{
    match verdict {
        Verdict::Excluded => Step::Skip,
        _ => {
            if is_dir {
                Step::Descend
            } else {
                match classify(path) {
                    Some(extension) => Step::Measure { extension },
                    None => Step::Skip,
                }
            }
        },
    }
}

/// Decides what is done with the entry at `path`, found in the directory
/// whose rules end `chain`.
pub fn entry_step(chain: &Vec<&RuleSet>, path: &str, is_dir: bool) -> (step: Step)
    ensures
        step@ == plan_for(
            chain_verdict(chain_sources(chain@), path@, is_dir),
            path@,
            is_dir,
        ),
        chain_verdict(chain_sources(chain@), path@, is_dir) == Verdict::Excluded ==> step@
            == Plan::Skip,
{
    plan_entry(judge(chain, path, is_dir), path, is_dir)
}

/// Something the walk wanted and could not get, as plain values.
pub ghost struct ProblemView {
    /// The path of the directory or file.
    pub path: Seq<char>,
    /// Why it could not be read.
    pub reason: Seq<char>,
}

/// A directory that could not be listed or a file that could not be read,
/// though the walk had use for it.
#[derive(Debug)]
pub struct Problem {
    pub path: String,
    pub reason: String,
}

impl DeepView for Problem {
    type V = ProblemView;

    open spec fn deep_view(&self) -> ProblemView {
        ProblemView { path: self.path@, reason: self.reason@ }
    }
}

/// What a walk gives, as plain values.
pub ghost struct SurveyView {
    /// The files that count, in the order in which they were met.
    pub files: Seq<RecordView>,
    /// What could not be read, in the order in which it was met.
    pub problems: Seq<ProblemView>,
}

impl SurveyView {
    /// The survey of nothing.
    pub open spec fn nothing() -> SurveyView {
        SurveyView { files: Seq::empty(), problems: Seq::empty() }
    }

    /// This survey followed by `next`.
    pub open spec fn followed_by(self, next: SurveyView) -> SurveyView {
        SurveyView { files: self.files + next.files, problems: self.problems + next.problems }
    }
}

/// What a walk gives: the files that count, and what could not be read.
#[derive(Debug)]
pub struct Survey {
    pub files: Vec<FileRecord>,
    pub problems: Vec<Problem>,
}

impl DeepView for Survey {
    type V = SurveyView;

    open spec fn deep_view(&self) -> SurveyView {
        SurveyView { files: self.files.deep_view(), problems: self.problems.deep_view() }
    }
}

/// What walking the directory `node` gives, where `outer` are the rules of
/// the directories above it, outermost first. A directory that could not be
/// listed gives that problem and no file. Anything but a directory gives
/// nothing.
pub open spec fn scan(node: Node, outer: Seq<Option<RuleSource>>) -> SurveyView
    decreases node, 0nat,
{
    match node {
        Node::Dir { rules, entries: Ok(entries), .. } => scan_entries(
            entries@,
            entries@.len(),
            outer.push(rules.source()),
        ),
        Node::Dir { path, entries: Err(reason), .. } => SurveyView {
            files: Seq::empty(),
            problems: seq![ProblemView { path: path@, reason: reason@ }],
        },
        Node::File { .. } => SurveyView::nothing(),
    }
}

/// What the first `upto` of `entries` give, in their order, under the rules
/// `chain` of their directory and those above it.
pub open spec fn scan_entries(entries: Seq<Node>, upto: nat, chain: Seq<Option<RuleSource>>) -> SurveyView
    decreases entries, upto,
{
    if upto == 0 || upto > entries.len() {
        SurveyView::nothing()
    } else {
        scan_entries(entries, (upto - 1) as nat, chain).followed_by(scan_entry(entries[upto - 1], chain))
    }
}

/// What one entry gives under the rules `chain` of its directory and those
/// above it. A skipped entry gives nothing. A directory gives what walking
/// it gives. A counted file gives one record, with the lines read from it
/// or with none where it could not be read, which is a problem too.
pub open spec fn scan_entry(entry: Node, chain: Seq<Option<RuleSource>>) -> SurveyView
    decreases entry, 1nat,
{
    match plan_of(entry, chain) {
        Plan::Skip => SurveyView::nothing(),
        Plan::Descend => scan(entry, chain),
        Plan::Measure(extension) => SurveyView {
            files: seq![
                RecordView { path: entry.path(), line_count: entry.measured(), extension },
            ],
            problems: match entry.failure() {
                Some(reason) => seq![ProblemView { path: entry.path(), reason }],
                None => Seq::empty(),
            },
        },
    }
}

/// The survey with what walking the directory `node` gives added at its
/// end.
fn walk<'a>(node: &'a Node, outer: &Vec<&'a RuleSet>, survey: &mut Survey)
    ensures
        final(survey).deep_view() == old(survey).deep_view().followed_by(
            scan(*node, chain_sources(outer@)),
        ),
    decreases *node,
{
    let ghost start = survey.deep_view();
    match node {
        Node::File { .. } => {},
        Node::Dir { path, entries: Err(reason), .. } => {
            survey.problems.push(Problem { path: path.clone(), reason: reason.clone() });
            assert(survey.deep_view().problems =~= start.problems + seq![
                ProblemView { path: path@, reason: reason@ },
            ]);
        },
        Node::Dir { rules, entries: Ok(entries), .. } => {
            let mut chain: Vec<&RuleSet> = Vec::new();
            let mut k: usize = 0;
            while k < outer.len()
                invariant
                    k <= outer.len(),
                    chain@ == outer@.take(k as int),
                decreases outer.len() - k,
            {
                chain.push(outer[k]);
                k = k + 1;
            }
            chain.push(rules);
            let ghost sources = chain_sources(chain@);
            proof {
                assert(sources =~= chain_sources(outer@).push(rules.source()));
            }
            let mut i: usize = 0;
            while i < entries.len()
                invariant
                    i <= entries.len(),
                    sources == chain_sources(chain@),
                    survey.deep_view() == start.followed_by(scan_entries(entries@, i as nat, sources)),
                    *node matches Node::Dir { entries: Ok(listed), .. } && listed == entries,
                decreases entries.len() - i,
            {
                let ghost before = survey.deep_view();
                let ghost sofar = scan_entries(entries@, i as nat, sources);
                let ghost added = scan_entry(entries@[i as int], sources);
                let entry = &entries[i];
                match entry {
                    Node::File { path, lines } => {
                        match entry_step(&chain, path.as_str(), false) {
                            Step::Measure { extension } => {
                                match lines {
                                    Ok(n) => {
                                        survey.files.push(
                                            FileRecord {
                                                path: path.clone(),
                                                line_count: *n,
                                                extension,
                                            },
                                        );
                                    },
                                    Err(reason) => {
                                        survey.files.push(
                                            FileRecord {
                                                path: path.clone(),
                                                line_count: 0,
                                                extension,
                                            },
                                        );
                                        survey.problems.push(
                                            Problem { path: path.clone(), reason: reason.clone() },
                                        );
                                    },
                                }
                            },
                            _ => {},
                        }
                    },
                    Node::Dir { path, .. } => {
                        match entry_step(&chain, path.as_str(), true) {
                            Step::Descend => {
                                walk(entry, &chain, survey);
                            },
                            _ => {},
                        }
                    },
                }
                proof {
                    assert(survey.deep_view().files =~= before.files + added.files);
                    assert(survey.deep_view().problems =~= before.problems + added.problems);
                    assert(survey.deep_view().files =~= start.files + (sofar.files + added.files));
                    assert(survey.deep_view().problems =~= start.problems + (sofar.problems
                        + added.problems));
                }
                i = i + 1;
            }
        },
    }
}

/// Walks the tree under `root`. The survey lists every file that is reached
/// by descending through directories that no rule excludes, that is not
/// excluded itself, and whose extension is on the allow-list; a file that
/// could not be read is listed with no lines. It names each such file, and
/// each directory on the way that could not be listed. A root that is no
/// directory gives nothing.
pub fn survey(root: &Node) -> (survey: Survey)
    ensures
        survey.deep_view() == scan(*root, Seq::empty()),
        all_sound(survey.deep_view().files),
{
    let outer: Vec<&RuleSet> = Vec::new();
    let mut survey = Survey { files: Vec::new(), problems: Vec::new() };
    assert(chain_sources(outer@) =~= Seq::empty());
    walk(root, &outer, &mut survey);
    proof {
        lemma_scan_sound(*root, Seq::empty());
    }
    survey
}

/// Lists the files that count in the tree under `root`.
pub fn list_files(root: &Node) -> (files: Vec<FileRecord>)
    ensures
        files.deep_view() == scan(*root, Seq::empty()).files,
        all_sound(files.deep_view()),
{
    survey(root).files
}

/// A walk lists nothing but sound records: no file with another extension
/// than those on the allow-list, and no directory.
pub proof fn lemma_scan_sound(node: Node, outer: Seq<Option<RuleSource>>)
    ensures
        all_sound(scan(node, outer).files),
    decreases node, 0nat,
{
    match node {
        Node::Dir { rules, entries: Ok(entries), .. } => {
            lemma_scan_entries_sound(entries@, entries@.len(), outer.push(rules.source()));
        },
        _ => {},
    }
}

/// The first `upto` entries of a directory give nothing but sound records.
pub proof fn lemma_scan_entries_sound(entries: Seq<Node>, upto: nat, chain: Seq<Option<RuleSource>>)
    ensures
        all_sound(scan_entries(entries, upto, chain).files),
    decreases entries, upto,
{
    if !(upto == 0 || upto > entries.len()) {
        lemma_scan_entries_sound(entries, (upto - 1) as nat, chain);
        lemma_scan_entry_sound(entries[upto - 1], chain);
    }
}

/// One entry gives nothing but sound records.
pub proof fn lemma_scan_entry_sound(entry: Node, chain: Seq<Option<RuleSource>>)
    ensures
        all_sound(scan_entry(entry, chain).files),
    decreases entry, 1nat,
{
    match plan_of(entry, chain) {
        Plan::Descend => {
            lemma_scan_sound(entry, chain);
        },
        _ => {},
    }
}

/// An entry that the rules exclude adds no record and no problem, whatever
/// lies in it or below it.
pub proof fn lemma_excluded_adds_nothing(entry: Node, chain: Seq<Option<RuleSource>>)
    requires
        chain_verdict(chain, entry.path(), entry.is_dir()) == Verdict::Excluded,
    ensures
        scan_entry(entry, chain) == SurveyView::nothing(),
{
}

/// A file that is not excluded and whose extension is on the allow-list
/// adds exactly one record: its path, its extension, and the lines read
/// from it, or none where it could not be read.
pub proof fn lemma_counted_file(entry: Node, chain: Seq<Option<RuleSource>>)
    requires
        entry is File,
        chain_verdict(chain, entry.path(), false) != Verdict::Excluded,
        classification(entry.path()) is Some,
    ensures
        scan_entry(entry, chain).files == seq![
            RecordView {
                path: entry.path(),
                line_count: entry.measured(),
                extension: classification(entry.path())->0,
            },
        ],
{
}

/// What the first entries of a directory give depends on those entries
/// alone.
pub proof fn lemma_scan_entries_prefix(
    entries: Seq<Node>,
    others: Seq<Node>,
    upto: nat,
    chain: Seq<Option<RuleSource>>,
)
    requires
        upto <= entries.len(),
        upto <= others.len(),
        forall|k: int| 0 <= k < upto ==> entries[k] == others[k],
    ensures
        scan_entries(entries, upto, chain) == scan_entries(others, upto, chain),
    decreases upto,
{
    if upto > 0 {
        lemma_scan_entries_prefix(entries, others, (upto - 1) as nat, chain);
    }
}

/// A snapshot may leave out what the walk skips: without a skipped entry a
/// directory gives the same records and problems, in the same order.
pub proof fn lemma_skipped_entry_is_free(entries: Seq<Node>, at: int, chain: Seq<Option<RuleSource>>)
    requires
        0 <= at < entries.len(),
        plan_of(entries[at], chain) == Plan::Skip,
    ensures
        scan_entries(entries.remove(at), (entries.len() - 1) as nat, chain) == scan_entries(
            entries,
            entries.len(),
            chain,
        ),
    decreases entries.len(),
{
    let count = entries.len();
    let shorter = entries.drop_last();
    let rest = entries.remove(at);
    lemma_scan_entries_prefix(entries, shorter, (count - 1) as nat, chain);
    if at == count - 1 {
        assert(scan_entry(entries[at], chain) == SurveyView::nothing());
    } else {
        lemma_skipped_entry_is_free(shorter, at, chain);
        lemma_scan_entries_prefix(rest, shorter.remove(at), (count - 2) as nat, chain);
    }
}

/// What a directory gives is what one entry gives and what the directory
/// gives without that entry, wherever the entry stands.
pub proof fn lemma_scan_entries_remove(entries: Seq<Node>, at: int, chain: Seq<Option<RuleSource>>)
    requires
        0 <= at < entries.len(),
    ensures
        scan_entries(entries, entries.len(), chain).files.to_multiset() == scan_entries(
            entries.remove(at),
            (entries.len() - 1) as nat,
            chain,
        ).files.to_multiset().add(scan_entry(entries[at], chain).files.to_multiset()),
        scan_entries(entries, entries.len(), chain).problems.to_multiset() == scan_entries(
            entries.remove(at),
            (entries.len() - 1) as nat,
            chain,
        ).problems.to_multiset().add(scan_entry(entries[at], chain).problems.to_multiset()),
    decreases entries.len(),
{
    broadcast use vstd::multiset::group_multiset_axioms;
    broadcast use vstd::seq_lib::lemma_multiset_commutative;

    let count = entries.len();
    let shorter = entries.drop_last();
    let rest = entries.remove(at);
    lemma_scan_entries_prefix(entries, shorter, (count - 1) as nat, chain);
    if at < count - 1 {
        lemma_scan_entries_remove(shorter, at, chain);
        lemma_scan_entries_prefix(rest, shorter.remove(at), (count - 2) as nat, chain);
    }
}

/// Listing the entries of a directory in another order gives the same
/// records and the same problems, each as often: the entries are
/// independent of each other.
pub proof fn lemma_entries_order_free(first: Seq<Node>, second: Seq<Node>, chain: Seq<Option<RuleSource>>)
    requires
        first.to_multiset() == second.to_multiset(),
    ensures
        scan_entries(first, first.len(), chain).files.to_multiset() == scan_entries(
            second,
            second.len(),
            chain,
        ).files.to_multiset(),
        scan_entries(first, first.len(), chain).problems.to_multiset() == scan_entries(
            second,
            second.len(),
            chain,
        ).problems.to_multiset(),
    decreases first.len(),
{
    broadcast use vstd::multiset::group_multiset_axioms;
    broadcast use vstd::seq_lib::lemma_multiset_commutative;

    lemma_same_length(first, second);
    if first.len() > 0 {
        let at = lemma_last_item(first, second);
        let shorter = first.drop_last();
        lemma_entries_order_free(shorter, second.remove(at), chain);
        lemma_scan_entries_remove(second, at, chain);
        lemma_scan_entries_prefix(first, shorter, shorter.len(), chain);
    }
}

} // verus!
