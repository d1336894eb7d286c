//! Snapshots that differ in the order of their entries only. Entries of one
//! directory may be listed, and read, in any order; this module states that
//! the outcome is the same but for order.

use crate::order::counts_of;
use crate::order::lemma_report_order_free;
use crate::order::same_items;
use crate::report::find_summary;
use crate::report::summaries_of;
use crate::rules::RuleSource;
use crate::walk::lemma_entries_order_free;
use crate::walk::plan_of;
use crate::walk::scan;
use crate::walk::scan_entries;
use crate::walk::scan_entry;
use crate::walk::Node;
use crate::walk::Plan;
use vstd::prelude::*;

verus! {

/// Whether two snapshots show the same tree: the same file with the same
/// outcome of reading it, or the same directory with the same rules and
/// with entries that are alike but for their order.
pub open spec fn alike(first: Node, second: Node) -> bool
    decreases first, 0nat,
{
    match (first, second) {
        (
            Node::File { path: here, lines: read_here },
            Node::File { path: there, lines: read_there },
        ) => {
            &&& here@ == there@
            &&& match (read_here, read_there) {
                (Ok(count_here), Ok(count_there)) => count_here == count_there,
                (Err(why_here), Err(why_there)) => why_here@ == why_there@,
                _ => false,
            }
        },
        (
            Node::Dir { path: here, rules: rules_here, entries: listed_here },
            Node::Dir { path: there, rules: rules_there, entries: listed_there },
        ) => {
            &&& here@ == there@
            &&& rules_here.source() == rules_there.source()
            &&& match (listed_here, listed_there) {
                (Ok(entries_here), Ok(entries_there)) => alike_entries(
                    entries_here@,
                    entries_there@,
                ),
                (Err(why_here), Err(why_there)) => why_here@ == why_there@,
                _ => false,
            }
        },
        _ => false,
    }
}

/// Whether `second` holds, in some order, entries that are alike one by one
/// to those of `first`.
pub open spec fn alike_entries(first: Seq<Node>, second: Seq<Node>) -> bool
    decreases first, 1nat,
{
    exists|ordered: Seq<Node>| #[trigger]
        same_items(ordered, second) && alike_in_order(first, ordered)
}

/// Whether the entries of `second` are alike one by one, in order, to those
/// of `first`.
pub open spec fn alike_in_order(first: Seq<Node>, second: Seq<Node>) -> bool
    decreases first, 0nat,
{
    &&& first.len() == second.len()
    &&& forall|k: int| 0 <= k < first.len() ==> alike(#[trigger] first[k], second[k])
}

/// Walking snapshots that are alike gives the same records and the same
/// problems, each as often, in whatever order.
pub proof fn lemma_alike_scan(first: Node, second: Node, outer: Seq<Option<RuleSource>>)
    requires
        alike(first, second),
    ensures
        same_items(scan(first, outer).files, scan(second, outer).files),
        same_items(scan(first, outer).problems, scan(second, outer).problems),
    decreases first, 0nat,
{
    match (first, second) {
        (
            Node::Dir { rules, entries: Ok(entries_here), .. },
            Node::Dir { entries: Ok(entries_there), .. },
        ) => {
            let chain = outer.push(rules.source());
            let ordered = choose|ordered: Seq<Node>| #[trigger]
                same_items(ordered, entries_there@) && alike_in_order(entries_here@, ordered);
            lemma_alike_in_order(entries_here@, ordered, entries_here@.len(), chain);
            lemma_entries_order_free(ordered, entries_there@, chain);
        },
        _ => {},
    }
}

/// Entries that are alike one by one give the same records and problems,
/// each as often.
pub proof fn lemma_alike_in_order(
    first: Seq<Node>,
    second: Seq<Node>,
    upto: nat,
    chain: Seq<Option<RuleSource>>,
)
    requires
        alike_in_order(first, second),
        upto <= first.len(),
    ensures
        same_items(scan_entries(first, upto, chain).files, scan_entries(second, upto, chain).files),
        same_items(
            scan_entries(first, upto, chain).problems,
            scan_entries(second, upto, chain).problems,
        ),
    decreases first, upto,
{
    broadcast use vstd::multiset::group_multiset_axioms;
    broadcast use vstd::seq_lib::lemma_multiset_commutative;

    if upto > 0 {
        lemma_alike_in_order(first, second, (upto - 1) as nat, chain);
        lemma_alike_entry(first[upto - 1], second[upto - 1], chain);
    }
}

/// Two entries that are alike give the same records and problems, each as
/// often.
pub proof fn lemma_alike_entry(first: Node, second: Node, chain: Seq<Option<RuleSource>>)
    requires
        alike(first, second),
    ensures
        same_items(scan_entry(first, chain).files, scan_entry(second, chain).files),
        same_items(scan_entry(first, chain).problems, scan_entry(second, chain).problems),
    decreases first, 1nat,
{
    assert(first.path() == second.path());
    assert(first.is_dir() == second.is_dir());
    assert(first.measured() == second.measured());
    assert(first.failure() == second.failure());
    match plan_of(first, chain) {
        Plan::Descend => {
            lemma_alike_scan(first, second, chain);
        },
        _ => {},
    }
}

/// Reports on snapshots that are alike agree: they hold the same
/// extensions, for each the same total, and in each ranking the same line
/// counts at the same ranks. Files with equal counts may stand in another
/// order; nothing else depends on the order in which a tree was read.
pub proof fn lemma_alike_report(first: Node, second: Node, extension: Seq<char>)
    requires
        alike(first, second),
    ensures
        match (
            find_summary(summaries_of(scan(first, Seq::empty()).files), extension),
            find_summary(summaries_of(scan(second, Seq::empty()).files), extension),
        ) {
            (Some(one), Some(other)) => one.total == other.total && counts_of(one.top_files)
                == counts_of(other.top_files),
            (None, None) => true,
            _ => false,
        },
{
    lemma_alike_scan(first, second, Seq::empty());
    lemma_report_order_free(
        scan(first, Seq::empty()).files,
        scan(second, Seq::empty()).files,
        extension,
    );
}

/// Every snapshot is alike to itself.
pub proof fn lemma_alike_itself(node: Node)
    ensures
        alike(node, node),
    decreases node, 0nat,
{
    match node {
        Node::Dir { entries: Ok(v), .. } => {
            lemma_alike_themselves(v@, v@.len());
            assert(same_items(v@, v@) && alike_in_order(v@, v@));
        },
        _ => {},
    }
}

/// The first entries of a directory are alike to themselves.
pub proof fn lemma_alike_themselves(entries: Seq<Node>, upto: nat)
    requires
        upto <= entries.len(),
    ensures
        forall|k: int| 0 <= k < upto ==> alike(#[trigger] entries[k], entries[k]),
    decreases entries, upto,
{
    if upto > 0 {
        lemma_alike_themselves(entries, (upto - 1) as nat);
        lemma_alike_itself(entries[upto - 1]);
    }
}

/// Two snapshots of one directory that hold the same entries in another
/// order are alike.
pub proof fn lemma_reordered_is_alike(first: Node, second: Node)
    requires
        first matches Node::Dir { path: here, rules: rules_here, entries: Ok(entries_here) }
            && second matches Node::Dir {
            path: there,
            rules: rules_there,
            entries: Ok(entries_there),
        } && here@ == there@ && rules_here.source() == rules_there.source() && same_items(
            entries_here@,
            entries_there@,
        ),
    ensures
        alike(first, second),
{
    match (first, second) {
        (Node::Dir { entries: Ok(entries_here), .. }, Node::Dir { entries: Ok(entries_there), .. }) => {
            lemma_alike_themselves(entries_here@, entries_here@.len());
            assert(same_items(entries_here@, entries_there@) && alike_in_order(
                entries_here@,
                entries_here@,
            ));
        },
        _ => {},
    }
}

} // verus!
