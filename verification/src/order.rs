//! Laws on order. Files may be met in any order: siblings are independent
//! of each other. What a report says of totals, of the extensions met and of
//! the line counts in its rankings depends on which files were met, not on
//! the order in which they came.

use crate::record::RecordView;
use crate::report::count_of;
use crate::report::extensions_of;
use crate::report::find_summary;
use crate::report::leading;
use crate::report::lemma_extensions;
use crate::report::lemma_matching;
use crate::report::lemma_ranked;
use crate::report::lemma_ranked_permutes;
use crate::report::lemma_report_lookup;
use crate::report::matching;
use crate::report::ranked;
use crate::report::share;
use crate::report::summaries_of;
use crate::report::top_of;
use crate::report::total_of;
use crate::report::TOP_COUNT;
use vstd::prelude::*;
use vstd::relations::sorted_by;
use vstd::relations::total_ordering;
use vstd::seq_lib::lemma_sorted_unique;

verus! {

/// Whether two collections hold the same items, each as often, in whatever
/// order.
pub open spec fn same_items<T>(first: Seq<T>, second: Seq<T>) -> bool {
    first.to_multiset() == second.to_multiset()
}

/// The line counts of `files`, in their order.
pub open spec fn counts_of(files: Seq<RecordView>) -> Seq<nat> {
    Seq::new(files.len(), |k: int| files[k].line_count)
}

/// Where two collections hold the same items, the last item of the first
/// stands somewhere in the second, and without it the two still hold the
/// same items.
pub proof fn lemma_last_item<T>(first: Seq<T>, second: Seq<T>) -> (at: int)
    requires
        same_items(first, second),
        first.len() > 0,
    ensures
        0 <= at < second.len(),
        second[at] == first.last(),
        same_items(first.drop_last(), second.remove(at)),
{
    broadcast use vstd::multiset::group_multiset_axioms;
    broadcast use vstd::seq_lib::group_to_multiset_ensures;

    let last = first.last();
    assert(first.contains(last));
    assert(first.to_multiset().count(last) > 0);
    assert(second.contains(last));
    let at = choose|at: int| 0 <= at < second.len() && second[at] == last;
    assert(first.drop_last() =~= first.remove(first.len() - 1));
    assert(first.drop_last().to_multiset() =~= second.remove(at).to_multiset());
    at
}

/// Collections that hold the same items are equally long.
pub proof fn lemma_same_length<T>(first: Seq<T>, second: Seq<T>)
    requires
        same_items(first, second),
    ensures
        first.len() == second.len(),
{
    broadcast use vstd::seq_lib::group_to_multiset_ensures;

    assert(first.to_multiset().len() == first.len());
    assert(second.to_multiset().len() == second.len());
}

/// A total is the total without one file, and that file's share.
pub proof fn lemma_total_remove(files: Seq<RecordView>, at: int, extension: Seq<char>)
    requires
        0 <= at < files.len(),
    ensures
        total_of(files, extension) == total_of(files.remove(at), extension) + share(
            files[at],
            extension,
        ),
    decreases files.len(),
{
    if at == files.len() - 1 {
        assert(files.remove(at) =~= files.drop_last());
    } else {
        lemma_total_remove(files.drop_last(), at, extension);
        assert(files.remove(at).drop_last() =~= files.drop_last().remove(at));
    }
}

/// The total of an extension does not depend on the order of the files.
pub proof fn lemma_total_order_free(first: Seq<RecordView>, second: Seq<RecordView>, extension: Seq<char>)
    requires
        same_items(first, second),
    ensures
        total_of(first, extension) == total_of(second, extension),
    decreases first.len(),
{
    lemma_same_length(first, second);
    if first.len() > 0 {
        let at = lemma_last_item(first, second);
        lemma_total_order_free(first.drop_last(), second.remove(at), extension);
        lemma_total_remove(second, at, extension);
    }
}

/// The files of an extension do not depend on the order of the files, but
/// for their own order.
pub proof fn lemma_matching_order_free(
    first: Seq<RecordView>,
    second: Seq<RecordView>,
    extension: Seq<char>,
)
    requires
        same_items(first, second),
    ensures
        same_items(matching(first, extension), matching(second, extension)),
        count_of(first, extension) == count_of(second, extension),
{
    lemma_matching(first, extension);
    lemma_matching(second, extension);
    lemma_same_length(matching(first, extension), matching(second, extension));
}

/// Which extensions a report holds does not depend on the order of the
/// files.
pub proof fn lemma_extensions_order_free(
    first: Seq<RecordView>,
    second: Seq<RecordView>,
    extension: Seq<char>,
)
    requires
        same_items(first, second),
    ensures
        extensions_of(first).contains(extension) == extensions_of(second).contains(extension),
        extensions_of(first).len() == extensions_of(second).len(),
{
    lemma_extensions(first);
    lemma_extensions(second);
    lemma_matching_order_free(first, second, extension);
    assert(extensions_of(first).to_set() =~= extensions_of(second).to_set()) by {
        assert forall|e: Seq<char>|
            extensions_of(first).contains(e) == extensions_of(second).contains(e) by {
            lemma_matching_order_free(first, second, e);
        }
    }
    extensions_of(first).unique_seq_to_set();
    extensions_of(second).unique_seq_to_set();
}

/// The line counts of collections that hold the same files are the same
/// counts, each as often.
pub proof fn lemma_counts_order_free(first: Seq<RecordView>, second: Seq<RecordView>)
    requires
        same_items(first, second),
    ensures
        same_items(counts_of(first), counts_of(second)),
    decreases first.len(),
{
    broadcast use vstd::multiset::group_multiset_axioms;
    broadcast use vstd::seq_lib::group_to_multiset_ensures;

    lemma_same_length(first, second);
    if first.len() == 0 {
        assert(counts_of(first) =~= counts_of(second));
    } else {
        let at = lemma_last_item(first, second);
        lemma_counts_order_free(first.drop_last(), second.remove(at));
        let lines = first.last().line_count;
        assert(counts_of(first) =~= counts_of(first.drop_last()).push(lines));
        assert(counts_of(second.remove(at)) =~= counts_of(second).remove(at));
        assert(counts_of(second)[at] == lines);
        assert(counts_of(second).to_multiset() =~= counts_of(second).remove(at).to_multiset().insert(
            lines,
        ));
    }
}

/// The line counts along the ranking of an extension do not depend on the
/// order of the files: two files with equal counts may change places,
/// nothing else.
pub proof fn lemma_ranking_order_free(
    first: Seq<RecordView>,
    second: Seq<RecordView>,
    extension: Seq<char>,
)
    requires
        same_items(first, second),
    ensures
        counts_of(top_of(first, extension)) == counts_of(top_of(second, extension)),
{
    let one = ranked(matching(first, extension));
    let other = ranked(matching(second, extension));
    lemma_matching_order_free(first, second, extension);
    lemma_ranked_permutes(matching(first, extension));
    lemma_ranked_permutes(matching(second, extension));
    lemma_counts_order_free(one, other);
    lemma_ranked(matching(first, extension));
    lemma_ranked(matching(second, extension));
    let at_least = |x: nat, y: nat| x >= y;
    assert(total_ordering(at_least));
    assert(sorted_by(counts_of(one), at_least));
    assert(sorted_by(counts_of(other), at_least));
    lemma_sorted_unique(counts_of(one), counts_of(other), at_least);
    assert(one.len() == counts_of(one).len());
    assert(other.len() == counts_of(other).len());
    assert forall|k: int| 0 <= k < one.len() implies one[k].line_count == other[k].line_count by {
        assert(counts_of(one)[k] == counts_of(other)[k]);
    }
    assert(counts_of(leading(one, TOP_COUNT as nat)) =~= counts_of(
        leading(other, TOP_COUNT as nat),
    ));
}

/// What a report says does not depend on the order in which the files were
/// met: it holds the same extensions, for each the same total, and in each
/// ranking the same line counts at the same ranks.
pub proof fn lemma_report_order_free(
    first: Seq<RecordView>,
    second: Seq<RecordView>,
    extension: Seq<char>,
)
    requires
        same_items(first, second),
    ensures
        match (
            find_summary(summaries_of(first), extension),
            find_summary(summaries_of(second), extension),
        ) {
            (Some(one), Some(other)) => one.total == other.total && counts_of(one.top_files)
                == counts_of(other.top_files),
            (None, None) => true,
            _ => false,
        },
{
    lemma_report_lookup(first, extension);
    lemma_report_lookup(second, extension);
    lemma_matching_order_free(first, second, extension);
    lemma_total_order_free(first, second, extension);
    lemma_ranking_order_free(first, second, extension);
}

} // verus!
