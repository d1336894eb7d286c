//! The report: for each extension met, the total of its lines and its
//! largest files.

use crate::extension::is_allowed;
use crate::record::all_sound;
use crate::record::FileRecord;
use crate::record::RecordView;
use vstd::prelude::*;

verus! {

/// How many files a ranking holds at most.
pub const TOP_COUNT: usize = 5;

/// The lines that the record adds to the total of `extension`.
pub open spec fn share(record: RecordView, extension: Seq<char>) -> nat {
    if record.extension == extension {
        record.line_count
    } else {
        0
    }
}

/// The sum of the line counts of the files with `extension`.
pub open spec fn total_of(files: Seq<RecordView>, extension: Seq<char>) -> nat
    decreases files.len(),
{
    if files.len() == 0 {
        0
    } else {
        total_of(files.drop_last(), extension) + share(files.last(), extension)
    }
}

/// The files with `extension`, in the order in which they were met.
pub open spec fn matching(files: Seq<RecordView>, extension: Seq<char>) -> Seq<RecordView>
    decreases files.len(),
{
    if files.len() == 0 {
        Seq::empty()
    } else if files.last().extension == extension {
        matching(files.drop_last(), extension).push(files.last())
    } else {
        matching(files.drop_last(), extension)
    }
}

/// How many files have `extension`.
pub open spec fn count_of(files: Seq<RecordView>, extension: Seq<char>) -> nat {
    matching(files, extension).len()
}

/// The extensions met, each once, in the order in which they first occur.
pub open spec fn extensions_of(files: Seq<RecordView>) -> Seq<Seq<char>>
    decreases files.len(),
{
    if files.len() == 0 {
        Seq::empty()
    } else {
        let earlier = extensions_of(files.drop_last());
        if earlier.contains(files.last().extension) {
            earlier
        } else {
            earlier.push(files.last().extension)
        }
    }
}

/// Where a file of `line_count` lines enters a ranking: before the first
/// file with fewer lines, and so behind every file met earlier that has as
/// many.
pub open spec fn place_of(ranking: Seq<RecordView>, line_count: nat) -> nat
    decreases ranking.len(),
{
    if ranking.len() == 0 || ranking[0].line_count < line_count {
        0
    } else {
        1 + place_of(ranking.drop_first(), line_count)
    }
}

/// The ranking with `record` entered at its place.
pub open spec fn enter(ranking: Seq<RecordView>, record: RecordView) -> Seq<RecordView> {
    ranking.insert(place_of(ranking, record.line_count) as int, record)
}

/// The files ordered by falling line count; files with equal counts keep
/// the order in which they were met.
pub open spec fn ranked(files: Seq<RecordView>) -> Seq<RecordView>
    decreases files.len(),
{
    if files.len() == 0 {
        Seq::empty()
    } else {
        enter(ranked(files.drop_last()), files.last())
    }
}

/// The first `limit` of `files`, or all of them where they are fewer.
pub open spec fn leading(files: Seq<RecordView>, limit: nat) -> Seq<RecordView> {
    if files.len() <= limit {
        files
    } else {
        files.take(limit as int)
    }
}

/// The largest files with `extension`: the first five of their ranking.
pub open spec fn top_of(files: Seq<RecordView>, extension: Seq<char>) -> Seq<RecordView> {
    leading(ranked(matching(files, extension)), TOP_COUNT as nat)
}

/// Whether the line counts never rise along `files`.
pub open spec fn falling(files: Seq<RecordView>) -> bool {
    forall|i: int, j: int| 0 <= i <= j < files.len() ==> files[i].line_count >= files[j].line_count
}

/// What the report says of one extension, as plain values.
pub ghost struct SummaryView {
    /// The extension.
    pub extension: Seq<char>,
    /// The sum of the line counts of its files.
    pub total: nat,
    /// Its largest files, largest first.
    pub top_files: Seq<RecordView>,
}

/// What the report says of `extension` for `files`.
pub open spec fn summary_of(files: Seq<RecordView>, extension: Seq<char>) -> SummaryView {
    SummaryView {
        extension,
        total: total_of(files, extension),
        top_files: top_of(files, extension),
    }
}

/// The report for `files`: one summary for each extension met, in the order
/// in which they first occur.
pub open spec fn summaries_of(files: Seq<RecordView>) -> Seq<SummaryView> {
    Seq::new(
        extensions_of(files).len(),
        |k: int| summary_of(files, extensions_of(files)[k]),
    )
}

/// What holds of every summary of a report on `files`: its total is the sum
/// of the line counts of the files with its extension; its ranking holds
/// five of them, or all where they are fewer; the line counts never rise
/// along the ranking; and the ranking holds no more lines than the total.
pub open spec fn well_summed(summary: SummaryView, files: Seq<RecordView>) -> bool {
    &&& summary.total == total_of(files, summary.extension)
    &&& summary.top_files.len() == if count_of(files, summary.extension) <= TOP_COUNT {
        count_of(files, summary.extension)
    } else {
        TOP_COUNT as nat
    }
    &&& falling(summary.top_files)
    &&& lines_of(summary.top_files) <= summary.total
}

/// The first summary for `extension`, if there is one.
pub open spec fn find_summary(summaries: Seq<SummaryView>, extension: Seq<char>) -> Option<
    SummaryView,
>
    decreases summaries.len(),
{
    if summaries.len() == 0 {
        None
    } else if summaries[0].extension == extension {
        Some(summaries[0])
    } else {
        find_summary(summaries.drop_first(), extension)
    }
}

/// The extensions met are those of the files, and none is listed twice.
pub proof fn lemma_extensions(files: Seq<RecordView>)
    ensures
        extensions_of(files).no_duplicates(),
        forall|e: Seq<char>| #[trigger]
            extensions_of(files).contains(e) <==> count_of(files, e) > 0,
        forall|e: Seq<char>|
            count_of(files, e) == 0 ==> #[trigger] total_of(files, e) == 0 && matching(files, e)
                =~= Seq::<RecordView>::empty(),
    decreases files.len(),
{
    if files.len() > 0 {
        let earlier = extensions_of(files.drop_last());
        let last = files.last().extension;
        lemma_extensions(files.drop_last());
        assert forall|e: Seq<char>| #[trigger]
            extensions_of(files).contains(e) <==> count_of(files, e) > 0 by {
            assert(earlier.contains(e) <==> count_of(files.drop_last(), e) > 0);
            if earlier.contains(last) {
            } else {
                let now = earlier.push(last);
                assert(now[earlier.len() as int] == last);
                if now.contains(e) {
                    let k = choose|k: int| 0 <= k < now.len() && now[k] == e;
                    if k < earlier.len() {
                        assert(earlier[k] == e);
                    }
                }
                if earlier.contains(e) {
                    let k = choose|k: int| 0 <= k < earlier.len() && earlier[k] == e;
                    assert(now[k] == e);
                }
            }
        }
        assert forall|e: Seq<char>| count_of(files, e) == 0 implies #[trigger] total_of(files, e)
            == 0 && matching(files, e) =~= Seq::<RecordView>::empty() by {
            assert(count_of(files.drop_last(), e) == 0);
            assert(total_of(files.drop_last(), e) == 0);
        }
    }
}

/// The place lies inside the ranking or at its end; before it no file has
/// fewer than `line_count` lines, and the file at it has fewer.
pub proof fn lemma_place(ranking: Seq<RecordView>, line_count: nat)
    ensures
        place_of(ranking, line_count) <= ranking.len(),
        forall|k: int|
            0 <= k < place_of(ranking, line_count) ==> #[trigger] ranking[k].line_count
                >= line_count,
        place_of(ranking, line_count) < ranking.len() ==> ranking[place_of(
            ranking,
            line_count,
        ) as int].line_count < line_count,
    decreases ranking.len(),
{
    if ranking.len() > 0 && ranking[0].line_count >= line_count {
        let rest = ranking.drop_first();
        lemma_place(rest, line_count);
        assert forall|k: int| 0 <= k < place_of(ranking, line_count) implies #[trigger] ranking[k].line_count
            >= line_count by {
            if k > 0 {
                assert(ranking[k] == rest[k - 1]);
            }
        }
        if place_of(ranking, line_count) < ranking.len() {
            assert(ranking[place_of(ranking, line_count) as int] == rest[place_of(rest, line_count) as int]);
        }
    }
}

/// Cutting a ranking short moves the place only where it lay behind the
/// cut.
pub proof fn lemma_place_cut(ranking: Seq<RecordView>, line_count: nat, limit: nat)
    requires
        limit <= ranking.len(),
    ensures
        place_of(ranking.take(limit as int), line_count) == if place_of(ranking, line_count)
            <= limit {
            place_of(ranking, line_count)
        } else {
            limit
        },
    decreases limit,
{
    let cut = ranking.take(limit as int);
    if limit > 0 && ranking[0].line_count >= line_count {
        lemma_place_cut(ranking.drop_first(), line_count, (limit - 1) as nat);
        assert(cut.drop_first() =~= ranking.drop_first().take(limit - 1));
    }
}

/// Entering a file keeps a falling ranking falling and lengthens it by one.
pub proof fn lemma_enter(ranking: Seq<RecordView>, record: RecordView)
    requires
        falling(ranking),
    ensures
        falling(enter(ranking, record)),
        enter(ranking, record).len() == ranking.len() + 1,
{
    lemma_place(ranking, record.line_count);
    let at = place_of(ranking, record.line_count) as int;
    let after = enter(ranking, record);
    assert forall|i: int, j: int| 0 <= i <= j < after.len() implies after[i].line_count
        >= after[j].line_count by {
        if j < at {
        } else if i > at {
            assert(after[i] == ranking[i - 1]);
            assert(after[j] == ranking[j - 1]);
        } else if i == at {
            if j > at {
                assert(after[j] == ranking[j - 1]);
                assert(ranking[at].line_count >= ranking[j - 1].line_count);
            }
        } else {
            assert(after[i] == ranking[i]);
            if j > at {
                assert(after[j] == ranking[j - 1]);
            }
        }
    }
}

/// A ranking is falling and holds as many files as it was made from.
pub proof fn lemma_ranked(files: Seq<RecordView>)
    ensures
        falling(ranked(files)),
        ranked(files).len() == files.len(),
    decreases files.len(),
{
    if files.len() > 0 {
        lemma_ranked(files.drop_last());
        lemma_enter(ranked(files.drop_last()), files.last());
    }
}

/// The first files of a ranking after an entry depend only on the first
/// files before it: what lay behind the cut never comes forward.
pub proof fn lemma_enter_leading(ranking: Seq<RecordView>, record: RecordView, limit: nat)
    ensures
        leading(enter(leading(ranking, limit), record), limit) == leading(
            enter(ranking, record),
            limit,
        ),
{
    lemma_place(ranking, record.line_count);
    if ranking.len() > limit {
        lemma_place_cut(ranking, record.line_count, limit);
        assert(leading(enter(leading(ranking, limit), record), limit) =~= leading(
            enter(ranking, record),
            limit,
        ));
    }
}

/// How the report changes when one more file is met. A file with a new
/// extension adds a summary of its own at the end. A file with an extension
/// met before changes that extension's summary alone: the total grows by the
/// file's lines, and the file enters the ranking, which keeps its first five.
pub proof fn lemma_summaries_push(files: Seq<RecordView>, record: RecordView)
    ensures
        !extensions_of(files).contains(record.extension) ==> summaries_of(files.push(record))
            == summaries_of(files).push(
            SummaryView {
                extension: record.extension,
                total: record.line_count,
                top_files: seq![record],
            },
        ),
        forall|j: int|
            0 <= j < extensions_of(files).len() && extensions_of(files)[j] == record.extension
                ==> summaries_of(files.push(record)) == summaries_of(files).update(
                j,
                SummaryView {
                    extension: record.extension,
                    total: #[trigger] summaries_of(files)[j].total + record.line_count,
                    top_files: leading(
                        enter(summaries_of(files)[j].top_files, record),
                        TOP_COUNT as nat,
                    ),
                },
            ),
{
    let longer = files.push(record);
    let known = extensions_of(files);
    let e = record.extension;
    assert(longer.drop_last() =~= files);
    lemma_extensions(files);
    assert forall|k: int| 0 <= k < known.len() && known[k] != e implies summary_of(
        longer,
        #[trigger] known[k],
    ) == summary_of(files, known[k]) by {}
    assert(matching(longer, e) == matching(files, e).push(record));
    assert(matching(files, e).push(record).drop_last() =~= matching(files, e));
    assert(ranked(matching(longer, e)) == enter(ranked(matching(files, e)), record));
    if !known.contains(e) {
        assert(count_of(files, e) == 0);
        assert(total_of(files, e) == 0);
        assert(matching(files, e) =~= Seq::<RecordView>::empty());
        assert(ranked(matching(files, e)) =~= Seq::<RecordView>::empty());
        assert(enter(Seq::<RecordView>::empty(), record) =~= seq![record]);
        assert(summaries_of(longer) =~= summaries_of(files).push(
            SummaryView { extension: e, total: record.line_count, top_files: seq![record] },
        ));
    } else {
        lemma_enter_leading(ranked(matching(files, e)), record, TOP_COUNT as nat);
        assert forall|j: int| 0 <= j < known.len() && known[j] == e implies summaries_of(longer)
            == summaries_of(files).update(
            j,
            SummaryView {
                extension: e,
                total: #[trigger] summaries_of(files)[j].total + record.line_count,
                top_files: leading(enter(summaries_of(files)[j].top_files, record), TOP_COUNT as nat),
            },
        ) by {
            assert forall|k: int| 0 <= k < known.len() && k != j implies known[k] != e by {}
            assert(summaries_of(longer) =~= summaries_of(files).update(
                j,
                SummaryView {
                    extension: e,
                    total: summaries_of(files)[j].total + record.line_count,
                    top_files: leading(
                        enter(summaries_of(files)[j].top_files, record),
                        TOP_COUNT as nat,
                    ),
                },
            ));
        }
    }
}

/// A total is at most the number of files times the largest line count.
pub proof fn lemma_total_bound(files: Seq<RecordView>, extension: Seq<char>, most: nat)
    requires
        forall|k: int| 0 <= k < files.len() ==> #[trigger] files[k].line_count <= most,
    ensures
        total_of(files, extension) <= files.len() * most,
    decreases files.len(),
{
    if files.len() > 0 {
        lemma_total_bound(files.drop_last(), extension, most);
        assert((files.len() - 1) * most + most == files.len() * most) by (nonlinear_arith);
    }
}

/// The summary found for an extension is the first one that bears it.
pub proof fn lemma_find_summary(summaries: Seq<SummaryView>, extension: Seq<char>)
    ensures
        match find_summary(summaries, extension) {
            Some(found) => exists|j: int|
                0 <= j < summaries.len() && #[trigger] summaries[j] == found && found.extension
                    == extension && forall|k: int|
                    0 <= k < j ==> (#[trigger] summaries[k]).extension != extension,
            None => forall|k: int|
                0 <= k < summaries.len() ==> (#[trigger] summaries[k]).extension != extension,
        },
    decreases summaries.len(),
{
    if summaries.len() > 0 {
        if summaries[0].extension == extension {
            assert(summaries[0] == summaries[0]);
        } else {
            let rest = summaries.drop_first();
            lemma_find_summary(rest, extension);
            match find_summary(rest, extension) {
                Some(found) => {
                    let j = choose|j: int|
                        0 <= j < rest.len() && #[trigger] rest[j] == found && found.extension
                            == extension && forall|k: int|
                            0 <= k < j ==> (#[trigger] rest[k]).extension != extension;
                    assert(summaries[j + 1] == found);
                    assert forall|k: int| 0 <= k < j + 1 implies (#[trigger] summaries[k]).extension
                        != extension by {
                        if k > 0 {
                            assert(summaries[k] == rest[k - 1]);
                        }
                    }
                },
                None => {
                    assert forall|k: int| 0 <= k < summaries.len() implies (
                    #[trigger] summaries[k]).extension != extension by {
                        if k > 0 {
                            assert(summaries[k] == rest[k - 1]);
                        }
                    }
                },
            }
        }
    }
}

/// The report holds a summary for exactly the extensions that some file
/// has, and that summary holds the total and the largest files of the
/// extension.
pub proof fn lemma_report_lookup(files: Seq<RecordView>, extension: Seq<char>)
    ensures
        find_summary(summaries_of(files), extension) == if count_of(files, extension) > 0 {
            Some(summary_of(files, extension))
        } else {
            None
        },
{
    let summaries = summaries_of(files);
    lemma_extensions(files);
    lemma_find_summary(summaries, extension);
    if count_of(files, extension) > 0 {
        assert(extensions_of(files).contains(extension));
        let at = choose|at: int|
            0 <= at < extensions_of(files).len() && extensions_of(files)[at] == extension;
        assert(summaries[at].extension == extension);
    } else {
        if find_summary(summaries, extension) is Some {
            let found = find_summary(summaries, extension)->0;
            let j = choose|j: int|
                0 <= j < summaries.len() && #[trigger] summaries[j] == found && found.extension
                    == extension;
            assert(extensions_of(files)[j] == extension);
            assert(extensions_of(files).contains(extension));
        }
    }
}

/// The files picked for an extension are the files that have it, each as
/// often as it stands among the files.
pub proof fn lemma_matching(files: Seq<RecordView>, extension: Seq<char>)
    ensures
        matching(files, extension).to_multiset() == files.to_multiset().filter(
            |r: RecordView| r.extension == extension,
        ),
        forall|k: int|
            0 <= k < matching(files, extension).len() ==> (#[trigger] matching(
                files,
                extension,
            )[k]).extension == extension && files.contains(matching(files, extension)[k]),
    decreases files.len(),
{
    broadcast use vstd::multiset::group_multiset_axioms;
    broadcast use vstd::seq_lib::group_to_multiset_ensures;

    let picked = |r: RecordView| r.extension == extension;
    if files.len() == 0 {
        assert(matching(files, extension).to_multiset() =~= files.to_multiset().filter(picked));
    } else {
        let shorter = files.drop_last();
        let last = files.last();
        lemma_matching(shorter, extension);
        assert(files =~= shorter.push(last));
        assert(files.to_multiset() =~= shorter.to_multiset().insert(last));
        assert(matching(files, extension).to_multiset() =~= files.to_multiset().filter(picked));
        assert forall|k: int| 0 <= k < matching(files, extension).len() implies (#[trigger] matching(
            files,
            extension,
        )[k]).extension == extension && files.contains(matching(files, extension)[k]) by {
            let chosen = matching(files, extension)[k];
            if k < matching(shorter, extension).len() {
                assert(chosen == matching(shorter, extension)[k]);
                assert(shorter.contains(chosen));
                let at = choose|at: int| 0 <= at < shorter.len() && shorter[at] == chosen;
                assert(files[at] == chosen);
            } else {
                assert(files[files.len() - 1] == chosen);
            }
        }
    }
}

/// A ranking holds the files it was made from, each as often as given.
pub proof fn lemma_ranked_permutes(files: Seq<RecordView>)
    ensures
        ranked(files).to_multiset() == files.to_multiset(),
    decreases files.len(),
{
    broadcast use vstd::seq_lib::group_to_multiset_ensures;

    if files.len() == 0 {
        assert(ranked(files) =~= files);
    } else {
        let shorter = files.drop_last();
        lemma_ranked_permutes(shorter);
        lemma_place(ranked(shorter), files.last().line_count);
        assert(files =~= shorter.push(files.last()));
    }
}

/// The ranking of an extension in the report: it holds five files, or all
/// files of the extension where they are fewer; its line counts never rise;
/// and each of its files is one of the files given and has the extension.
pub proof fn lemma_top_files(files: Seq<RecordView>, extension: Seq<char>)
    ensures
        top_of(files, extension).len() == if count_of(files, extension) <= TOP_COUNT {
            count_of(files, extension)
        } else {
            TOP_COUNT as nat
        },
        falling(top_of(files, extension)),
        forall|k: int|
            0 <= k < top_of(files, extension).len() ==> (#[trigger] top_of(
                files,
                extension,
            )[k]).extension == extension && files.contains(top_of(files, extension)[k]),
{
    broadcast use vstd::seq_lib::group_to_multiset_ensures;

    let picked = matching(files, extension);
    let order = ranked(picked);
    let top = top_of(files, extension);
    lemma_ranked(picked);
    lemma_ranked_permutes(picked);
    lemma_matching(files, extension);
    assert forall|k: int| 0 <= k < top.len() implies (#[trigger] top[k]).extension == extension
        && files.contains(top[k]) by {
        assert(top[k] == order[k]);
        assert(order.contains(order[k]));
        assert(picked.to_multiset().count(order[k]) > 0);
        assert(picked.contains(order[k]));
        let at = choose|at: int| 0 <= at < picked.len() && picked[at] == order[k];
        assert(picked[at].extension == extension);
    }
}

/// The sum of the line counts of `files`.
pub open spec fn lines_of(files: Seq<RecordView>) -> nat
    decreases files.len(),
{
    if files.len() == 0 {
        0
    } else {
        lines_of(files.drop_last()) + files.last().line_count
    }
}

/// A file entered anywhere adds its lines to the sum.
pub proof fn lemma_lines_insert(files: Seq<RecordView>, at: int, record: RecordView)
    requires
        0 <= at <= files.len(),
    ensures
        lines_of(files.insert(at, record)) == lines_of(files) + record.line_count,
    decreases files.len(),
{
    let longer = files.insert(at, record);
    if at == files.len() {
        assert(longer.drop_last() =~= files);
    } else {
        lemma_lines_insert(files.drop_last(), at, record);
        assert(longer.drop_last() =~= files.drop_last().insert(at, record));
    }
}

/// The first files never hold more lines than all of them.
pub proof fn lemma_lines_leading(files: Seq<RecordView>, limit: nat)
    ensures
        lines_of(leading(files, limit)) <= lines_of(files),
    decreases files.len(),
{
    if files.len() > limit {
        lemma_lines_leading(files.drop_last(), limit);
        if files.len() - 1 > limit {
            assert(files.drop_last().take(limit as int) =~= files.take(limit as int));
        } else {
            assert(files.drop_last() =~= files.take(limit as int));
        }
    }
}

/// The largest files of an extension together never hold more lines than
/// the extension's total.
pub proof fn lemma_top_within_total(files: Seq<RecordView>, extension: Seq<char>)
    ensures
        lines_of(top_of(files, extension)) <= total_of(files, extension),
{
    let picked = matching(files, extension);
    lemma_lines_matching(files, extension);
    lemma_lines_ranked(picked);
    lemma_lines_leading(ranked(picked), TOP_COUNT as nat);
}

/// The files of an extension hold the extension's total.
pub proof fn lemma_lines_matching(files: Seq<RecordView>, extension: Seq<char>)
    ensures
        lines_of(matching(files, extension)) == total_of(files, extension),
    decreases files.len(),
{
    if files.len() > 0 {
        lemma_lines_matching(files.drop_last(), extension);
        if files.last().extension == extension {
            assert(matching(files, extension).drop_last() =~= matching(
                files.drop_last(),
                extension,
            ));
        }
    }
}

/// Ranking files leaves the sum of their lines as it was.
pub proof fn lemma_lines_ranked(files: Seq<RecordView>)
    ensures
        lines_of(ranked(files)) == lines_of(files),
    decreases files.len(),
{
    if files.len() > 0 {
        let earlier = ranked(files.drop_last());
        lemma_lines_ranked(files.drop_last());
        lemma_place(earlier, files.last().line_count);
        lemma_lines_insert(earlier, place_of(earlier, files.last().line_count) as int, files.last());
    }
}

/// A report on sound records holds no extension but those on the
/// allow-list, and no file in its rankings but sound ones.
pub proof fn lemma_report_sound(files: Seq<RecordView>)
    requires
        all_sound(files),
    ensures
        forall|k: int|
            0 <= k < summaries_of(files).len() ==> is_allowed(
                (#[trigger] summaries_of(files)[k]).extension,
            ) && all_sound(summaries_of(files)[k].top_files),
{
    lemma_extensions(files);
    assert forall|k: int| 0 <= k < summaries_of(files).len() implies is_allowed(
        (#[trigger] summaries_of(files)[k]).extension,
    ) && all_sound(summaries_of(files)[k].top_files) by {
        let e = extensions_of(files)[k];
        let picked = matching(files, e);
        assert(extensions_of(files).contains(e));
        assert(count_of(files, e) > 0);
        lemma_matching(files, e);
        assert(picked[0].extension == e && files.contains(picked[0]));
        let at = choose|at: int| 0 <= at < files.len() && files[at] == picked[0];
        assert(files[at].sound());
        lemma_top_files(files, e);
        let top = top_of(files, e);
        assert forall|j: int| 0 <= j < top.len() implies (#[trigger] top[j]).sound() by {
            assert(files.contains(top[j]));
            let from = choose|from: int| 0 <= from < files.len() && files[from] == top[j];
            assert(files[from].sound());
        }
    }
}

/// The files of `line_count` lines, in the order in which they stand.
pub open spec fn with_count(files: Seq<RecordView>, line_count: nat) -> Seq<RecordView>
    decreases files.len(),
{
    if files.len() == 0 {
        Seq::empty()
    } else if files.last().line_count == line_count {
        with_count(files.drop_last(), line_count).push(files.last())
    } else {
        with_count(files.drop_last(), line_count)
    }
}

/// The files of one line count in two collections, one behind the other,
/// are those of the first and then those of the second.
pub proof fn lemma_with_count_concat(head: Seq<RecordView>, tail: Seq<RecordView>, line_count: nat)
    ensures
        with_count(head + tail, line_count) == with_count(head, line_count) + with_count(
            tail,
            line_count,
        ),
    decreases tail.len(),
{
    if tail.len() == 0 {
        assert(head + tail =~= head);
        assert(with_count(head, line_count) + Seq::<RecordView>::empty() =~= with_count(
            head,
            line_count,
        ));
    } else {
        lemma_with_count_concat(head, tail.drop_last(), line_count);
        assert((head + tail).drop_last() =~= head + tail.drop_last());
        assert(with_count(head + tail, line_count) =~= with_count(head, line_count) + with_count(
            tail,
            line_count,
        ));
    }
}

/// Files that all have fewer lines hold none of `line_count` lines.
pub proof fn lemma_with_count_none(files: Seq<RecordView>, line_count: nat)
    requires
        forall|k: int| 0 <= k < files.len() ==> (#[trigger] files[k]).line_count < line_count,
    ensures
        with_count(files, line_count) == Seq::<RecordView>::empty(),
    decreases files.len(),
{
    if files.len() > 0 {
        lemma_with_count_none(files.drop_last(), line_count);
    }
}

/// A file that enters a falling ranking comes to stand behind every file
/// with as many lines, and the files of every other line count stay as they
/// stood.
pub proof fn lemma_enter_with_count(ranking: Seq<RecordView>, record: RecordView, line_count: nat)
    requires
        falling(ranking),
    ensures
        with_count(enter(ranking, record), line_count) == if record.line_count == line_count {
            with_count(ranking, line_count).push(record)
        } else {
            with_count(ranking, line_count)
        },
{
    lemma_place(ranking, record.line_count);
    let at = place_of(ranking, record.line_count) as int;
    let before = ranking.take(at);
    let behind = ranking.skip(at);
    let one = seq![record];
    assert(ranking =~= before + behind);
    assert(enter(ranking, record) =~= (before + one) + behind);
    lemma_with_count_concat(before, behind, line_count);
    lemma_with_count_concat(before, one, line_count);
    lemma_with_count_concat(before + one, behind, line_count);
    assert(one.drop_last() =~= Seq::<RecordView>::empty());
    assert(with_count(one.drop_last(), line_count) =~= Seq::<RecordView>::empty());
    assert(one.last() == record);
    if record.line_count == line_count {
        assert forall|k: int| 0 <= k < behind.len() implies (#[trigger] behind[k]).line_count
            < line_count by {
            assert(behind[k] == ranking[at + k]);
            assert(ranking[at].line_count >= ranking[at + k].line_count);
        }
        lemma_with_count_none(behind, line_count);
        assert(with_count(one, line_count) =~= seq![record]);
        assert(with_count(enter(ranking, record), line_count) =~= with_count(
            ranking,
            line_count,
        ).push(record));
    } else {
        assert(with_count(one, line_count) =~= Seq::<RecordView>::empty());
        assert(with_count(enter(ranking, record), line_count) =~= with_count(ranking, line_count));
    }
}

/// Ranking is stable: files with equal line counts stand in the ranking in
/// the order in which they were met.
pub proof fn lemma_ranked_stable(files: Seq<RecordView>, line_count: nat)
    ensures
        with_count(ranked(files), line_count) == with_count(files, line_count),
    decreases files.len(),
{
    if files.len() > 0 {
        lemma_ranked_stable(files.drop_last(), line_count);
        lemma_ranked(files.drop_last());
        lemma_enter_with_count(ranked(files.drop_last()), files.last(), line_count);
    }
}

/// What the report says of one extension.
#[derive(Debug)]
pub struct ExtensionSummary {
    /// The extension.
    pub extension: String,
    /// The sum of the line counts of its files.
    pub total: u128,
    /// Its largest files, at most five, largest first.
    pub top_files: Vec<FileRecord>,
}

impl DeepView for ExtensionSummary {
    type V = SummaryView;

    open spec fn deep_view(&self) -> SummaryView {
        SummaryView {
            extension: self.extension@,
            total: self.total as nat,
            top_files: self.top_files.deep_view(),
        }
    }
}

/// The totals and rankings of a collection of files, one summary for each
/// extension met, in the order in which the extensions first occur.
#[derive(Debug)]
pub struct AggregateReport {
    pub summaries: Vec<ExtensionSummary>,
}

impl DeepView for AggregateReport {
    type V = Seq<SummaryView>;

    open spec fn deep_view(&self) -> Seq<SummaryView> {
        self.summaries.deep_view()
    }
}

/// Finds the summary of `extension`.
fn position(summaries: &Vec<ExtensionSummary>, extension: &String) -> (found: Option<usize>)
    ensures
        match found {
            Some(j) => j < summaries.len() && summaries[j as int].extension@ == extension@
                && forall|k: int| 0 <= k < j ==> summaries[k].extension@ != extension@,
            None => forall|k: int|
                0 <= k < summaries.len() ==> summaries[k].extension@ != extension@,
        },
{
    let mut j: usize = 0;
    while j < summaries.len()
        invariant
            j <= summaries.len(),
            forall|k: int| 0 <= k < j ==> summaries[k].extension@ != extension@,
        decreases summaries.len() - j,
    {
        if summaries[j].extension == *extension {
            return Some(j);
        }
        j = j + 1;
    }
    None
}

/// Finds the place at which a file of `line_count` lines enters `ranking`.
fn place(ranking: &Vec<FileRecord>, line_count: usize) -> (at: usize)
    ensures
        at == place_of(ranking.deep_view(), line_count as nat),
        at <= ranking.len(),
{
    let ghost view = ranking.deep_view();
    let mut at: usize = 0;
    assert(view.skip(0) =~= view);
    while at < ranking.len() && ranking[at].line_count >= line_count
        invariant
            at <= ranking.len(),
            view == ranking.deep_view(),
            place_of(view, line_count as nat) == at + place_of(
                view.skip(at as int),
                line_count as nat,
            ),
        decreases ranking.len() - at,
    {
        proof {
            let rest = view.skip(at as int);
            assert(rest[0] == view[at as int]);
            assert(rest.drop_first() =~= view.skip(at + 1));
        }
        at = at + 1;
    }
    proof {
        let rest = view.skip(at as int);
        if at < ranking.len() {
            assert(rest[0] == view[at as int]);
        }
    }
    at
}

/// Enters `record` into a ranking and keeps the first five.
fn enter_top(ranking: &mut Vec<FileRecord>, record: &FileRecord)
    ensures
        final(ranking).deep_view() == leading(
            enter(old(ranking).deep_view(), record@),
            TOP_COUNT as nat,
        ),
{
    let ghost before = ranking.deep_view();
    let at = place(ranking, record.line_count);
    ranking.insert(at, record.duplicate());
    assert(ranking.deep_view() =~= enter(before, record@));
    if ranking.len() > TOP_COUNT {
        ranking.truncate(TOP_COUNT);
        assert(ranking.deep_view() =~= enter(before, record@).take(TOP_COUNT as int));
    }
}

/// Builds the report for `files`: for each extension met, the sum of the
/// line counts of its files, and its five largest files, largest first,
/// files with equal counts in the order in which they stand in `files`.
pub fn aggregate(files: &Vec<FileRecord>) -> (report: AggregateReport)
    ensures
        report.deep_view() == summaries_of(files.deep_view()),
        forall|extension: Seq<char>| #[trigger]
            find_summary(report.deep_view(), extension) == if count_of(
                files.deep_view(),
                extension,
            ) > 0 {
                Some(summary_of(files.deep_view(), extension))
            } else {
                None
            },
        forall|k: int|
            0 <= k < report.deep_view().len() ==> well_summed(
                #[trigger] report.deep_view()[k],
                files.deep_view(),
            ),
{
    let ghost all = files.deep_view();
    let mut summaries: Vec<ExtensionSummary> = Vec::new();
    let mut i: usize = 0;
    assert(all.take(0) =~= Seq::<RecordView>::empty());
    assert(summaries.deep_view() =~= summaries_of(all.take(0)));
    while i < files.len()
        invariant
            i <= files.len(),
            all == files.deep_view(),
            summaries.deep_view() == summaries_of(all.take(i as int)),
        decreases files.len() - i,
    {
        let record = &files[i];
        let ghost seen = all.take(i as int);
        let ghost before = summaries.deep_view();
        proof {
            assert(all.take(i + 1) =~= seen.push(record@));
            lemma_summaries_push(seen, record@);
            lemma_extensions(seen);
        }
        match position(&summaries, &record.extension) {
            Some(j) => {
                proof {
                    assert(before.len() == extensions_of(seen).len());
                    assert(before[j as int] == summary_of(seen, extensions_of(seen)[j as int]));
                    assert(before[j as int] == summaries[j as int].deep_view());
                    assert forall|k: int| 0 <= k < seen.len() implies #[trigger] seen[k].line_count
                        <= 0xffff_ffff_ffff_ffff by {
                        assert(seen[k] == files[k].deep_view());
                    }
                    lemma_total_bound(seen, record@.extension, 0xffff_ffff_ffff_ffff);
                    assert(seen.len() * 0xffff_ffff_ffff_ffff <= 0xffff_ffff_ffff_ffff
                        * 0xffff_ffff_ffff_ffff) by (nonlinear_arith)
                        requires
                            seen.len() <= 0xffff_ffff_ffff_ffff,
                    ;
                    assert(summaries[j as int].total <= 0xffff_ffff_ffff_ffff
                        * 0xffff_ffff_ffff_ffff);
                }
                let group = &mut summaries[j];
                group.total = group.total + (record.line_count as u128);
                enter_top(&mut group.top_files, record);
                proof {
                    assert(summaries.deep_view() =~= before.update(
                        j as int,
                        SummaryView {
                            extension: record@.extension,
                            total: before[j as int].total + record@.line_count,
                            top_files: leading(
                                enter(before[j as int].top_files, record@),
                                TOP_COUNT as nat,
                            ),
                        },
                    ));
                }
            },
            None => {
                proof {
                    assert(!extensions_of(seen).contains(record@.extension)) by {
                        if extensions_of(seen).contains(record@.extension) {
                            let k = choose|k: int|
                                0 <= k < extensions_of(seen).len() && extensions_of(seen)[k]
                                    == record@.extension;
                            assert(before.len() == extensions_of(seen).len());
                            assert(before[k] == summary_of(seen, extensions_of(seen)[k]));
                            assert(before[k] == summaries[k].deep_view());
                        }
                    }
                }
                let mut top_files: Vec<FileRecord> = Vec::new();
                top_files.push(record.duplicate());
                assert(top_files.deep_view() =~= seq![record@]);
                summaries.push(
                    ExtensionSummary {
                        extension: record.extension.clone(),
                        total: record.line_count as u128,
                        top_files,
                    },
                );
                assert(summaries.deep_view() =~= before.push(
                    SummaryView {
                        extension: record@.extension,
                        total: record@.line_count,
                        top_files: seq![record@],
                    },
                ));
            },
        }
        i = i + 1;
    }
    proof {
        assert(all.take(i as int) =~= all);
        assert forall|extension: Seq<char>| #[trigger]
            find_summary(summaries.deep_view(), extension) == if count_of(all, extension) > 0 {
                Some(summary_of(all, extension))
            } else {
                None
            } by {
            lemma_report_lookup(all, extension);
        }
        assert forall|k: int| 0 <= k < summaries.deep_view().len() implies well_summed(
            #[trigger] summaries.deep_view()[k],
            all,
        ) by {
            let extension = extensions_of(all)[k];
            lemma_top_files(all, extension);
            lemma_top_within_total(all, extension);
        }
    }
    AggregateReport { summaries }
}

impl AggregateReport {
    /// The place of the first summary for `extension`.
    fn find(&self, extension: &str) -> (found: Option<usize>)
        ensures
            match found {
                Some(j) => j < self.summaries.len() && find_summary(self.deep_view(), extension@)
                    == Some(self.summaries[j as int].deep_view()),
                None => find_summary(self.deep_view(), extension@) is None,
            },
    {
        let wanted = extension.to_owned();
        let found = position(&self.summaries, &wanted);
        proof {
            let view = self.deep_view();
            lemma_find_summary(view, extension@);
            match found {
                Some(j) => {
                    assert(view[j as int] == self.summaries[j as int].deep_view());
                    assert forall|k: int| 0 <= k < j implies (#[trigger] view[k]).extension
                        != extension@ by {
                        assert(view[k] == self.summaries[k].deep_view());
                    }
                },
                None => {
                    assert forall|k: int| 0 <= k < view.len() implies (#[trigger] view[k]).extension
                        != extension@ by {
                        assert(view[k] == self.summaries[k].deep_view());
                    }
                },
            }
        }
        found
    }

    /// The total of the lines of the files with `extension`, if the report
    /// holds that extension.
    pub fn total_for(&self, extension: &str) -> (total: Option<u128>)
        ensures
            match total {
                Some(t) => find_summary(self.deep_view(), extension@) matches Some(s) && s.total
                    == t,
                None => find_summary(self.deep_view(), extension@) is None,
            },
    {
        match self.find(extension) {
            Some(j) => Some(self.summaries[j].total),
            None => None,
        }
    }

    /// The largest files with `extension`, largest first, if the report
    /// holds that extension.
    pub fn top_files_for(&self, extension: &str) -> (top: Option<&Vec<FileRecord>>)
        ensures
            match top {
                Some(files) => find_summary(self.deep_view(), extension@) matches Some(s)
                    && s.top_files == files.deep_view(),
                None => find_summary(self.deep_view(), extension@) is None,
            },
    {
        match self.find(extension) {
            Some(j) => Some(&self.summaries[j].top_files),
            None => None,
        }
    }
}

} // verus!
