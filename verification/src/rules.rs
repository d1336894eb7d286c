//! Ignore rules: the pattern file of one directory, compiled by the `ignore`
//! crate, and the chain of such files from the scanned root down to the
//! directory whose entries are being judged.

use ignore::gitignore::Gitignore;
use ignore::gitignore::GitignoreBuilder;
use vstd::prelude::*;
use vstd::string::*;

verus! {

/// `ignore::gitignore::Gitignore`, carried as an opaque value.
#[verifier::external_type_specification]
#[verifier::external_body]
pub struct ExGitignore(Gitignore);

/// `ignore::gitignore::GitignoreBuilder`, carried as an opaque value.
#[verifier::external_type_specification]
#[verifier::external_body]
pub struct ExGitignoreBuilder(GitignoreBuilder);

/// What a set of rules says of one path.
#[derive(Clone, Copy, Debug, PartialEq, Eq, Structural)]
pub enum Verdict {
    /// No pattern speaks of the path.
    Unmatched,
    /// The deciding pattern excludes the path.
    Excluded,
    /// The deciding pattern is a negation: the path is kept.
    Included,
}

/// The root that a `GitignoreBuilder` holds: the directory its patterns are
/// bound to.
pub uninterp spec fn builder_root(builder: GitignoreBuilder) -> Seq<char>;

/// The patterns that a `GitignoreBuilder` holds: the text of each, in the
/// order in which they were taken.
pub uninterp spec fn builder_lines(builder: GitignoreBuilder) -> Seq<Seq<char>>;

/// The root that a `Gitignore` holds: that of the builder it came from.
pub uninterp spec fn matcher_root(matcher: Gitignore) -> Seq<char>;

/// The patterns that a `Gitignore` holds: those of the builder it came
/// from, in order.
pub uninterp spec fn matcher_lines(matcher: Gitignore) -> Seq<Seq<char>>;

/// Whether `GitignoreBuilder::add_line`, on a builder with the settings it
/// is created with, takes `line` without an error: as a pattern, a comment
/// or a blank line.
pub uninterp spec fn line_accepted(line: Seq<char>) -> bool;

/// What `GitignoreBuilder::add_line`, on a builder with the settings it is
/// created with, keeps of `line`: the text of the pattern, or nothing where
/// the line is a comment, is blank or does not parse.
pub uninterp spec fn line_pattern(line: Seq<char>) -> Option<Seq<char>>;

/// Whether `GitignoreBuilder::build` succeeds on a builder that holds
/// `patterns`.
pub uninterp spec fn lines_compile(patterns: Seq<Seq<char>>) -> bool;

/// What `Gitignore::matched` answers for `path`, from a matcher that holds
/// `root` and `patterns`, built by a builder with the settings it is created
/// with.
pub uninterp spec fn pattern_verdict(
    root: Seq<char>,
    patterns: Seq<Seq<char>>,
    path: Seq<char>,
    is_dir: bool,
) -> Verdict;

/// The root that a builder keeps of the directory it is made for: the
/// directory without a leading `./`, as the crate strips it where paths are
/// bytes.
pub open spec fn stored_root(root: Seq<char>) -> Seq<char> {
    if root.len() >= 2 && root[0] == '.' && root[1] == '/' {
        root.skip(2)
    } else {
        root
    }
}

/// The patterns that a builder holds once it has been handed `lines`: what
/// it keeps of each, in order.
pub open spec fn kept(lines: Seq<Seq<char>>) -> Seq<Seq<char>>
    decreases lines.len(),
{
    if lines.len() == 0 {
        Seq::empty()
    } else {
        match line_pattern(lines.last()) {
            Some(pattern) => kept(lines.drop_last()).push(pattern),
            None => kept(lines.drop_last()),
        }
    }
}

/// Calls `GitignoreBuilder::new`. Trusted: the new builder holds `root`
/// without a leading `./`, and no pattern.
#[verifier::external_body]
fn builder_new(root: &str) -> (builder: GitignoreBuilder)
    ensures
        builder_root(builder) == stored_root(root@),
        builder_lines(builder) == Seq::<Seq<char>>::empty(),
{
    GitignoreBuilder::new(root)
}

/// Calls `GitignoreBuilder::add_line`. Trusted: the root stays; the
/// builder holds one pattern more where it keeps something of `line`, and
/// is as it was where it keeps nothing; the answer says whether the line was
/// taken without an error; and of a line that gives an error nothing is
/// kept.
#[verifier::external_body]
fn builder_add_line(builder: &mut GitignoreBuilder, line: &str) -> (accepted: bool)
    ensures
        builder_root(*final(builder)) == builder_root(*old(builder)),
        builder_lines(*final(builder)) == match line_pattern(line@) {
            Some(pattern) => builder_lines(*old(builder)).push(pattern),
            None => builder_lines(*old(builder)),
        },
        accepted == line_accepted(line@),
        !accepted ==> line_pattern(line@) is None,
{
    builder.add_line(None, line).is_ok()
}

/// Calls `GitignoreBuilder::build`. Trusted: whether a matcher comes back
/// depends on the patterns alone, and one that comes back holds the
/// builder's root and patterns.
#[verifier::external_body]
fn builder_build(builder: &GitignoreBuilder) -> (built: Option<Gitignore>)
    ensures
        built is Some == lines_compile(builder_lines(*builder)),
        built matches Some(matcher) ==> matcher_root(matcher) == builder_root(*builder)
            && matcher_lines(matcher) == builder_lines(*builder),
{
    builder.build().ok()
}

/// Calls `Gitignore::matched`. Trusted: the answer depends on nothing but
/// the root and patterns of the matcher, the path and `is_dir`.
#[verifier::external_body]
fn matcher_matched(matcher: &Gitignore, path: &str, is_dir: bool) -> (verdict: Verdict)
    ensures
        verdict == pattern_verdict(matcher_root(*matcher), matcher_lines(*matcher), path@, is_dir),
{
    match matcher.matched(path, is_dir) {
        ignore::Match::None => Verdict::Unmatched,
        ignore::Match::Ignore(_) => Verdict::Excluded,
        ignore::Match::Whitelist(_) => Verdict::Included,
    }
}

/// The byte order mark, which may open a pattern file.
pub const BYTE_ORDER_MARK: char = '\u{feff}';

/// How many byte order marks `line` begins with.
pub open spec fn leading_marks(line: Seq<char>) -> nat
    decreases line.len(),
{
    if line.len() > 0 && line[0] == BYTE_ORDER_MARK {
        1 + leading_marks(line.drop_first())
    } else {
        0
    }
}

/// `line` without the byte order marks it begins with.
pub open spec fn without_marks(line: Seq<char>) -> Seq<char> {
    line.skip(leading_marks(line) as int)
}

/// The lines of a pattern file as they are handed to the matcher: the first
/// one loses its byte order marks.
pub open spec fn effective_lines(lines: Seq<Seq<char>>) -> Seq<Seq<char>> {
    Seq::new(
        lines.len(),
        |i: int|
            if i == 0 {
                without_marks(lines[i])
            } else {
                lines[i]
            },
    )
}

/// The numbers, counted from 1, of the lines that are no pattern, comment or
/// blank line, in rising order.
pub open spec fn malformed_lines(lines: Seq<Seq<char>>) -> Seq<usize>
    decreases lines.len(),
{
    if lines.len() == 0 {
        Seq::empty()
    } else if line_accepted(lines.last()) {
        malformed_lines(lines.drop_last())
    } else {
        malformed_lines(lines.drop_last()).push(lines.len() as usize)
    }
}

/// What a compiled set of rules holds.
pub ghost struct RuleSource {
    /// The directory to which the patterns are bound.
    pub root: Seq<char>,
    /// The text of the patterns, in the order of the file.
    pub lines: Seq<Seq<char>>,
}

/// What rules from `source` say of `path`; no rules say nothing.
pub open spec fn source_verdict(source: Option<RuleSource>, path: Seq<char>, is_dir: bool) -> Verdict {
    match source {
        None => Verdict::Unmatched,
        Some(s) => pattern_verdict(s.root, s.lines, path, is_dir),
    }
}

/// The rules of one directory.
pub struct RuleSet {
    matcher: Option<Gitignore>,
}

impl RuleSet {
    /// The root and patterns that the rules hold; `None` for a set that
    /// matches nothing.
    pub closed spec fn source(&self) -> Option<RuleSource> {
        match self.matcher {
            None => None,
            Some(m) => Some(RuleSource { root: matcher_root(m), lines: matcher_lines(m) }),
        }
    }

    /// The rules of a directory without a pattern file: they match nothing.
    pub fn empty() -> (rules: RuleSet)
        ensures
            rules.source() is None,
    {
        RuleSet { matcher: None }
    }

    /// Compiles the lines of the pattern file found in `root`. The rules
    /// hold what the matcher keeps of each line; lines that give an error
    /// are left out and reported by number; if the patterns as a whole do
    /// not compile, the rules match nothing.
    pub fn parse(root: &str, lines: &Vec<String>) -> (parsed: (RuleSet, Vec<usize>))
        ensures
            parsed.0.source() == if lines_compile(kept(effective_lines(lines.deep_view()))) {
                Some(
                    RuleSource {
                        root: stored_root(root@),
                        lines: kept(effective_lines(lines.deep_view())),
                    },
                )
            } else {
                None
            },
            parsed.1@ == malformed_lines(effective_lines(lines.deep_view())),
    {
        let ghost given = effective_lines(lines.deep_view());
        let mut builder = builder_new(root);
        let mut malformed: Vec<usize> = Vec::new();
        let mut i: usize = 0;
        while i < lines.len()
            invariant
                i <= lines.len(),
                given == effective_lines(lines.deep_view()),
                builder_root(builder) == stored_root(root@),
                builder_lines(builder) == kept(given.take(i as int)),
                malformed@ == malformed_lines(given.take(i as int)),
            decreases lines.len() - i,
        {
            let line = if i == 0 {
                strip_marks(lines[i].as_str())
            } else {
                lines[i].as_str()
            };
            let accepted = builder_add_line(&mut builder, line);
            proof {
                assert(given.take(i + 1).drop_last() =~= given.take(i as int));
            }
            i = i + 1;
            if !accepted {
                malformed.push(i);
            }
        }
        proof {
            assert(given.take(i as int) =~= given);
        }
        (RuleSet { matcher: builder_build(&builder) }, malformed)
    }

    /// Whether the set holds compiled rules.
    pub fn is_active(&self) -> (active: bool)
        ensures
            active == (self.source() is Some),
    {
        self.matcher.is_some()
    }

    /// What the rules say of `path`.
    pub fn verdict(&self, path: &str, is_dir: bool) -> (verdict: Verdict)
        ensures
            verdict == source_verdict(self.source(), path@, is_dir),
    {
        match &self.matcher {
            None => Verdict::Unmatched,
            Some(m) => matcher_matched(m, path, is_dir),
        }
    }
}

/// The sources of a chain of rule sets, outermost directory first.
pub open spec fn chain_sources(chain: Seq<&RuleSet>) -> Seq<Option<RuleSource>> {
    Seq::new(chain.len(), |i: int| chain[i].source())
}

/// What a chain of rule sets says of `path`. The chain runs from the scanned
/// root down to the directory that holds the path; the set nearest to the
/// path that speaks of it decides, and sets further out are asked only where
/// the nearer ones are silent.
pub open spec fn chain_verdict(chain: Seq<Option<RuleSource>>, path: Seq<char>, is_dir: bool) -> Verdict
    decreases chain.len(),
{
    if chain.len() == 0 {
        Verdict::Unmatched
    } else {
        let nearest = source_verdict(chain.last(), path, is_dir);
        if nearest != Verdict::Unmatched {
            nearest
        } else {
            chain_verdict(chain.drop_last(), path, is_dir)
        }
    }
}

/// The rules of the nearest directory decide wherever they speak: a
/// negation there keeps a path that rules further out exclude, and an
/// exclusion there drops a path that rules further out keep. Rules further
/// out decide only where the nearest are silent.
pub proof fn lemma_nearest_decides(
    outer: Seq<Option<RuleSource>>,
    nearest: Option<RuleSource>,
    path: Seq<char>,
    is_dir: bool,
)
    ensures
        chain_verdict(outer.push(nearest), path, is_dir) == if source_verdict(nearest, path, is_dir)
            != Verdict::Unmatched {
            source_verdict(nearest, path, is_dir)
        } else {
            chain_verdict(outer, path, is_dir)
        },
{
    assert(outer.push(nearest).drop_last() =~= outer);
}

/// Where a chain speaks of a path, one of its rule sets says the same, and
/// every rule set nearer to the path is silent.
pub proof fn lemma_deciding_rules(chain: Seq<Option<RuleSource>>, path: Seq<char>, is_dir: bool)
    requires
        chain_verdict(chain, path, is_dir) != Verdict::Unmatched,
    ensures
        exists|at: int|
            0 <= at < chain.len() && source_verdict(#[trigger] chain[at], path, is_dir)
                == chain_verdict(chain, path, is_dir) && forall|k: int|
                at < k < chain.len() ==> source_verdict(#[trigger] chain[k], path, is_dir)
                    == Verdict::Unmatched,
    decreases chain.len(),
{
    let last = chain.len() - 1;
    if source_verdict(chain.last(), path, is_dir) == Verdict::Unmatched {
        let outer = chain.drop_last();
        lemma_deciding_rules(outer, path, is_dir);
        let at = choose|at: int|
            0 <= at < outer.len() && source_verdict(#[trigger] outer[at], path, is_dir)
                == chain_verdict(outer, path, is_dir) && forall|k: int|
                at < k < outer.len() ==> source_verdict(#[trigger] outer[k], path, is_dir)
                    == Verdict::Unmatched;
        assert forall|k: int| at < k < chain.len() implies source_verdict(
            #[trigger] chain[k],
            path,
            is_dir,
        ) == Verdict::Unmatched by {
            if k < last {
                assert(chain[k] == outer[k]);
            }
        }
    }
}

/// Where no rule set of a chain speaks of a path, the chain does not
/// either; in particular directories without pattern files exclude
/// nothing.
pub proof fn lemma_silent_chain(chain: Seq<Option<RuleSource>>, path: Seq<char>, is_dir: bool)
    requires
        forall|k: int|
            0 <= k < chain.len() ==> source_verdict(#[trigger] chain[k], path, is_dir)
                == Verdict::Unmatched,
    ensures
        chain_verdict(chain, path, is_dir) == Verdict::Unmatched,
    decreases chain.len(),
{
    if chain.len() > 0 {
        lemma_silent_chain(chain.drop_last(), path, is_dir);
    }
}

/// Asks a chain of rule sets, outermost directory first, about `path`.
pub fn judge(chain: &Vec<&RuleSet>, path: &str, is_dir: bool) -> (verdict: Verdict)
    ensures
        verdict == chain_verdict(chain_sources(chain@), path@, is_dir),
{
    let ghost sources = chain_sources(chain@);
    let mut left: usize = chain.len();
    proof {
        assert(sources.take(left as int) =~= sources);
    }
    while left > 0
        invariant
            left <= chain.len(),
            sources == chain_sources(chain@),
            chain_verdict(sources, path@, is_dir) == chain_verdict(
                sources.take(left as int),
                path@,
                is_dir,
            ),
        decreases left,
    {
        let verdict = chain[left - 1].verdict(path, is_dir);
        proof {
            let shown = sources.take(left as int);
            assert(shown.drop_last() =~= sources.take(left - 1));
        }
        match verdict {
            Verdict::Unmatched => {},
            _ => {
                return verdict;
            },
        }
        left = left - 1;
    }
    Verdict::Unmatched
}

/// `line` without the byte order marks it begins with.
pub fn strip_marks(line: &str) -> (rest: &str)
    ensures
        rest@ == without_marks(line@),
{
    let total = line.unicode_len();
    let mut marks: usize = 0;
    assert(line@.skip(0) =~= line@);
    while marks < total && line.get_char(marks) == BYTE_ORDER_MARK
        invariant
            marks <= total,
            total == line@.len(),
            leading_marks(line@) == marks + leading_marks(line@.skip(marks as int)),
        decreases total - marks,
    {
        proof {
            assert(line@.skip(marks as int).drop_first() =~= line@.skip(marks + 1));
        }
        marks = marks + 1;
    }
    line.substring_char(marks, total)
}

} // verus!
