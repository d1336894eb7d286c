//! The extension of a path and the fixed list of extensions that count.

use vstd::prelude::*;
use vstd::string::*;

verus! {

/// The character that parts the segments of a path.
pub const SEPARATOR: char = '/';

/// The character that opens an extension.
pub const DOT: char = '.';

/// How many extensions the allow-list holds.
pub const ALLOWED_COUNT: usize = 14;

/// The extensions that count, in their fixed order.
pub open spec fn allow_list() -> Seq<Seq<char>> {
    seq![
        "ts"@,
        "tsx"@,
        "md"@,
        "rs"@,
        "py"@,
        "js"@,
        "jsx"@,
        "html"@,
        "css"@,
        "scss"@,
        "json"@,
        "yaml"@,
        "yml"@,
        "toml"@,
    ]
}

/// Whether `extension` is on the allow-list, letter for letter.
pub open spec fn is_allowed(extension: Seq<char>) -> bool {
    allow_list().contains(extension)
}

/// Where the final segment of `path` begins: behind its last separator, or
/// at 0 where it has none.
pub open spec fn segment_start(path: Seq<char>) -> nat
    decreases path.len(),
{
    if path.len() == 0 {
        0
    } else if path.last() == SEPARATOR {
        path.len()
    } else {
        segment_start(path.drop_last())
    }
}

/// The final segment of `path`: what follows its last separator.
pub open spec fn final_segment(path: Seq<char>) -> Seq<char> {
    path.skip(segment_start(path) as int)
}

/// The place of the last dot in `text`, if it has one.
pub open spec fn last_dot(text: Seq<char>) -> Option<int>
    decreases text.len(),
{
    if text.len() == 0 {
        None
    } else if text.last() == DOT {
        Some(text.len() - 1)
    } else {
        last_dot(text.drop_last())
    }
}

/// The extension of `path`: the text behind the last dot of its final
/// segment. A final segment without a dot has none; one that ends in a dot
/// has the empty one.
pub open spec fn extension_of(path: Seq<char>) -> Option<Seq<char>> {
    let segment = final_segment(path);
    match last_dot(segment) {
        Some(at) => Some(segment.skip(at + 1)),
        None => None,
    }
}

/// The extension under which a file at `path` is counted: its own, if that
/// is on the allow-list.
pub open spec fn classification(path: Seq<char>) -> Option<Seq<char>> {
    match extension_of(path) {
        Some(extension) => if is_allowed(extension) {
            Some(extension)
        } else {
            None
        },
        None => None,
    }
}

/// The final segment begins inside the path, right behind a separator
/// unless it begins the path, and holds no separator itself.
pub proof fn lemma_final_segment(path: Seq<char>)
    ensures
        segment_start(path) <= path.len(),
        segment_start(path) > 0 ==> path[segment_start(path) - 1] == SEPARATOR,
        !final_segment(path).contains(SEPARATOR),
    decreases path.len(),
{
    if path.len() > 0 && path.last() != SEPARATOR {
        let shorter = path.drop_last();
        lemma_final_segment(shorter);
        let start = segment_start(path) as int;
        assert forall|i: int| 0 <= i < final_segment(path).len() implies final_segment(path)[i]
            != SEPARATOR by {
            if start + i < shorter.len() {
                assert(final_segment(shorter)[i] == shorter[start + i]);
            }
        }
    }
}

/// The last dot lies inside the text, is a dot, and no dot follows it; a
/// text without one holds no dot.
pub proof fn lemma_last_dot(text: Seq<char>)
    ensures
        match last_dot(text) {
            Some(at) => 0 <= at < text.len() && text[at] == DOT && !text.skip(at + 1).contains(
                DOT,
            ),
            None => !text.contains(DOT),
        },
    decreases text.len(),
{
    if text.len() > 0 && text.last() != DOT {
        let shorter = text.drop_last();
        lemma_last_dot(shorter);
        match last_dot(shorter) {
            Some(at) => {
                let tail = text.skip(at + 1);
                assert forall|i: int| 0 <= i < tail.len() implies tail[i] != DOT by {
                    if at + 1 + i < shorter.len() {
                        assert(shorter.skip(at + 1)[i] == shorter[at + 1 + i]);
                    }
                }
            },
            None => {
                assert forall|i: int| 0 <= i < text.len() implies text[i] != DOT by {
                    if i < shorter.len() {
                        assert(shorter.contains(shorter[i]));
                    }
                }
            },
        }
    }
}

/// How the extension changes when a path grows by one character: a
/// separator ends it, a dot opens an empty one, and any other character
/// lengthens the one that is open.
pub proof fn lemma_extension_push(path: Seq<char>, c: char)
    ensures
        extension_of(path.push(c)) == if c == SEPARATOR {
            None
        } else if c == DOT {
            Some(Seq::<char>::empty())
        } else {
            match extension_of(path) {
                Some(extension) => Some(extension.push(c)),
                None => None,
            }
        },
{
    let longer = path.push(c);
    assert(longer.drop_last() =~= path);
    lemma_final_segment(path);
    if c != SEPARATOR {
        let segment = final_segment(path);
        assert(final_segment(longer) =~= segment.push(c));
        assert(segment.push(c).drop_last() =~= segment);
        if c != DOT {
            lemma_last_dot(segment);
        }
    }
}

/// The allow-list as a value, in its fixed order.
pub fn allowed_extensions() -> (list: Vec<&'static str>)
    ensures
        list@.len() == ALLOWED_COUNT,
        forall|k: int| 0 <= k < list@.len() ==> (#[trigger] list@[k])@ == allow_list()[k],
{
    let mut list: Vec<&'static str> = Vec::new();
    list.push("ts");
    list.push("tsx");
    list.push("md");
    list.push("rs");
    list.push("py");
    list.push("js");
    list.push("jsx");
    list.push("html");
    list.push("css");
    list.push("scss");
    list.push("json");
    list.push("yaml");
    list.push("yml");
    list.push("toml");
    list
}

/// The characters of `text`, in order.
fn chars_of(text: &str) -> (chars: Vec<char>)
    ensures
        chars@ == text@,
{
    let mut chars: Vec<char> = Vec::new();
    for c in it: text.chars()
        invariant
            it.seq() == text@,
            chars@ =~= text@.take(it.index() as int),
    {
        chars.push(c);
    }
    chars
}

/// Whether two lists hold the same characters in the same order.
fn same_chars(left: &Vec<char>, right: &Vec<char>) -> (same: bool)
    ensures
        same == (left@ == right@),
{
    if left.len() != right.len() {
        return false;
    }
    let mut at: usize = 0;
    while at < left.len()
        invariant
            at <= left.len(),
            left.len() == right.len(),
            forall|k: int| 0 <= k < at ==> left@[k] == right@[k],
        decreases left.len() - at,
    {
        if left[at] != right[at] {
            return false;
        }
        at = at + 1;
    }
    assert(left@ =~= right@);
    true
}

/// The extension of `path` as a list of characters, if it has one.
fn extension_chars(path: &str) -> (found: Option<Vec<char>>)
    ensures
        match found {
            Some(chars) => extension_of(path@) == Some(chars@),
            None => extension_of(path@) is None,
        },
{
    let mut open = false;
    let mut chars: Vec<char> = Vec::new();
    for c in it: path.chars()
        invariant
            it.seq() == path@,
            open == (extension_of(path@.take(it.index() as int)) is Some),
            open ==> extension_of(path@.take(it.index() as int)) == Some(chars@),
    {
        proof {
            let seen = path@.take(it.index() as int);
            lemma_extension_push(seen, c);
            assert(path@.take(it.index() + 1) =~= seen.push(c));
        }
        if c == SEPARATOR {
            open = false;
            chars = Vec::new();
        } else if c == DOT {
            open = true;
            chars = Vec::new();
        } else if open {
            chars.push(c);
        }
    }
    proof {
        assert(path@.take(path@.len() as int) =~= path@);
    }
    if open {
        Some(chars)
    } else {
        None
    }
}

/// Decides whether a file at `path` counts. It does where its extension is
/// on the allow-list, and the answer then holds that extension.
pub fn classify(path: &str) -> (accepted: Option<String>)
    ensures
        match accepted {
            Some(extension) => classification(path@) == Some(extension@),
            None => classification(path@) is None,
        },
{
    match extension_chars(path) {
        None => None,
        Some(chars) => {
            let list = allowed_extensions();
            let mut index: usize = 0;
            while index < list.len()
                invariant
                    index <= list@.len() == ALLOWED_COUNT,
                    extension_of(path@) == Some(chars@),
                    forall|k: int| 0 <= k < list@.len() ==> (#[trigger] list@[k])@ == allow_list()[k],
                    forall|k: int| 0 <= k < index ==> allow_list()[k] != chars@,
                decreases list.len() - index,
            {
                let entry = list[index];
                let spelled = chars_of(entry);
                if same_chars(&spelled, &chars) {
                    return Some(entry.to_owned());
                }
                index = index + 1;
            }
            None
        },
    }
}

} // verus!
