//! The set of changed files, as a diff reports it: a text of paths set apart
//! by white space.

use vstd::prelude::*;
use crate::paths::contains_path;

verus! {

/// The characters that set paths apart: space, tab, line feed, form feed and
/// carriage return.
pub open spec fn is_separator(c: char) -> bool {
    c == ' ' || c == '\t' || c == '\n' || c == '\x0C' || c == '\r'
}

/// The paths that `text` lists: its longest stretches without a separator, in
/// their order. Read from the left, a character that is no separator goes on
/// with the path before it, or begins one after a separator.
pub open spec fn split_paths(text: Seq<char>) -> Seq<Seq<char>>
    decreases text.len(),
{
    if text.len() == 0 {
        Seq::empty()
    } else {
        let front = text.drop_last();
        let paths = split_paths(front);
        if is_separator(text.last()) {
            paths
        } else if front.len() > 0 && !is_separator(front.last()) {
            paths.update(paths.len() - 1, paths.last().push(text.last()))
        } else {
            paths.push(seq![text.last()])
        }
    }
}

/// A path as a diff can name it: not empty, and without a separator in it.
pub open spec fn is_path(path: Seq<char>) -> bool {
    path.len() > 0 && forall|i: int| 0 <= i < path.len() ==> !is_separator(#[trigger] path[i])
}

/// Whether `c` sets paths apart.
pub fn separates(c: char) -> (b: bool)
    ensures
        b == is_separator(c),
{
    c == ' ' || c == '\t' || c == '\n' || c == '\x0C' || c == '\r'
}

/// The changed files of one run, in the order in which the diff named them.
/// Only which paths are among them counts; the order serves the report.
#[derive(Debug)]
pub struct ChangeSet {
    files: Vec<String>,
}

impl View for ChangeSet {
    type V = Seq<Seq<char>>;

    /// The paths as they were named, repetitions included.
    closed spec fn view(&self) -> Seq<Seq<char>> {
        self.files.deep_view()
    }
}

impl ChangeSet {
    /// The paths that are among the changed files.
    pub open spec fn members(&self) -> Set<Seq<char>> {
        self@.to_set()
    }

    /// The change set of the given paths.
    pub fn new(files: Vec<String>) -> (changed: ChangeSet)
        ensures
            changed@ == files.deep_view(),
    {
        ChangeSet { files }
    }

    /// The change set that the output of a diff lists.
    pub fn parse(output: &str) -> (changed: ChangeSet)
        ensures
            changed@ == split_paths(output@),
    {
        let chars = characters(output);
        let n = chars.len();
        let ascii = output.is_ascii();
        let mut files: Vec<String> = Vec::new();
        let mut i: usize = 0;
        while i < n
            invariant
                n == chars.len(),
                chars@ == output@,
                ascii == output.is_ascii(),
                i <= n,
                i < n ==> i == 0 || is_separator(output@[i - 1]),
                files.deep_view() == split_paths(output@.take(i as int)),
            decreases n - i,
        {
            if separates(chars[i]) {
                assert(output@.take(i + 1).drop_last() =~= output@.take(i as int));
                i += 1;
            } else {
                let start = i;
                let ghost before = files.deep_view();
                proof {
                    let first = output@.take(i + 1);
                    assert(first.drop_last() =~= output@.take(i as int));
                    assert(seq![output@[i as int]] =~= output@.subrange(start as int, i + 1));
                }
                i += 1;
                while i < n && !separates(chars[i])
                    invariant
                        n == chars.len(),
                        chars@ == output@,
                        start < i <= n,
                        !is_separator(output@[i - 1]),
                        split_paths(output@.take(i as int)) == before.push(
                            output@.subrange(start as int, i as int),
                        ),
                    decreases n - i,
                {
                    proof {
                        let next = output@.take(i + 1);
                        assert(next.drop_last() =~= output@.take(i as int));
                        assert(output@.subrange(start as int, i as int).push(output@[i as int])
                            =~= output@.subrange(start as int, i + 1));
                    }
                    i += 1;
                }
                // A text in ASCII is cut in place; any other is read from its start.
                let path = if ascii {
                    output.substring_ascii(start, i)
                } else {
                    output.substring_char(start, i)
                };
                files.push(path.to_owned());
                if i < n {
                    assert(output@.take(i + 1).drop_last() =~= output@.take(i as int));
                    i += 1;
                }
            }
        }
        assert(output@.take(i as int) =~= output@);
        ChangeSet { files }
    }

    /// The changed files in the order in which they were named.
    pub fn files(&self) -> (files: &Vec<String>)
        ensures
            files.deep_view() == self@,
    {
        &self.files
    }

    /// Whether `path` is among the changed files.
    pub fn contains(&self, path: &String) -> (found: bool)
        ensures
            found == self.members().contains(path@),
    {
        contains_path(&self.files, path)
    }
}

/// What `split_paths` finds are paths; and a text that does not end in a
/// separator ends in the last of them.
pub proof fn lemma_split_paths_are_paths(text: Seq<char>)
    ensures
        forall|i: int|
            0 <= i < split_paths(text).len() ==> is_path(#[trigger] split_paths(text)[i]),
        text.len() > 0 && !is_separator(text.last()) ==> split_paths(text).len() > 0,
    decreases text.len(),
{
    if text.len() > 0 {
        let front = text.drop_last();
        lemma_split_paths_are_paths(front);
        if !is_separator(text.last()) && front.len() > 0 && !is_separator(front.last()) {
            let paths = split_paths(front);
            let grown = paths.last().push(text.last());
            assert(is_path(paths[paths.len() - 1]));
            assert forall|j: int| 0 <= j < grown.len() implies !is_separator(
                #[trigger] grown[j],
            ) by {
                if j < paths.last().len() {
                    assert(grown[j] == paths.last()[j]);
                }
            }
        }
    }
}

/// A text that is one path lists that path.
pub proof fn lemma_split_paths_of_path(text: Seq<char>)
    requires
        is_path(text),
    ensures
        split_paths(text) == seq![text],
    decreases text.len(),
{
    let front = text.drop_last();
    if front.len() > 0 {
        assert forall|i: int| 0 <= i < front.len() implies !is_separator(#[trigger] front[i]) by {
            assert(front[i] == text[i]);
        }
        lemma_split_paths_of_path(front);
        assert(front.push(text.last()) =~= text);
    } else {
        assert(split_paths(front) =~= Seq::empty());
        assert(seq![text.last()] =~= text);
    }
}

/// A separator parts a text: what the text lists is what stands before the
/// separator, then what stands after it.
pub proof fn lemma_split_paths_at_separator(before: Seq<char>, c: char, after: Seq<char>)
    requires
        is_separator(c),
    ensures
        split_paths(before + seq![c] + after) == split_paths(before) + split_paths(after),
    decreases after.len(),
{
    let text = before + seq![c] + after;
    if after.len() == 0 {
        assert(text.drop_last() =~= before);
    } else {
        let shorter = after.drop_last();
        let front = before + seq![c] + shorter;
        lemma_split_paths_at_separator(before, c, shorter);
        lemma_split_paths_are_paths(shorter);
        assert(text.drop_last() =~= front);
    }
}

/// The characters of `text`.
fn characters(text: &str) -> (chars: Vec<char>)
    ensures
        chars@ == text@,
{
    let mut chars: Vec<char> = Vec::new();
    for c in it: text.chars()
        invariant
            it.seq() == text@,
            chars@ == text@.take(it.index()),
    {
        chars.push(c);
    }
    chars
}

} // verus!
