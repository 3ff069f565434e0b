//! The decisions of the desktop window that do not depend on drawing it: which
//! files are selected after a click, how many tokens the selection holds, the
//! order of the token counts, and the filter patterns typed by the user.
use vstd::prelude::*;
use std::collections::HashSet;
use crate::desktop::fs_ops::{all_decided, all_separator_free, filter_verdict, filtered_out, texts_of, FileInfo};
use crate::desktop::file_list::{dir_of_path, file_dirs, file_parents, file_paths};
use crate::desktop::file_tree::all_simple;
use crate::glob_patterns::{compile_pattern, glob_compiles, glob_decides, glob_matches, pattern_matches, separator_free};
use crate::ordering::{insert_in_order, insertion_point, lemma_insert_at_point, lemma_sort_multiset, lemma_sort_sorted, sort_in_order, total_preorder};
use crate::text::{ascii_blank, chars_of, decimal, push_decimal, is_white_space, is_whitespace, lemma_take_push, string_from_chars, occurs_at, occurs_at_exec, spec_to_lowercase, to_lowercase};

verus! {

broadcast use vstd::std_specs::hash::group_hash_axioms;

/// The colour theme of the window.
#[derive(Debug, Clone, Copy, PartialEq, Eq)]
pub enum ThemeType {
    Light,
    Dark,
    Auto,
}

/// The indices from `lo` to `hi`, both included.
pub open spec fn index_range(lo: usize, hi: usize) -> Set<usize> {
    Set::new(|i: usize| lo <= i && i <= hi)
}

/// The selection after clicking `index`: with Ctrl/Alt held, or with no
/// modifier, the clicked file's selection is toggled; with Shift held, the
/// range from the previous click to this one is added, or, without a previous
/// click, only the clicked file stays selected.
pub open spec fn clicked(selected: Set<usize>, last: Option<usize>, index: usize, cmd: bool, shift: bool) -> Set<usize> {
    if !cmd && shift {
        match last {
            Some(l) => selected.union(
                if l <= index {
                    index_range(l, index)
                } else {
                    index_range(index, l)
                },
            ),
            None => Set::empty().insert(index),
        }
    } else if selected.contains(index) {
        selected.remove(index)
    } else {
        selected.insert(index)
    }
}

/// Clicking the same file twice without Shift gives back the selection
/// before the first click.
pub proof fn lemma_click_twice_restores(selected: Set<usize>, last: Option<usize>, index: usize, cmd: bool)
    ensures
        clicked(clicked(selected, last, index, cmd, false), Some(index), index, cmd, false) == selected,
{
    assert(clicked(clicked(selected, last, index, cmd, false), Some(index), index, cmd, false) =~= selected);
}

/// A Shift-click after an earlier click keeps the selection and adds every
/// file between the two clicks, both included.
pub proof fn lemma_shift_click_range(selected: Set<usize>, last: usize, index: usize, k: usize)
    requires
        (last <= k && k <= index) || (index <= k && k <= last),
    ensures
        clicked(selected, Some(last), index, false, true).contains(k),
        selected.subset_of(clicked(selected, Some(last), index, false, true)),
{
}

/// No file is selected: the selection holds no tokens.
pub proof fn lemma_no_selection_no_tokens(counts: Seq<(usize, usize)>)
    ensures
        selected_tokens(counts, Set::empty()) == 0,
    decreases counts.len(),
{
    if counts.len() > 0 {
        lemma_no_selection_no_tokens(counts.drop_last());
    }
}

/// The files selected in the list, by index, and the last one clicked.
pub struct Selection {
    selected_files: HashSet<usize>,
    last_selected: Option<usize>,
}

/// The tokens of the selected files: the sum of the counts whose index is selected.
pub open spec fn selected_tokens(counts: Seq<(usize, usize)>, selected: Set<usize>) -> nat
    decreases counts.len(),
{
    if counts.len() == 0 {
        0
    } else {
        selected_tokens(counts.drop_last(), selected) + if selected.contains(counts.last().0) {
            counts.last().1 as nat
        } else {
            0nat
        }
    }
}

/// The tokens of all files.
pub open spec fn all_tokens(counts: Seq<(usize, usize)>) -> nat
    decreases counts.len(),
{
    if counts.len() == 0 {
        0
    } else {
        all_tokens(counts.drop_last()) + counts.last().1 as nat
    }
}

pub proof fn lemma_selected_at_most_all(counts: Seq<(usize, usize)>, selected: Set<usize>)
    ensures
        selected_tokens(counts, selected) <= all_tokens(counts),
    decreases counts.len(),
{
    if counts.len() > 0 {
        lemma_selected_at_most_all(counts.drop_last(), selected);
    }
}

impl Selection {
    /// The selected indices.
    pub closed spec fn selected(&self) -> Set<usize> {
        self.selected_files@
    }

    /// The last index clicked.
    pub closed spec fn last(&self) -> Option<usize> {
        self.last_selected
    }

    /// Nothing selected.
    pub fn new() -> (r: Self)
        ensures
            r.selected() == Set::<usize>::empty(),
            r.last() is None,
    {
        Selection { selected_files: HashSet::new(), last_selected: None }
    }

    /// Whether `index` is selected.
    pub fn is_selected(&self, index: usize) -> (r: bool)
        ensures
            r == self.selected().contains(index),
    {
        self.selected_files.contains(&index)
    }

    /// How many indices are selected.
    pub fn count(&self) -> (r: usize)
        ensures
            r == self.selected().len(),
    {
        self.selected_files.len()
    }

    /// Whether nothing is selected.
    pub fn is_empty(&self) -> (r: bool)
        ensures
            r == (self.selected() == Set::<usize>::empty()),
    {
        let r = self.selected_files.is_empty();
        r
    }

    fn insert_range(&mut self, lo: usize, hi: usize)
        requires
            lo <= hi,
        ensures
            final(self).selected() == old(self).selected().union(index_range(lo, hi)),
            final(self).last() == old(self).last(),
    {
        let mut i = lo;
        loop
            invariant
                lo <= i <= hi,
                self.selected() == old(self).selected().union(
                    Set::new(|k: usize| lo <= k && k < i),
                ),
                self.last() == old(self).last(),
            decreases hi - i,
        {
            self.selected_files.insert(i);
            if i == hi {
                assert(self.selected() =~= old(self).selected().union(index_range(lo, hi)));
                return;
            }
            assert(self.selected() =~= old(self).selected().union(Set::new(|k: usize| lo <= k && k < i + 1)));
            i = i + 1;
        }
    }

    /// Handles a click on the file at `index`, with Ctrl/Alt (`cmd_pressed`)
    /// or Shift held or not (see `clicked`). The clicked file becomes the
    /// last one clicked.
    pub fn click(&mut self, index: usize, cmd_pressed: bool, shift_pressed: bool)
        ensures
            final(self).selected() == clicked(old(self).selected(), old(self).last(), index, cmd_pressed, shift_pressed),
            final(self).last() == Some(index),
    {
        if cmd_pressed || !shift_pressed {
            if self.selected_files.contains(&index) {
                self.selected_files.remove(&index);
            } else {
                self.selected_files.insert(index);
            }
        } else {
            match self.last_selected {
                Some(last) => {
                    if last <= index {
                        self.insert_range(last, index);
                    } else {
                        self.insert_range(index, last);
                    }
                },
                None => {
                    self.selected_files.clear();
                    self.selected_files.insert(index);
                },
            }
        }
        self.last_selected = Some(index);
        proof {
            if cmd_pressed || !shift_pressed {
                assert(self.selected() =~= clicked(old(self).selected(), old(self).last(), index, cmd_pressed, shift_pressed));
            }
        }
    }

    /// Selects every file of a list of `n`.
    pub fn select_all(&mut self, n: usize)
        ensures
            final(self).selected() == old(self).selected().union(Set::new(|i: usize| i < n)),
            final(self).last() == old(self).last(),
    {
        if n > 0 {
            self.insert_range(0, n - 1);
        }
        assert(self.selected() =~= old(self).selected().union(Set::new(|i: usize| i < n)));
    }

    /// Clears the selection and forgets the last click.
    pub fn clear(&mut self)
        ensures
            final(self).selected() == Set::<usize>::empty(),
            final(self).last() is None,
    {
        self.selected_files.clear();
        self.last_selected = None;
    }

    /// Deselects every file, keeping the last click.
    pub fn clear_files(&mut self)
        ensures
            final(self).selected() == Set::<usize>::empty(),
            final(self).last() == old(self).last(),
    {
        self.selected_files.clear();
    }

    /// Selects (when `selected`) or deselects every file whose directory is
    /// `folder`; `parents[i]` is the directory of file `i`.
    pub fn select_folder(&mut self, folder: &str, parents: &[String], selected: bool)
        ensures
            final(self).last() == old(self).last(),
            selected ==> final(self).selected() == old(self).selected().union(
                Set::new(|i: usize| i < parents@.len() && parents@[i as int]@ == folder@),
            ),
            !selected ==> final(self).selected() == old(self).selected().difference(
                Set::new(|i: usize| i < parents@.len() && parents@[i as int]@ == folder@),
            ),
    {
        let folder_chars = chars_of(folder);
        let ghost in_folder = Set::new(|i: usize| i < parents@.len() && parents@[i as int]@ == folder@);
        let n = parents.len();
        for i in 0..n
            invariant
                n == parents@.len(),
                folder_chars@ == folder@,
                in_folder == Set::new(|i: usize| i < parents@.len() && parents@[i as int]@ == folder@),
                self.last() == old(self).last(),
                selected ==> self.selected() == old(self).selected().union(
                    Set::new(|k: usize| k < i && parents@[k as int]@ == folder@),
                ),
                !selected ==> self.selected() == old(self).selected().difference(
                    Set::new(|k: usize| k < i && parents@[k as int]@ == folder@),
                ),
        {
            let parent = chars_of(parents[i].as_str());
            let same = parent.len() == folder_chars.len() && crate::text::starts_with(parent.as_slice(), folder_chars.as_slice());
            assert(same == (parents@[i as int]@ == folder@)) by {
                assert(parent@.subrange(0, parent@.len() as int) =~= parent@);
            }
            if same {
                if selected {
                    self.selected_files.insert(i);
                } else {
                    self.selected_files.remove(&i);
                }
            }
            if selected {
                assert(self.selected() =~= old(self).selected().union(
                    Set::new(|k: usize| k < i + 1 && parents@[k as int]@ == folder@),
                ));
            } else {
                assert(self.selected() =~= old(self).selected().difference(
                    Set::new(|k: usize| k < i + 1 && parents@[k as int]@ == folder@),
                ));
            }
        }
        if selected {
            assert(self.selected() =~= old(self).selected().union(in_folder));
        } else {
            assert(self.selected() =~= old(self).selected().difference(in_folder));
        }
    }

    /// The selected indices below `n`, in ascending order.
    pub fn selected_below(&self, n: usize) -> (r: Vec<usize>)
        ensures
            forall|k: int| 0 <= k < r@.len() ==> r@[k] < n && self.selected().contains(#[trigger] r@[k]),
            forall|i: usize| i < n && self.selected().contains(i) ==> r@.contains(i),
            forall|a: int, b: int| 0 <= a < b < r@.len() ==> r@[a] < r@[b],
    {
        let mut r: Vec<usize> = Vec::new();
        for i in 0..n
            invariant
                forall|k: int| 0 <= k < r@.len() ==> r@[k] < i && self.selected().contains(#[trigger] r@[k]),
                forall|j: usize| j < i && self.selected().contains(j) ==> r@.contains(j),
                forall|a: int, b: int| 0 <= a < b < r@.len() ==> r@[a] < r@[b],
        {
            if self.selected_files.contains(&i) {
                let ghost before = r@;
                r.push(i);
                assert forall|j: usize| j < i + 1 && self.selected().contains(j) implies r@.contains(j) by {
                    if j == i {
                        assert(r@[r@.len() - 1] == i);
                    } else {
                        let k = choose|k: int| 0 <= k < before.len() && before[k] == j;
                        assert(r@[k] == j);
                    }
                }
            }
        }
        r
    }

    /// The tokens of the selected files (see `selected_tokens`); the counts
    /// must not add up to more than `usize::MAX`.
    pub fn total_tokens(&self, token_counts: &[(usize, usize)]) -> (r: usize)
        requires
            all_tokens(token_counts@) <= usize::MAX,
        ensures
            r == selected_tokens(token_counts@, self.selected()),
    {
        let mut total: usize = 0;
        for i in 0..token_counts.len()
            invariant
                all_tokens(token_counts@) <= usize::MAX,
                total == selected_tokens(token_counts@.take(i as int), self.selected()),
        {
            let (idx, count) = token_counts[i];
            let ghost t = token_counts@.take(i + 1);
            assert(t.drop_last() == token_counts@.take(i as int));
            proof {
                lemma_selected_at_most_all(t, self.selected());
                lemma_all_tokens_prefix(token_counts@, i + 1);
            }
            if self.selected_files.contains(&idx) {
                total = total + count;
            }
        }
        assert(token_counts@.take(token_counts@.len() as int) == token_counts@);
        total
    }
}

proof fn lemma_all_tokens_prefix(counts: Seq<(usize, usize)>, k: int)
    requires
        0 <= k <= counts.len(),
    ensures
        all_tokens(counts.take(k)) <= all_tokens(counts),
    decreases counts.len() - k,
{
    if k < counts.len() {
        lemma_all_tokens_prefix(counts, k + 1);
        assert(counts.take(k + 1).drop_last() == counts.take(k));
    } else {
        assert(counts.take(k) == counts);
    }
}

/// The number of words of `s`: runs of characters that are not whitespace.
pub open spec fn word_count(s: Seq<char>) -> nat
    decreases s.len(),
{
    if s.len() == 0 {
        0
    } else {
        word_count(s.drop_last()) + if !is_white_space(s.last()) && (s.len() == 1 || is_white_space(s[s.len() - 2])) {
            1nat
        } else {
            0nat
        }
    }
}

/// The word count depends only on which characters are whitespace.
proof fn lemma_word_count_follows_blanks(s: Seq<char>, t: Seq<char>)
    requires
        s.len() == t.len(),
        forall|k: int| 0 <= k < s.len() ==> is_white_space(s[k]) == is_white_space(t[k]),
    ensures
        word_count(s) == word_count(t),
    decreases s.len(),
{
    if s.len() > 0 {
        assert(s.last() == s[s.len() - 1] && t.last() == t[t.len() - 1]);
        if s.len() > 1 {
            assert(is_white_space(s[s.len() - 2]) == is_white_space(t[t.len() - 2]));
        }
        lemma_word_count_follows_blanks(s.drop_last(), t.drop_last());
    }
}

/// Words are separated by any whitespace alike: putting one whitespace
/// character in place of another (a tab for a space, a newline for a tab,
/// ...) never changes the token count.
pub proof fn lemma_tokens_any_whitespace(s: Seq<char>, i: int, c: char)
    requires
        0 <= i < s.len(),
        is_white_space(s[i]),
        is_white_space(c),
    ensures
        word_count(s.update(i, c)) == word_count(s),
{
    lemma_word_count_follows_blanks(s.update(i, c), s);
}

/// In particular every ASCII blank (tab, line feed, vertical tab, form
/// feed, carriage return, space) separates words as a space does.
pub proof fn lemma_tokens_ascii_blanks(s: Seq<char>, i: int, c: char)
    requires
        0 <= i < s.len(),
        s[i] == ' ',
        ascii_blank(c),
    ensures
        word_count(s.update(i, c)) == word_count(s),
{
    lemma_tokens_any_whitespace(s, i, c);
}

/// A text without whitespace is one token, or none when empty; a text of
/// whitespace only has none.
pub proof fn lemma_tokens_of_one_run(s: Seq<char>)
    ensures
        (forall|k: int| 0 <= k < s.len() ==> !is_white_space(s[k])) ==> word_count(s) == if s.len() == 0 {
            0nat
        } else {
            1nat
        },
        (forall|k: int| 0 <= k < s.len() ==> is_white_space(s[k])) ==> word_count(s) == 0,
    decreases s.len(),
{
    if s.len() > 0 {
        lemma_tokens_of_one_run(s.drop_last());
        assert(s.last() == s[s.len() - 1]);
        if s.len() > 1 {
            assert(s[s.len() - 2] == s.drop_last()[s.len() - 2]);
        }
        assert((forall|k: int| 0 <= k < s.len() ==> !is_white_space(s[k])) ==> (forall|k: int|
            0 <= k < s.drop_last().len() ==> !is_white_space(s.drop_last()[k])));
        assert((forall|k: int| 0 <= k < s.len() ==> is_white_space(s[k])) ==> (forall|k: int|
            0 <= k < s.drop_last().len() ==> is_white_space(s.drop_last()[k])));
    }
}

/// Joining two texts with a blank between them adds their token counts.
pub proof fn lemma_tokens_add_up(a: Seq<char>, c: char, b: Seq<char>)
    requires
        ascii_blank(c),
    ensures
        word_count(a + seq![c] + b) == word_count(a) + word_count(b),
    decreases b.len(),
{
    let s = a + seq![c] + b;
    if b.len() == 0 {
        assert(s.drop_last() =~= a);
        assert(s.last() == c);
    } else {
        lemma_tokens_add_up(a, c, b.drop_last());
        assert(s.drop_last() =~= a + seq![c] + b.drop_last());
        assert(s.last() == b.last());
        assert(s[s.len() - 2] == if b.len() == 1 { c } else { b[b.len() - 2] });
    }
}

/// Counts the tokens of a file's content: its whitespace-separated words.
pub fn count_tokens(content: &str) -> (r: usize)
    ensures
        r == word_count(content@),
{
    let s = chars_of(content);
    let mut count: usize = 0;
    for i in 0..s.len()
        invariant
            s@ == content@,
            count == word_count(s@.take(i as int)),
            count <= i,
    {
        assert(s@.take(i + 1).drop_last() == s@.take(i as int));
        if !is_whitespace(s[i]) && (i == 0 || is_whitespace(s[i - 1])) {
            count = count + 1;
        }
    }
    assert(s@.take(s@.len() as int) == s@);
    count
}

/// The order of token counts: more tokens first.
pub open spec fn more_tokens_first() -> spec_fn((usize, usize), (usize, usize)) -> bool {
    |a: (usize, usize), b: (usize, usize)| a.1 >= b.1
}

/// Orders `(index, count)` pairs by count, highest first, keeping the order
/// of equal counts.
pub fn sort_token_counts(counts: Vec<(usize, usize)>) -> (r: Vec<(usize, usize)>)
    ensures
        r@ == sort_in_order(counts@, more_tokens_first()),
{
    let ghost orig = counts@;
    let mut out: Vec<(usize, usize)> = Vec::new();
    for x in it: counts
        invariant
            it.seq() == orig,
            out@ == sort_in_order(orig.take(it.index() as int), more_tokens_first()),
    {
        let ghost prefix = orig.take(it.index() as int);
        let mut pos = out.len();
        while pos > 0 && out[pos - 1].1 < x.1
            invariant
                pos <= out@.len(),
                forall|k: int| pos <= k < out@.len() ==> (#[trigger] out@[k]).1 < x.1,
            decreases pos,
        {
            pos = pos - 1;
        }
        proof {
            assert(insertion_point(out@, x, pos as int, more_tokens_first()));
            lemma_insert_at_point(out@, x, pos as int, more_tokens_first());
            assert(orig.take(it.index() + 1).drop_last() == prefix);
        }
        out.insert(pos, x);
    }
    assert(orig.take(orig.len() as int) == orig);
    out
}

/// The token count of each file, by index: the words of its content, or 0
/// when it could not be read.
pub open spec fn file_token_counts(contents: Seq<Option<String>>) -> Seq<(usize, usize)> {
    Seq::new(
        contents.len(),
        |i: int| (i as usize, match contents[i] {
            Some(c) => word_count(c@) as usize,
            None => 0usize,
        }),
    )
}

/// Counts the tokens of the scanned files and orders the counts, highest
/// first; `contents[i]` is the content of file `i`, or `None` when it could
/// not be read as text.
pub fn token_counts(contents: &[Option<String>]) -> (r: Vec<(usize, usize)>)
    ensures
        r@ == sort_in_order(file_token_counts(contents@), more_tokens_first()),
{
    let ghost all = file_token_counts(contents@);
    let mut counts: Vec<(usize, usize)> = Vec::new();
    for i in 0..contents.len()
        invariant
            all == file_token_counts(contents@),
            counts@ == all.take(i as int),
    {
        let count = match &contents[i] {
            Some(c) => count_tokens(c.as_str()),
            None => 0,
        };
        counts.push((i, count));
        assert(counts@ =~= all.take(i + 1));
    }
    assert(all.take(contents@.len() as int) == all);
    sort_token_counts(counts)
}

/// `s` without whitespace at either end (what `str::trim` gives).
pub open spec fn trim_white_space(s: Seq<char>) -> Seq<char>
    decreases s.len(),
{
    if s.len() > 0 && is_white_space(s[0]) {
        trim_white_space(s.drop_first())
    } else if s.len() > 0 && is_white_space(s.last()) {
        trim_white_space(s.drop_last())
    } else {
        s
    }
}

/// The pieces of `s` between its newlines.
pub open spec fn newline_pieces(s: Seq<char>) -> Seq<Seq<char>>
    decreases s.len(),
{
    if s.len() == 0 {
        seq![Seq::empty()]
    } else {
        let r = newline_pieces(s.drop_last());
        if s.last() == '\n' {
            r.push(Seq::empty())
        } else {
            r.update(r.len() - 1, r.last().push(s.last()))
        }
    }
}

/// The non-empty trimmed pieces of `pieces`, in order.
pub open spec fn kept_patterns(pieces: Seq<Seq<char>>) -> Seq<Seq<char>>
    decreases pieces.len(),
{
    if pieces.len() == 0 {
        Seq::empty()
    } else {
        let t = trim_white_space(pieces.last());
        if t.len() > 0 {
            kept_patterns(pieces.drop_last()).push(t)
        } else {
            kept_patterns(pieces.drop_last())
        }
    }
}

/// The patterns typed in a text box, one per line: each line trimmed, blank
/// lines left out. (Splitting at `\n` and trimming gives the same lines as
/// `str::lines`, whose `\r` and final empty line trimming removes anyway.)
pub open spec fn typed_patterns(input: Seq<char>) -> Seq<Seq<char>> {
    kept_patterns(newline_pieces(input))
}

/// `s` without whitespace at either end.
pub fn trim_chars(s: &[char]) -> (r: Vec<char>)
    ensures
        r@ == trim_white_space(s@),
{
    let mut lo: usize = 0;
    let mut hi: usize = s.len();
    assert(s@.subrange(0, s@.len() as int) == s@);
    while lo < hi && is_whitespace(s[lo])
        invariant
            lo <= hi <= s@.len(),
            hi == s@.len(),
            trim_white_space(s@) == trim_white_space(s@.subrange(lo as int, hi as int)),
        decreases hi - lo,
    {
        assert(s@.subrange(lo as int, hi as int).drop_first() == s@.subrange(lo + 1, hi as int));
        lo = lo + 1;
    }
    while lo < hi && is_whitespace(s[hi - 1])
        invariant
            lo <= hi <= s@.len(),
            lo == hi || !is_white_space(s@[lo as int]),
            trim_white_space(s@) == trim_white_space(s@.subrange(lo as int, hi as int)),
        decreases hi - lo,
    {
        let ghost sub = s@.subrange(lo as int, hi as int);
        assert(sub[0] == s@[lo as int]);
        assert(sub.drop_last() == s@.subrange(lo as int, hi - 1));
        hi = hi - 1;
    }
    let mut r: Vec<char> = Vec::new();
    for i in lo..hi
        invariant
            lo <= hi <= s@.len(),
            r@ == s@.subrange(lo as int, i as int),
    {
        r.push(s[i]);
        assert(s@.subrange(lo as int, i + 1) == s@.subrange(lo as int, i as int).push(s@[i as int]));
    }
    proof {
        let sub = s@.subrange(lo as int, hi as int);
        if sub.len() > 0 {
            assert(sub[0] == s@[lo as int]);
            assert(sub.last() == s@[hi - 1]);
        }
    }
    r
}

/// Reads the patterns typed in a text box (see `typed_patterns`).
pub fn parse_patterns(input: &str) -> (r: Vec<String>)
    ensures
        r@.map_values(|p: String| p@) == typed_patterns(input@),
{
    let s = chars_of(input);
    let mut patterns: Vec<String> = Vec::new();
    let mut line: Vec<char> = Vec::new();
    let n = s.len();
    assert(newline_pieces(s@.take(0)) =~= seq![Seq::<char>::empty()]);
    for i in 0..n
        invariant
            n == s@.len(),
            s@ == input@,
            newline_pieces(s@.take(i as int)) == kept_source(s@.take(i as int)).push(line@),
            patterns@.map_values(|p: String| p@) == kept_patterns(kept_source(s@.take(i as int))),
    {
        assert(s@.take(i + 1).drop_last() == s@.take(i as int));
        if s[i] == '\n' {
            let t = trim_chars(line.as_slice());
            let ghost before = patterns@.map_values(|p: String| p@);
            if t.len() > 0 {
                patterns.push(string_from_chars(t.as_slice()));
                assert(patterns@.map_values(|p: String| p@) =~= before.push(t@));
            }
            proof {
                lemma_kept_source_step(s@.take(i + 1));
            }
            line = Vec::new();
        } else {
            proof {
                lemma_kept_source_step(s@.take(i + 1));
            }
            line.push(s[i]);
        }
    }
    assert(s@.take(n as int) == s@);
    let t = trim_chars(line.as_slice());
    let ghost before = patterns@.map_values(|p: String| p@);
    if t.len() > 0 {
        patterns.push(string_from_chars(t.as_slice()));
        assert(patterns@.map_values(|p: String| p@) =~= before.push(t@));
    }
    proof {
        let ks = kept_source(s@);
        assert(newline_pieces(s@).drop_last() == ks);
        assert(newline_pieces(s@).last() == line@);
    }
    patterns
}

proof fn lemma_trim_ends(s: Seq<char>)
    ensures
        trim_white_space(s).len() > 0 ==> !is_white_space(trim_white_space(s)[0])
            && !is_white_space(trim_white_space(s).last()),
    decreases s.len(),
{
    if s.len() > 0 && is_white_space(s[0]) {
        lemma_trim_ends(s.drop_first());
    } else if s.len() > 0 && is_white_space(s.last()) {
        lemma_trim_ends(s.drop_last());
    }
}

proof fn lemma_kept_patterns_trimmed(pieces: Seq<Seq<char>>)
    ensures
        forall|i: int| 0 <= i < kept_patterns(pieces).len() ==> {
            let p = #[trigger] kept_patterns(pieces)[i];
            p.len() > 0 && !is_white_space(p[0]) && !is_white_space(p.last())
        },
    decreases pieces.len(),
{
    if pieces.len() > 0 {
        let d = pieces.drop_last();
        lemma_kept_patterns_trimmed(d);
        lemma_trim_ends(pieces.last());
        let k = kept_patterns(pieces);
        assert forall|i: int| 0 <= i < k.len() implies {
            let p = #[trigger] k[i];
            p.len() > 0 && !is_white_space(p[0]) && !is_white_space(p.last())
        } by {
            if i < kept_patterns(d).len() {
                assert(k[i] == kept_patterns(d)[i]);
            }
        }
    }
}

/// Every pattern read from a text box is non-empty and has no whitespace at
/// either end.
pub proof fn lemma_typed_patterns_trimmed(input: Seq<char>)
    ensures
        forall|i: int| 0 <= i < typed_patterns(input).len() ==> {
            let p = #[trigger] typed_patterns(input)[i];
            p.len() > 0 && !is_white_space(p[0]) && !is_white_space(p.last())
        },
{
    lemma_kept_patterns_trimmed(newline_pieces(input));
}

/// The completed lines of `s`: its newline pieces but the last.
pub open spec fn kept_source(s: Seq<char>) -> Seq<Seq<char>> {
    newline_pieces(s).drop_last()
}

proof fn lemma_newline_pieces_nonempty(s: Seq<char>)
    ensures
        newline_pieces(s).len() >= 1,
    decreases s.len(),
{
    if s.len() > 0 {
        lemma_newline_pieces_nonempty(s.drop_last());
    }
}

proof fn lemma_kept_source_step(s: Seq<char>)
    requires
        s.len() > 0,
    ensures
        s.last() == '\n' ==> kept_source(s) == kept_source(s.drop_last()).push(newline_pieces(s.drop_last()).last()),
        s.last() != '\n' ==> kept_source(s) == kept_source(s.drop_last()),
{
    lemma_newline_pieces_nonempty(s.drop_last());
    let r = newline_pieces(s.drop_last());
    if s.last() == '\n' {
        assert(r.push(Seq::<char>::empty()).drop_last() == r);
        assert(r == r.drop_last().push(r.last()));
    } else {
        assert(r.update(r.len() - 1, r.last().push(s.last())).drop_last() =~= r.drop_last());
    }
}

/// Whether each pattern text matches `path`: it compiles and its compiled
/// pattern matches; one that does not compile matches nothing.
pub open spec fn text_hits(patterns: Seq<Seq<char>>, path: Seq<char>) -> Seq<bool> {
    Seq::new(patterns.len(), |i: int| glob_compiles(patterns[i]) && glob_matches(patterns[i], path))
}

/// Whether the window's filters leave a path out: each pattern that compiles
/// is tested against the path (a pattern that does not compile matches
/// nothing), and the answer is `filtered_out` of those matches; for patterns
/// and a path without `\` the matches are `text_hits`.
pub fn should_filter_path(exclude_patterns: &Vec<String>, include_patterns: &Vec<String>, path: &str) -> (r: bool)
    ensures
        all_decided(texts_of(include_patterns@), path@) && all_decided(texts_of(exclude_patterns@), path@) ==> r
            == filtered_out(
            text_hits(texts_of(include_patterns@), path@),
            text_hits(texts_of(exclude_patterns@), path@),
        ),
        all_separator_free(texts_of(include_patterns@)) && all_separator_free(texts_of(exclude_patterns@))
            && separator_free(path@) ==> r == filtered_out(
            text_hits(texts_of(include_patterns@), path@),
            text_hits(texts_of(exclude_patterns@), path@),
        ),
        exists|include_hits: Seq<bool>, exclude_hits: Seq<bool>|
            include_hits.len() == include_patterns@.len() && exclude_hits.len() == exclude_patterns@.len()
                && r == filtered_out(include_hits, exclude_hits),
{
    let include_hits = string_pattern_hits(include_patterns.as_slice(), path);
    let exclude_hits = string_pattern_hits(exclude_patterns.as_slice(), path);
    let r = filter_verdict(include_hits.as_slice(), exclude_hits.as_slice());
    assert(include_hits@.len() == include_patterns@.len() && exclude_hits@.len() == exclude_patterns@.len()
        && r == filtered_out(include_hits@, exclude_hits@));
    r
}

/// Compiles each pattern and tests `path` against it; one that does not
/// compile does not match.
fn string_pattern_hits(patterns: &[String], path: &str) -> (r: Vec<bool>)
    ensures
        r@.len() == patterns@.len(),
        all_decided(texts_of(patterns@), path@) ==> r@ == text_hits(texts_of(patterns@), path@),
        all_separator_free(texts_of(patterns@)) && separator_free(path@) ==> r@ == text_hits(
            texts_of(patterns@),
            path@,
        ),
{
    let ghost texts = texts_of(patterns@);
    let mut hits: Vec<bool> = Vec::new();
    for i in 0..patterns.len()
        invariant
            texts == texts_of(patterns@),
            hits@.len() == i,
            all_separator_free(texts) && separator_free(path@) ==> hits@ == text_hits(texts, path@).take(i as int),
            all_decided(texts, path@) ==> hits@ == text_hits(texts, path@).take(i as int),
    {
        proof {
            if all_separator_free(texts) {
                assert(separator_free(texts[i as int]));
            }
            if all_decided(texts, path@) {
                assert(glob_decides(texts[i as int], path@));
                assert(texts[i as int] == patterns@[i as int]@);
            }
        }
        let hit = match compile_pattern(patterns[i].as_str()) {
            Ok(p) => pattern_matches(&p, path),
            Err(_) => false,
        };
        hits.push(hit);
        proof {
            if all_separator_free(texts) && separator_free(path@) {
                assert(hits@ =~= text_hits(texts, path@).take(i + 1));
            }
            if all_decided(texts, path@) {
                assert(hits@ =~= text_hits(texts, path@).take(i + 1));
            }
        }
    }
    proof {
        if (all_separator_free(texts) && separator_free(path@)) || all_decided(texts, path@) {
            assert(text_hits(texts, path@).take(patterns@.len() as int) =~= text_hits(texts, path@));
        }
    }
    hits
}

/// The exclude patterns the window starts with.
pub open spec fn default_patterns() -> Seq<Seq<char>> {
    seq![
        "**/node_modules/**"@,
        "**/.git/**"@,
        "**/vendor/**"@,
        "**/target/**"@,
        "**/dist/**"@,
        "**/build/**"@,
        "**/.idea/**"@,
        "**/.vscode/**"@,
        "**/bin/**"@,
        "**/obj/**"@,
        "**/__pycache__/**"@,
        "**/.DS_Store"@,
    ]
}

/// The exclude patterns the window starts with: common build, dependency and
/// editor directories.
pub fn default_exclude_patterns() -> (r: Vec<String>)
    ensures
        r@.map_values(|p: String| p@) == default_patterns(),
{
    let mut r: Vec<String> = Vec::new();
    r.push(String::from_str("**/node_modules/**"));
    r.push(String::from_str("**/.git/**"));
    r.push(String::from_str("**/vendor/**"));
    r.push(String::from_str("**/target/**"));
    r.push(String::from_str("**/dist/**"));
    r.push(String::from_str("**/build/**"));
    r.push(String::from_str("**/.idea/**"));
    r.push(String::from_str("**/.vscode/**"));
    r.push(String::from_str("**/bin/**"));
    r.push(String::from_str("**/obj/**"));
    r.push(String::from_str("**/__pycache__/**"));
    r.push(String::from_str("**/.DS_Store"));
    assert(r@.map_values(|p: String| p@) =~= default_patterns());
    r
}

/// The text shown in the status bar: the last copy status when there is
/// one, else what the window is busy with, else that it is ready.
pub open spec fn status_message(scanning: bool, reading_files: bool, copy_status: Seq<char>) -> Seq<char> {
    if copy_status.len() > 0 {
        copy_status
    } else if scanning {
        "Scanning repository..."@
    } else if reading_files {
        "Reading selected files..."@
    } else {
        "Ready"@
    }
}

/// The directory the window starts in: the saved one, trimmed of whitespace.
pub fn initial_path(saved: &str) -> (r: String)
    ensures
        r@ == trim_white_space(saved@),
{
    let chars = chars_of(saved);
    let trimmed = trim_chars(chars.as_slice());
    string_from_chars(trimmed.as_slice())
}

/// A scan starts only when none is running and a directory is set.
pub fn may_start_scan(scanning: bool, current_path: &str) -> (r: bool)
    ensures
        r == (!scanning && current_path@.len() > 0),
{
    !scanning && current_path.unicode_len() > 0
}

/// The status bar's text (see `status_message`).
pub fn status_text(scanning: bool, reading_files: bool, copy_status: &str) -> (r: String)
    ensures
        r@ == status_message(scanning, reading_files, copy_status@),
{
    if copy_status.unicode_len() > 0 {
        String::from_str(copy_status)
    } else if scanning {
        String::from_str("Scanning repository...")
    } else if reading_files {
        String::from_str("Reading selected files...")
    } else {
        String::from_str("Ready")
    }
}

/// `needle` occurs somewhere in `hay`.
pub open spec fn contains_text(hay: Seq<char>, needle: Seq<char>) -> bool {
    exists|i: int| occurs_at(hay, i, needle)
}

/// Whether a name matches the search query (already lower-cased): its
/// lower-cased form contains the query.
pub fn matches_search(name: &str, query: &str) -> (r: bool)
    ensures
        r == contains_text(spec_to_lowercase(name@), query@),
{
    let lowered = to_lowercase(name);
    let hay = chars_of(lowered.as_str());
    let needle = chars_of(query);
    if needle.len() > hay.len() {
        return false;
    }
    let last = hay.len() - needle.len();
    for i in 0..last
        invariant
            hay@ == spec_to_lowercase(name@),
            needle@ == query@,
            last == hay@.len() - needle@.len(),
            forall|k: int| 0 <= k < i ==> !occurs_at(hay@, k, needle@),
    {
        if occurs_at_exec(hay.as_slice(), i, needle.as_slice()) {
            return true;
        }
    }
    occurs_at_exec(hay.as_slice(), last, needle.as_slice())
}

/// The token count recorded for a file: the first count given for its
/// index, or 0 when none is.
pub open spec fn tokens_of(counts: Seq<(usize, usize)>, index: usize) -> usize
    decreases counts.len(),
{
    if counts.len() == 0 {
        0
    } else if counts[0].0 == index {
        counts[0].1
    } else {
        tokens_of(counts.drop_first(), index)
    }
}

/// The token count shown for a file (see `tokens_of`).
pub fn token_count_of(counts: &[(usize, usize)], index: usize) -> (r: usize)
    ensures
        r == tokens_of(counts@, index),
{
    let mut i: usize = 0;
    assert(counts@.skip(0) == counts@);
    while i < counts.len()
        invariant
            i <= counts@.len(),
            tokens_of(counts@, index) == tokens_of(counts@.skip(i as int), index),
        decreases counts@.len() - i,
    {
        if counts[i].0 == index {
            return counts[i].1;
        }
        assert(counts@.skip(i as int).drop_first() == counts@.skip(i + 1));
        i = i + 1;
    }
    0
}

/// The order of the cards of the selected files: by token count, most first,
/// when `by_tokens`; otherwise by index.
pub open spec fn card_order(counts: Seq<(usize, usize)>, by_tokens: bool) -> spec_fn(usize, usize) -> bool {
    |a: usize, b: usize| if by_tokens {
        tokens_of(counts, b) <= tokens_of(counts, a)
    } else {
        a <= b
    }
}

/// The entries of `s` below `n`, in order.
pub open spec fn kept_below(s: Seq<usize>, n: usize) -> Seq<usize>
    decreases s.len(),
{
    if s.len() == 0 {
        s
    } else {
        let r = kept_below(s.drop_last(), n);
        if s.last() < n {
            r.push(s.last())
        } else {
            r
        }
    }
}

/// The cards shown for the selected files: those that are listed (index
/// below `n`), in card order, ties kept in the order given.
pub open spec fn cards(selected: Seq<usize>, counts: Seq<(usize, usize)>, by_tokens: bool, n: usize) -> Seq<usize> {
    sort_in_order(kept_below(selected, n), card_order(counts, by_tokens))
}

/// The card order compares any two files and is transitive.
pub proof fn lemma_card_order_total_preorder(counts: Seq<(usize, usize)>, by_tokens: bool)
    ensures
        total_preorder(card_order(counts, by_tokens)),
{
    let o = card_order(counts, by_tokens);
    assert forall|a: usize, b: usize| #[trigger] o(a, b) || #[trigger] o(b, a) by {}
    assert forall|a: usize, b: usize, c: usize| #[trigger] o(a, b) && #[trigger] o(b, c) implies o(a, c) by {}
}

/// The selected files' cards (see `cards`): the listed ones among
/// `selected`, each once as given, by token count with the most first when
/// `by_tokens`, else by index.
pub fn selected_cards(selected: &[usize], counts: &[(usize, usize)], by_tokens: bool, n: usize) -> (r: Vec<usize>)
    ensures
        r@ == cards(selected@, counts@, by_tokens, n),
        r@.to_multiset() == kept_below(selected@, n).to_multiset(),
        forall|i: int| 0 <= i < r@.len() ==> r@[i] < n,
        by_tokens ==> forall|i: int, j: int|
            0 <= i < j < r@.len() ==> tokens_of(counts@, #[trigger] r@[j]) <= tokens_of(counts@, #[trigger] r@[i]),
        !by_tokens ==> forall|i: int, j: int| 0 <= i < j < r@.len() ==> #[trigger] r@[i] <= #[trigger] r@[j],
{
    let ghost order = card_order(counts@, by_tokens);
    let mut out: Vec<usize> = Vec::new();
    let mut keys: Vec<usize> = Vec::new();
    for i in 0..selected.len()
        invariant
            order == card_order(counts@, by_tokens),
            out@ == sort_in_order(kept_below(selected@.take(i as int), n), order),
            keys@.len() == out@.len(),
            forall|k: int| 0 <= k < out@.len() ==> #[trigger] keys@[k] == tokens_of(counts@, out@[k]),
    {
        let x = selected[i];
        let ghost prefix = selected@.take(i as int);
        proof {
            assert(selected@.take(i + 1).drop_last() =~= prefix);
            assert(selected@.take(i + 1).last() == x);
            assert(kept_below(selected@.take(i + 1), n) == if x < n {
                kept_below(prefix, n).push(x)
            } else {
                kept_below(prefix, n)
            });
        }
        if x < n {
            let key = token_count_of(counts, x);
            let mut pos = out.len();
            while pos > 0 && !card_at_most(by_tokens, out[pos - 1], keys[pos - 1], x, key)
                invariant
                    pos <= out@.len(),
                    keys@.len() == out@.len(),
                    key == tokens_of(counts@, x),
                    order == card_order(counts@, by_tokens),
                    forall|k: int| 0 <= k < out@.len() ==> #[trigger] keys@[k] == tokens_of(counts@, out@[k]),
                    forall|k: int| pos <= k < out@.len() ==> !order(#[trigger] out@[k], x),
                decreases pos,
            {
                pos = pos - 1;
            }
            proof {
                assert(insertion_point(out@, x, pos as int, order));
                lemma_insert_at_point(out@, x, pos as int, order);
            }
            let ghost before_keys = keys@;
            let ghost before_out = out@;
            out.insert(pos, x);
            keys.insert(pos, key);
            assert(sort_in_order(kept_below(prefix, n).push(x), order) == insert_in_order(before_out, x, order)) by {
                assert(kept_below(prefix, n).push(x).drop_last() =~= kept_below(prefix, n));
            }
            assert forall|k: int| 0 <= k < out@.len() implies #[trigger] keys@[k] == tokens_of(counts@, out@[k]) by {
                if k > pos {
                    assert(keys@[k] == before_keys[k - 1]);
                }
            }
        }
    }
    proof {
        assert(selected@.take(selected@.len() as int) =~= selected@);
        lemma_sort_multiset(kept_below(selected@, n), order);
        lemma_card_order_total_preorder(counts@, by_tokens);
        lemma_sort_sorted(kept_below(selected@, n), order);
        lemma_kept_below(selected@, n);
        assert forall|i: int| 0 <= i < out@.len() implies out@[i] < n by {
            broadcast use vstd::seq_lib::group_to_multiset_ensures;
            assert(out@.contains(out@[i]));
            assert(out@ == sort_in_order(kept_below(selected@, n), order));
            assert(out@.to_multiset().count(out@[i]) > 0);
            assert(kept_below(selected@, n).to_multiset().count(out@[i]) > 0);
            assert(kept_below(selected@, n).contains(out@[i]));
        }
        if by_tokens {
            assert forall|i: int, j: int| 0 <= i < j < out@.len() implies
                tokens_of(counts@, #[trigger] out@[j]) <= tokens_of(counts@, #[trigger] out@[i]) by {
                assert(order(out@[i], out@[j]));
            }
        } else {
            assert forall|i: int, j: int| 0 <= i < j < out@.len() implies #[trigger] out@[i] <= #[trigger] out@[j] by {
                assert(order(out@[i], out@[j]));
            }
        }
    }
    out
}

/// Whether card `a` (with `key_a` tokens) may come before card `b` (with
/// `key_b` tokens).
fn card_at_most(by_tokens: bool, a: usize, key_a: usize, b: usize, key_b: usize) -> (r: bool)
    ensures
        r == if by_tokens {
            key_b <= key_a
        } else {
            a <= b
        },
{
    if by_tokens {
        key_b <= key_a
    } else {
        a <= b
    }
}

/// The header over the selected files: how many are selected and the
/// tokens shown.
pub fn selection_summary(count: usize, total: usize) -> (r: String)
    ensures
        r@ == decimal(count as nat) + " files | ~"@ + decimal(total as nat) + " tokens"@,
{
    let mut r = String::new();
    push_decimal(&mut r, count);
    r.append(" files | ~");
    push_decimal(&mut r, total);
    r.append(" tokens");
    r
}

/// The text of the copy button, with how many files are selected.
pub fn copy_button_text(count: usize) -> (r: String)
    ensures
        r@ == "COPY ALL SELECTED ("@ + decimal(count as nat) + " files)"@,
{
    let mut r = String::from_str("COPY ALL SELECTED (");
    push_decimal(&mut r, count);
    r.append(" files)");
    r
}

/// The token count shown on a selected file's card.
pub fn card_tokens_text(tokens: usize) -> (r: String)
    ensures
        r@ == "~"@ + decimal(tokens as nat) + " tokens"@,
{
    let mut r = String::from_str("~");
    push_decimal(&mut r, tokens);
    r.append(" tokens");
    r
}

/// The token count shown at the end of a file's row in the list.
pub fn row_tokens_text(tokens: usize) -> (r: String)
    ensures
        r@ == "(~"@ + decimal(tokens as nat) + ")"@,
{
    let mut r = String::from_str("(~");
    push_decimal(&mut r, tokens);
    r.append(")");
    r
}

/// The cards laid out in rows of three, in order: each row but the last
/// full, the last holding what is left.
pub open spec fn card_rows_of(cards: Seq<usize>) -> Seq<Seq<usize>> {
    Seq::new(
        ((cards.len() + 2) / 3) as nat,
        |k: int| cards.subrange(3 * k, if 3 * k + 3 <= cards.len() { 3 * k + 3 } else { cards.len() as int }),
    )
}

/// Lays the cards out in rows of three (see `card_rows_of`).
pub fn card_rows(cards: &[usize]) -> (r: Vec<Vec<usize>>)
    ensures
        r@.len() == card_rows_of(cards@).len(),
        forall|k: int| 0 <= k < r@.len() ==> (#[trigger] r@[k])@ == card_rows_of(cards@)[k],
{
    let mut rows: Vec<Vec<usize>> = Vec::new();
    let mut current: Vec<usize> = Vec::new();
    let n = cards.len();
    for i in 0..n
        invariant
            n == cards@.len(),
            rows@.len() == i / 3,
            current@ == cards@.subrange(3 * (i / 3) as int, i as int),
            forall|k: int| 0 <= k < rows@.len() ==> (#[trigger] rows@[k])@ == cards@.subrange(3 * k, 3 * k + 3),
    {
        current.push(cards[i]);
        assert(current@ =~= cards@.subrange(3 * (i / 3) as int, i + 1));
        if current.len() == 3 {
            rows.push(current);
            current = Vec::new();
            assert(current@ =~= cards@.subrange(3 * ((i + 1) / 3) as int, i + 1));
        }
    }
    if current.len() > 0 {
        rows.push(current);
    }
    proof {
        let spec_rows = card_rows_of(cards@);
        assert(rows@.len() == spec_rows.len());
        assert forall|k: int| 0 <= k < rows@.len() implies (#[trigger] rows@[k])@ == spec_rows[k] by {
            if 3 * k + 3 > n {
                assert(k == n / 3);
            }
        }
    }
    rows
}

/// What is kept below `n` is below `n`.
proof fn lemma_kept_below(s: Seq<usize>, n: usize)
    ensures
        forall|x: usize| kept_below(s, n).contains(x) ==> x < n,
    decreases s.len(),
{
    if s.len() > 0 {
        lemma_kept_below(s.drop_last(), n);
        let r = kept_below(s.drop_last(), n);
        assert forall|x: usize| kept_below(s, n).contains(x) implies x < n by {
            if s.last() < n {
                vstd::seq_lib::lemma_seq_contains_after_push(r, s.last(), x);
            }
        }
    }
}

/// A key of the keyboard, as far as the window tells keys apart.
#[derive(Debug, Clone, Copy, PartialEq, Eq)]
pub enum Key {
    Shift,
    Control,
    Alt,
    Escape,
    Character(char),
    Other,
}

/// What a key press asks the window to do.
#[derive(Debug, Clone, Copy, PartialEq, Eq)]
pub enum Shortcut {
    SelectAll,
    Copy,
    Read,
    Clear,
}

/// Which modifier keys are held: Ctrl or Alt (`cmd`), and Shift.
#[derive(Debug, Clone, Copy, PartialEq, Eq)]
pub struct Modifiers {
    pub cmd: bool,
    pub shift: bool,
}

/// The shortcut a key press asks for: with Ctrl/Alt held, `a` selects all,
/// and `c` and `r` copy and read the selection when there is one; Escape
/// clears the selection.
pub open spec fn shortcut(key: Key, cmd: bool, has_selection: bool) -> Option<Shortcut> {
    match key {
        Key::Character(c) => if c == 'a' && cmd {
            Some(Shortcut::SelectAll)
        } else if c == 'c' && cmd && has_selection {
            Some(Shortcut::Copy)
        } else if c == 'r' && cmd && has_selection {
            Some(Shortcut::Read)
        } else {
            None
        },
        Key::Escape => Some(Shortcut::Clear),
        _ => None,
    }
}

impl Modifiers {
    /// No modifier held.
    pub fn new() -> (r: Self)
        ensures
            !r.cmd && !r.shift,
    {
        Modifiers { cmd: false, shift: false }
    }

    /// Handles a key press: Shift, Ctrl and Alt are recorded as held;
    /// other keys give their shortcut, if any (see `shortcut`).
    pub fn key_pressed(&mut self, key: Key, has_selection: bool) -> (r: Option<Shortcut>)
        ensures
            final(self).shift == (old(self).shift || key == Key::Shift),
            final(self).cmd == (old(self).cmd || key == Key::Control || key == Key::Alt),
            r == shortcut(key, old(self).cmd, has_selection),
    {
        match key {
            Key::Shift => {
                self.shift = true;
                None
            },
            Key::Control | Key::Alt => {
                self.cmd = true;
                None
            },
            Key::Character(c) => {
                if c == 'a' && self.cmd {
                    Some(Shortcut::SelectAll)
                } else if c == 'c' && self.cmd && has_selection {
                    Some(Shortcut::Copy)
                } else if c == 'r' && self.cmd && has_selection {
                    Some(Shortcut::Read)
                } else {
                    None
                }
            },
            Key::Escape => Some(Shortcut::Clear),
            Key::Other => None,
        }
    }

    /// Handles a key release: Shift, Ctrl and Alt are no longer held.
    pub fn key_released(&mut self, key: Key)
        ensures
            final(self).shift == (old(self).shift && key != Key::Shift),
            final(self).cmd == (old(self).cmd && key != Key::Control && key != Key::Alt),
    {
        match key {
            Key::Shift => {
                self.shift = false;
            },
            Key::Control | Key::Alt => {
                self.cmd = false;
            },
            _ => {},
        }
    }
}

impl Selection {
    /// The files to copy out of a list of `n`: the selected ones, in
    /// ascending order; an error when nothing is selected, or when no
    /// selected index is in the list.
    pub fn copy_targets(&self, n: usize) -> (r: Result<Vec<usize>, String>)
        ensures
            self.selected() == Set::<usize>::empty() ==> (r matches Err(e) && e@ == "No files selected"@),
            self.selected() != Set::<usize>::empty() && (forall|i: usize| i < n ==> !self.selected().contains(i))
                ==> (r matches Err(e) && e@ == "No valid files selected"@),
            (exists|i: usize| i < n && self.selected().contains(i)) ==> r is Ok,
            r matches Ok(targets) ==> (forall|i: usize| i < n && self.selected().contains(i) <==> targets@.contains(i))
                && (forall|a: int, b: int| 0 <= a < b < targets@.len() ==> targets@[a] < targets@[b])
                && targets@.len() > 0,
    {
        if self.is_empty() {
            return Err(String::from_str("No files selected"));
        }
        let targets = self.selected_below(n);
        if targets.len() == 0 {
            proof {
                assert forall|i: usize| i < n implies !self.selected().contains(i) by {
                    if self.selected().contains(i) {
                        assert(targets@.contains(i));
                    }
                }
            }
            return Err(String::from_str("No valid files selected"));
        }
        proof {
            assert forall|i: usize| i < n && self.selected().contains(i) <==> targets@.contains(i) by {
                if targets@.contains(i) {
                    let k = choose|k: int| 0 <= k < targets@.len() && targets@[k] == i;
                    assert(targets@[k] < n && self.selected().contains(targets@[k]));
                }
            }
            assert(targets@[0] < n && self.selected().contains(targets@[0]));
        }
        Ok(targets)
    }
}

/// The status after copying: the read error, else the clipboard error, else
/// that the text was copied (and compressed, when it was).
pub open spec fn copy_status_message(read_error: Option<Seq<char>>, clipboard_error: Option<Seq<char>>, use_compression: bool) -> Seq<char> {
    match read_error {
        Some(e) => "Error reading files: "@ + e,
        None => match clipboard_error {
            Some(e) => "Clipboard error: "@ + e,
            None => if use_compression {
                "Copied to clipboard (compressed)"@
            } else {
                "Copied to clipboard"@
            },
        },
    }
}

/// The status after copying (see `copy_status_message`).
pub fn copy_status(read_error: Option<&str>, clipboard_error: Option<&str>, use_compression: bool) -> (r: String)
    ensures
        r@ == copy_status_message(
            match read_error {
                Some(e) => Some(e@),
                None => None,
            },
            match clipboard_error {
                Some(e) => Some(e@),
                None => None,
            },
            use_compression,
        ),
{
    match read_error {
        Some(e) => {
            let mut m = String::from_str("Error reading files: ");
            m.append(e);
            m
        },
        None => match clipboard_error {
            Some(e) => {
                let mut m = String::from_str("Clipboard error: ");
                m.append(e);
                m
            },
            None => if use_compression {
                String::from_str("Copied to clipboard (compressed)")
            } else {
                String::from_str("Copied to clipboard")
            },
        },
    }
}

/// The texts of a list of strings, as a set.
pub open spec fn text_set(v: Seq<String>) -> Set<Seq<char>> {
    texts_of(v).to_set()
}

/// Whether `v` holds `t`.
fn holds_text(v: &Vec<String>, t: &str) -> (r: bool)
    ensures
        r == text_set(v@).contains(t@),
{
    let target = chars_of(t);
    for i in 0..v.len()
        invariant
            target@ == t@,
            forall|k: int| 0 <= k < i ==> v@[k]@ != t@,
    {
        let c = chars_of(v[i].as_str());
        if c.len() == target.len() && crate::text::starts_with(c.as_slice(), target.as_slice()) {
            assert(c@.subrange(0, c@.len() as int) =~= c@);
            assert(texts_of(v@)[i as int] == t@);
            return true;
        }
        assert(c@.subrange(0, c@.len() as int) =~= c@);
    }
    assert forall|k: int| 0 <= k < texts_of(v@).len() implies texts_of(v@)[k] != t@ by {
        assert(texts_of(v@)[k] == v@[k]@);
    }
    false
}

/// Removes every entry of `v` equal to `t`.
fn remove_text(v: &mut Vec<String>, t: &str)
    ensures
        text_set(final(v)@) == text_set(old(v)@).remove(t@),
{
    let target = chars_of(t);
    let ghost orig = texts_of(v@);
    let mut kept: Vec<String> = Vec::new();
    let n = v.len();
    for i in 0..n
        invariant
            n == v@.len(),
            target@ == t@,
            orig == texts_of(v@),
            forall|x: Seq<char>| texts_of(kept@).contains(x) <==> (x != t@ && orig.take(i as int).contains(x)),
    {
        let c = chars_of(v[i].as_str());
        let same = c.len() == target.len() && crate::text::starts_with(c.as_slice(), target.as_slice());
        assert(c@.subrange(0, c@.len() as int) =~= c@);
        assert(same == (orig[i as int] == t@));
        let ghost before = texts_of(kept@);
        if !same {
            kept.push(v[i].clone());
            assert(texts_of(kept@) =~= before.push(orig[i as int]));
        }
        assert(orig.take(i + 1) =~= orig.take(i as int).push(orig[i as int]));
        assert forall|x: Seq<char>| texts_of(kept@).contains(x) <==> (x != t@ && orig.take(i + 1).contains(x)) by {
            vstd::seq_lib::lemma_seq_contains_after_push(orig.take(i as int), orig[i as int], x);
            vstd::seq_lib::lemma_seq_contains_after_push(before, orig[i as int], x);
        }
    }
    assert(orig.take(n as int) == orig);
    *v = kept;
    assert(text_set(v@) =~= text_set(old(v)@).remove(t@));
}

/// The state of the window that its decisions read and change.
pub struct WindowState {
    pub current_path: String,
    pub files: Vec<FileInfo>,
    pub selection: Selection,
    pub selected_folders: Vec<String>,
    pub expanded_folders: Vec<String>,
    pub token_counts: Vec<(usize, usize)>,
    pub total_tokens: usize,
    pub scanning: bool,
    pub modifiers: Modifiers,
    pub search_query: String,
    pub reading_files: bool,
    pub copy_status: String,
    pub theme: ThemeType,
    pub include_file_tree: bool,
    pub use_compression: bool,
    pub show_filter_settings: bool,
    pub exclude_patterns: Vec<String>,
    pub include_patterns: Vec<String>,
    pub exclude_patterns_input: String,
    pub include_patterns_input: String,
    pub sorted_by_tokens: bool,
}

/// The default patterns joined by newlines, as the exclude box starts.
pub open spec fn default_patterns_text() -> Seq<char> {
    crate::text::join_with(default_patterns(), "\n"@)
}

/// Joins texts with newlines.
fn join_lines(v: &Vec<String>) -> (r: String)
    ensures
        r@ == crate::text::join_with(texts_of(v@), "\n"@),
{
    let ghost all = texts_of(v@);
    let mut r = String::new();
    for i in 0..v.len()
        invariant
            all == texts_of(v@),
            r@ == crate::text::join_with(all.take(i as int), "\n"@),
    {
        let ghost before = r@;
        if i > 0 {
            r.append("\n");
        }
        r.append(v[i].as_str());
        proof {
            lemma_take_push(all, i as int);
            crate::text::lemma_join_with_push(all.take(i as int), all[i as int], "\n"@);
            if i > 0 {
                assert(r@ =~= before + "\n"@ + all[i as int]);
            } else {
                assert(r@ =~= all[i as int]);
            }
        }
    }
    assert(all.take(v@.len() as int) == all);
    r
}

/// The scan part of the window is unchanged: directory, files, scanning and
/// token counts.
pub open spec fn same_scan(a: WindowState, b: WindowState) -> bool {
    &&& a.current_path == b.current_path
    &&& a.files == b.files
    &&& a.scanning == b.scanning
    &&& a.token_counts == b.token_counts
}

/// The indices whose directory, among `parents`, is `folder`.
pub open spec fn in_folder(parents: Seq<Seq<char>>, folder: Seq<char>) -> Set<usize> {
    Set::new(|i: usize| i < parents.len() && parents[i as int] == folder)
}

/// The selection part of the window is unchanged: selected files, last
/// click, selected folders and the total shown.
pub open spec fn same_selection(a: WindowState, b: WindowState) -> bool {
    &&& a.selection == b.selection
    &&& a.selected_folders == b.selected_folders
    &&& a.total_tokens == b.total_tokens
}

/// The display settings are unchanged: search, held keys, theme, options,
/// filter panel and card order (the expanded folders are counted apart).
pub open spec fn same_settings(a: WindowState, b: WindowState) -> bool {
    &&& a.search_query == b.search_query
    &&& a.modifiers == b.modifiers
    &&& a.theme == b.theme
    &&& a.include_file_tree == b.include_file_tree
    &&& a.use_compression == b.use_compression
    &&& a.show_filter_settings == b.show_filter_settings
    &&& a.sorted_by_tokens == b.sorted_by_tokens
}

/// The filters and the text in their boxes are unchanged.
pub open spec fn same_filters(a: WindowState, b: WindowState) -> bool {
    &&& a.exclude_patterns == b.exclude_patterns
    &&& a.include_patterns == b.include_patterns
    &&& a.exclude_patterns_input == b.exclude_patterns_input
    &&& a.include_patterns_input == b.include_patterns_input
}

/// The copy state is unchanged: whether files are being read, and the status.
pub open spec fn same_copy(a: WindowState, b: WindowState) -> bool {
    &&& a.reading_files == b.reading_files
    &&& a.copy_status == b.copy_status
}

impl WindowState {
    /// The total shown is the number of tokens of the selected files.
    pub open spec fn shows_selection_total(&self) -> bool {
        self.total_tokens == selected_tokens(self.token_counts@, self.selection.selected())
    }

    /// The window as it opens: in the saved directory (trimmed), with the
    /// default exclude patterns (also shown, one per line, in the exclude
    /// box), no include patterns, nothing scanned or selected, the light
    /// theme, the token-sorted list of selected files, and no option set.
    /// The returned flag says whether to scan at once: when the directory is
    /// not empty.
    pub fn new(saved_dir: &str) -> (r: (Self, bool))
        ensures
            r.0.current_path@ == trim_white_space(saved_dir@),
            texts_of(r.0.exclude_patterns@) == default_patterns(),
            r.0.exclude_patterns_input@ == default_patterns_text(),
            r.0.include_patterns@.len() == 0,
            r.0.include_patterns_input@ == Seq::<char>::empty(),
            r.0.files@.len() == 0,
            r.0.selection.selected() == Set::<usize>::empty(),
            r.0.selection.last() is None,
            r.0.selected_folders@.len() == 0,
            r.0.expanded_folders@.len() == 0,
            r.0.token_counts@.len() == 0,
            r.0.total_tokens == 0,
            !r.0.scanning && !r.0.reading_files,
            !r.0.modifiers.cmd && !r.0.modifiers.shift,
            r.0.search_query@ == Seq::<char>::empty(),
            r.0.copy_status@ == Seq::<char>::empty(),
            r.0.theme == ThemeType::Light,
            !r.0.include_file_tree && !r.0.use_compression && !r.0.show_filter_settings,
            r.0.sorted_by_tokens,
            r.1 == (trim_white_space(saved_dir@).len() > 0),
            r.0.shows_selection_total(),
    {
        let exclude_patterns = default_exclude_patterns();
        let exclude_patterns_input = join_lines(&exclude_patterns);
        let current_path = initial_path(saved_dir);
        let scan = current_path.unicode_len() > 0;
        (WindowState {
            current_path,
            files: Vec::new(),
            selection: Selection::new(),
            selected_folders: Vec::new(),
            expanded_folders: Vec::new(),
            token_counts: Vec::new(),
            total_tokens: 0,
            scanning: false,
            modifiers: Modifiers::new(),
            search_query: String::new(),
            reading_files: false,
            copy_status: String::new(),
            theme: ThemeType::Light,
            include_file_tree: false,
            use_compression: false,
            show_filter_settings: false,
            exclude_patterns,
            include_patterns: Vec::new(),
            exclude_patterns_input,
            include_patterns_input: String::new(),
            sorted_by_tokens: true,
        }, scan)
    }

    /// The scan button: a scan starts (and `scanning` is set) when none is
    /// running and a directory is set. Returns whether it started.
    pub fn scan_requested(&mut self) -> (started: bool)
        ensures
            started == (!old(self).scanning && old(self).current_path@.len() > 0),
            final(self).scanning == (old(self).scanning || started),
            final(self).current_path == old(self).current_path,
            final(self).files == old(self).files,
            final(self).token_counts == old(self).token_counts,
            final(self).expanded_folders == old(self).expanded_folders,
            same_selection(*old(self), *final(self)),
            same_settings(*old(self), *final(self)),
            same_filters(*old(self), *final(self)),
            same_copy(*old(self), *final(self)),
            old(self).shows_selection_total() ==> final(self).shows_selection_total(),
    {
        let started = may_start_scan(self.scanning, self.current_path.as_str());
        if started {
            self.scanning = true;
        }
        started
    }

    /// A scan finished: its files replace the list, scanning stops, and the
    /// selection and the last click are cleared; the rest stays.
    pub fn scan_complete(&mut self, files: Vec<FileInfo>)
        ensures
            final(self).files@ == files@,
            !final(self).scanning,
            final(self).selection.selected() == Set::<usize>::empty(),
            final(self).selection.last() is None,
            final(self).token_counts == old(self).token_counts,
            final(self).total_tokens == old(self).total_tokens,
            final(self).selected_folders == old(self).selected_folders,
            final(self).expanded_folders == old(self).expanded_folders,
            final(self).current_path == old(self).current_path,
            same_settings(*old(self), *final(self)),
            same_filters(*old(self), *final(self)),
            same_copy(*old(self), *final(self)),
    {
        self.scanning = false;
        self.files = files;
        self.selection.clear();
    }

    /// A directory was picked: it becomes the current one, everything read
    /// from the previous one is forgotten (files, selected files and folders,
    /// expanded folders, token counts and total), and a scan starts. Returns
    /// whether the scan uses the filters: when any pattern is set.
    pub fn directory_selected(&mut self, path: String) -> (filtered: bool)
        ensures
            final(self).current_path@ == path@,
            final(self).files@.len() == 0,
            final(self).selection.selected() == Set::<usize>::empty(),
            final(self).selection.last() == old(self).selection.last(),
            final(self).selected_folders@.len() == 0,
            final(self).expanded_folders@.len() == 0,
            final(self).token_counts@.len() == 0,
            final(self).total_tokens == 0,
            final(self).scanning,
            filtered == (old(self).exclude_patterns@.len() > 0 || old(self).include_patterns@.len() > 0),
            same_settings(*old(self), *final(self)),
            same_filters(*old(self), *final(self)),
            same_copy(*old(self), *final(self)),
            final(self).shows_selection_total(),
    {
        self.current_path = path;
        self.files = Vec::new();
        self.selection.clear_files();
        self.selected_folders = Vec::new();
        self.expanded_folders = Vec::new();
        self.token_counts = Vec::new();
        self.total_tokens = 0;
        self.scanning = true;
        proof {
            lemma_no_selection_no_tokens(self.token_counts@);
        }
        self.exclude_patterns.len() > 0 || self.include_patterns.len() > 0
    }

    /// The filters are applied: the patterns are read from the two boxes
    /// (see `typed_patterns`), and a rescan starts when a directory is set
    /// and no scan is running. Returns whether it started.
    pub fn apply_filters(&mut self) -> (started: bool)
        ensures
            texts_of(final(self).exclude_patterns@) == typed_patterns(old(self).exclude_patterns_input@),
            texts_of(final(self).include_patterns@) == typed_patterns(old(self).include_patterns_input@),
            final(self).exclude_patterns_input == old(self).exclude_patterns_input,
            final(self).include_patterns_input == old(self).include_patterns_input,
            started == (!old(self).scanning && old(self).current_path@.len() > 0),
            final(self).scanning == (old(self).scanning || started),
            final(self).current_path == old(self).current_path,
            final(self).files == old(self).files,
            final(self).token_counts == old(self).token_counts,
            final(self).expanded_folders == old(self).expanded_folders,
            same_selection(*old(self), *final(self)),
            same_settings(*old(self), *final(self)),
            same_copy(*old(self), *final(self)),
            old(self).shows_selection_total() ==> final(self).shows_selection_total(),
    {
        self.exclude_patterns = parse_patterns(self.exclude_patterns_input.as_str());
        self.include_patterns = parse_patterns(self.include_patterns_input.as_str());
        self.scan_requested()
    }

    /// A folder is expanded when it was not, and collapsed when it was.
    pub fn toggle_folder_expanded(&mut self, folder: String)
        ensures
            text_set(old(self).expanded_folders@).contains(folder@) ==> text_set(final(self).expanded_folders@)
                == text_set(old(self).expanded_folders@).remove(folder@),
            !text_set(old(self).expanded_folders@).contains(folder@) ==> text_set(final(self).expanded_folders@)
                == text_set(old(self).expanded_folders@).insert(folder@),
            same_scan(*old(self), *final(self)),
            same_selection(*old(self), *final(self)),
            same_settings(*old(self), *final(self)),
            same_filters(*old(self), *final(self)),
            same_copy(*old(self), *final(self)),
            old(self).shows_selection_total() ==> final(self).shows_selection_total(),
    {
        if holds_text(&self.expanded_folders, folder.as_str()) {
            remove_text(&mut self.expanded_folders, folder.as_str());
        } else {
            let ghost before = texts_of(self.expanded_folders@);
            self.expanded_folders.push(folder);
            assert(texts_of(self.expanded_folders@) =~= before.push(folder@));
            assert forall|x: Seq<char>| #[trigger] text_set(self.expanded_folders@).contains(x)
                <==> before.to_set().insert(folder@).contains(x) by {
                vstd::seq_lib::lemma_seq_contains_after_push(before, folder@, x);
            }
            assert(text_set(self.expanded_folders@) =~= before.to_set().insert(folder@));
        }
    }

    /// A folder's checkbox was ticked (`selected`) or cleared: the folder is
    /// added to or taken from the selected folders, and the listed files
    /// whose directory is the folder are added to or taken from the
    /// selection (see `Selection::select_folder`); the total shown becomes
    /// the tokens of the selection. For simple file paths each file's
    /// directory is `dir_of_path`; for others the platform's path rules say.
    pub fn folder_selected(&mut self, folder: String, selected: bool)
        requires
            all_tokens(old(self).token_counts@) <= usize::MAX,
        ensures
            exists|parents: Seq<Seq<char>>| {
                &&& parents.len() == old(self).files@.len()
                &&& (all_simple(file_paths(old(self).files@)) ==> parents == file_dirs(old(self).files@))
                &&& selected ==> final(self).selection.selected() == old(self).selection.selected().union(
                    #[trigger] in_folder(parents, folder@),
                )
                &&& !selected ==> final(self).selection.selected() == old(self).selection.selected().difference(
                    in_folder(parents, folder@),
                )
            },
            all_simple(file_paths(old(self).files@)) && selected ==> final(self).selection.selected()
                == old(self).selection.selected().union(
                Set::new(|i: usize| i < old(self).files@.len() && dir_of_path(old(self).files@[i as int].path@) == folder@),
            ),
            all_simple(file_paths(old(self).files@)) && !selected ==> final(self).selection.selected()
                == old(self).selection.selected().difference(
                Set::new(|i: usize| i < old(self).files@.len() && dir_of_path(old(self).files@[i as int].path@) == folder@),
            ),
            final(self).selection.last() == old(self).selection.last(),
            selected ==> text_set(final(self).selected_folders@) == text_set(old(self).selected_folders@).insert(folder@),
            !selected ==> text_set(final(self).selected_folders@) == text_set(old(self).selected_folders@).remove(folder@),
            final(self).total_tokens == selected_tokens(final(self).token_counts@, final(self).selection.selected()),
            final(self).expanded_folders == old(self).expanded_folders,
            same_scan(*old(self), *final(self)),
            same_settings(*old(self), *final(self)),
            same_filters(*old(self), *final(self)),
            same_copy(*old(self), *final(self)),
            final(self).shows_selection_total(),
    {
        let parents = file_parents(self.files.as_slice());
        self.selection.select_folder(folder.as_str(), parents.as_slice(), selected);
        if selected {
            if !holds_text(&self.selected_folders, folder.as_str()) {
                let ghost before = texts_of(self.selected_folders@);
                let ghost f = folder@;
                self.selected_folders.push(folder);
                assert(texts_of(self.selected_folders@) =~= before.push(f));
                assert forall|x: Seq<char>| #[trigger] text_set(self.selected_folders@).contains(x)
                    <==> before.to_set().insert(f).contains(x) by {
                    vstd::seq_lib::lemma_seq_contains_after_push(before, f, x);
                }
                assert(text_set(self.selected_folders@) =~= before.to_set().insert(f));
            } else {
                assert(text_set(self.selected_folders@) =~= text_set(self.selected_folders@).insert(folder@));
            }
        } else {
            remove_text(&mut self.selected_folders, folder.as_str());
        }
        self.total_tokens = self.selection.total_tokens(self.token_counts.as_slice());
        proof {
            let ps = texts_of(parents@);
            assert(ps.len() == old(self).files@.len());
            assert(Set::new(|i: usize| i < parents@.len() && parents@[i as int]@ == folder@) =~= in_folder(ps, folder@));
            if all_simple(file_paths(old(self).files@)) {
                assert(in_folder(ps, folder@) =~= Set::new(
                    |i: usize| i < old(self).files@.len() && dir_of_path(old(self).files@[i as int].path@) == folder@,
                ));
            }
        }
    }

    /// Copying was asked for: with nothing selected the status says so and
    /// the reading flag stays; with no selected file in the list the status
    /// says so and reading stops; otherwise reading starts (the flag is set,
    /// the status says "Reading files...") and the indices of the selected
    /// listed files are returned, in ascending order, for the caller to
    /// read and copy.
    pub fn copy_requested(&mut self) -> (r: Option<Vec<usize>>)
        ensures
            old(self).selection.selected() == Set::<usize>::empty() ==> r is None
                && final(self).copy_status@ == "No files selected"@ && final(self).reading_files == old(self).reading_files,
            old(self).selection.selected() != Set::<usize>::empty()
                && (forall|i: usize| i < old(self).files@.len() ==> !old(self).selection.selected().contains(i))
                ==> r is None && final(self).copy_status@ == "No valid files selected"@ && !final(self).reading_files,
            (exists|i: usize| i < old(self).files@.len() && old(self).selection.selected().contains(i)) ==> r is Some,
            r matches Some(targets) ==> {
                &&& final(self).reading_files
                &&& final(self).copy_status@ == "Reading files..."@
                &&& forall|i: usize| i < old(self).files@.len() && old(self).selection.selected().contains(i)
                    <==> targets@.contains(i)
                &&& forall|a: int, b: int| 0 <= a < b < targets@.len() ==> targets@[a] < targets@[b]
            },
            final(self).expanded_folders == old(self).expanded_folders,
            same_scan(*old(self), *final(self)),
            same_selection(*old(self), *final(self)),
            same_settings(*old(self), *final(self)),
            same_filters(*old(self), *final(self)),
    {
        match self.selection.copy_targets(self.files.len()) {
            Ok(targets) => {
                self.reading_files = true;
                self.copy_status = String::from_str("Reading files...");
                Some(targets)
            },
            Err(message) => {
                if !self.selection.is_empty() {
                    self.reading_files = false;
                }
                self.copy_status = message;
                None
            },
        }
    }

    /// The token counts of the scanned files arrived: they are kept, and the
    /// total shown becomes the tokens of the selection.
    pub fn token_counts_calculated(&mut self, counts: Vec<(usize, usize)>)
        requires
            all_tokens(counts@) <= usize::MAX,
        ensures
            final(self).token_counts@ == counts@,
            final(self).total_tokens == selected_tokens(counts@, final(self).selection.selected()),
            final(self).selection == old(self).selection,
            final(self).selected_folders == old(self).selected_folders,
            final(self).current_path == old(self).current_path,
            final(self).files == old(self).files,
            final(self).scanning == old(self).scanning,
            final(self).expanded_folders == old(self).expanded_folders,
            same_settings(*old(self), *final(self)),
            same_filters(*old(self), *final(self)),
            same_copy(*old(self), *final(self)),
            final(self).shows_selection_total(),
    {
        self.token_counts = counts;
        self.total_tokens = self.selection.total_tokens(self.token_counts.as_slice());
    }

    /// A file of the list is clicked (see `Selection::click`, with the held
    /// modifiers); the total shown becomes the tokens of the selection.
    pub fn file_selected(&mut self, index: usize)
        requires
            all_tokens(old(self).token_counts@) <= usize::MAX,
        ensures
            final(self).selection.selected() == clicked(
                old(self).selection.selected(),
                old(self).selection.last(),
                index,
                old(self).modifiers.cmd,
                old(self).modifiers.shift,
            ),
            final(self).selection.last() == Some(index),
            final(self).total_tokens == selected_tokens(final(self).token_counts@, final(self).selection.selected()),
            final(self).selected_folders == old(self).selected_folders,
            final(self).expanded_folders == old(self).expanded_folders,
            same_scan(*old(self), *final(self)),
            same_settings(*old(self), *final(self)),
            same_filters(*old(self), *final(self)),
            same_copy(*old(self), *final(self)),
            final(self).shows_selection_total(),
    {
        self.selection.click(index, self.modifiers.cmd, self.modifiers.shift);
        self.total_tokens = self.selection.total_tokens(self.token_counts.as_slice());
    }

    /// Every listed file is selected; the total shown becomes the tokens of
    /// the selection.
    pub fn select_all_files(&mut self)
        requires
            all_tokens(old(self).token_counts@) <= usize::MAX,
        ensures
            final(self).selection.selected() == old(self).selection.selected().union(
                Set::new(|i: usize| i < old(self).files@.len()),
            ),
            final(self).selection.last() == old(self).selection.last(),
            final(self).total_tokens == selected_tokens(final(self).token_counts@, final(self).selection.selected()),
            final(self).selected_folders == old(self).selected_folders,
            final(self).expanded_folders == old(self).expanded_folders,
            same_scan(*old(self), *final(self)),
            same_settings(*old(self), *final(self)),
            same_filters(*old(self), *final(self)),
            same_copy(*old(self), *final(self)),
            final(self).shows_selection_total(),
    {
        self.selection.select_all(self.files.len());
        self.total_tokens = self.selection.total_tokens(self.token_counts.as_slice());
    }

    /// The selection is cleared, with the selected folders and the last
    /// click; the total shown becomes 0, the tokens of no file.
    pub fn clear_selection(&mut self)
        ensures
            final(self).selection.selected() == Set::<usize>::empty(),
            final(self).selection.last() is None,
            final(self).selected_folders@.len() == 0,
            final(self).total_tokens == 0,
            final(self).expanded_folders == old(self).expanded_folders,
            same_scan(*old(self), *final(self)),
            same_settings(*old(self), *final(self)),
            same_filters(*old(self), *final(self)),
            same_copy(*old(self), *final(self)),
            final(self).shows_selection_total(),
    {
        self.selection.clear();
        self.selected_folders = Vec::new();
        self.total_tokens = 0;
        proof {
            lemma_no_selection_no_tokens(self.token_counts@);
        }
    }
}

} // verus!
