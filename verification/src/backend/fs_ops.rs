//! Directory listings and the file tree. Walking the directory is left to the
//! caller; the listing's order and the tree's text are decided here.
use vstd::prelude::*;
use crate::desktop::fs_ops::EntryMetadata;
use crate::ordering::{insertion_point, lemma_insert_at_point, lemma_sort_multiset, lemma_sort_sorted, sort_in_order, total_preorder};
use crate::text::{lemma_lex_le_total, lemma_lex_le_transitive, lemma_lex_order_total_preorder, lemma_lex_order_antisymmetric};
use crate::ordering::lemma_sorted_unique;
use vstd::relations::sorted_by;
use crate::paths::{dir_with_slash, relative_path, relative_to, trim_end_slashes, trim_trailing_slashes, with_trailing_slash};
use crate::text::{
    chars_le, chars_of, join_with, lemma_join_with_push, lemma_take_push, lex_le, lex_order, push_chars,
    sort_texts, spec_to_lowercase, texts_view, to_lowercase,
};

verus! {

/// One entry of a directory listing.
#[derive(Debug, Clone)]
pub struct FileEntry {
    pub path: String,
    pub name: String,
    pub is_dir: bool,
    pub size: u64,
}

/// The listing order: directories before files; within each, by the
/// lower-cased name.
pub open spec fn entry_le(a: FileEntry, b: FileEntry) -> bool {
    if a.is_dir != b.is_dir {
        a.is_dir
    } else {
        lex_le(spec_to_lowercase(a.name@), spec_to_lowercase(b.name@))
    }
}

/// `entry_le` as a comparison function.
pub open spec fn entry_order() -> spec_fn(FileEntry, FileEntry) -> bool {
    |a: FileEntry, b: FileEntry| entry_le(a, b)
}

/// The listing order compares any two entries and is transitive.
pub proof fn lemma_entry_order_total_preorder()
    ensures
        total_preorder(entry_order()),
{
    assert forall|a: FileEntry, b: FileEntry| #[trigger] entry_order()(a, b) || #[trigger] entry_order()(b, a) by {
        lemma_lex_le_total(spec_to_lowercase(a.name@), spec_to_lowercase(b.name@));
    }
    assert forall|a: FileEntry, b: FileEntry, c: FileEntry|
        #[trigger] entry_order()(a, b) && #[trigger] entry_order()(b, c) implies entry_order()(a, c) by {
        if a.is_dir == b.is_dir && b.is_dir == c.is_dir {
            lemma_lex_le_transitive(spec_to_lowercase(a.name@), spec_to_lowercase(b.name@), spec_to_lowercase(c.name@));
        }
    }
}

/// A sorted listing holds exactly the entries given, lists every directory
/// before every file, and orders the directories, and the files, by
/// lower-cased name.
pub proof fn lemma_listing_order(entries: Seq<FileEntry>)
    ensures
        sort_in_order(entries, entry_order()).to_multiset() == entries.to_multiset(),
        ({
            let r = sort_in_order(entries, entry_order());
            forall|i: int, j: int| #![trigger r[i], r[j]] 0 <= i < j < r.len() ==> {
                &&& (r[j].is_dir ==> r[i].is_dir)
                &&& (r[i].is_dir == r[j].is_dir ==> lex_le(spec_to_lowercase(r[i].name@), spec_to_lowercase(r[j].name@)))
            }
        }),
{
    lemma_sort_multiset(entries, entry_order());
    lemma_entry_order_total_preorder();
    lemma_sort_sorted(entries, entry_order());
    let r = sort_in_order(entries, entry_order());
    assert forall|i: int, j: int| #![trigger r[i], r[j]] 0 <= i < j < r.len() implies {
        &&& (r[j].is_dir ==> r[i].is_dir)
        &&& (r[i].is_dir == r[j].is_dir ==> lex_le(spec_to_lowercase(r[i].name@), spec_to_lowercase(r[j].name@)))
    } by {
        assert(entry_order()(r[i], r[j]));
    }
}

/// A walked entry of a directory: its path, its file name if it has one, and
/// its metadata when the file system could give it.
pub type Walked = (String, Option<String>, Option<EntryMetadata>);

/// The listing record of a walked entry with metadata: its path, its file
/// name (empty when it has none), whether it is a directory, and its size
/// when it is a file (else 0).
pub open spec fn record_of(path: Seq<char>, name: Option<String>, meta: EntryMetadata) -> (Seq<char>, Seq<char>, bool, u64) {
    (
        path,
        match name {
            Some(n) => n@,
            None => Seq::empty(),
        },
        meta.is_dir,
        if meta.is_file { meta.len } else { 0 },
    )
}

/// What a listing record holds.
pub open spec fn entry_view(e: FileEntry) -> (Seq<char>, Seq<char>, bool, u64) {
    (e.path@, e.name@, e.is_dir, e.size)
}

/// The records of the walked entries that have metadata, in walk order.
pub open spec fn walked_records(walked: Seq<Walked>) -> Seq<(Seq<char>, Seq<char>, bool, u64)>
    decreases walked.len(),
{
    if walked.len() == 0 {
        Seq::empty()
    } else {
        let rest = walked_records(walked.drop_last());
        match walked.last().2 {
            Some(meta) => rest.push(record_of(walked.last().0@, walked.last().1, meta)),
            None => rest,
        }
    }
}

/// Makes the listing of a directory from its walked entries: entries without
/// metadata are skipped, each other one is recorded (see `record_of`), and
/// the records are ordered by `sort_entries`.
pub fn listing_of(walked: Vec<Walked>) -> (r: Vec<FileEntry>)
    ensures
        exists|records: Seq<FileEntry>|
            records.map_values(|e: FileEntry| entry_view(e)) == walked_records(walked@) && r@ == sort_in_order(
                records,
                entry_order(),
            ),
{
    let ghost all = walked@;
    let mut entries: Vec<FileEntry> = Vec::new();
    for w in it: walked
        invariant
            it.seq() == all,
            entries@.map_values(|e: FileEntry| entry_view(e)) == walked_records(all.take(it.index() as int)),
    {
        let ghost k = it.index() as int;
        assert(all.take(k + 1).drop_last() == all.take(k));
        assert(all.take(k + 1).last() == w);
        let ghost before = entries@.map_values(|e: FileEntry| entry_view(e));
        let (path, name, meta) = w;
        match meta {
            Some(m) => {
                let name = match name {
                    Some(n) => n,
                    None => String::new(),
                };
                let size = if m.is_file { m.len } else { 0 };
                entries.push(FileEntry { path, name, is_dir: m.is_dir, size });
                assert(entries@.map_values(|e: FileEntry| entry_view(e)) =~= walked_records(all.take(k + 1)));
            },
            None => {},
        }
    }
    assert(all.take(all.len() as int) == all);
    let ghost records = entries@;
    sort_entries(entries)
}

/// Tests `entry_le(*a, *b)`, given both entries' lower-cased names.
fn entry_at_most(a: &FileEntry, a_key: &[char], b: &FileEntry, b_key: &[char]) -> (r: bool)
    requires
        a_key@ == spec_to_lowercase(a.name@),
        b_key@ == spec_to_lowercase(b.name@),
    ensures
        r == entry_le(*a, *b),
{
    if a.is_dir != b.is_dir {
        a.is_dir
    } else {
        chars_le(a_key, b_key)
    }
}

/// Orders a directory listing: directories first, then files, each
/// alphabetically by lower-cased name; entries that compare equal keep their
/// order (a stable sort).
pub fn sort_entries(entries: Vec<FileEntry>) -> (r: Vec<FileEntry>)
    ensures
        r@ == sort_in_order(entries@, entry_order()),
{
    let ghost orig = entries@;
    let mut out: Vec<FileEntry> = Vec::new();
    let mut keys: Vec<Vec<char>> = Vec::new();
    for x in it: entries
        invariant
            it.seq() == orig,
            out@ == sort_in_order(orig.take(it.index() as int), entry_order()),
            keys@.len() == out@.len(),
            forall|k: int| 0 <= k < out@.len() ==> (#[trigger] keys@[k])@ == spec_to_lowercase(out@[k].name@),
    {
        let ghost prefix = orig.take(it.index() as int);
        let lowered = to_lowercase(x.name.as_str());
        let key = chars_of(lowered.as_str());
        let mut pos = out.len();
        while pos > 0 && !entry_at_most(&out[pos - 1], keys[pos - 1].as_slice(), &x, key.as_slice())
            invariant
                pos <= out@.len(),
                keys@.len() == out@.len(),
                key@ == spec_to_lowercase(x.name@),
                forall|k: int| 0 <= k < out@.len() ==> (#[trigger] keys@[k])@ == spec_to_lowercase(out@[k].name@),
                forall|k: int| pos <= k < out@.len() ==> !entry_le(#[trigger] out@[k], x),
            decreases pos,
        {
            pos = pos - 1;
        }
        proof {
            assert(insertion_point(out@, x, pos as int, entry_order()));
            lemma_insert_at_point(out@, x, pos as int, entry_order());
            assert(orig.take(it.index() + 1).drop_last() == prefix);
        }
        let ghost before_keys = keys@;
        out.insert(pos, x);
        keys.insert(pos, key);
        assert forall|k: int| 0 <= k < out@.len() implies (#[trigger] keys@[k])@ == spec_to_lowercase(out@[k].name@) by {
            if k > pos {
                assert(keys@[k] == before_keys[k - 1]);
            }
        }
    }
    assert(orig.take(orig.len() as int) == orig);
    out
}

/// The branch drawn before the `i`-th of `n` tree lines: the last one closes
/// the tree.
pub open spec fn branch(i: int, n: int) -> Seq<char> {
    if i == n - 1 {
        "└── "@
    } else {
        "├── "@
    }
}

/// The lines naming the files, one per file.
pub open spec fn tree_lines(names: Seq<Seq<char>>) -> Seq<Seq<char>> {
    Seq::new(names.len(), |i: int| branch(i, names.len() as int) + names[i] + "\n"@)
}

/// The file tree: for no files a note saying so; otherwise the root directory
/// (without trailing slashes) and then the files in ascending order, each
/// named relative to the root, all between `<file_map>` and `</file_map>`.
pub open spec fn file_tree_text(files: Seq<Seq<char>>, root: Seq<char>) -> Seq<char> {
    if files.len() == 0 {
        "<file_map>\nNo hay archivos seleccionados\n</file_map>"@
    } else {
        let base = with_trailing_slash(root);
        let sorted = sort_in_order(files, lex_order());
        let names = sorted.map_values(|f: Seq<char>| relative_to(f, base));
        "<file_map>\n"@ + trim_trailing_slashes(base) + "\n"@ + join_with(tree_lines(names), Seq::empty())
            + "</file_map>"@
    }
}

/// The tree does not depend on the order in which the files are given, and
/// lists each file once, in ascending order.
pub proof fn lemma_file_tree_order_independent(a: Seq<Seq<char>>, b: Seq<Seq<char>>, root: Seq<char>)
    requires
        a.to_multiset() == b.to_multiset(),
    ensures
        file_tree_text(a, root) == file_tree_text(b, root),
        sort_in_order(a, lex_order()).to_multiset() == a.to_multiset(),
        sorted_by(sort_in_order(a, lex_order()), lex_order()),
{
    broadcast use vstd::seq_lib::group_to_multiset_ensures;

    lemma_lex_order_total_preorder();
    lemma_lex_order_antisymmetric();
    lemma_sort_multiset(a, lex_order());
    lemma_sort_multiset(b, lex_order());
    lemma_sort_sorted(a, lex_order());
    lemma_sort_sorted(b, lex_order());
    lemma_sorted_unique(sort_in_order(a, lex_order()), sort_in_order(b, lex_order()), lex_order());
    assert(a.len() == b.len()) by {
        a.to_multiset_ensures();
        b.to_multiset_ensures();
    }
}

/// The texts of a list of strings.
pub open spec fn strings_view(v: Seq<String>) -> Seq<Seq<char>> {
    v.map_values(|s: String| s@)
}

/// Draws the tree of the selected files (see `file_tree_text`). Always succeeds.
pub fn generate_file_tree(files: &[String], root_dir: &str) -> (r: Result<String, String>)
    ensures
        r matches Ok(tree) && tree@ == file_tree_text(strings_view(files@), root_dir@),
{
    if files.len() == 0 {
        return Ok(String::from_str("<file_map>\nNo hay archivos seleccionados\n</file_map>"));
    }
    let root = dir_with_slash(root_dir);
    let mut texts: Vec<Vec<char>> = Vec::new();
    for i in 0..files.len()
        invariant
            texts_view(texts@) == strings_view(files@).take(i as int),
    {
        let t = chars_of(files[i].as_str());
        let ghost before = texts_view(texts@);
        texts.push(t);
        proof {
            lemma_take_push(strings_view(files@), i as int);
            assert(texts_view(texts@) =~= before.push(t@));
        }
    }
    assert(strings_view(files@).take(files@.len() as int) == strings_view(files@));
    let sorted = sort_texts(texts);
    let ghost sorted_view = sort_in_order(strings_view(files@), lex_order());
    let ghost base = with_trailing_slash(root_dir@);
    let ghost names = sorted_view.map_values(|f: Seq<char>| relative_to(f, base));
    let ghost lines = tree_lines(names);
    let mut tree = String::from_str("<file_map>\n");
    let trimmed = trim_end_slashes(root.as_slice());
    push_chars(&mut tree, trimmed.as_slice());
    tree.append("\n");
    let ghost head = tree@;
    assert(head == "<file_map>\n"@ + trim_trailing_slashes(base) + "\n"@);
    let n = sorted.len();
    for i in 0..n
        invariant
            n == sorted@.len(),
            texts_view(sorted@) == sorted_view,
            names == sorted_view.map_values(|f: Seq<char>| relative_to(f, base)),
            lines == tree_lines(names),
            root@ == base,
            tree@ == head + join_with(lines.take(i as int), Seq::empty()),
    {
        let name = relative_path(sorted[i].as_slice(), root.as_slice());
        let ghost before = tree@;
        if i == n - 1 {
            tree.append("└── ");
        } else {
            tree.append("├── ");
        }
        push_chars(&mut tree, name.as_slice());
        tree.append("\n");
        proof {
            assert(sorted@[i as int]@ == sorted_view[i as int]);
            assert(name@ == names[i as int]);
            lemma_take_push(lines, i as int);
            lemma_join_with_push(lines.take(i as int), lines[i as int], Seq::empty());
            if i > 0 {
                assert(tree@ =~= head + (join_with(lines.take(i as int), Seq::empty()) + Seq::<char>::empty() + lines[i as int]));
            } else {
                assert(tree@ =~= head + lines[i as int]);
            }
        }
    }
    assert(lines.take(n as int) == lines);
    tree.append("</file_map>");
    Ok(tree)
}

} // verus!
