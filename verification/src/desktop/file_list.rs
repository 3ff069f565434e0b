//! The rows of the desktop window's file list: each directory of the scanned
//! files as a folder row, and under an expanded folder its files (those that
//! match the search) and its subdirectories, recursively.
use vstd::prelude::*;
use vstd::relations::sorted_by;
use crate::desktop::file_tree::{
    all_simple, drawn, file_name_of, lemma_parent_simple, name_or_empty, parent_of, path_file_name, path_parent,
    same_chars, simple_path,
};
use crate::desktop::fs_ops::{texts_of, FileInfo};
use crate::desktop::ui::{contains_text, matches_search, token_count_of, tokens_of, Selection};
use crate::ordering::{lemma_sort_sorted, sort_in_order};
use crate::text::{chars_of, lemma_lex_le_reflexive, lemma_lex_le_transitive, lemma_lex_order_total_preorder, lex_le, lex_order, sort_texts, spec_to_lowercase, string_from_chars, texts_view, to_lowercase};

verus! {

/// A row of the file list: a folder (its path, the name shown, its depth and
/// whether it is expanded) or a file (its index in the scanned list, its
/// name, its depth, its token count and whether its checkbox is ticked).
#[derive(Debug, Clone, PartialEq, Eq)]
pub enum Row {
    Folder { path: String, name: String, depth: usize, expanded: bool },
    File { index: usize, name: String, depth: usize, tokens: usize, selected: bool },
}

/// What a row shows.
pub enum RowView {
    Folder(Seq<char>, Seq<char>, nat, bool),
    File(usize, Seq<char>, nat, usize, bool),
}

/// What a row shows, as texts.
pub open spec fn row_view(r: Row) -> RowView {
    match r {
        Row::Folder { path, name, depth, expanded } => RowView::Folder(path@, name@, depth as nat, expanded),
        Row::File { index, name, depth, tokens, selected } => RowView::File(index, name@, depth as nat, tokens, selected),
    }
}

/// What the rows show.
pub open spec fn rows_view(rows: Seq<Row>) -> Seq<RowView> {
    rows.map_values(|r: Row| row_view(r))
}

/// The directory a file is listed under: its directory, or the empty path
/// when it has none.
pub open spec fn dir_of_path(p: Seq<char>) -> Seq<char> {
    name_or_empty(parent_of(p))
}

/// The name shown for a file: its final component, or the empty text.
pub open spec fn file_label(p: Seq<char>) -> Seq<char> {
    name_or_empty(file_name_of(p))
}

/// The texts of `s`, each once, in order of first appearance.
pub open spec fn first_seen(s: Seq<Seq<char>>) -> Seq<Seq<char>>
    decreases s.len(),
{
    if s.len() == 0 {
        Seq::empty()
    } else {
        let r = first_seen(s.drop_last());
        if r.contains(s.last()) {
            r
        } else {
            r.push(s.last())
        }
    }
}

/// The directory of each file.
pub open spec fn file_dirs(files: Seq<FileInfo>) -> Seq<Seq<char>> {
    files.map_values(|f: FileInfo| dir_of_path(f.path@))
}

/// The directories that hold files, each once.
pub open spec fn dir_keys(files: Seq<FileInfo>) -> Seq<Seq<char>> {
    first_seen(file_dirs(files))
}

/// A directory is listed at the top when the directory above it is empty,
/// itself, or the window's current directory.
pub open spec fn is_top_dir(dir: Seq<char>, current: Seq<char>) -> bool {
    let up = dir_of_path(dir);
    up.len() == 0 || up == dir || up == current
}

/// The directories listed at the top, in ascending order.
pub open spec fn top_dirs(files: Seq<FileInfo>, current: Seq<char>) -> Seq<Seq<char>> {
    sort_in_order(dir_keys(files).filter(|k: Seq<char>| is_top_dir(k, current)), lex_order())
}

/// The directories directly below `dir`, in ascending order.
pub open spec fn subdirs(files: Seq<FileInfo>, dir: Seq<char>) -> Seq<Seq<char>> {
    sort_in_order(dir_keys(files).filter(|k: Seq<char>| k != dir && parent_of(k) == Some(dir)), lex_order())
}

/// The name shown for a folder: its final component; else `/` for the empty
/// path, and the path itself otherwise.
pub open spec fn folder_name(dir: Seq<char>) -> Seq<char> {
    match file_name_of(dir) {
        Some(n) => n,
        None => if dir.len() == 0 {
            seq!['/']
        } else {
            dir
        },
    }
}

/// A file's row is shown under its folder: when the (lower-cased) query is
/// empty, or found in the lower-cased name of the file or of the folder.
pub open spec fn file_shown(name: Seq<char>, dir: Seq<char>, q: Seq<char>) -> bool {
    q.len() == 0 || contains_text(spec_to_lowercase(name), q) || contains_text(spec_to_lowercase(dir), q)
}

/// The rows of the files (not directories) of `dir` that are shown, in the
/// order of the list, at `depth`, each with its token count and whether it
/// is selected.
pub open spec fn file_rows(
    files: Seq<FileInfo>,
    dir: Seq<char>,
    q: Seq<char>,
    depth: nat,
    counts: Seq<(usize, usize)>,
    sel: Set<usize>,
) -> Seq<RowView>
    decreases files.len(),
{
    if files.len() == 0 {
        Seq::empty()
    } else {
        let r = file_rows(files.drop_last(), dir, q, depth, counts, sel);
        let f = files.last();
        if dir_of_path(f.path@) == dir && !f.is_dir && file_shown(file_label(f.path@), dir, q) {
            let i = (files.len() - 1) as usize;
            r.push(RowView::File(i, file_label(f.path@), depth, tokens_of(counts, i), sel.contains(i)))
        } else {
            r
        }
    }
}

/// The rows of folder `dir` at `depth`: its own row and, when expanded, its
/// files' rows and then its subdirectories' rows. `fuel` bounds the nesting;
/// the list is drawn with as much fuel as there are directories, and each
/// level of nesting goes one directory deeper (a longer path).
pub open spec fn folder_rows(
    files: Seq<FileInfo>,
    expanded: Seq<Seq<char>>,
    q: Seq<char>,
    counts: Seq<(usize, usize)>,
    sel: Set<usize>,
    dir: Seq<char>,
    depth: nat,
    fuel: nat,
) -> Seq<RowView>
    decreases fuel, 0nat,
{
    if fuel == 0 {
        Seq::empty()
    } else {
        let open = expanded.contains(dir);
        let head = seq![RowView::Folder(dir, folder_name(dir), depth, open)];
        if !open {
            head
        } else {
            head + file_rows(files, dir, q, depth + 1, counts, sel) + folders_rows(
                files,
                expanded,
                q,
                counts,
                sel,
                subdirs(files, dir),
                0,
                depth + 1,
                (fuel - 1) as nat,
            )
        }
    }
}

/// The rows of the folders `dirs[i..]`, one after another.
pub open spec fn folders_rows(
    files: Seq<FileInfo>,
    expanded: Seq<Seq<char>>,
    q: Seq<char>,
    counts: Seq<(usize, usize)>,
    sel: Set<usize>,
    dirs: Seq<Seq<char>>,
    i: int,
    depth: nat,
    fuel: nat,
) -> Seq<RowView>
    decreases fuel, dirs.len() - i + 1,
{
    if i < 0 || i >= dirs.len() {
        Seq::empty()
    } else {
        folder_rows(files, expanded, q, counts, sel, dirs[i], depth, fuel) + folders_rows(
            files,
            expanded,
            q,
            counts,
            sel,
            dirs,
            i + 1,
            depth,
            fuel,
        )
    }
}

/// Some file of `dir` (a directory too) has a name that holds the query.
pub open spec fn any_name_found(files: Seq<FileInfo>, dir: Seq<char>, q: Seq<char>) -> bool
    decreases files.len(),
{
    if files.len() == 0 {
        false
    } else {
        any_name_found(files.drop_last(), dir, q) || (dir_of_path(files.last().path@) == dir && contains_text(
            spec_to_lowercase(file_label(files.last().path@)),
            q,
        ))
    }
}

/// A top directory is shown when the query is empty, found in its
/// lower-cased path, or found in the name of one of its files.
pub open spec fn top_shown(files: Seq<FileInfo>, q: Seq<char>, dir: Seq<char>) -> bool {
    q.len() == 0 || contains_text(spec_to_lowercase(dir), q) || any_name_found(files, dir, q)
}

/// The rows of the shown top directories `tops`, in order.
pub open spec fn top_rows(
    files: Seq<FileInfo>,
    expanded: Seq<Seq<char>>,
    q: Seq<char>,
    counts: Seq<(usize, usize)>,
    sel: Set<usize>,
    tops: Seq<Seq<char>>,
    fuel: nat,
) -> Seq<RowView>
    decreases tops.len(),
{
    if tops.len() == 0 {
        Seq::empty()
    } else {
        top_rows(files, expanded, q, counts, sel, tops.drop_last(), fuel) + if top_shown(files, q, tops.last()) {
            folder_rows(files, expanded, q, counts, sel, tops.last(), 0, fuel)
        } else {
            Seq::empty()
        }
    }
}

/// The rows of the file list for the scanned `files`, the `expanded`
/// folders, the search `query`, the window's `current` directory, the token
/// `counts` and the selected files `sel`.
pub open spec fn visible_rows_of(
    files: Seq<FileInfo>,
    expanded: Seq<Seq<char>>,
    query: Seq<char>,
    current: Seq<char>,
    counts: Seq<(usize, usize)>,
    sel: Set<usize>,
) -> Seq<RowView> {
    top_rows(
        files,
        expanded,
        spec_to_lowercase(query),
        counts,
        sel,
        top_dirs(files, current),
        dir_keys(files).len(),
    )
}

/// The depth of a row.
pub open spec fn view_depth(r: RowView) -> nat {
    match r {
        RowView::Folder(_, _, d, _) => d,
        RowView::File(_, _, d, _, _) => d,
    }
}

/// Row `r` is a folder row at depth `d`.
pub open spec fn folder_at(r: RowView, d: nat) -> bool {
    r matches RowView::Folder(_, _, dd, _) && dd == d
}

/// The path of a folder row (the empty text for a file row).
pub open spec fn view_path(r: RowView) -> Seq<char> {
    match r {
        RowView::Folder(p, _, _, _) => p,
        RowView::File(..) => Seq::empty(),
    }
}

/// The rows of a directory's files are file rows at the depth given.
proof fn lemma_file_rows_depth(
    files: Seq<FileInfo>,
    dir: Seq<char>,
    q: Seq<char>,
    depth: nat,
    counts: Seq<(usize, usize)>,
    sel: Set<usize>,
)
    ensures
        forall|k: int| 0 <= k < file_rows(files, dir, q, depth, counts, sel).len() ==> (#[trigger] file_rows(
            files,
            dir,
            q,
            depth,
            counts,
            sel,
        )[k]) is File && view_depth(file_rows(files, dir, q, depth, counts, sel)[k]) == depth,
    decreases files.len(),
{
    if files.len() > 0 {
        lemma_file_rows_depth(files.drop_last(), dir, q, depth, counts, sel);
    }
}

/// A folder's rows start with its own row, at its depth; all the others are
/// deeper.
proof fn lemma_folder_rows_depth(
    files: Seq<FileInfo>,
    exp: Seq<Seq<char>>,
    q: Seq<char>,
    counts: Seq<(usize, usize)>,
    sel: Set<usize>,
    dir: Seq<char>,
    d: nat,
    fuel: nat,
)
    ensures
        ({
            let r = folder_rows(files, exp, q, counts, sel, dir, d, fuel);
            &&& fuel > 0 ==> r.len() > 0 && folder_at(r[0], d) && view_path(r[0]) == dir
            &&& forall|k: int| 1 <= k < r.len() ==> view_depth(#[trigger] r[k]) > d
        }),
    decreases fuel, 0nat,
{
    if fuel > 0 && exp.contains(dir) {
        let head = seq![RowView::Folder(dir, folder_name(dir), d, true)];
        let fr = file_rows(files, dir, q, d + 1, counts, sel);
        let subs = subdirs(files, dir);
        let rest = folders_rows(files, exp, q, counts, sel, subs, 0, d + 1, (fuel - 1) as nat);
        lemma_file_rows_depth(files, dir, q, d + 1, counts, sel);
        lemma_folders_rows_depth(files, exp, q, counts, sel, subs, 0, d + 1, (fuel - 1) as nat);
        let r = folder_rows(files, exp, q, counts, sel, dir, d, fuel);
        assert(r == head + fr + rest);
        assert forall|k: int| 1 <= k < r.len() implies view_depth(#[trigger] r[k]) > d by {
            if k < 1 + fr.len() {
                assert(r[k] == fr[k - 1]);
            } else {
                assert(r[k] == rest[k - 1 - fr.len()]);
            }
        }
    }
}

/// The rows of some folders drawn one after another are no shallower than
/// their depth.
proof fn lemma_folders_rows_depth(
    files: Seq<FileInfo>,
    exp: Seq<Seq<char>>,
    q: Seq<char>,
    counts: Seq<(usize, usize)>,
    sel: Set<usize>,
    dirs: Seq<Seq<char>>,
    i: int,
    d: nat,
    fuel: nat,
)
    ensures
        forall|k: int| 0 <= k < folders_rows(files, exp, q, counts, sel, dirs, i, d, fuel).len() ==> view_depth(
            #[trigger] folders_rows(files, exp, q, counts, sel, dirs, i, d, fuel)[k],
        ) >= d,
    decreases fuel, dirs.len() - i + 1,
{
    if 0 <= i < dirs.len() {
        let f = folder_rows(files, exp, q, counts, sel, dirs[i], d, fuel);
        let rest = folders_rows(files, exp, q, counts, sel, dirs, i + 1, d, fuel);
        lemma_folder_rows_depth(files, exp, q, counts, sel, dirs[i], d, fuel);
        lemma_folders_rows_depth(files, exp, q, counts, sel, dirs, i + 1, d, fuel);
        let r = folders_rows(files, exp, q, counts, sel, dirs, i, d, fuel);
        assert(r == f + rest);
        assert forall|k: int| 0 <= k < r.len() implies view_depth(#[trigger] r[k]) >= d by {
            if k < f.len() {
                assert(r[k] == f[k]);
            } else {
                assert(r[k] == rest[k - f.len()]);
            }
        }
    }
}

/// Drawing the folders `dirs[i..]`, given in ascending order, one after
/// another: their own rows (the folder rows at their depth) come in
/// ascending order, none before `dirs[i]`.
proof fn lemma_folders_rows_ascend(
    files: Seq<FileInfo>,
    exp: Seq<Seq<char>>,
    q: Seq<char>,
    counts: Seq<(usize, usize)>,
    sel: Set<usize>,
    dirs: Seq<Seq<char>>,
    i: int,
    d: nat,
    fuel: nat,
)
    requires
        0 <= i,
        forall|a: int, b: int| 0 <= a < b < dirs.len() ==> lex_le(#[trigger] dirs[a], #[trigger] dirs[b]),
    ensures
        ({
            let r = folders_rows(files, exp, q, counts, sel, dirs, i, d, fuel);
            &&& forall|a: int, b: int|
                0 <= a < b < r.len() && folder_at(#[trigger] r[a], d) && folder_at(#[trigger] r[b], d) ==> lex_le(
                    view_path(r[a]),
                    view_path(r[b]),
                )
            &&& i < dirs.len() ==> forall|a: int| 0 <= a < r.len() && folder_at(#[trigger] r[a], d) ==> lex_le(
                dirs[i],
                view_path(r[a]),
            )
        }),
    decreases dirs.len() - i,
{
    if i < dirs.len() {
        let f = folder_rows(files, exp, q, counts, sel, dirs[i], d, fuel);
        let rest = folders_rows(files, exp, q, counts, sel, dirs, i + 1, d, fuel);
        lemma_folder_rows_depth(files, exp, q, counts, sel, dirs[i], d, fuel);
        lemma_folders_rows_ascend(files, exp, q, counts, sel, dirs, i + 1, d, fuel);
        let r = folders_rows(files, exp, q, counts, sel, dirs, i, d, fuel);
        assert(r == f + rest);
        lemma_lex_le_reflexive(dirs[i]);
        assert forall|a: int| 0 <= a < r.len() && folder_at(#[trigger] r[a], d) implies lex_le(
            dirs[i],
            view_path(r[a]),
        ) by {
            if a < f.len() {
                assert(r[a] == f[a]);
                assert(a == 0);
            } else {
                assert(r[a] == rest[a - f.len()]);
                assert(i + 1 < dirs.len());
                lemma_lex_le_transitive(dirs[i], dirs[i + 1], view_path(r[a]));
            }
        }
        assert forall|a: int, b: int|
            0 <= a < b < r.len() && folder_at(#[trigger] r[a], d) && folder_at(#[trigger] r[b], d) implies lex_le(
            view_path(r[a]),
            view_path(r[b]),
        ) by {
            if a < f.len() {
                assert(r[a] == f[a]);
                assert(a == 0);
                if b < f.len() {
                    assert(r[b] == f[b]);
                } else {
                    assert(r[b] == rest[b - f.len()]);
                    assert(i + 1 < dirs.len());
                    lemma_lex_le_transitive(dirs[i], dirs[i + 1], view_path(r[b]));
                }
            } else {
                assert(r[a] == rest[a - f.len()]);
                assert(r[b] == rest[b - f.len()]);
            }
        }
    }
}

/// Under an expanded folder its subfolders are listed in ascending order of
/// their paths, whatever the order of the scanned files: among the rows of
/// an expanded folder at depth `d`, the folder rows one level deeper (its
/// subfolders' own rows) come in ascending order.
pub proof fn lemma_subfolders_ascend(
    files: Seq<FileInfo>,
    exp: Seq<Seq<char>>,
    q: Seq<char>,
    counts: Seq<(usize, usize)>,
    sel: Set<usize>,
    dir: Seq<char>,
    d: nat,
    fuel: nat,
)
    requires
        exp.contains(dir),
    ensures
        ({
            let r = folder_rows(files, exp, q, counts, sel, dir, d, fuel);
            forall|a: int, b: int|
                0 <= a < b < r.len() && folder_at(#[trigger] r[a], d + 1) && folder_at(#[trigger] r[b], d + 1)
                    ==> lex_le(view_path(r[a]), view_path(r[b]))
        }),
{
    if fuel > 0 {
        let head = seq![RowView::Folder(dir, folder_name(dir), d, true)];
        let fr = file_rows(files, dir, q, d + 1, counts, sel);
        let subs = subdirs(files, dir);
        let rest = folders_rows(files, exp, q, counts, sel, subs, 0, d + 1, (fuel - 1) as nat);
        lemma_file_rows_depth(files, dir, q, d + 1, counts, sel);
        lemma_lex_order_total_preorder();
        assert forall|t: Seq<Seq<char>>| #[trigger] sorted_by(sort_in_order(t, lex_order()), lex_order()) by {
            lemma_sort_sorted(t, lex_order());
        }
        assert(sorted_by(subs, lex_order()));
        assert forall|a: int, b: int| 0 <= a < b < subs.len() implies lex_le(#[trigger] subs[a], #[trigger] subs[b]) by {
            assert(lex_order()(subs[a], subs[b]));
        }
        lemma_folders_rows_ascend(files, exp, q, counts, sel, subs, 0, d + 1, (fuel - 1) as nat);
        let r = folder_rows(files, exp, q, counts, sel, dir, d, fuel);
        assert(r == head + fr + rest);
        assert forall|a: int, b: int|
            0 <= a < b < r.len() && folder_at(#[trigger] r[a], d + 1) && folder_at(#[trigger] r[b], d + 1) implies lex_le(
            view_path(r[a]),
            view_path(r[b]),
        ) by {
            if a < 1 + fr.len() {
                if a == 0 {
                    assert(r[a] == head[0]);
                } else {
                    assert(r[a] == fr[a - 1]);
                }
            }
            if b < 1 + fr.len() {
                if b == 0 {
                    assert(r[b] == head[0]);
                } else {
                    assert(r[b] == fr[b - 1]);
                }
            }
            assert(r[a] == rest[a - 1 - fr.len()]);
            assert(r[b] == rest[b - 1 - fr.len()]);
        }
    }
}

/// The folder a row is drawn under: the path of the nearest folder row
/// before it (the empty text when there is none).
pub open spec fn folder_of_row(rows: Seq<Row>, k: int) -> Seq<char>
    decreases k,
{
    if k <= 0 || k > rows.len() {
        Seq::empty()
    } else {
        match rows[k - 1] {
            Row::Folder { path, .. } => path@,
            Row::File { .. } => folder_of_row(rows, k - 1),
        }
    }
}

/// Row `k` is in its place: a folder row says whether it is expanded; a
/// file row is for a listed file that is not a directory, with its token
/// count and selection, right after a file row of the same depth or after
/// its expanded folder's row one level up, and it matches the
/// (lower-cased) query `q` by its name or its folder's path.
pub open spec fn row_placed(
    rows: Seq<Row>,
    k: int,
    files: Seq<FileInfo>,
    counts: Seq<(usize, usize)>,
    sel: Set<usize>,
    open_dirs: Seq<Seq<char>>,
    q: Seq<char>,
) -> bool {
    match rows[k] {
        Row::Folder { path, expanded, .. } => expanded == open_dirs.contains(path@),
        Row::File { index, name, depth, tokens, selected } => {
            &&& index < files.len()
            &&& !files[index as int].is_dir
            &&& tokens == tokens_of(counts, index)
            &&& selected == sel.contains(index)
            &&& k > 0
            &&& match rows[k - 1] {
                Row::File { depth: d, .. } => d == depth,
                Row::Folder { depth: d, expanded, .. } => expanded && d + 1 == depth,
            }
            &&& file_shown(name@, folder_of_row(rows, k), q)
        },
    }
}

/// Every row is in its place (see `row_placed`).
pub open spec fn rows_placed(
    rows: Seq<Row>,
    files: Seq<FileInfo>,
    counts: Seq<(usize, usize)>,
    sel: Set<usize>,
    open_dirs: Seq<Seq<char>>,
    q: Seq<char>,
) -> bool {
    forall|k: int| 0 <= k < rows.len() ==> #[trigger] row_placed(rows, k, files, counts, sel, open_dirs, q)
}

/// Adding a row after the others does not change the folder of those.
proof fn lemma_folder_of_row_push(rows: Seq<Row>, x: Row, k: int)
    requires
        0 <= k <= rows.len(),
    ensures
        folder_of_row(rows.push(x), k) == folder_of_row(rows, k),
    decreases k,
{
    if k > 0 {
        assert(rows.push(x)[k - 1] == rows[k - 1]);
        lemma_folder_of_row_push(rows, x, k - 1);
    }
}

/// Adding a row in its place keeps every row in its place.
proof fn lemma_rows_placed_push(
    rows: Seq<Row>,
    x: Row,
    files: Seq<FileInfo>,
    counts: Seq<(usize, usize)>,
    sel: Set<usize>,
    open_dirs: Seq<Seq<char>>,
    q: Seq<char>,
)
    requires
        rows_placed(rows, files, counts, sel, open_dirs, q),
        row_placed(rows.push(x), rows.len() as int, files, counts, sel, open_dirs, q),
    ensures
        rows_placed(rows.push(x), files, counts, sel, open_dirs, q),
{
    assert forall|k: int| 0 <= k < rows.push(x).len() implies #[trigger] row_placed(
        rows.push(x),
        k,
        files,
        counts,
        sel,
        open_dirs,
        q,
    ) by {
        if k < rows.len() {
            lemma_folder_of_row_push(rows, x, k);
            assert(rows.push(x)[k] == rows[k]);
            if k > 0 {
                assert(rows.push(x)[k - 1] == rows[k - 1]);
            }
            assert(row_placed(rows, k, files, counts, sel, open_dirs, q));
        }
    }
}

/// The paths of the scanned files.
pub open spec fn file_paths(files: Seq<FileInfo>) -> Seq<Seq<char>> {
    files.map_values(|f: FileInfo| f.path@)
}


/// What `first_seen` keeps was given.
proof fn lemma_first_seen_from(s: Seq<Seq<char>>)
    ensures
        forall|x: Seq<char>| first_seen(s).contains(x) ==> s.contains(x),
        first_seen(s).len() <= s.len(),
    decreases s.len(),
{
    if s.len() > 0 {
        lemma_first_seen_from(s.drop_last());
        let r = first_seen(s.drop_last());
        assert forall|x: Seq<char>| first_seen(s).contains(x) implies s.contains(x) by {
            vstd::seq_lib::lemma_seq_contains_after_push(r, s.last(), x);
            vstd::seq_lib::lemma_seq_contains_after_push(s.drop_last(), s.last(), x);
            assert(s.drop_last().push(s.last()) =~= s);
        }
    }
}

/// The directories of simple paths are simple.
proof fn lemma_keys_simple(files: Seq<FileInfo>)
    requires
        all_simple(file_paths(files)),
    ensures
        all_simple(dir_keys(files)),
        dir_keys(files).len() <= files.len(),
{
    let d = file_dirs(files);
    assert forall|i: int| 0 <= i < d.len() implies simple_path(#[trigger] d[i]) by {
        assert(simple_path(file_paths(files)[i]));
        lemma_parent_simple(files[i].path@);
    }
    lemma_first_seen_from(d);
    assert forall|i: int| 0 <= i < dir_keys(files).len() implies simple_path(#[trigger] dir_keys(files)[i]) by {
        assert(dir_keys(files).contains(dir_keys(files)[i]));
        assert(d.contains(dir_keys(files)[i]));
        let k = choose|k: int| 0 <= k < d.len() && d[k] == dir_keys(files)[i];
        assert(simple_path(d[k]));
    }
}

/// What a stable sort of some directories holds are directories among them.
proof fn lemma_sorted_from(s: Seq<Seq<char>>, keys: Seq<Seq<char>>)
    requires
        forall|x: Seq<char>| s.contains(x) ==> keys.contains(x),
    ensures
        forall|x: Seq<char>| sort_in_order(s, lex_order()).contains(x) ==> keys.contains(x),
{
    broadcast use vstd::seq_lib::group_to_multiset_ensures;
    crate::ordering::lemma_sort_multiset(s, lex_order());
    assert forall|x: Seq<char>| sort_in_order(s, lex_order()).contains(x) implies keys.contains(x) by {
        assert(sort_in_order(s, lex_order()).to_multiset().count(x) > 0);
        assert(s.to_multiset().count(x) > 0);
    }
}

/// Each file's directory and shown name.
fn dirs_and_labels(files: &[FileInfo]) -> (r: (Vec<Vec<char>>, Vec<String>))
    ensures
        r.0@.len() == files@.len(),
        r.1@.len() == files@.len(),
        all_simple(file_paths(files@)) ==> texts_view(r.0@) == file_dirs(files@),
        all_simple(file_paths(files@)) ==> forall|i: int| 0 <= i < files@.len() ==> (#[trigger] r.1@[i])@ == file_label(files@[i].path@),
{
    let ghost simple = all_simple(file_paths(files@));
    let mut dirs: Vec<Vec<char>> = Vec::new();
    let mut labels: Vec<String> = Vec::new();
    for i in 0..files.len()
        invariant
            simple == all_simple(file_paths(files@)),
            dirs@.len() == i,
            labels@.len() == i,
            simple ==> texts_view(dirs@) == file_dirs(files@).take(i as int),
            simple ==> forall|k: int| 0 <= k < i ==> (#[trigger] labels@[k])@ == file_label(files@[k].path@),
    {
        proof {
            if simple {
                assert(simple_path(file_paths(files@)[i as int]));
            }
        }
        let path = files[i].path.as_str();
        let dir = match path_parent(path) {
            Some(d) => chars_of(d.as_str()),
            None => Vec::new(),
        };
        let label = match path_file_name(path) {
            Some(n) => n,
            None => String::new(),
        };
        let ghost before = dirs@;
        dirs.push(dir);
        labels.push(label);
        proof {
            if simple {
                assert(texts_view(dirs@) =~= texts_view(before).push(dirs@[i as int]@));
                assert(file_dirs(files@).take(i + 1) =~= file_dirs(files@).take(i as int).push(
                    dir_of_path(files@[i as int].path@),
                ));
            }
        }
    }
    proof {
        assert(file_dirs(files@).take(files@.len() as int) =~= file_dirs(files@));
    }
    (dirs, labels)
}

/// The directory of each file, as text (the empty text when it has none).
pub(crate) fn file_parents(files: &[FileInfo]) -> (r: Vec<String>)
    ensures
        r@.len() == files@.len(),
        all_simple(file_paths(files@)) ==> texts_of(r@) == file_dirs(files@),
{
    let ghost simple = all_simple(file_paths(files@));
    let mut parents: Vec<String> = Vec::new();
    for i in 0..files.len()
        invariant
            simple == all_simple(file_paths(files@)),
            parents@.len() == i,
            simple ==> texts_of(parents@) == file_dirs(files@).take(i as int),
    {
        proof {
            if simple {
                assert(simple_path(file_paths(files@)[i as int]));
            }
        }
        let dir = match path_parent(files[i].path.as_str()) {
            Some(d) => d,
            None => String::new(),
        };
        let ghost before = texts_of(parents@);
        parents.push(dir);
        proof {
            if simple {
                assert(texts_of(parents@) =~= before.push(parents@[i as int]@));
                assert(file_dirs(files@).take(i + 1) =~= file_dirs(files@).take(i as int).push(
                    dir_of_path(files@[i as int].path@),
                ));
            }
        }
    }
    proof {
        assert(file_dirs(files@).take(files@.len() as int) =~= file_dirs(files@));
    }
    parents
}

/// The texts of `s`, each once, in order of first appearance.
fn first_seen_texts(s: &Vec<Vec<char>>) -> (r: Vec<Vec<char>>)
    ensures
        texts_view(r@) == first_seen(texts_view(s@)),
{
    let ghost all = texts_view(s@);
    let mut r: Vec<Vec<char>> = Vec::new();
    for i in 0..s.len()
        invariant
            all == texts_view(s@),
            texts_view(r@) == first_seen(all.take(i as int)),
    {
        proof {
            assert(all.take(i + 1).drop_last() =~= all.take(i as int));
            assert(all.take(i + 1).last() == s@[i as int]@);
        }
        if !drawn(&r, s[i].as_slice()) {
            let ghost before = texts_view(r@);
            r.push(s[i].clone());
            assert(texts_view(r@) =~= before.push(s@[i as int]@));
        }
    }
    proof {
        assert(all.take(s@.len() as int) =~= all);
    }
    r
}

/// The directories among `keys` listed at the top (before sorting).
fn top_keys(keys: &Vec<Vec<char>>, current: &[char]) -> (r: Vec<Vec<char>>)
    ensures
        all_simple(texts_view(keys@)) ==> texts_view(r@) == texts_view(keys@).filter(
            |k: Seq<char>| is_top_dir(k, current@),
        ),
{
    let ghost all = texts_view(keys@);
    let ghost simple = all_simple(all);
    let ghost pred = |k: Seq<char>| is_top_dir(k, current@);
    let mut r: Vec<Vec<char>> = Vec::new();
    for i in 0..keys.len()
        invariant
            all == texts_view(keys@),
            simple == all_simple(all),
            pred == (|k: Seq<char>| is_top_dir(k, current@)),
            simple ==> texts_view(r@) == all.take(i as int).filter(pred),
    {
        proof {
            assert(all.take(i + 1).drop_last() =~= all.take(i as int));
            assert(all.take(i + 1).last() == keys@[i as int]@);
            assert(all.take(i + 1).filter(pred) == if pred(all[i as int]) {
                all.take(i as int).filter(pred).push(all[i as int])
            } else {
                all.take(i as int).filter(pred)
            }) by {
                reveal(Seq::filter);
            }
            if simple {
                assert(simple_path(all[i as int]));
            }
        }
        let key = string_from_chars(keys[i].as_slice());
        let up = match path_parent(key.as_str()) {
            Some(d) => chars_of(d.as_str()),
            None => Vec::new(),
        };
        let top = up.len() == 0 || same_chars(up.as_slice(), keys[i].as_slice()) || same_chars(up.as_slice(), current);
        if top {
            let ghost before = texts_view(r@);
            r.push(keys[i].clone());
            assert(texts_view(r@) =~= before.push(keys@[i as int]@));
        }
    }
    proof {
        assert(all.take(keys@.len() as int) =~= all);
    }
    r
}

/// The directories among `keys` directly below `dir` (before sorting).
fn subdir_keys(keys: &Vec<Vec<char>>, dir: &[char]) -> (r: Vec<Vec<char>>)
    ensures
        all_simple(texts_view(keys@)) ==> texts_view(r@) == texts_view(keys@).filter(
            |k: Seq<char>| k != dir@ && parent_of(k) == Some(dir@),
        ),
{
    let ghost all = texts_view(keys@);
    let ghost simple = all_simple(all);
    let ghost pred = |k: Seq<char>| k != dir@ && parent_of(k) == Some(dir@);
    let mut r: Vec<Vec<char>> = Vec::new();
    for i in 0..keys.len()
        invariant
            all == texts_view(keys@),
            simple == all_simple(all),
            pred == (|k: Seq<char>| k != dir@ && parent_of(k) == Some(dir@)),
            simple ==> texts_view(r@) == all.take(i as int).filter(pred),
    {
        proof {
            assert(all.take(i + 1).drop_last() =~= all.take(i as int));
            assert(all.take(i + 1).last() == keys@[i as int]@);
            assert(all.take(i + 1).filter(pred) == if pred(all[i as int]) {
                all.take(i as int).filter(pred).push(all[i as int])
            } else {
                all.take(i as int).filter(pred)
            }) by {
                reveal(Seq::filter);
            }
            if simple {
                assert(simple_path(all[i as int]));
            }
        }
        let key = string_from_chars(keys[i].as_slice());
        let below = match path_parent(key.as_str()) {
            Some(d) => {
                let dc = chars_of(d.as_str());
                same_chars(dc.as_slice(), dir)
            },
            None => false,
        };
        if below && !same_chars(keys[i].as_slice(), dir) {
            let ghost before = texts_view(r@);
            r.push(keys[i].clone());
            assert(texts_view(r@) =~= before.push(keys@[i as int]@));
        }
    }
    proof {
        assert(all.take(keys@.len() as int) =~= all);
    }
    r
}


/// What the helpers below are given: each file's directory and shown name,
/// and the directories that hold files, all simple.
spec fn list_context(files: Seq<FileInfo>, dirs: Seq<Vec<char>>, labels: Seq<String>, keys: Seq<Vec<char>>) -> bool {
    &&& dirs.len() == files.len()
    &&& labels.len() == files.len()
    &&& texts_view(dirs) == file_dirs(files)
    &&& forall|i: int| 0 <= i < files.len() ==> (#[trigger] labels[i])@ == file_label(files[i].path@)
    &&& texts_view(keys) == dir_keys(files)
    &&& all_simple(dir_keys(files))
}

/// What is kept of some directories, then sorted, is among them.
proof fn lemma_kept_sorted(keys: Seq<Seq<char>>, pred: spec_fn(Seq<char>) -> bool)
    requires
        all_simple(keys),
    ensures
        all_simple(sort_in_order(keys.filter(pred), lex_order())),
{
    let f = keys.filter(pred);
    assert forall|x: Seq<char>| f.contains(x) implies keys.contains(x) by {
        keys.lemma_filter_contains_rev(pred, x);
    }
    lemma_sorted_from(f, keys);
    let r = sort_in_order(f, lex_order());
    assert forall|i: int| 0 <= i < r.len() implies simple_path(#[trigger] r[i]) by {
        assert(r.contains(r[i]));
        assert(keys.contains(r[i]));
        let k = choose|k: int| 0 <= k < keys.len() && keys[k] == r[i];
        assert(simple_path(keys[k]));
    }
}

/// Appends the rows of the shown files of `dir` (see `file_rows`).
fn push_file_rows(
    files: &[FileInfo],
    dirs: &Vec<Vec<char>>,
    labels: &Vec<String>,
    keys: &Vec<Vec<char>>,
    dir: &[char],
    q: &str,
    depth: usize,
    counts: &[(usize, usize)],
    selection: &Selection,
    Ghost(open_dirs): Ghost<Seq<Seq<char>>>,
    out: &mut Vec<Row>,
)
    requires
        dirs@.len() == files@.len(),
        labels@.len() == files@.len(),
        all_simple(file_paths(files@)) ==> list_context(files@, dirs@, labels@, keys@),
        rows_placed(old(out)@, files@, counts@, selection.selected(), open_dirs, q@),
        old(out)@.len() > 0,
        old(out)@.last() matches Row::Folder { path, depth: d, expanded, .. } && expanded && path@ == dir@ && d + 1
            == depth,
    ensures
        rows_placed(final(out)@, files@, counts@, selection.selected(), open_dirs, q@),
        all_simple(file_paths(files@)) ==> rows_view(final(out)@) == rows_view(old(out)@) + file_rows(
            files@,
            dir@,
            q@,
            depth as nat,
            counts@,
            selection.selected(),
        ),
{
    let ghost simple = all_simple(file_paths(files@));
    let ghost start = rows_view(out@);
    let dir_str = string_from_chars(dir);
    let q_empty = q.unicode_len() == 0;
    let dir_found = matches_search(dir_str.as_str(), q);
    for i in 0..files.len()
        invariant
            dirs@.len() == files@.len(),
            labels@.len() == files@.len(),
            simple == all_simple(file_paths(files@)),
            simple ==> list_context(files@, dirs@, labels@, keys@),
            dir_str@ == dir@,
            q_empty == (q@.len() == 0),
            dir_found == contains_text(spec_to_lowercase(dir@), q@),
            simple ==> rows_view(out@) == start + file_rows(
                files@.take(i as int),
                dir@,
                q@,
                depth as nat,
                counts@,
                selection.selected(),
            ),
            rows_placed(out@, files@, counts@, selection.selected(), open_dirs, q@),
            out@.len() > 0,
            match out@.last() {
                Row::Folder { path, depth: d, expanded, .. } => expanded && path@ == dir@ && d + 1 == depth,
                Row::File { depth: d, .. } => d == depth && folder_of_row(out@, out@.len() - 1) == dir@,
            },
    {
        let ghost t = files@.take(i + 1);
        proof {
            assert(t.drop_last() =~= files@.take(i as int));
            assert(t.last() == files@[i as int]);
            if simple {
                assert(dirs@[i as int]@ == texts_view(dirs@)[i as int]);
                assert(labels@[i as int]@ == file_label(files@[i as int].path@));
            }
        }
        let ghost before = out@;
        if same_chars(dirs[i].as_slice(), dir) && !files[i].is_dir && (q_empty || matches_search(
            labels[i].as_str(),
            q,
        ) || dir_found) {
            let tokens = token_count_of(counts, i);
            let selected = selection.is_selected(i);
            let row = Row::File { index: i, name: labels[i].clone(), depth, tokens, selected };
            proof {
                let m = before.len() as int;
                lemma_folder_of_row_push(before, row, m);
                assert(before.push(row)[m - 1] == before[m - 1]);
                assert(before.push(row)[m] == row);
                assert(folder_of_row(before, m) == dir@);
                assert(folder_of_row(before.push(row), m) == dir@);
                assert(row_placed(before.push(row), m, files@, counts@, selection.selected(), open_dirs, q@));
                lemma_rows_placed_push(before, row, files@, counts@, selection.selected(), open_dirs, q@);
            }
            out.push(row);
            proof {
                assert(rows_view(out@) =~= rows_view(before).push(row_view(out@.last())));
            }
        }
    }
    proof {
        assert(files@.take(files@.len() as int) =~= files@);
    }
}

/// Whether the name of some file of `dir` holds the query (see
/// `any_name_found`).
fn any_name_holds(files: &[FileInfo], dirs: &Vec<Vec<char>>, labels: &Vec<String>, keys: &Vec<Vec<char>>, dir: &[char], q: &str) -> (r: bool)
    requires
        dirs@.len() == files@.len(),
        labels@.len() == files@.len(),
        all_simple(file_paths(files@)) ==> list_context(files@, dirs@, labels@, keys@),
    ensures
        all_simple(file_paths(files@)) ==> r == any_name_found(files@, dir@, q@),
{
    let ghost simple = all_simple(file_paths(files@));
    let mut found = false;
    for i in 0..files.len()
        invariant
            dirs@.len() == files@.len(),
            labels@.len() == files@.len(),
            simple == all_simple(file_paths(files@)),
            simple ==> list_context(files@, dirs@, labels@, keys@),
            simple ==> found == any_name_found(files@.take(i as int), dir@, q@),
    {
        proof {
            let t = files@.take(i + 1);
            assert(t.drop_last() =~= files@.take(i as int));
            assert(t.last() == files@[i as int]);
            if simple {
                assert(dirs@[i as int]@ == texts_view(dirs@)[i as int]);
                assert(labels@[i as int]@ == file_label(files@[i as int].path@));
            }
        }
        let hit = same_chars(dirs[i].as_slice(), dir) && matches_search(labels[i].as_str(), q);
        found = found || hit;
    }
    proof {
        assert(files@.take(files@.len() as int) =~= files@);
    }
    found
}

/// Appends the rows of folder `dir` (see `folder_rows`).
fn push_folder_rows(
    files: &[FileInfo],
    dirs: &Vec<Vec<char>>,
    labels: &Vec<String>,
    keys: &Vec<Vec<char>>,
    expanded: &Vec<Vec<char>>,
    q: &str,
    counts: &[(usize, usize)],
    selection: &Selection,
    dir: &[char],
    depth: usize,
    fuel: usize,
    out: &mut Vec<Row>,
)
    requires
        dirs@.len() == files@.len(),
        labels@.len() == files@.len(),
        all_simple(file_paths(files@)) ==> list_context(files@, dirs@, labels@, keys@),
        all_simple(file_paths(files@)) ==> simple_path(dir@),
        depth + fuel <= usize::MAX,
        rows_placed(old(out)@, files@, counts@, selection.selected(), texts_view(expanded@), q@),
    ensures
        rows_placed(final(out)@, files@, counts@, selection.selected(), texts_view(expanded@), q@),
        all_simple(file_paths(files@)) ==> rows_view(final(out)@) == rows_view(old(out)@) + folder_rows(
            files@,
            texts_view(expanded@),
            q@,
            counts@,
            selection.selected(),
            dir@,
            depth as nat,
            fuel as nat,
        ),
    decreases fuel,
{
    let ghost simple = all_simple(file_paths(files@));
    let ghost exp = texts_view(expanded@);
    let ghost sel = selection.selected();
    if fuel == 0 {
        return;
    }
    let ghost start = rows_view(out@);
    let open = drawn(expanded, dir);
    let path = string_from_chars(dir);
    let shown = string_from_chars(dir);
    let name = match path_file_name(shown.as_str()) {
        Some(n) => n,
        None => if dir.len() == 0 {
            proof {
                reveal_strlit("/");
                assert("/"@ =~= seq!['/']);
            }
            String::from_str("/")
        } else {
            shown
        },
    };
    let row = Row::Folder { path, name, depth, expanded: open };
    proof {
        assert(out@.push(row)[out@.len() as int] == row);
        lemma_rows_placed_push(out@, row, files@, counts@, sel, exp, q@);
    }
    out.push(row);
    let ghost head = seq![RowView::Folder(dir@, folder_name(dir@), depth as nat, open)];
    proof {
        if simple {
            assert(rows_view(out@) =~= start + head);
        }
    }
    if open {
        push_file_rows(files, dirs, labels, keys, dir, q, depth + 1, counts, selection, Ghost(exp), out);
        let subs = sort_texts(subdir_keys(keys, dir));
        let ghost subv = texts_view(subs@);
        let ghost pred = |k: Seq<char>| k != dir@ && parent_of(k) == Some(dir@);
        let ghost target = start + head + file_rows(files@, dir@, q@, (depth + 1) as nat, counts@, sel) + folders_rows(
            files@,
            exp,
            q@,
            counts@,
            sel,
            subv,
            0,
            (depth + 1) as nat,
            (fuel - 1) as nat,
        );
        proof {
            if simple {
                assert(subv == sort_in_order(dir_keys(files@).filter(pred), lex_order()));
                lemma_kept_sorted(dir_keys(files@), pred);
                assert(rows_view(out@) + folders_rows(files@, exp, q@, counts@, sel, subv, 0, (depth + 1) as nat, (fuel - 1) as nat) =~= target);
            }
        }
        for i in 0..subs.len()
            invariant
                dirs@.len() == files@.len(),
                labels@.len() == files@.len(),
                simple == all_simple(file_paths(files@)),
                simple ==> list_context(files@, dirs@, labels@, keys@),
                simple ==> all_simple(subv),
                subv == texts_view(subs@),
                exp == texts_view(expanded@),
                sel == selection.selected(),
                depth + fuel <= usize::MAX,
                fuel > 0,
                rows_placed(out@, files@, counts@, sel, exp, q@),
                simple ==> rows_view(out@) + folders_rows(files@, exp, q@, counts@, sel, subv, i as int, (depth + 1) as nat, (fuel - 1) as nat) == target,
        {
            let ghost mid = rows_view(out@);
            proof {
                if simple {
                    assert(simple_path(subv[i as int]));
                }
            }
            push_folder_rows(files, dirs, labels, keys, expanded, q, counts, selection, subs[i].as_slice(), depth + 1, fuel - 1, out);
            proof {
                if simple {
                    let f = folder_rows(files@, exp, q@, counts@, sel, subv[i as int], (depth + 1) as nat, (fuel - 1) as nat);
                    let rest = folders_rows(files@, exp, q@, counts@, sel, subv, i + 1, (depth + 1) as nat, (fuel - 1) as nat);
                    assert(folders_rows(files@, exp, q@, counts@, sel, subv, i as int, (depth + 1) as nat, (fuel - 1) as nat) == f + rest);
                    assert(mid + (f + rest) =~= (mid + f) + rest);
                }
            }
        }
        proof {
            if simple {
                assert(rows_view(out@) + Seq::<RowView>::empty() =~= rows_view(out@));
            }
        }
    }
}

/// The rows of the file list (see `visible_rows_of`): each directory listed
/// at the top that the search shows, as a folder row followed, when it is
/// expanded, by the rows of its shown files and of its subdirectories. For
/// file paths that every platform splits alike the rows are exactly
/// `visible_rows_of`; for others the platform's path rules decide each
/// file's directory and name, and every row is still in its place (see
/// `row_placed`): file rows only for listed files that are not
/// directories, with their token counts and selection, under expanded
/// folders, and matching the search.
pub fn visible_rows(
    files: &[FileInfo],
    expanded: &[String],
    query: &str,
    current: &str,
    selection: &Selection,
    counts: &[(usize, usize)],
) -> (r: Vec<Row>)
    ensures
        rows_placed(r@, files@, counts@, selection.selected(), texts_of(expanded@), spec_to_lowercase(query@)),
        all_simple(file_paths(files@)) ==> rows_view(r@) == visible_rows_of(
            files@,
            texts_of(expanded@),
            query@,
            current@,
            counts@,
            selection.selected(),
        ),
{
    let ghost simple = all_simple(file_paths(files@));
    let (dirs, labels) = dirs_and_labels(files);
    let keys = first_seen_texts(&dirs);
    proof {
        if simple {
            lemma_keys_simple(files@);
        }
    }
    let mut exp: Vec<Vec<char>> = Vec::new();
    for i in 0..expanded.len()
        invariant
            texts_view(exp@) == texts_of(expanded@).take(i as int),
    {
        let ghost before = texts_view(exp@);
        let c = chars_of(expanded[i].as_str());
        exp.push(c);
        assert(texts_view(exp@) =~= before.push(expanded@[i as int]@));
        assert(texts_of(expanded@).take(i + 1) =~= texts_of(expanded@).take(i as int).push(expanded@[i as int]@));
    }
    proof {
        assert(texts_of(expanded@).take(expanded@.len() as int) =~= texts_of(expanded@));
    }
    let q = to_lowercase(query);
    let q_empty = q.unicode_len() == 0;
    let current_chars = chars_of(current);
    let tops = sort_texts(top_keys(&keys, current_chars.as_slice()));
    let ghost topv = texts_view(tops@);
    let ghost pred = |k: Seq<char>| is_top_dir(k, current@);
    proof {
        if simple {
            assert(topv == top_dirs(files@, current@));
            lemma_kept_sorted(dir_keys(files@), pred);
        }
    }
    let fuel = keys.len();
    let mut out: Vec<Row> = Vec::new();
    for i in 0..tops.len()
        invariant
            dirs@.len() == files@.len(),
            labels@.len() == files@.len(),
            simple == all_simple(file_paths(files@)),
            simple ==> list_context(files@, dirs@, labels@, keys@),
            simple ==> all_simple(topv),
            topv == texts_view(tops@),
            texts_view(exp@) == texts_of(expanded@),
            q@ == spec_to_lowercase(query@),
            q_empty == (q@.len() == 0),
            fuel == keys@.len(),
            simple ==> rows_view(out@) == top_rows(
                files@,
                texts_of(expanded@),
                q@,
                counts@,
                selection.selected(),
                topv.take(i as int),
                fuel as nat,
            ),
            rows_placed(out@, files@, counts@, selection.selected(), texts_of(expanded@), q@),
    {
        proof {
            let t = topv.take(i + 1);
            assert(t.drop_last() =~= topv.take(i as int));
            assert(t.last() == topv[i as int]);
            if simple {
                assert(simple_path(topv[i as int]));
            }
        }
        let top_str = string_from_chars(tops[i].as_slice());
        let shown = q_empty || matches_search(top_str.as_str(), q.as_str()) || any_name_holds(
            files,
            &dirs,
            &labels,
            &keys,
            tops[i].as_slice(),
            q.as_str(),
        );
        let ghost before = rows_view(out@);
        if shown {
            push_folder_rows(files, &dirs, &labels, &keys, &exp, q.as_str(), counts, selection, tops[i].as_slice(), 0, fuel, &mut out);
        } else {
            proof {
                assert(before + Seq::<RowView>::empty() =~= before);
            }
        }
    }
    proof {
        assert(topv.take(tops@.len() as int) =~= topv);
    }
    out
}

} // verus!
