//! The directory tree drawn at the top of the desktop application's clipboard
//! text. What the platform's path rules say of each file (its directory, its
//! name, the directory's own name, and the common root of all files) comes from
//! std's `Path`; grouping the files by directory, ordering them and drawing the
//! tree is decided here.
use vstd::prelude::*;
use crate::ordering::{lemma_sort_multiset, sort_in_order};
use crate::paths::last_slash;
use crate::desktop::fs_ops::texts_of;
use crate::desktop::ui::contains_text;
use crate::text::occurs_at;
use crate::text::{
    chars_of, is_prefix, join_with, lemma_join_with_push, lemma_take_push, lex_order, push_chars,
    sort_texts, starts_with, string_from_chars, texts_view,
};

verus! {

/// A component that every platform reads alike: not empty, not `.` or
/// `..`, and free of `/`, `\` and `:`.
pub open spec fn plain_component(c: Seq<char>) -> bool {
    &&& c.len() > 0
    &&& !(c.len() == 1 && c[0] == '.')
    &&& !(c.len() == 2 && c[0] == '.' && c[1] == '.')
    &&& forall|i: int| 0 <= i < c.len() ==> c[i] != '/' && c[i] != '\\' && c[i] != ':'
}

/// Plain components joined by single `/`, with no `/` before or after.
pub open spec fn plain_relative(p: Seq<char>) -> bool
    decreases p.len(),
{
    let k = last_slash(p);
    &&& -1 <= k < p.len()
    &&& plain_component(p.subrange(k + 1, p.len() as int))
    &&& (k == -1 || (0 < k && plain_relative(p.subrange(0, k))))
}

/// A path that every platform splits alike: empty, the root `/`, or plain
/// components joined by single `/`, with or without one leading `/`.
pub open spec fn simple_path(p: Seq<char>) -> bool {
    ||| p.len() == 0
    ||| is_root(p)
    ||| plain_relative(p)
    ||| (p.len() > 1 && p[0] == '/' && plain_relative(p.drop_first()))
}

/// The path `/`.
pub open spec fn is_root(p: Seq<char>) -> bool {
    p.len() == 1 && p[0] == '/'
}

/// Every path of `paths` is simple.
pub open spec fn all_simple(paths: Seq<Seq<char>>) -> bool {
    forall|i: int| 0 <= i < paths.len() ==> simple_path(#[trigger] paths[i])
}

/// The directory of a simple path: the text before its last `/` (`/` itself
/// when that is the only one), the empty path for a single relative
/// component, and none for the empty path and `/`.
pub open spec fn parent_of(p: Seq<char>) -> Option<Seq<char>> {
    if p.len() == 0 || is_root(p) {
        None
    } else {
        let k = last_slash(p);
        if k == -1 {
            Some(Seq::empty())
        } else if k == 0 {
            Some(p.subrange(0, 1))
        } else {
            Some(p.subrange(0, k))
        }
    }
}

/// The final component of a simple path: the text after its last `/`; none
/// for the empty path and `/`.
pub open spec fn file_name_of(p: Seq<char>) -> Option<Seq<char>> {
    if p.len() == 0 || is_root(p) {
        None
    } else {
        Some(p.subrange(last_slash(p) + 1, p.len() as int))
    }
}

/// `base` is a leading run of whole components of `p` (both simple): the
/// empty path leads every path, `/` every absolute path, and otherwise `base`
/// is `p` or begins it right before a `/`.
pub open spec fn starts_with_components(p: Seq<char>, base: Seq<char>) -> bool {
    ||| base.len() == 0
    ||| (is_root(base) && p.len() > 0 && p[0] == '/')
    ||| (is_prefix(base, p) && (p.len() == base.len() || p[base.len() as int] == '/'))
}

/// The directory of a path, if it has one.
///
/// Trusted: calls `Path::parent` and converts the result to a `String`
/// (lossless for paths that came from a `str`). The result is the path
/// without its final component, hence shorter; for a simple path, which
/// every platform splits at its `/` alone, it is `parent_of` (as the
/// documentation's examples show: `/foo/bar` gives `/foo`, `/foo` gives `/`,
/// `foo` gives the empty path, `/` and the empty path give none). Of other
/// paths only that the directory is a leading part of the path's text (the
/// path cut before its final component) is stated: the rest depends on the
/// platform's path rules.
#[verifier::external_body]
pub(crate) fn path_parent(path: &str) -> (r: Option<String>)
    ensures
        r matches Some(parent) ==> parent@.len() < path@.len() && is_prefix(parent@, path@),
        simple_path(path@) ==> match r {
            Some(parent) => parent_of(path@) == Some(parent@),
            None => parent_of(path@) is None,
        },
{
    std::path::Path::new(path).parent().map(|p| p.to_string_lossy().into_owned())
}

/// The final component of a path, if it has one.
///
/// Trusted: calls `Path::file_name` and converts the result to a `String`.
/// For a simple path it is `file_name_of`, the text after the last `/`;
/// of other paths only that the name is a piece of the path's text is
/// stated: the rest depends on the platform's path rules.
#[verifier::external_body]
pub(crate) fn path_file_name(path: &str) -> (r: Option<String>)
    ensures
        r matches Some(name) ==> contains_text(path@, name@),
        simple_path(path@) ==> match r {
            Some(name) => file_name_of(path@) == Some(name@),
            None => file_name_of(path@) is None,
        },
{
    std::path::Path::new(path).file_name().map(|n| n.to_string_lossy().into_owned())
}

/// Whether `base` is a leading run of whole components of `path`.
///
/// Trusted: calls `Path::starts_with`, which compares whole components. For
/// two simple paths the answer is `starts_with_components`; of other paths
/// nothing is stated: they depend on the platform's path rules.
#[verifier::external_body]
fn path_starts_with(path: &str, base: &str) -> (r: bool)
    ensures
        simple_path(path@) && simple_path(base@) ==> r == starts_with_components(path@, base@),
{
    std::path::Path::new(path).starts_with(std::path::Path::new(base))
}

/// Where `last_slash` points: a `/`, with none after it.
pub proof fn lemma_last_slash(s: Seq<char>)
    ensures
        -1 <= last_slash(s) < s.len(),
        last_slash(s) >= 0 ==> s[last_slash(s)] == '/',
        forall|j: int| last_slash(s) < j < s.len() ==> s[j] != '/',
    decreases s.len(),
{
    if s.len() > 0 && s.last() != '/' {
        lemma_last_slash(s.drop_last());
        assert forall|j: int| last_slash(s) < j < s.len() implies s[j] != '/' by {
            if j < s.len() - 1 {
                assert(s.drop_last()[j] == s[j]);
            }
        }
    }
}

/// The last `/` of `/t` is that of `t`, one further, or the leading one.
proof fn lemma_last_slash_absolute(p: Seq<char>)
    requires
        p.len() > 0,
        p[0] == '/',
    ensures
        last_slash(p) == if last_slash(p.drop_first()) == -1 {
            0
        } else {
            last_slash(p.drop_first()) + 1
        },
    decreases p.len(),
{
    if p.len() > 1 && p.last() != '/' {
        lemma_last_slash_absolute(p.drop_last());
        assert(p.drop_last().drop_first() =~= p.drop_first().drop_last());
    }
}

/// The directory of a simple path is a shorter simple path.
pub proof fn lemma_parent_simple(p: Seq<char>)
    requires
        simple_path(p),
    ensures
        parent_of(p) matches Some(q) ==> simple_path(q) && q.len() < p.len(),
{
    if p.len() > 0 && !is_root(p) {
        lemma_last_slash(p);
        let k = last_slash(p);
        if plain_relative(p) {
            if k > 0 {
                assert(simple_path(p.subrange(0, k)));
            }
        } else {
            let t = p.drop_first();
            lemma_last_slash_absolute(p);
            lemma_last_slash(t);
            if k > 0 {
                let kt = last_slash(t);
                assert(p.subrange(0, k).drop_first() =~= t.subrange(0, kt));
                assert(plain_relative(t.subrange(0, kt)));
            } else {
                assert(is_root(p.subrange(0, 1)));
            }
        }
    }
}

/// A file placed in the tree: its directory, its name, and the name of its
/// directory.
pub type Located = (Seq<char>, Seq<char>, Seq<char>);

/// The number of `/` characters in `s`.
pub open spec fn slash_count(s: Seq<char>) -> nat
    decreases s.len(),
{
    if s.len() == 0 {
        0
    } else {
        slash_count(s.drop_last()) + if s.last() == '/' { 1nat } else { 0nat }
    }
}

/// The directories of the located files, each once, in order of first appearance.
pub open spec fn group_keys(located: Seq<Located>) -> Seq<Seq<char>>
    decreases located.len(),
{
    if located.len() == 0 {
        Seq::empty()
    } else {
        let keys = group_keys(located.drop_last());
        if keys.contains(located.last().0) {
            keys
        } else {
            keys.push(located.last().0)
        }
    }
}

/// The names of the located files in directory `dir`, in order.
pub open spec fn names_in(located: Seq<Located>, dir: Seq<char>) -> Seq<Seq<char>>
    decreases located.len(),
{
    if located.len() == 0 {
        Seq::empty()
    } else {
        let names = names_in(located.drop_last(), dir);
        if located.last().0 == dir {
            names.push(located.last().1)
        } else {
            names
        }
    }
}

/// The files of directory `dir`, in ascending order.
pub open spec fn files_of(located: Seq<Located>, dir: Seq<char>) -> Seq<Seq<char>> {
    sort_in_order(names_in(located, dir), lex_order())
}

/// The name shown for directory `dir`: the one given with its first file.
pub open spec fn dir_label(located: Seq<Located>, dir: Seq<char>) -> Seq<char>
    decreases located.len(),
{
    if located.len() == 0 {
        Seq::empty()
    } else if group_keys(located.drop_last()).contains(dir) {
        dir_label(located.drop_last(), dir)
    } else if located.last().0 == dir {
        located.last().2
    } else {
        Seq::empty()
    }
}

/// `key` is drawn under `dir`: it is another directory that starts with
/// `dir` (as text) and has one more `/`.
pub open spec fn is_child(dir: Seq<char>, key: Seq<char>) -> bool {
    &&& key != dir
    &&& is_prefix(dir, key)
    &&& slash_count(key) == slash_count(dir) + 1
}

/// The directories among `keys` drawn under `dir`, in the order of `keys`.
pub open spec fn children_in(keys: Seq<Seq<char>>, dir: Seq<char>) -> Seq<Seq<char>>
    decreases keys.len(),
{
    if keys.len() == 0 {
        Seq::empty()
    } else {
        let c = children_in(keys.drop_last(), dir);
        if is_child(dir, keys.last()) {
            c.push(keys.last())
        } else {
            c
        }
    }
}

/// The directories drawn under `dir`, in ascending order.
pub open spec fn children_of(located: Seq<Located>, dir: Seq<char>) -> Seq<Seq<char>> {
    sort_in_order(children_in(group_keys(located), dir), lex_order())
}

/// The branch before an entry: the last entry of a directory closes it.
pub open spec fn branch_of(last: bool) -> Seq<char> {
    if last {
        "└── "@
    } else {
        "├── "@
    }
}

/// The lines of a directory's files; the last one closes the directory only
/// when no subdirectory follows.
pub open spec fn file_lines(files: Seq<Seq<char>>, prefix: Seq<char>, has_subdirs: bool) -> Seq<char> {
    join_with(
        Seq::new(
            files.len(),
            |i: int| prefix + branch_of(i == files.len() - 1 && !has_subdirs) + files[i] + "\n"@,
        ),
        Seq::empty(),
    )
}

/// What drawing directory `dir` adds, and the directories drawn afterwards.
/// A directory already drawn adds nothing. Otherwise its files come first,
/// then each subdirectory: a line with its name and, indented, its own
/// drawing. `depth` bounds the nesting; drawing from the root with more depth
/// than there are directories never reaches the bound.
pub open spec fn render_dir(located: Seq<Located>, dir: Seq<char>, prefix: Seq<char>, done: Seq<Seq<char>>, depth: nat) -> (Seq<char>, Seq<Seq<char>>)
    decreases depth, 0nat,
{
    if depth == 0 || done.contains(dir) {
        (Seq::empty(), done)
    } else {
        let subs = children_of(located, dir);
        let files = file_lines(files_of(located, dir), prefix, subs.len() > 0);
        let rest = render_subdirs(located, subs, 0, prefix, done.push(dir), (depth - 1) as nat);
        (files + rest.0, rest.1)
    }
}

/// What drawing the subdirectories `subs[i..]` adds, and the directories drawn afterwards.
pub open spec fn render_subdirs(located: Seq<Located>, subs: Seq<Seq<char>>, i: int, prefix: Seq<char>, done: Seq<Seq<char>>, depth: nat) -> (Seq<char>, Seq<Seq<char>>)
    decreases depth, subs.len() - i + 1,
{
    if i < 0 || i >= subs.len() {
        (Seq::empty(), done)
    } else {
        let last = i == subs.len() - 1;
        let line = prefix + branch_of(last) + dir_label(located, subs[i]) + "\n"@;
        let inner = prefix + if last {
            "    "@
        } else {
            "│   "@
        };
        let sub = render_dir(located, subs[i], inner, done, depth);
        let rest = render_subdirs(located, subs, i + 1, prefix, sub.1, depth);
        (line + sub.0 + rest.0, rest.1)
    }
}

/// The tree of files below `root`: no text for no files; else the root, the
/// drawing of the root directory, all between `<file_map>` and `</file_map>`,
/// and a blank line.
pub open spec fn tree_text(root: Seq<char>, located: Seq<Located>, any_files: bool) -> Seq<char> {
    if !any_files {
        Seq::empty()
    } else {
        "<file_map>\n"@ + root + "\n"@ + render_dir(
            located,
            root,
            Seq::empty(),
            Seq::empty(),
            group_keys(located).len() + 2,
        ).0 + "</file_map>\n\n"@
    }
}

/// The number of directories among `keys` not yet drawn.
pub open spec fn undrawn(keys: Seq<Seq<char>>, done: Seq<Seq<char>>) -> nat
    decreases keys.len(),
{
    if keys.len() == 0 {
        0
    } else {
        undrawn(keys.drop_last(), done) + if done.contains(keys.last()) { 0nat } else { 1nat }
    }
}

proof fn lemma_undrawn_monotone(keys: Seq<Seq<char>>, a: Seq<Seq<char>>, b: Seq<Seq<char>>, x: Seq<char>)
    requires
        forall|y: Seq<char>| a.contains(y) ==> b.contains(y),
    ensures
        undrawn(keys, b) <= undrawn(keys, a),
        keys.contains(x) && !a.contains(x) && b.contains(x) ==> undrawn(keys, b) < undrawn(keys, a),
    decreases keys.len(),
{
    if keys.len() > 0 {
        let d = keys.drop_last();
        lemma_undrawn_monotone(d, a, b, x);
        if keys.contains(x) && !d.contains(x) {
            assert(keys.last() == x) by {
                let k = choose|k: int| 0 <= k < keys.len() && keys[k] == x;
                if k < keys.len() - 1 {
                    assert(d[k] == x);
                }
            }
        }
        if d.contains(x) {
            let k = choose|k: int| 0 <= k < d.len() && d[k] == x;
            assert(keys[k] == x);
        }
    }
}

/// Directory `dir` is one of the located files' directories: it costs no
/// extra depth.
pub open spec fn extra(located: Seq<Located>, dir: Seq<char>) -> nat {
    if group_keys(located).contains(dir) {
        0
    } else {
        1
    }
}

/// With enough depth, drawing a directory gives the same text and drawn
/// directories whatever the depth, and never forgets a drawn directory.
pub proof fn lemma_render_dir_depth(located: Seq<Located>, dir: Seq<char>, prefix: Seq<char>, done: Seq<Seq<char>>, d1: nat, d2: nat)
    requires
        d1 > undrawn(group_keys(located), done) + extra(located, dir),
        d2 > undrawn(group_keys(located), done) + extra(located, dir),
    ensures
        render_dir(located, dir, prefix, done, d1) == render_dir(located, dir, prefix, done, d2),
        forall|x: Seq<char>| done.contains(x) ==> render_dir(located, dir, prefix, done, d1).1.contains(x),
    decreases d1, 0nat,
{
    let keys = group_keys(located);
    if !done.contains(dir) {
        let done1 = done.push(dir);
        assert forall|y: Seq<char>| done.contains(y) implies done1.contains(y) by {
            let k = choose|k: int| 0 <= k < done.len() && done[k] == y;
            assert(done1[k] == y);
        }
        assert(done1.contains(dir)) by {
            assert(done1[done.len() as int] == dir);
        }
        lemma_undrawn_monotone(keys, done, done1, dir);
        let subs = children_of(located, dir);
        assert forall|k: int| 0 <= k < subs.len() implies group_keys(located).contains(#[trigger] subs[k]) by {
            lemma_children_of_keys(located, dir, k);
        }
        lemma_render_subdirs_depth(located, subs, 0, prefix, done1, (d1 - 1) as nat, (d2 - 1) as nat);
        let r = render_subdirs(located, subs, 0, prefix, done1, (d1 - 1) as nat);
        assert forall|x: Seq<char>| done.contains(x) implies r.1.contains(x) by {
            assert(done1.contains(x));
        }
    }
}

/// The counterpart of `lemma_render_dir_depth` for the subdirectories `subs[i..]`
/// of a directory.
pub proof fn lemma_render_subdirs_depth(located: Seq<Located>, subs: Seq<Seq<char>>, i: int, prefix: Seq<char>, done: Seq<Seq<char>>, e1: nat, e2: nat)
    requires
        0 <= i,
        forall|k: int| 0 <= k < subs.len() ==> group_keys(located).contains(#[trigger] subs[k]),
        e1 > undrawn(group_keys(located), done),
        e2 > undrawn(group_keys(located), done),
    ensures
        render_subdirs(located, subs, i, prefix, done, e1) == render_subdirs(located, subs, i, prefix, done, e2),
        forall|x: Seq<char>| done.contains(x) ==> render_subdirs(located, subs, i, prefix, done, e1).1.contains(x),
    decreases e1, subs.len() - i + 1,
{
    if i < subs.len() {
        let last = i == subs.len() - 1;
        let inner = prefix + if last {
            "    "@
        } else {
            "│   "@
        };
        assert(group_keys(located).contains(subs[i]));
        lemma_render_dir_depth(located, subs[i], inner, done, e1, e2);
        let sub = render_dir(located, subs[i], inner, done, e1);
        lemma_undrawn_monotone(group_keys(located), done, sub.1, subs[i]);
        lemma_render_subdirs_depth(located, subs, i + 1, prefix, sub.1, e1, e2);
    }
}

/// The depth given when drawing from the root is never reached: any larger
/// depth draws the same tree.
pub proof fn lemma_tree_depth_unreached(root: Seq<char>, located: Seq<Located>, more: nat)
    ensures
        render_dir(located, root, Seq::empty(), Seq::empty(), group_keys(located).len() + 2) == render_dir(
            located,
            root,
            Seq::empty(),
            Seq::empty(),
            group_keys(located).len() + 2 + more,
        ),
{
    lemma_undrawn_none(group_keys(located));
    lemma_render_dir_depth(
        located,
        root,
        Seq::empty(),
        Seq::empty(),
        (group_keys(located).len() + 2) as nat,
        (group_keys(located).len() + 2 + more) as nat,
    );
}

/// A directory and its files, sorted, with the name shown for it.
pub struct Group {
    pub dir: Vec<char>,
    pub label: Vec<char>,
    pub files: Vec<Vec<char>>,
}

/// `groups` holds, for each directory of the located files in order, its
/// sorted files and shown name.
pub open spec fn groups_match(groups: Seq<Group>, located: Seq<Located>) -> bool {
    let keys = group_keys(located);
    &&& groups.len() == keys.len()
    &&& forall|j: int| 0 <= j < groups.len() ==> {
        &&& (#[trigger] groups[j]).dir@ == keys[j]
        &&& texts_view(groups[j].files@) == files_of(located, keys[j])
        &&& groups[j].label@ == dir_label(located, keys[j])
    }
}

proof fn lemma_names_in_key(located: Seq<Located>, dir: Seq<char>)
    requires
        !group_keys(located).contains(dir),
    ensures
        names_in(located, dir) == Seq::<Seq<char>>::empty(),
    decreases located.len(),
{
    if located.len() > 0 {
        let keys = group_keys(located.drop_last());
        if keys.contains(dir) {
            let k = choose|k: int| 0 <= k < keys.len() && keys[k] == dir;
            if !keys.contains(located.last().0) {
                assert(keys.push(located.last().0)[k] == dir);
            }
        }
        lemma_names_in_key(located.drop_last(), dir);
        if located.last().0 == dir {
            if !keys.contains(dir) {
                assert(keys.push(dir)[keys.len() as int] == dir);
            }
        }
    }
}

/// What is drawn under `dir` is one of `keys`, and a child of `dir`.
pub proof fn lemma_children_in_keys(keys: Seq<Seq<char>>, dir: Seq<char>, x: Seq<char>)
    requires
        children_in(keys, dir).contains(x),
    ensures
        keys.contains(x),
        is_child(dir, x),
    decreases keys.len(),
{
    if keys.len() > 0 {
        let d = keys.drop_last();
        let c = children_in(d, dir);
        if c.contains(x) {
            lemma_children_in_keys(d, dir, x);
            let k = choose|k: int| 0 <= k < d.len() && d[k] == x;
            assert(keys[k] == x);
        } else {
            assert(x == keys.last());
            assert(keys[keys.len() - 1] == x);
        }
    }
}

proof fn lemma_children_of_keys(located: Seq<Located>, dir: Seq<char>, i: int)
    requires
        0 <= i < children_of(located, dir).len(),
    ensures
        group_keys(located).contains(children_of(located, dir)[i]),
{
    broadcast use vstd::seq_lib::group_to_multiset_ensures;

    let c = children_in(group_keys(located), dir);
    let s = children_of(located, dir);
    lemma_sort_multiset(c, lex_order());
    assert(s.contains(s[i]));
    assert(s.to_multiset().count(s[i]) > 0);
    assert(c.contains(s[i]));
    lemma_children_in_keys(group_keys(located), dir, s[i]);
}

/// Tests equality of two texts.
pub(crate) fn same_chars(a: &[char], b: &[char]) -> (r: bool)
    ensures
        r == (a@ == b@),
{
    if a.len() != b.len() {
        return false;
    }
    let r = starts_with(a, b);
    assert(a@.subrange(0, a@.len() as int) =~= a@);
    r
}

/// Whether `dir` was drawn already.
pub(crate) fn drawn(done: &Vec<Vec<char>>, dir: &[char]) -> (r: bool)
    ensures
        r == texts_view(done@).contains(dir@),
{
    for i in 0..done.len()
        invariant
            forall|k: int| 0 <= k < i ==> done@[k]@ != dir@,
    {
        if same_chars(done[i].as_slice(), dir) {
            assert(texts_view(done@)[i as int] == dir@);
            return true;
        }
    }
    assert forall|k: int| 0 <= k < texts_view(done@).len() implies texts_view(done@)[k] != dir@ by {
        assert(texts_view(done@)[k] == done@[k]@);
    }
    false
}

/// The position of `dir` among the groups, if it is one of their directories.
fn find_group(groups: &Vec<Group>, dir: &[char]) -> (r: Option<usize>)
    ensures
        match r {
            Some(j) => j < groups@.len() && groups@[j as int].dir@ == dir@,
            None => forall|j: int| 0 <= j < groups@.len() ==> (#[trigger] groups@[j]).dir@ != dir@,
        },
{
    for j in 0..groups.len()
        invariant
            forall|k: int| 0 <= k < j ==> (#[trigger] groups@[k]).dir@ != dir@,
    {
        if same_chars(groups[j].dir.as_slice(), dir) {
            return Some(j);
        }
    }
    None
}

/// The number of `/` characters in `s`.
fn count_slashes(s: &[char]) -> (r: usize)
    ensures
        r == slash_count(s@),
{
    let mut n: usize = 0;
    for i in 0..s.len()
        invariant
            n == slash_count(s@.take(i as int)),
            n <= i,
    {
        assert(s@.take(i + 1).drop_last() == s@.take(i as int));
        if s[i] == '/' {
            n = n + 1;
        }
    }
    assert(s@.take(s@.len() as int) == s@);
    n
}

/// The directories drawn under `dir`, in ascending order.
fn subdirs_of(groups: &Vec<Group>, Ghost(located): Ghost<Seq<Located>>, dir: &[char]) -> (r: Vec<Vec<char>>)
    requires
        groups_match(groups@, located),
    ensures
        texts_view(r@) == children_of(located, dir@),
{
    let ghost keys = group_keys(located);
    let dir_slashes = count_slashes(dir);
    let mut found: Vec<Vec<char>> = Vec::new();
    for j in 0..groups.len()
        invariant
            groups_match(groups@, located),
            keys == group_keys(located),
            dir_slashes == slash_count(dir@),
            texts_view(found@) == children_in(keys.take(j as int), dir@),
    {
        let key = groups[j].dir.as_slice();
        assert(key@ == keys[j as int]);
        assert(keys.take(j + 1).drop_last() == keys.take(j as int));
        assert(keys.take(j + 1).last() == keys[j as int]);
        let child = !same_chars(key, dir) && starts_with(key, dir) && { let ks = count_slashes(key); ks > dir_slashes && ks - 1 == dir_slashes };
        if child {
            let ghost before = texts_view(found@);
            let mut copy: Vec<char> = Vec::new();
            crate::text::extend_chars(&mut copy, key);
            found.push(copy);
            assert(texts_view(found@) =~= before.push(keys[j as int]));
        }
    }
    assert(keys.take(keys.len() as int) == keys);
    sort_texts(found)
}

/// Draws directory `dir` (see `render_dir`), appending to `out` and
/// recording the directories drawn in `done`.
fn build_tree(
    groups: &Vec<Group>,
    Ghost(located): Ghost<Seq<Located>>,
    dir: &[char],
    prefix: &[char],
    out: &mut String,
    done: &mut Vec<Vec<char>>,
    Ghost(depth): Ghost<nat>,
)
    requires
        groups_match(groups@, located),
        depth > undrawn(group_keys(located), texts_view(old(done)@)) + if group_keys(located).contains(dir@) {
            0nat
        } else {
            1nat
        },
    ensures
        final(out)@ == old(out)@ + render_dir(located, dir@, prefix@, texts_view(old(done)@), depth).0,
        texts_view(final(done)@) == render_dir(located, dir@, prefix@, texts_view(old(done)@), depth).1,
        forall|x: Seq<char>| texts_view(old(done)@).contains(x) ==> texts_view(final(done)@).contains(x),
    decreases depth,
{
    let ghost keys = group_keys(located);
    let ghost start = texts_view(done@);
    if drawn(done, dir) {
        assert(out@ =~= old(out)@ + Seq::<char>::empty());
        return;
    }
    let mut own: Vec<char> = Vec::new();
    crate::text::extend_chars(&mut own, dir);
    done.push(own);
    let ghost done1 = texts_view(done@);
    assert(done1 =~= start.push(dir@));
    assert forall|y: Seq<char>| start.contains(y) implies done1.contains(y) by {
        let k = choose|k: int| 0 <= k < start.len() && start[k] == y;
        assert(done1[k] == y);
    }
    assert(done1.contains(dir@)) by {
        assert(done1[start.len() as int] == dir@);
    }
    proof {
        lemma_undrawn_monotone(keys, start, done1, dir@);
    }
    let subdirs = subdirs_of(groups, Ghost(located), dir);
    let ghost subs = children_of(located, dir@);
    let has_subdirs = subdirs.len() > 0;
    // The directory's files.
    let ghost file_list = files_of(located, dir@);
    let ghost lines = Seq::new(
        file_list.len(),
        |i: int| prefix@ + branch_of(i == file_list.len() - 1 && !has_subdirs) + file_list[i] + "\n"@,
    );
    let ghost out0 = out@;
    match find_group(groups, dir) {
        Some(g) => {
            let files = &groups[g].files;
            assert(texts_view(files@) == file_list);
            let n = files.len();
            for i in 0..n
                invariant
                    n == files@.len(),
                    texts_view(files@) == file_list,
                    file_list.len() == n,
                    lines == Seq::new(
                        file_list.len(),
                        |i: int| prefix@ + branch_of(i == file_list.len() - 1 && !has_subdirs) + file_list[i] + "\n"@,
                    ),
                    out@ == out0 + join_with(lines.take(i as int), Seq::empty()),
            {
                let ghost before = out@;
                push_chars(out, prefix);
                if i == n - 1 && !has_subdirs {
                    out.append("└── ");
                } else {
                    out.append("├── ");
                }
                push_chars(out, files[i].as_slice());
                out.append("\n");
                proof {
                    assert(files@[i as int]@ == file_list[i as int]);
                    lemma_take_push(lines, i as int);
                    lemma_join_with_push(lines.take(i as int), lines[i as int], Seq::empty());
                    assert(out@ =~= out0 + (join_with(lines.take(i as int), Seq::empty()) + Seq::<char>::empty() + lines[i as int]));
                    assert(out@ =~= out0 + join_with(lines.take(i as int), Seq::empty()) + lines[i as int]);
                    if i == 0 {
                        assert(out@ =~= out0 + join_with(lines.take(i + 1), Seq::empty()));
                    }
                }
            }
            assert(lines.take(n as int) == lines);
        },
        None => {
            proof {
                assert(!keys.contains(dir@)) by {
                    if keys.contains(dir@) {
                        let k = choose|k: int| 0 <= k < keys.len() && keys[k] == dir@;
                        assert(groups@[k].dir@ == keys[k]);
                    }
                }
                lemma_names_in_key(located, dir@);
                assert(file_list == Seq::<Seq<char>>::empty());
                assert(lines =~= Seq::<Seq<char>>::empty());
            }
            assert(out@ =~= out0 + join_with(lines, Seq::empty()));
        },
    }
    assert(out@ == out0 + file_lines(file_list, prefix@, subs.len() > 0));
    // The subdirectories.
    let ghost out1 = out@;
    let m = subdirs.len();
    for i in 0..m
        invariant
            groups_match(groups@, located),
            keys == group_keys(located),
            m == subs.len(),
            texts_view(subdirs@) == subs,
            subs == children_of(located, dir@),
            depth > 0,
            forall|x: Seq<char>| done1.contains(x) ==> texts_view(done@).contains(x),
            depth - 1 > undrawn(keys, texts_view(done@)),
            render_subdirs(located, subs, 0, prefix@, done1, (depth - 1) as nat) == (
                out@.subrange(out1.len() as int, out@.len() as int) + render_subdirs(
                    located,
                    subs,
                    i as int,
                    prefix@,
                    texts_view(done@),
                    (depth - 1) as nat,
                ).0,
                render_subdirs(located, subs, i as int, prefix@, texts_view(done@), (depth - 1) as nat).1,
            ),
            out1.len() <= out@.len(),
            out@.subrange(0, out1.len() as int) == out1,
    {
        let last = i == m - 1;
        let sub = subdirs[i].as_slice();
        assert(sub@ == subs[i as int]);
        proof {
            lemma_children_of_keys(located, dir@, i as int);
        }
        let label: Vec<char> = match find_group(groups, sub) {
            Some(g) => {
                let mut l: Vec<char> = Vec::new();
                crate::text::extend_chars(&mut l, groups[g].label.as_slice());
                l
            },
            None => {
                proof {
                    let k = choose|k: int| 0 <= k < keys.len() && keys[k] == sub@;
                    assert(groups@[k].dir@ == keys[k]);
                }
                Vec::new()
            },
        };
        assert(label@ == dir_label(located, sub@));
        let ghost before = out@;
        let ghost done_before = texts_view(done@);
        push_chars(out, prefix);
        if last {
            out.append("└── ");
        } else {
            out.append("├── ");
        }
        push_chars(out, label.as_slice());
        out.append("\n");
        let ghost line = prefix@ + branch_of(last) + dir_label(located, sub@) + "\n"@;
        assert(out@ =~= before + line);
        let mut inner: Vec<char> = Vec::new();
        crate::text::extend_chars(&mut inner, prefix);
        if last {
            let ind = chars_of("    ");
            crate::text::extend_chars(&mut inner, ind.as_slice());
        } else {
            let ind = chars_of("│   ");
            crate::text::extend_chars(&mut inner, ind.as_slice());
        }
        let ghost mid = out@;
        build_tree(groups, Ghost(located), sub, inner.as_slice(), out, done, Ghost((depth - 1) as nat));
        proof {
            let r_i = render_subdirs(located, subs, i as int, prefix@, done_before, (depth - 1) as nat);
            let sd = render_dir(located, sub@, inner@, done_before, (depth - 1) as nat);
            let r_next = render_subdirs(located, subs, i + 1, prefix@, sd.1, (depth - 1) as nat);
            assert(r_i == (line + sd.0 + r_next.0, r_next.1));
            assert(out@ == mid + sd.0);
            assert(out@.subrange(out1.len() as int, out@.len() as int) =~= before.subrange(
                out1.len() as int,
                before.len() as int,
            ) + line + sd.0);
            assert(out@.subrange(0, out1.len() as int) =~= out1);
            lemma_undrawn_monotone(keys, done_before, texts_view(done@), sub@);
        }
    }
    proof {
        assert(render_subdirs(located, subs, m as int, prefix@, texts_view(done@), (depth - 1) as nat)
            == (Seq::<char>::empty(), texts_view(done@)));
        assert(out@ =~= out1 + out@.subrange(out1.len() as int, out@.len() as int));
        assert forall|x: Seq<char>| start.contains(x) implies texts_view(done@).contains(x) by {
            assert(done1.contains(x));
        }
    }
}

/// Groups the located files by directory, each group's files sorted.
fn group_files(located: &[(String, String, String)]) -> (r: Vec<Group>)
    ensures
        groups_match(r@, located_view(located@)),
{
    let ghost all = located_view(located@);
    let mut groups: Vec<Group> = Vec::new();
    for i in 0..located.len()
        invariant
            all == located_view(located@),
            groups_hold(groups@, all.take(i as int)),
    {
        let dir = chars_of(located[i].0.as_str());
        let name = chars_of(located[i].1.as_str());
        let ghost prev = all.take(i as int);
        let ghost next = all.take(i + 1);
        assert(next.drop_last() == prev);
        assert(next.last() == all[i as int]);
        assert(all[i as int] == (located@[i as int].0@, located@[i as int].1@, located@[i as int].2@));
        match find_group(&groups, dir.as_slice()) {
            Some(g) => {
                proof {
                    assert(group_keys(prev)[g as int] == dir@);
                    assert(group_keys(prev).contains(dir@));
                }
                let mut group = groups.remove(g);
                let ghost old_files = texts_view(group.files@);
                group.files.push(name);
                assert(texts_view(group.files@) =~= old_files.push(all[i as int].1));
                groups.insert(g, group);
                proof {
                    assert forall|k: int| 0 <= k < groups@.len() implies {
                        &&& (#[trigger] groups@[k]).dir@ == group_keys(next)[k]
                        &&& texts_view(groups@[k].files@) == names_in(next, group_keys(next)[k])
                        &&& groups@[k].label@ == dir_label(next, group_keys(next)[k])
                    } by {
                        assert(group_keys(next) == group_keys(prev));
                        if k != g {
                            assert(group_keys(prev)[k] != dir@) by {
                                lemma_group_keys_distinct(prev, k, g as int);
                            }
                        }
                    }
                }
            },
            None => {
                proof {
                    assert(!group_keys(prev).contains(dir@)) by {
                        if group_keys(prev).contains(dir@) {
                            let k = choose|k: int| 0 <= k < group_keys(prev).len() && group_keys(prev)[k] == dir@;
                            assert(groups@[k].dir@ == group_keys(prev)[k]);
                        }
                    }
                    lemma_names_in_key(prev, dir@);
                }
                let label = chars_of(located[i].2.as_str());
                let mut files: Vec<Vec<char>> = Vec::new();
                files.push(name);
                let ghost before = groups@;
                groups.push(Group { dir, label, files });
                proof {
                    assert forall|k: int| 0 <= k < groups@.len() implies {
                        &&& (#[trigger] groups@[k]).dir@ == group_keys(next)[k]
                        &&& texts_view(groups@[k].files@) == names_in(next, group_keys(next)[k])
                        &&& groups@[k].label@ == dir_label(next, group_keys(next)[k])
                    } by {
                        if k < before.len() {
                            assert(groups@[k] == before[k]);
                            assert(group_keys(prev)[k] != dir@) by {
                                assert(group_keys(prev).contains(group_keys(prev)[k]));
                            }
                        } else {
                            assert(texts_view(groups@[k].files@) =~= seq![all[i as int].1]);
                            assert(names_in(prev, dir@) == Seq::<Seq<char>>::empty());
                            assert(names_in(next, dir@) =~= seq![all[i as int].1]);
                        }
                    }
                }
            },
        }
    }
    assert(all.take(located@.len() as int) == all);
    // Order each group's files.
    let ghost gs = groups@;
    let mut sorted: Vec<Group> = Vec::new();
    for group in it: groups
        invariant
            it.seq() == gs,
            groups_hold(gs, all),
            sorted@.len() == it.index(),
            forall|k: int| 0 <= k < sorted@.len() ==> {
                &&& (#[trigger] sorted@[k]).dir@ == group_keys(all)[k]
                &&& texts_view(sorted@[k].files@) == files_of(all, group_keys(all)[k])
                &&& sorted@[k].label@ == dir_label(all, group_keys(all)[k])
            },
    {
        let ghost k = it.index() as int;
        assert(group == gs[k]);
        let files = sort_texts(group.files);
        sorted.push(Group { dir: group.dir, label: group.label, files });
    }
    sorted
}

proof fn lemma_undrawn_none(keys: Seq<Seq<char>>)
    ensures
        undrawn(keys, Seq::empty()) == keys.len(),
    decreases keys.len(),
{
    if keys.len() > 0 {
        lemma_undrawn_none(keys.drop_last());
    }
}

/// Draws the tree of files below `root` (see `tree_text`), given for each file
/// that has a directory: the directory, the file's name and the directory's
/// own name.
pub fn render_file_tree(root: &str, located: &[(String, String, String)]) -> (r: String)
    ensures
        r@ == tree_text(root@, located_view(located@), true),
{
    let groups = group_files(located);
    let ghost all = located_view(located@);
    let ghost keys = group_keys(all);
    proof {
        lemma_undrawn_none(keys);
    }
    let root_chars = chars_of(root);
    let mut result = String::from_str("<file_map>\n");
    result.append(root);
    result.append("\n");
    let ghost head = result@;
    let mut done: Vec<Vec<char>> = Vec::new();
    assert(texts_view(done@) =~= Seq::<Seq<char>>::empty());
    let prefix: Vec<char> = Vec::new();
    build_tree(&groups, Ghost(all), root_chars.as_slice(), prefix.as_slice(), &mut result, &mut done, Ghost((keys.len() + 2) as nat));
    result.append("</file_map>\n\n");
    assert(prefix@ =~= Seq::<char>::empty());
    result
}

/// The directory reached from `root` by going up until `path` starts with it,
/// or until there is nothing above.
pub open spec fn climb(path: Seq<char>, root: Seq<char>) -> Seq<char>
    decreases root.len(),
{
    if starts_with_components(path, root) {
        root
    } else {
        match parent_of(root) {
            Some(q) => if q.len() < root.len() {
                climb(path, q)
            } else {
                root
            },
            None => root,
        }
    }
}

/// The common root of the paths: the first path, climbed until each of the
/// others starts with it, in turn.
pub open spec fn common_root_of(paths: Seq<Seq<char>>) -> Seq<char>
    decreases paths.len(),
{
    if paths.len() == 0 {
        Seq::empty()
    } else if paths.len() == 1 {
        paths[0]
    } else {
        climb(paths.last(), common_root_of(paths.drop_last()))
    }
}

/// The name given, or the empty text.
pub open spec fn name_or_empty(name: Option<Seq<char>>) -> Seq<char> {
    match name {
        Some(n) => n,
        None => Seq::empty(),
    }
}

/// Each path that has a directory, placed: its directory, its name and the
/// directory's own name, in the order of the paths.
pub open spec fn located_of(paths: Seq<Seq<char>>) -> Seq<Located>
    decreases paths.len(),
{
    if paths.len() == 0 {
        Seq::empty()
    } else {
        let r = located_of(paths.drop_last());
        match parent_of(paths.last()) {
            Some(q) => r.push((q, name_or_empty(file_name_of(paths.last())), name_or_empty(file_name_of(q)))),
            None => r,
        }
    }
}

/// The tree of simple paths: nothing for none; otherwise the files placed
/// below the paths' common root.
pub open spec fn file_tree_of(paths: Seq<Seq<char>>) -> Seq<char> {
    if paths.len() == 0 {
        Seq::empty()
    } else {
        tree_text(common_root_of(paths), located_of(paths), true)
    }
}

/// A placed file comes from path `p`: its directory is a leading part of
/// `p`, its name a piece of `p`, and its directory's shown name a piece of
/// its directory.
pub open spec fn placed_from(l: Located, p: Seq<char>) -> bool {
    &&& is_prefix(l.0, p)
    &&& contains_text(p, l.1)
    &&& contains_text(l.0, l.2)
}

/// A placed file comes from one of `paths`.
pub open spec fn placed_from_some(l: Located, paths: Seq<Seq<char>>) -> bool {
    exists|i: int| 0 <= i < paths.len() && #[trigger] placed_from(l, paths[i])
}

/// Each placed file comes from one of `paths`.
pub open spec fn all_placed_from(located: Seq<Located>, paths: Seq<Seq<char>>) -> bool {
    forall|j: int| 0 <= j < located.len() ==> #[trigger] placed_from_some(located[j], paths)
}

/// Draws the tree of the given files, as the desktop application puts it
/// before the copied contents: nothing for no files; otherwise the tree
/// below the deepest directory that every path starts with (component by
/// component), each file under its directory. For simple paths this is
/// `file_tree_of`; for others, the platform's path rules decide the root
/// and where each file goes.
pub fn generate_file_tree(file_paths: &[String]) -> (r: String)
    ensures
        all_simple(texts_of(file_paths@)) ==> r@ == file_tree_of(texts_of(file_paths@)),
        file_paths@.len() == 0 ==> r@ == Seq::<char>::empty(),
        file_paths@.len() > 0 ==> exists|root: Seq<char>, located: Seq<Located>| {
            &&& located.len() <= file_paths@.len()
            &&& #[trigger] tree_text(root, located, true) == r@
            &&& is_prefix(root, texts_of(file_paths@)[0])
            &&& all_placed_from(located, texts_of(file_paths@))
        },
{
    let ghost paths = texts_of(file_paths@);
    let ghost simple = all_simple(paths);
    if file_paths.len() == 0 {
        return String::new();
    }
    let mut common_root = file_paths[0].clone();
    proof {
        assert(paths.take(1).drop_last().len() == 0);
        assert(paths.take(1)[0] == paths[0]);
        if simple {
            assert(simple_path(paths[0]));
        }
        assert(paths[0].subrange(0, paths[0].len() as int) =~= paths[0]);
    }
    for k in 1..file_paths.len()
        invariant
            paths == texts_of(file_paths@),
            simple == all_simple(paths),
            is_prefix(common_root@, paths[0]),
            simple ==> common_root@ == common_root_of(paths.take(k as int)),
            simple ==> simple_path(common_root@),
    {
        let ghost start = common_root@;
        proof {
            if simple {
                assert(simple_path(paths[k as int]));
            }
        }
        loop
            invariant
                k < file_paths@.len(),
                paths == texts_of(file_paths@),
                simple == all_simple(paths),
                simple ==> simple_path(paths[k as int]),
                simple ==> simple_path(common_root@),
                simple ==> climb(paths[k as int], common_root@) == climb(paths[k as int], start),
                is_prefix(common_root@, paths[0]),
            ensures
                simple ==> climb(paths[k as int], common_root@) == common_root@,
            decreases common_root@.len(),
        {
            if path_starts_with(file_paths[k].as_str(), common_root.as_str()) {
                break;
            }
            match path_parent(common_root.as_str()) {
                Some(parent) => {
                    proof {
                        if simple {
                            lemma_parent_simple(common_root@);
                        }
                        assert(paths[0].subrange(0, parent@.len() as int) =~= common_root@.subrange(
                            0,
                            parent@.len() as int,
                        ));
                    }
                    common_root = parent;
                },
                None => {
                    break;
                },
            }
        }
        proof {
            let t = paths.take(k + 1);
            assert(t.drop_last() =~= paths.take(k as int));
            assert(t.last() == paths[k as int]);
        }
    }
    proof {
        assert(paths.take(file_paths@.len() as int) =~= paths);
    }
    let mut located: Vec<(String, String, String)> = Vec::new();
    for k in 0..file_paths.len()
        invariant
            located@.len() <= k,
            paths == texts_of(file_paths@),
            simple == all_simple(paths),
            simple ==> located_view(located@) == located_of(paths.take(k as int)),
            all_placed_from(located_view(located@), paths),
    {
        let ghost before = located@;
        proof {
            let t = paths.take(k + 1);
            assert(t.drop_last() =~= paths.take(k as int));
            assert(t.last() == paths[k as int]);
            if simple {
                assert(simple_path(paths[k as int]));
            }
        }
        match path_parent(file_paths[k].as_str()) {
            Some(parent) => {
                let name = match path_file_name(file_paths[k].as_str()) {
                    Some(n) => n,
                    None => String::new(),
                };
                proof {
                    if simple {
                        lemma_parent_simple(paths[k as int]);
                    }
                }
                let label = match path_file_name(parent.as_str()) {
                    Some(n) => n,
                    None => String::new(),
                };
                let ghost parent_v = parent@;
                let ghost name_v = name@;
                let ghost label_v = label@;
                proof {
                    assert(paths[k as int].subrange(0, 0) =~= Seq::<char>::empty());
                    assert(parent@.subrange(0, 0) =~= Seq::<char>::empty());
                    assert(occurs_at(paths[k as int], 0, Seq::empty()));
                    assert(occurs_at(parent@, 0, Seq::empty()));
                    assert(placed_from((parent@, name@, label@), paths[k as int]));
                }
                located.push((parent, name, label));
                proof {
                    assert(located_view(located@) =~= located_view(before).push(
                        (located@.last().0@, located@.last().1@, located@.last().2@),
                    ));
                    let lv = located_view(located@);
                    assert forall|j: int| 0 <= j < lv.len() implies #[trigger] placed_from_some(lv[j], paths) by {
                        if j < lv.len() - 1 {
                            assert(lv[j] == located_view(before)[j]);
                            assert(placed_from_some(located_view(before)[j], paths));
                        } else {
                            assert(paths.len() == file_paths@.len());
                            assert(lv[j] == (parent_v, name_v, label_v));
                            assert(placed_from(lv[j], paths[k as int]));
                        }
                    }
                    assert(all_placed_from(lv, paths));
                }
            },
            None => {
                assert(all_placed_from(located_view(located@), paths));
            },
        }
    }
    proof {
        assert(paths.take(file_paths@.len() as int) =~= paths);
    }
    let r = render_file_tree(common_root.as_str(), located.as_slice());
    assert(located_view(located@).len() <= file_paths@.len() && tree_text(common_root@, located_view(located@), true) == r@
        && is_prefix(common_root@, paths[0]) && all_placed_from(located_view(located@), paths));
    r
}

/// The texts of located files.
pub open spec fn located_view(v: Seq<(String, String, String)>) -> Seq<Located> {
    v.map_values(|e: (String, String, String)| (e.0@, e.1@, e.2@))
}

/// `groups` holds, for each directory of the located files in order, its
/// files in the order given and its shown name.
pub open spec fn groups_hold(groups: Seq<Group>, located: Seq<Located>) -> bool {
    let keys = group_keys(located);
    &&& groups.len() == keys.len()
    &&& forall|j: int| 0 <= j < groups.len() ==> {
        &&& (#[trigger] groups[j]).dir@ == keys[j]
        &&& texts_view(groups[j].files@) == names_in(located, keys[j])
        &&& groups[j].label@ == dir_label(located, keys[j])
    }
}

/// No directory is listed twice among the located files' directories.
pub proof fn lemma_group_keys_distinct(located: Seq<Located>, a: int, b: int)
    requires
        0 <= a < group_keys(located).len(),
        0 <= b < group_keys(located).len(),
        a != b,
    ensures
        group_keys(located)[a] != group_keys(located)[b],
    decreases located.len(),
{
    let keys = group_keys(located.drop_last());
    if group_keys(located) == keys {
        lemma_group_keys_distinct(located.drop_last(), a, b);
    } else {
        if a < keys.len() && b < keys.len() {
            lemma_group_keys_distinct(located.drop_last(), a, b);
        } else if a < keys.len() {
            assert(keys.contains(keys[a]));
        } else {
            assert(keys.contains(keys[b]));
        }
    }
}

} // verus!
