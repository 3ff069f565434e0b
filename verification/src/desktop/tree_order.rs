//! The desktop tree does not depend on the order in which the files are
//! given: the common root is the deepest directory that leads every path, and
//! the drawing reads the placed files only through what their order cannot
//! change.
use vstd::prelude::*;
use vstd::multiset::Multiset;
use crate::desktop::file_tree::{
    children_in, children_of, dir_label, file_name_of, files_of, group_keys, is_child, lemma_group_keys_distinct,
    name_or_empty, names_in, render_dir, render_subdirs, tree_text, Located, all_simple, file_tree_of, located_of,
    climb, common_root_of, is_root, lemma_last_slash, lemma_parent_simple, parent_of, simple_path,
    starts_with_components,
};
use crate::ordering::{lemma_sort_multiset, lemma_sort_sorted, lemma_sorted_unique};
use crate::paths::last_slash;
use crate::text::{lemma_lex_order_antisymmetric, lemma_lex_order_total_preorder, lex_order};

verus! {

/// A path begins with `/`.
pub open spec fn is_absolute(p: Seq<char>) -> bool {
    p.len() > 0 && p[0] == '/'
}

/// `x` is a leading run of whole components of `p`.
pub open spec fn leads(x: Seq<char>, p: Seq<char>) -> bool {
    starts_with_components(p, x)
}

/// Every path leads itself.
proof fn lemma_leads_reflexive(p: Seq<char>)
    ensures
        leads(p, p),
{
    assert(p.subrange(0, p.len() as int) =~= p);
}

/// Leading runs compose.
proof fn lemma_leads_transitive(x: Seq<char>, y: Seq<char>, z: Seq<char>)
    requires
        leads(x, y),
        leads(y, z),
    ensures
        leads(x, z),
{
    if x.len() > 0 {
        if is_root(x) && y.len() > 0 && y[0] == '/' {
            if !is_root(y) {
                if y.len() > 0 && y.len() <= z.len() && z.subrange(0, y.len() as int) == y {
                    assert(z[0] == z.subrange(0, y.len() as int)[0]);
                }
            }
        } else {
            assert(crate::text::is_prefix(x, y));
            assert(y.subrange(0, x.len() as int) == x);
            if y.len() > 0 && crate::text::is_prefix(y, z) && (z.len() == y.len() || z[y.len() as int] == '/') {
                assert(z.subrange(0, y.len() as int) == y);
                assert(z.subrange(0, x.len() as int) =~= y.subrange(0, x.len() as int));
                if x.len() < y.len() {
                    assert(z[x.len() as int] == z.subrange(0, y.len() as int)[x.len() as int]);
                }
            } else if is_root(y) {
                if x.len() == 1 {
                    assert(x[0] == y.subrange(0, x.len() as int)[0]);
                }
            }
        }
    }
}

/// Two paths that lead each other are equal.
proof fn lemma_leads_antisymmetric(x: Seq<char>, y: Seq<char>)
    requires
        leads(x, y),
        leads(y, x),
    ensures
        x == y,
{
    if x.len() > 0 && y.len() > 0 {
        if is_root(x) || is_root(y) {
            assert(x.len() == 1 && y.len() == 1);
            assert(x =~= y);
        } else {
            assert(y.subrange(0, x.len() as int) == x);
            assert(x.subrange(0, y.len() as int) == y);
            assert(x =~= y);
        }
    }
}

/// A path's directory leads it.
proof fn lemma_parent_leads(r: Seq<char>)
    requires
        parent_of(r) is Some,
    ensures
        leads(parent_of(r)->0, r),
        is_absolute(parent_of(r)->0) ==> is_absolute(r),
{
    lemma_last_slash(r);
    let k = last_slash(r);
    let q = parent_of(r)->0;
    if k == 0 {
        assert(q[0] == r[0]);
    } else if k > 0 {
        assert(r.subrange(0, q.len() as int) =~= q);
        assert(q[0] == r[0]);
    }
}

/// What leads a path, other than the path itself, leads its directory.
proof fn lemma_leads_parent(y: Seq<char>, r: Seq<char>)
    requires
        parent_of(r) is Some,
        leads(y, r),
        y != r,
    ensures
        leads(y, parent_of(r)->0),
{
    lemma_last_slash(r);
    let k = last_slash(r);
    let q = parent_of(r)->0;
    if y.len() > 0 {
        if is_root(y) && r[0] == '/' {
            if k > 0 {
                assert(q[0] == r[0]);
            } else {
                assert(k == 0 || r[0] != '/');
                if k == 0 {
                    assert(q[0] == r[0]);
                }
            }
        } else {
            assert(r.subrange(0, y.len() as int) == y);
            if y.len() == r.len() {
                assert(y =~= r);
            }
            assert(r[y.len() as int] == '/');
            assert(y.len() <= k);
            if k > 0 {
                if y.len() == k {
                    assert(y =~= q);
                    assert(q.subrange(0, q.len() as int) =~= q);
                } else {
                    assert(q.subrange(0, y.len() as int) =~= r.subrange(0, y.len() as int));
                    assert(q[y.len() as int] == r[y.len() as int]);
                }
            }
        }
    }
}

/// `y` leads every path of `paths`.
pub open spec fn leads_all(y: Seq<char>, paths: Seq<Seq<char>>) -> bool {
    forall|i: int| 0 <= i < paths.len() ==> leads(y, #[trigger] paths[i])
}

/// Climbing from `root` until `path` is led stops at the deepest simple
/// path that leads both, when the top of the climb leads `path`.
proof fn lemma_climb(path: Seq<char>, root: Seq<char>)
    requires
        simple_path(root),
        is_absolute(root) ==> is_absolute(path),
    ensures
        simple_path(climb(path, root)),
        leads(climb(path, root), path),
        leads(climb(path, root), root),
        forall|y: Seq<char>| leads(y, path) && leads(y, root) ==> #[trigger] leads(y, climb(path, root)),
    decreases root.len(),
{
    let c = climb(path, root);
    if leads(root, path) {
        lemma_leads_reflexive(root);
    } else {
        lemma_parent_simple(root);
        if parent_of(root) is None {
            assert(root.len() == 0 || is_root(root));
            if is_root(root) {
                assert(is_absolute(root));
            }
        } else {
            let q = parent_of(root)->0;
            lemma_parent_leads(root);
            lemma_climb(path, q);
            lemma_leads_transitive(c, q, root);
            assert forall|y: Seq<char>| leads(y, path) && leads(y, root) implies #[trigger] leads(y, c) by {
                lemma_leads_parent(y, root);
            }
        }
    }
}

/// Every path of `paths` is absolute, or none is.
pub open spec fn one_kind(paths: Seq<Seq<char>>) -> bool {
    (forall|i: int| 0 <= i < paths.len() ==> is_absolute(#[trigger] paths[i]))
        || (forall|i: int| 0 <= i < paths.len() ==> !is_absolute(#[trigger] paths[i]))
}

/// The common root leads every path and is led by whatever leads them all.
proof fn lemma_common_root_deepest(paths: Seq<Seq<char>>)
    requires
        paths.len() > 0,
        all_simple(paths),
        one_kind(paths),
    ensures
        simple_path(common_root_of(paths)),
        leads_all(common_root_of(paths), paths),
        forall|y: Seq<char>| #[trigger] leads_all(y, paths) ==> leads(y, common_root_of(paths)),
    decreases paths.len(),
{
    let c = common_root_of(paths);
    if paths.len() == 1 {
        assert(simple_path(paths[0]));
        lemma_leads_reflexive(paths[0]);
        assert forall|y: Seq<char>| #[trigger] leads_all(y, paths) implies leads(y, c) by {
            assert(leads(y, paths[0]));
        }
    } else {
        let d = paths.drop_last();
        assert forall|i: int| 0 <= i < d.len() implies simple_path(#[trigger] d[i]) by {
            assert(simple_path(paths[i]));
        }
        assert(one_kind(d)) by {
            if forall|i: int| 0 <= i < paths.len() ==> is_absolute(#[trigger] paths[i]) {
                assert forall|i: int| 0 <= i < d.len() implies is_absolute(#[trigger] d[i]) by {
                    assert(is_absolute(paths[i]));
                }
            } else {
                assert forall|i: int| 0 <= i < d.len() implies !is_absolute(#[trigger] d[i]) by {
                    assert(!is_absolute(paths[i]));
                }
            }
        }
        lemma_common_root_deepest(d);
        let r = common_root_of(d);
        let p = paths.last();
        assert(leads(r, d[0]));
        assert(simple_path(paths[paths.len() - 1]));
        assert(is_absolute(r) ==> is_absolute(p)) by {
            if is_absolute(r) {
                assert(is_absolute(d[0])) by {
                    if !is_root(r) {
                        assert(d[0].subrange(0, r.len() as int) == r);
                        assert(d[0][0] == d[0].subrange(0, r.len() as int)[0]);
                    }
                }
                assert(is_absolute(paths[0]));
                if !is_absolute(p) {
                    assert(!is_absolute(paths[paths.len() - 1]));
                }
            }
        }
        lemma_climb(p, r);
        assert forall|i: int| 0 <= i < paths.len() implies leads(c, #[trigger] paths[i]) by {
            if i < paths.len() - 1 {
                assert(leads(r, d[i]));
                lemma_leads_transitive(c, r, paths[i]);
            }
        }
        assert forall|y: Seq<char>| #[trigger] leads_all(y, paths) implies leads(y, c) by {
            assert forall|i: int| 0 <= i < d.len() implies leads(y, #[trigger] d[i]) by {
                assert(leads(y, paths[i]));
            }
            assert(leads_all(y, d));
            assert(leads(y, paths[paths.len() - 1]));
        }
    }
}

/// The common root of simple paths of one kind does not depend on their
/// order: any reordering of the paths has the same common root.
pub proof fn lemma_common_root_order(a: Seq<Seq<char>>, b: Seq<Seq<char>>)
    requires
        a.to_multiset() == b.to_multiset(),
        a.len() > 0,
        all_simple(a),
        one_kind(a),
    ensures
        common_root_of(a) == common_root_of(b),
{
    broadcast use vstd::seq_lib::group_to_multiset_ensures;
    a.to_multiset_ensures();
    b.to_multiset_ensures();
    assert forall|x: Seq<char>| a.contains(x) <==> b.contains(x) by {
        let n = a.to_multiset().count(x);
        assert(n == b.to_multiset().count(x));
        assert(a.contains(x) <==> n > 0);
        assert(b.contains(x) <==> n > 0);
    }
    assert(b.len() > 0) by {
        assert(a.contains(a[0]));
    }
    assert forall|i: int| 0 <= i < b.len() implies simple_path(#[trigger] b[i]) by {
        assert(b.contains(b[i]));
        let k = choose|k: int| 0 <= k < a.len() && a[k] == b[i];
        assert(simple_path(a[k]));
    }
    assert(one_kind(b)) by {
        if forall|i: int| 0 <= i < a.len() ==> is_absolute(#[trigger] a[i]) {
            assert forall|i: int| 0 <= i < b.len() implies is_absolute(#[trigger] b[i]) by {
                assert(b.contains(b[i]));
                let k = choose|k: int| 0 <= k < a.len() && a[k] == b[i];
                assert(is_absolute(a[k]));
            }
        } else {
            assert forall|i: int| 0 <= i < b.len() implies !is_absolute(#[trigger] b[i]) by {
                assert(b.contains(b[i]));
                let k = choose|k: int| 0 <= k < a.len() && a[k] == b[i];
                assert(!is_absolute(a[k]));
            }
        }
    }
    lemma_common_root_deepest(a);
    lemma_common_root_deepest(b);
    let ca = common_root_of(a);
    let cb = common_root_of(b);
    assert(leads_all(ca, b)) by {
        assert forall|i: int| 0 <= i < b.len() implies leads(ca, #[trigger] b[i]) by {
            assert(b.contains(b[i]));
            let k = choose|k: int| 0 <= k < a.len() && a[k] == b[i];
            assert(leads(ca, a[k]));
        }
    }
    assert(leads_all(cb, a)) by {
        assert forall|i: int| 0 <= i < a.len() implies leads(cb, #[trigger] a[i]) by {
            assert(a.contains(a[i]));
            let k = choose|k: int| 0 <= k < b.len() && b[k] == a[i];
            assert(leads(cb, b[k]));
        }
    }
    lemma_leads_antisymmetric(ca, cb);
}

/// Two lists of placed files are drawn alike: the same subdirectories, files
/// and shown name for every directory, and as many directories.
pub open spec fn drawn_alike(a: Seq<Located>, b: Seq<Located>) -> bool {
    &&& group_keys(a).len() == group_keys(b).len()
    &&& forall|d: Seq<char>| #[trigger] children_of(a, d) == children_of(b, d)
    &&& forall|d: Seq<char>| #[trigger] files_of(a, d) == files_of(b, d)
    &&& forall|d: Seq<char>| #[trigger] dir_label(a, d) == dir_label(b, d)
}

/// Lists of placed files drawn alike give the same drawing of any directory.
proof fn lemma_render_alike(a: Seq<Located>, b: Seq<Located>, dir: Seq<char>, prefix: Seq<char>, done: Seq<Seq<char>>, depth: nat)
    requires
        drawn_alike(a, b),
    ensures
        render_dir(a, dir, prefix, done, depth) == render_dir(b, dir, prefix, done, depth),
    decreases depth, 0nat,
{
    if depth > 0 && !done.contains(dir) {
        assert(children_of(a, dir) == children_of(b, dir));
        assert(files_of(a, dir) == files_of(b, dir));
        lemma_render_subdirs_alike(a, b, children_of(a, dir), 0, prefix, done.push(dir), (depth - 1) as nat);
    }
}

/// The counterpart of `lemma_render_alike` for the subdirectories `subs[i..]`.
proof fn lemma_render_subdirs_alike(
    a: Seq<Located>,
    b: Seq<Located>,
    subs: Seq<Seq<char>>,
    i: int,
    prefix: Seq<char>,
    done: Seq<Seq<char>>,
    depth: nat,
)
    requires
        drawn_alike(a, b),
    ensures
        render_subdirs(a, subs, i, prefix, done, depth) == render_subdirs(b, subs, i, prefix, done, depth),
    decreases depth, subs.len() - i + 1,
{
    if 0 <= i < subs.len() {
        let last = i == subs.len() - 1;
        let inner = prefix + if last {
            "    "@
        } else {
            "│   "@
        };
        assert(dir_label(a, subs[i]) == dir_label(b, subs[i]));
        lemma_render_alike(a, b, subs[i], inner, done, depth);
        let sub = render_dir(a, subs[i], inner, done, depth);
        lemma_render_subdirs_alike(a, b, subs, i + 1, prefix, sub.1, depth);
    }
}

/// Lists of placed files drawn alike give the same tree below any root.
pub proof fn lemma_tree_text_alike(root: Seq<char>, a: Seq<Located>, b: Seq<Located>)
    requires
        drawn_alike(a, b),
    ensures
        tree_text(root, a, true) == tree_text(root, b, true),
{
    lemma_render_alike(a, b, root, Seq::empty(), Seq::empty(), group_keys(a).len() + 2);
}

/// The name shown for a directory: its final component, or the empty text.
pub open spec fn dir_name_label(d: Seq<char>) -> Seq<char> {
    name_or_empty(file_name_of(d))
}

/// Each placed file carries the shown name of its directory.
pub open spec fn labels_follow(l: Seq<Located>) -> bool {
    forall|i: int| 0 <= i < l.len() ==> (#[trigger] l[i]).2 == dir_name_label(l[i].0)
}

/// No text occurs twice.
spec fn no_repeats(s: Seq<Seq<char>>) -> bool {
    forall|i: int, j: int| 0 <= i < j < s.len() ==> s[i] != s[j]
}

/// A directory is listed exactly when some placed file is in it.
proof fn lemma_keys_contains(l: Seq<Located>, d: Seq<char>)
    ensures
        group_keys(l).contains(d) <==> exists|i: int| 0 <= i < l.len() && (#[trigger] l[i]).0 == d,
    decreases l.len(),
{
    if l.len() > 0 {
        let dl = l.drop_last();
        lemma_keys_contains(dl, d);
        let k = group_keys(dl);
        vstd::seq_lib::lemma_seq_contains_after_push(k, l.last().0, d);
        if exists|i: int| 0 <= i < dl.len() && (#[trigger] dl[i]).0 == d {
            let i = choose|i: int| 0 <= i < dl.len() && (#[trigger] dl[i]).0 == d;
            assert(l[i] == dl[i]);
        }
        if exists|i: int| 0 <= i < l.len() && (#[trigger] l[i]).0 == d {
            let i = choose|i: int| 0 <= i < l.len() && (#[trigger] l[i]).0 == d;
            if i < l.len() - 1 {
                assert(dl[i] == l[i]);
            }
        }
    }
}

/// A sequence without repeats counts each of its texts once.
proof fn lemma_no_repeats_count(s: Seq<Seq<char>>, x: Seq<char>)
    requires
        no_repeats(s),
    ensures
        s.to_multiset().count(x) == if s.contains(x) { 1nat } else { 0nat },
    decreases s.len(),
{
    broadcast use vstd::seq_lib::group_to_multiset_ensures;
    if s.len() > 0 {
        let dl = s.drop_last();
        assert(no_repeats(dl)) by {
            assert forall|i: int, j: int| 0 <= i < j < dl.len() implies dl[i] != dl[j] by {
                assert(s[i] == dl[i] && s[j] == dl[j]);
            }
        }
        lemma_no_repeats_count(dl, x);
        assert(s == dl.push(s.last()));
        vstd::seq_lib::lemma_seq_contains_after_push(dl, s.last(), x);
        if x == s.last() && dl.contains(x) {
            let k = choose|k: int| 0 <= k < dl.len() && dl[k] == x;
            assert(s[k] == s[s.len() - 1]);
        }
    }
}

/// What is drawn under `dir`: the listed directories that are its children.
proof fn lemma_children_in_contains(keys: Seq<Seq<char>>, dir: Seq<char>, x: Seq<char>)
    ensures
        children_in(keys, dir).contains(x) <==> (keys.contains(x) && is_child(dir, x)),
    decreases keys.len(),
{
    if keys.len() > 0 {
        let dl = keys.drop_last();
        lemma_children_in_contains(dl, dir, x);
        vstd::seq_lib::lemma_seq_contains_after_push(children_in(dl, dir), keys.last(), x);
        vstd::seq_lib::lemma_seq_contains_after_push(dl, keys.last(), x);
        assert(dl.push(keys.last()) =~= keys);
    }
}

/// Drawing under `dir` from keys without repeats repeats nothing.
proof fn lemma_children_in_no_repeats(keys: Seq<Seq<char>>, dir: Seq<char>)
    requires
        no_repeats(keys),
    ensures
        no_repeats(children_in(keys, dir)),
    decreases keys.len(),
{
    if keys.len() > 0 {
        let dl = keys.drop_last();
        assert(no_repeats(dl)) by {
            assert forall|i: int, j: int| 0 <= i < j < dl.len() implies dl[i] != dl[j] by {
                assert(keys[i] == dl[i] && keys[j] == dl[j]);
            }
        }
        lemma_children_in_no_repeats(dl, dir);
        let c = children_in(dl, dir);
        if is_child(dir, keys.last()) {
            assert forall|i: int, j: int| 0 <= i < j < c.push(keys.last()).len() implies c.push(keys.last())[i]
                != c.push(keys.last())[j] by {
                if j == c.len() {
                    lemma_children_in_contains(dl, dir, keys.last());
                    if c[i] == keys.last() {
                        assert(c.contains(keys.last()));
                        let k = choose|k: int| 0 <= k < dl.len() && dl[k] == keys.last();
                        assert(keys[k] == keys[keys.len() - 1]);
                    }
                }
            }
        }
    }
}

/// The directories of the placed files repeat nothing.
proof fn lemma_keys_no_repeats(l: Seq<Located>)
    ensures
        no_repeats(group_keys(l)),
{
    assert forall|i: int, j: int| 0 <= i < j < group_keys(l).len() implies group_keys(l)[i] != group_keys(l)[j] by {
        lemma_group_keys_distinct(l, i, j);
    }
}

/// The names of the files of `dir`, counted, are the placed files with that
/// directory and name.
proof fn lemma_names_count(l: Seq<Located>, d: Seq<char>, n: Seq<char>)
    requires
        labels_follow(l),
    ensures
        names_in(l, d).to_multiset().count(n) == l.to_multiset().count((d, n, dir_name_label(d))),
    decreases l.len(),
{
    broadcast use vstd::seq_lib::group_to_multiset_ensures;
    if l.len() > 0 {
        let dl = l.drop_last();
        assert(labels_follow(dl)) by {
            assert forall|i: int| 0 <= i < dl.len() implies (#[trigger] dl[i]).2 == dir_name_label(dl[i].0) by {
                assert(l[i] == dl[i]);
            }
        }
        lemma_names_count(dl, d, n);
        assert(l == dl.push(l.last()));
        assert(l.last() == l[l.len() - 1]);
        let names = names_in(dl, d);
        if l.last().0 == d {
            assert(names_in(l, d) == names.push(l.last().1));
        }
    }
}

/// The shown name of a listed directory is its own.
proof fn lemma_dir_label(l: Seq<Located>, d: Seq<char>)
    requires
        labels_follow(l),
    ensures
        dir_label(l, d) == if group_keys(l).contains(d) { dir_name_label(d) } else { Seq::<char>::empty() },
    decreases l.len(),
{
    if l.len() > 0 {
        let dl = l.drop_last();
        assert(labels_follow(dl)) by {
            assert forall|i: int| 0 <= i < dl.len() implies (#[trigger] dl[i]).2 == dir_name_label(dl[i].0) by {
                assert(l[i] == dl[i]);
            }
        }
        lemma_dir_label(dl, d);
        assert(l.last() == l[l.len() - 1]);
        vstd::seq_lib::lemma_seq_contains_after_push(group_keys(dl), l.last().0, d);
    }
}

/// Placed files holding the same files, each with its directory's shown
/// name, are drawn alike.
pub proof fn lemma_same_files_drawn_alike(a: Seq<Located>, b: Seq<Located>)
    requires
        a.to_multiset() == b.to_multiset(),
        labels_follow(a),
    ensures
        labels_follow(b),
        drawn_alike(a, b),
{
    a.to_multiset_ensures();
    b.to_multiset_ensures();
    assert forall|x: Located| a.contains(x) <==> b.contains(x) by {
        let n = a.to_multiset().count(x);
        assert(n == b.to_multiset().count(x));
        assert(a.contains(x) <==> n > 0);
        assert(b.contains(x) <==> n > 0);
    }
    assert(labels_follow(b)) by {
        assert forall|i: int| 0 <= i < b.len() implies (#[trigger] b[i]).2 == dir_name_label(b[i].0) by {
            assert(b.contains(b[i]));
            let k = choose|k: int| 0 <= k < a.len() && a[k] == b[i];
            assert(a[k].2 == dir_name_label(a[k].0));
        }
    }
    assert forall|d: Seq<char>| group_keys(a).contains(d) <==> group_keys(b).contains(d) by {
        lemma_keys_contains(a, d);
        lemma_keys_contains(b, d);
        if exists|i: int| 0 <= i < a.len() && (#[trigger] a[i]).0 == d {
            let i = choose|i: int| 0 <= i < a.len() && (#[trigger] a[i]).0 == d;
            assert(a.contains(a[i]));
            let k = choose|k: int| 0 <= k < b.len() && b[k] == a[i];
            assert(b[k].0 == d);
        }
        if exists|i: int| 0 <= i < b.len() && (#[trigger] b[i]).0 == d {
            let i = choose|i: int| 0 <= i < b.len() && (#[trigger] b[i]).0 == d;
            assert(b.contains(b[i]));
            let k = choose|k: int| 0 <= k < a.len() && a[k] == b[i];
            assert(a[k].0 == d);
        }
    }
    lemma_keys_no_repeats(a);
    lemma_keys_no_repeats(b);
    lemma_lex_order_total_preorder();
    lemma_lex_order_antisymmetric();
    assert(group_keys(a).to_multiset() =~= group_keys(b).to_multiset()) by {
        assert forall|x: Seq<char>| group_keys(a).to_multiset().count(x) == group_keys(b).to_multiset().count(x) by {
            lemma_no_repeats_count(group_keys(a), x);
            lemma_no_repeats_count(group_keys(b), x);
        }
    }
    group_keys(a).to_multiset_ensures();
    group_keys(b).to_multiset_ensures();
    assert forall|d: Seq<char>| #[trigger] children_of(a, d) == children_of(b, d) by {
        let ca = children_in(group_keys(a), d);
        let cb = children_in(group_keys(b), d);
        lemma_children_in_no_repeats(group_keys(a), d);
        lemma_children_in_no_repeats(group_keys(b), d);
        assert(ca.to_multiset() =~= cb.to_multiset()) by {
            assert forall|x: Seq<char>| ca.to_multiset().count(x) == cb.to_multiset().count(x) by {
                lemma_no_repeats_count(ca, x);
                lemma_no_repeats_count(cb, x);
                lemma_children_in_contains(group_keys(a), d, x);
                lemma_children_in_contains(group_keys(b), d, x);
            }
        }
        lemma_sort_multiset(ca, lex_order());
        lemma_sort_multiset(cb, lex_order());
        lemma_sort_sorted(ca, lex_order());
        lemma_sort_sorted(cb, lex_order());
        lemma_sorted_unique(children_of(a, d), children_of(b, d), lex_order());
    }
    assert forall|d: Seq<char>| #[trigger] files_of(a, d) == files_of(b, d) by {
        let na = names_in(a, d);
        let nb = names_in(b, d);
        assert(na.to_multiset() =~= nb.to_multiset()) by {
            assert forall|n: Seq<char>| na.to_multiset().count(n) == nb.to_multiset().count(n) by {
                lemma_names_count(a, d, n);
                lemma_names_count(b, d, n);
            }
        }
        lemma_sort_multiset(na, lex_order());
        lemma_sort_multiset(nb, lex_order());
        lemma_sort_sorted(na, lex_order());
        lemma_sort_sorted(nb, lex_order());
        lemma_sorted_unique(files_of(a, d), files_of(b, d), lex_order());
    }
    assert forall|d: Seq<char>| #[trigger] dir_label(a, d) == dir_label(b, d) by {
        lemma_dir_label(a, d);
        lemma_dir_label(b, d);
    }
}

/// What `located_of` places for one path, counted.
pub open spec fn placed(p: Seq<char>) -> Multiset<Located> {
    match parent_of(p) {
        Some(q) => Multiset::singleton((q, name_or_empty(file_name_of(p)), name_or_empty(file_name_of(q)))),
        None => Multiset::empty(),
    }
}

/// Placing files gives each the shown name of its directory.
proof fn lemma_located_labels(paths: Seq<Seq<char>>)
    ensures
        labels_follow(located_of(paths)),
    decreases paths.len(),
{
    if paths.len() > 0 {
        lemma_located_labels(paths.drop_last());
        let r = located_of(paths.drop_last());
        assert forall|i: int| 0 <= i < located_of(paths).len() implies (#[trigger] located_of(paths)[i]).2
            == dir_name_label(located_of(paths)[i].0) by {
            if i < r.len() {
                assert(located_of(paths)[i] == r[i]);
            }
        }
    }
}

/// The placed files, counted, are those of each path.
proof fn lemma_located_step(s: Seq<Seq<char>>)
    requires
        s.len() > 0,
    ensures
        located_of(s).to_multiset() == located_of(s.drop_last()).to_multiset().add(placed(s.last())),
{
    broadcast use vstd::seq_lib::group_to_multiset_ensures;
    broadcast use vstd::multiset::group_multiset_axioms;
    let r = located_of(s.drop_last());
    match parent_of(s.last()) {
        Some(q) => {
            assert(located_of(s).to_multiset() =~= r.to_multiset().add(placed(s.last())));
        },
        None => {
            assert(located_of(s).to_multiset() =~= r.to_multiset().add(placed(s.last())));
        },
    }
}

/// Taking one path out takes out what was placed for it.
proof fn lemma_located_remove(s: Seq<Seq<char>>, j: int)
    requires
        0 <= j < s.len(),
    ensures
        located_of(s).to_multiset() == located_of(s.remove(j)).to_multiset().add(placed(s[j])),
    decreases s.len(),
{
    broadcast use vstd::multiset::group_multiset_axioms;
    lemma_located_step(s);
    if j == s.len() - 1 {
        assert(s.remove(j) =~= s.drop_last());
    } else {
        let dl = s.drop_last();
        lemma_located_remove(dl, j);
        let t = s.remove(j);
        assert(t.drop_last() =~= dl.remove(j));
        assert(t.last() == s.last());
        lemma_located_step(t);
        assert(located_of(s).to_multiset() =~= located_of(t).to_multiset().add(placed(s[j])));
    }
}

/// The same paths, in any order, place the same files.
proof fn lemma_located_same(a: Seq<Seq<char>>, b: Seq<Seq<char>>)
    requires
        a.to_multiset() == b.to_multiset(),
    ensures
        located_of(a).to_multiset() == located_of(b).to_multiset(),
    decreases a.len(),
{
    broadcast use vstd::seq_lib::group_to_multiset_ensures;
    broadcast use vstd::multiset::group_multiset_axioms;
    a.to_multiset_ensures();
    b.to_multiset_ensures();
    assert(a.to_multiset().len() == b.to_multiset().len());
    if a.len() == 0 {
        assert(b.len() == 0);
        assert(b =~= Seq::<Seq<char>>::empty());
    } else {
        let x = a.last();
        let dl = a.drop_last();
        assert(a == dl.push(x));
        assert(b.to_multiset().count(x) > 0);
        assert(b.contains(x));
        let j = choose|j: int| 0 <= j < b.len() && b[j] == x;
        let t = b.remove(j);
        assert(t.to_multiset() == b.to_multiset().remove(x));
        assert(dl.to_multiset() =~= t.to_multiset());
        lemma_located_same(dl, t);
        lemma_located_step(a);
        lemma_located_remove(b, j);
    }
}

/// The tree of simple paths of one kind does not depend on their order:
/// any reordering of the paths draws the same tree.
pub proof fn lemma_file_tree_order(a: Seq<Seq<char>>, b: Seq<Seq<char>>)
    requires
        a.to_multiset() == b.to_multiset(),
        all_simple(a),
        one_kind(a),
    ensures
        file_tree_of(a) == file_tree_of(b),
{
    a.to_multiset_ensures();
    b.to_multiset_ensures();
    assert(a.to_multiset().len() == b.to_multiset().len());
    if a.len() == 0 {
        assert(b.len() == 0);
    } else {
        assert(b.len() == a.len());
        lemma_common_root_order(a, b);
        lemma_located_same(a, b);
        lemma_located_labels(a);
        lemma_same_files_drawn_alike(located_of(a), located_of(b));
        lemma_tree_text_alike(common_root_of(a), located_of(a), located_of(b));
    }
}

} // verus!
