//! Slash-separated paths treated as text: the root directory with its
//! trailing slash, paths relative to it, and the common base directory of a
//! set of paths.
use vstd::prelude::*;
use crate::text::{
    chars_of, is_prefix, join_with, lemma_join_with_push, lemma_take_push, push_chars, starts_with,
    string_from_chars, texts_view,
};

verus! {

/// `root` with a `/` appended unless it already ends with one.
pub open spec fn with_trailing_slash(root: Seq<char>) -> Seq<char> {
    if root.len() > 0 && root.last() == '/' {
        root
    } else {
        root.push('/')
    }
}

/// `path` relative to `root`: what follows `root` when `path` starts with it,
/// else `path` itself.
pub open spec fn relative_to(path: Seq<char>, root: Seq<char>) -> Seq<char> {
    if is_prefix(root, path) {
        path.skip(root.len() as int)
    } else {
        path
    }
}

/// `s` without any trailing `/` characters.
pub open spec fn trim_trailing_slashes(s: Seq<char>) -> Seq<char>
    decreases s.len(),
{
    if s.len() > 0 && s.last() == '/' {
        trim_trailing_slashes(s.drop_last())
    } else {
        s
    }
}

/// `root` as a `String` ending in `/`.
pub fn dir_with_slash(root: &str) -> (r: Vec<char>)
    ensures
        r@ == with_trailing_slash(root@),
{
    let mut r = chars_of(root);
    if !(r.len() > 0 && r[r.len() - 1] == '/') {
        r.push('/');
    }
    r
}

/// The characters of `path` relative to `root`.
pub fn relative_path(path: &[char], root: &[char]) -> (r: Vec<char>)
    ensures
        r@ == relative_to(path@, root@),
{
    let mut r: Vec<char> = Vec::new();
    let start = if starts_with(path, root) { root.len() } else { 0 };
    let n = path.len();
    for i in start..n
        invariant
            start <= n,
            n == path@.len(),
            r@ == path@.subrange(start as int, i as int),
    {
        r.push(path[i]);
        assert(path@.subrange(start as int, i + 1) == path@.subrange(start as int, i as int).push(path@[i as int]));
    }
    assert(path@.subrange(0, n as int) == path@);
    r
}

/// `s` without its trailing slashes.
pub fn trim_end_slashes(s: &[char]) -> (r: Vec<char>)
    ensures
        r@ == trim_trailing_slashes(s@),
{
    let mut end = s.len();
    assert(s@.take(s@.len() as int) == s@);
    while end > 0 && s[end - 1] == '/'
        invariant
            end <= s@.len(),
            trim_trailing_slashes(s@) == trim_trailing_slashes(s@.take(end as int)),
        decreases end,
    {
        assert(s@.take(end as int).drop_last() == s@.take(end - 1));
        end = end - 1;
    }
    let mut r: Vec<char> = Vec::new();
    for i in 0..end
        invariant
            end <= s@.len(),
            r@ == s@.take(i as int),
    {
        r.push(s[i]);
        proof { lemma_take_push(s@, i as int); }
    }
    r
}

/// A path relative to its root, glued back to the root, is the path again.
pub proof fn lemma_relative_round_trip(path: Seq<char>, root: Seq<char>)
    requires
        is_prefix(root, path),
    ensures
        root + relative_to(path, root) == path,
{
    assert(root + path.skip(root.len() as int) =~= path);
}

/// The position of the last `/` in `s`, or -1 when there is none.
pub open spec fn last_slash(s: Seq<char>) -> int
    decreases s.len(),
{
    if s.len() == 0 {
        -1
    } else if s.last() == '/' {
        s.len() - 1
    } else {
        last_slash(s.drop_last())
    }
}

/// The pieces of `s` between its `/` characters, as `str::split('/')` gives
/// them: one more piece than there are slashes, empty pieces included.
pub open spec fn split_slash(s: Seq<char>) -> Seq<Seq<char>>
    decreases s.len(),
{
    if s.len() == 0 {
        seq![Seq::empty()]
    } else {
        let r = split_slash(s.drop_last());
        if s.last() == '/' {
            r.push(Seq::empty())
        } else {
            r.update(r.len() - 1, r.last().push(s.last()))
        }
    }
}

/// Splitting always gives at least one piece.
pub proof fn lemma_split_slash_nonempty(s: Seq<char>)
    ensures
        split_slash(s).len() >= 1,
    decreases s.len(),
{
    if s.len() > 0 {
        lemma_split_slash_nonempty(s.drop_last());
    }
}

/// Joining the pieces of a split with `/` gives back the text.
pub proof fn lemma_join_split(s: Seq<char>)
    ensures
        join_with(split_slash(s), "/"@) == s,
    decreases s.len(),
{
    reveal_strlit("/");
    if s.len() == 0 {
        assert(join_with(split_slash(s), "/"@) == Seq::<char>::empty());
        assert(s =~= Seq::<char>::empty());
    } else {
        let d = s.drop_last();
        let r = split_slash(d);
        lemma_split_slash_nonempty(d);
        lemma_join_split(d);
        if s.last() == '/' {
            lemma_join_with_push(r, Seq::empty(), "/"@);
            assert(s =~= d + "/"@ + Seq::<char>::empty());
        } else {
            let u = r.update(r.len() - 1, r.last().push(s.last()));
            assert(u.drop_last() == r.drop_last());
            assert(s =~= d.push(s.last()));
            if r.len() == 1 {
                assert(join_with(r, "/"@) == r[0]);
                assert(d == r[0]);
                assert(join_with(u, "/"@) == u[0]);
                assert(s =~= r[0].push(s.last()));
            } else {
                assert(join_with(r, "/"@) == join_with(r.drop_last(), "/"@) + "/"@ + r.last());
                assert(d == join_with(r.drop_last(), "/"@) + "/"@ + r.last());
                assert(join_with(u, "/"@) == join_with(u.drop_last(), "/"@) + "/"@ + u.last());
                assert(s =~= join_with(r.drop_last(), "/"@) + "/"@ + r.last().push(s.last()));
            }
        }
    }
}

/// Joining the first `k` pieces of a split gives a prefix of the text.
pub proof fn lemma_join_split_prefix(s: Seq<char>, k: int)
    requires
        0 <= k <= split_slash(s).len(),
    ensures
        is_prefix(join_with(split_slash(s).take(k), "/"@), s),
    decreases s.len(),
{
    reveal_strlit("/");
    let parts = split_slash(s);
    if k == parts.len() {
        lemma_join_split(s);
        assert(parts.take(k) == parts);
        assert(s.subrange(0, s.len() as int) == s);
    } else if k == 0 {
        assert(parts.take(0) =~= Seq::<Seq<char>>::empty());
        assert(s.subrange(0, 0) =~= Seq::<char>::empty());
    } else {
        let d = s.drop_last();
        let r = split_slash(d);
        lemma_split_slash_nonempty(d);
        if s.last() == '/' {
            // k <= r.len()
            lemma_join_split_prefix(d, k);
            assert(parts.take(k) == r.take(k));
        } else {
            // k < r.len()
            lemma_join_split_prefix(d, k);
            assert(parts.take(k) =~= r.take(k));
        }
        let j = join_with(parts.take(k), "/"@);
        assert(j.len() <= d.len());
        assert(d.subrange(0, j.len() as int) == j);
        assert(s.subrange(0, j.len() as int) =~= d.subrange(0, j.len() as int));
        assert(s.subrange(0, j.len() as int) == j);
    }
}

/// The pieces of `s` split at `/`.
pub fn split_at_slashes(s: &[char]) -> (r: Vec<Vec<char>>)
    ensures
        texts_view(r@) == split_slash(s@),
{
    let mut r: Vec<Vec<char>> = Vec::new();
    r.push(Vec::new());
    assert(texts_view(r@) =~= split_slash(s@.take(0)));
    let n = s.len();
    for i in 0..n
        invariant
            n == s@.len(),
            r@.len() >= 1,
            texts_view(r@) == split_slash(s@.take(i as int)),
    {
        let c = s[i];
        let ghost before = texts_view(r@);
        assert(s@.take(i + 1).drop_last() == s@.take(i as int));
        if c == '/' {
            r.push(Vec::new());
            assert(texts_view(r@) =~= before.push(Seq::empty()));
        } else {
            let last = r.len() - 1;
            let mut piece = r.remove(last);
            piece.push(c);
            r.push(piece);
            assert(texts_view(r@) =~= before.update(before.len() - 1, before.last().push(c)));
        }
    }
    assert(s@.take(n as int) == s@);
    r
}

/// The part of `path` before its last `/`, or nothing when it has none.
pub open spec fn dir_of(path: Seq<char>) -> Seq<char> {
    if last_slash(path) >= 0 {
        path.take(last_slash(path))
    } else {
        Seq::empty()
    }
}

/// The directory components of the paths: their `/`-separated pieces but the
/// last, which names the file.
pub open spec fn components_of(paths: Seq<String>) -> Seq<Seq<Seq<char>>> {
    paths.map_values(|p: String| split_slash(p@).drop_last())
}

/// Every other component list has `comps[0][i]` at position `i`.
pub open spec fn agree_at(comps: Seq<Seq<Seq<char>>>, i: int) -> bool {
    forall|j: int| 1 <= j < comps.len() ==> i < (#[trigger] comps[j]).len() && comps[j][i] == comps[0][i]
}

/// The number of leading components, from `i` on, that all lists share.
pub open spec fn shared_components(comps: Seq<Seq<Seq<char>>>, i: int) -> int
    decreases comps[0].len() - i,
{
    if i < 0 || i >= comps[0].len() || !agree_at(comps, i) {
        i
    } else {
        shared_components(comps, i + 1)
    }
}

/// The common base directory of `paths`: nothing for no paths; the part before
/// the last `/` for one path; for several, the longest run of leading
/// directory components (the `/`-separated pieces before the file name) that
/// all share, joined with `/`.
pub open spec fn common_base_dir(paths: Seq<String>) -> Seq<char> {
    if paths.len() == 0 {
        Seq::empty()
    } else if paths.len() == 1 {
        dir_of(paths[0]@)
    } else {
        let comps = components_of(paths);
        join_with(comps[0].take(shared_components(comps, 0)), "/"@)
    }
}

/// The position of the last `/` in `s`, if any.
fn rfind_slash(s: &[char]) -> (r: Option<usize>)
    ensures
        match r {
            Some(i) => i == last_slash(s@),
            None => last_slash(s@) == -1,
        },
{
    let mut end = s.len();
    assert(s@.take(s@.len() as int) == s@);
    while end > 0
        invariant
            end <= s@.len(),
            last_slash(s@) == last_slash(s@.take(end as int)),
        decreases end,
    {
        if s[end - 1] == '/' {
            return Some(end - 1);
        }
        assert(s@.take(end as int).drop_last() == s@.take(end - 1));
        end = end - 1;
    }
    None
}

/// Tests equality of two texts.
fn chars_eq(a: &[char], b: &[char]) -> (r: bool)
    ensures
        r == (a@ == b@),
{
    if a.len() != b.len() {
        return false;
    }
    let r = starts_with(a, b);
    assert(a@.subrange(0, a@.len() as int) =~= a@);
    r
}

/// Joins texts with `/` between neighbours.
fn join_slash(parts: &[Vec<char>]) -> (r: String)
    ensures
        r@ == join_with(texts_view(parts@), "/"@),
{
    let mut r = String::new();
    let ghost all = texts_view(parts@);
    for i in 0..parts.len()
        invariant
            all == texts_view(parts@),
            r@ == join_with(all.take(i as int), "/"@),
    {
        let ghost before = r@;
        if i > 0 {
            r.append("/");
        }
        push_chars(&mut r, parts[i].as_slice());
        proof {
            lemma_take_push(all, i as int);
            lemma_join_with_push(all.take(i as int), all[i as int], "/"@);
            if i > 0 {
                assert(r@ =~= before + "/"@ + all[i as int]);
            } else {
                assert(r@ =~= all[i as int]);
            }
        }
    }
    assert(all.take(parts@.len() as int) == all);
    r
}

/// Finds the common base directory of a set of paths (see `common_base_dir`).
pub fn find_common_base_dir(paths: &[String]) -> (r: String)
    ensures
        r@ == common_base_dir(paths@),
{
    if paths.len() == 0 {
        return String::new();
    }
    if paths.len() == 1 {
        let path = chars_of(paths[0].as_str());
        proof {
            lemma_last_slash_range(path@);
        }
        match rfind_slash(path.as_slice()) {
            Some(last) => {
                let mut head: Vec<char> = Vec::new();
                for i in 0..last
                    invariant
                        last < path@.len(),
                        head@ == path@.take(i as int),
                {
                    head.push(path[i]);
                    proof { lemma_take_push(path@, i as int); }
                }
                return string_from_chars(head.as_slice());
            },
            None => {
                return String::new();
            },
        }
    }
    let ghost comps = components_of(paths@);
    let mut components: Vec<Vec<Vec<char>>> = Vec::new();
    for k in 0..paths.len()
        invariant
            comps == components_of(paths@),
            components@.len() == k,
            forall|j: int| 0 <= j < k ==> texts_view(#[trigger] components@[j]@) == comps[j],
    {
        let chars = chars_of(paths[k].as_str());
        let mut pieces = split_at_slashes(chars.as_slice());
        proof {
            lemma_split_slash_nonempty(chars@);
        }
        let ghost all = texts_view(pieces@);
        pieces.pop();
        assert(texts_view(pieces@) =~= all.drop_last());
        components.push(pieces);
    }
    let first_len = components[0].len();
    let mut common: Vec<Vec<char>> = Vec::new();
    let mut i: usize = 0;
    let mut done = false;
    while i < first_len && !done
        invariant
            comps == components_of(paths@),
            components@.len() == paths@.len(),
            paths@.len() >= 2,
            forall|j: int| 0 <= j < components@.len() ==> texts_view(#[trigger] components@[j]@) == comps[j],
            first_len == comps[0].len(),
            i <= first_len,
            texts_view(common@) == comps[0].take(i as int),
            forall|t: int| 0 <= t < i ==> agree_at(comps, t),
            done ==> !agree_at(comps, i as int) && i < first_len,
        decreases first_len - i + (if done { 0int } else { 1int }),
    {
        let mut agree = true;
        let mut j: usize = 1;
        while j < components.len()
            invariant
                comps == components_of(paths@),
                components@.len() == paths@.len(),
                forall|q: int| 0 <= q < components@.len() ==> texts_view(#[trigger] components@[q]@) == comps[q],
                first_len == comps[0].len(),
                i < first_len,
                1 <= j <= components@.len(),
                agree ==> forall|q: int| 1 <= q < j ==> i < (#[trigger] comps[q]).len() && comps[q][i as int] == comps[0][i as int],
                !agree ==> !agree_at(comps, i as int),
            decreases components@.len() - j,
        {
            assert(texts_view(components@[j as int]@) == comps[j as int]);
            assert(texts_view(components@[0]@) == comps[0]);
            if i >= components[j].len() {
                agree = false;
            } else {
                let same = chars_eq(components[j][i].as_slice(), components[0][i].as_slice());
                assert(components@[j as int]@[i as int]@ == comps[j as int][i as int]);
                assert(components@[0]@[i as int]@ == comps[0][i as int]);
                if !same {
                    agree = false;
                }
            }
            j = j + 1;
        }
        if agree {
            assert(agree_at(comps, i as int));
            assert(components@[0]@[i as int]@ == comps[0][i as int]);
            let piece = components[0][i].clone();
            let ghost before = texts_view(common@);
            common.push(piece);
            proof {
                lemma_take_push(comps[0], i as int);
                assert(texts_view(common@) =~= before.push(comps[0][i as int]));
            }
            i = i + 1;
        } else {
            done = true;
        }
    }
    proof {
        lemma_shared_components_from(comps, i as int);
    }
    join_slash(common.as_slice())
}

/// When all components before `i` agree and `i` is where agreement stops,
/// `shared_components(comps, 0)` is `i`.
proof fn lemma_shared_components_from(comps: Seq<Seq<Seq<char>>>, i: int)
    requires
        0 <= i <= comps[0].len(),
        forall|t: int| 0 <= t < i ==> agree_at(comps, t),
        i == comps[0].len() || !agree_at(comps, i),
    ensures
        shared_components(comps, 0) == i,
{
    lemma_shared_components_step(comps, 0, i);
}

proof fn lemma_shared_components_step(comps: Seq<Seq<Seq<char>>>, t: int, i: int)
    requires
        0 <= t <= i <= comps[0].len(),
        forall|u: int| t <= u < i ==> agree_at(comps, u),
        i == comps[0].len() || !agree_at(comps, i),
    ensures
        shared_components(comps, t) == i,
    decreases i - t,
{
    if t < i {
        lemma_shared_components_step(comps, t + 1, i);
    }
}

/// The common base directory is a prefix of every path it was computed from.
pub proof fn lemma_common_base_is_prefix(paths: Seq<String>, j: int)
    requires
        0 <= j < paths.len(),
    ensures
        is_prefix(common_base_dir(paths), paths[j]@),
{
    assert(paths[j]@.subrange(0, 0) =~= Seq::<char>::empty());
    if paths.len() == 1 {
        let p = paths[0]@;
        lemma_last_slash_range(p);
        if last_slash(p) >= 0 {
            assert(p.subrange(0, last_slash(p)) == p.take(last_slash(p)));
        }
    } else {
        let comps = components_of(paths);
        let k = shared_components(comps, 0);
        lemma_shared_components_bounds(comps, 0);
        lemma_split_slash_nonempty(paths[j]@);
        if j > 0 && k > 0 {
            assert(agree_at(comps, k - 1)) by {
                lemma_shared_components_agree(comps, 0, k - 1);
            }
            assert(comps[j] == split_slash(paths[j]@).drop_last());
            assert(comps[j].take(k) =~= split_slash(paths[j]@).take(k));
            assert(comps[j].take(k) =~= comps[0].take(k)) by {
                assert forall|t: int| 0 <= t < k implies comps[j][t] == comps[0][t] by {
                    lemma_shared_components_agree(comps, 0, t);
                }
            }
            lemma_join_split_prefix(paths[j]@, k);
            assert(comps[0].take(k) =~= split_slash(paths[j]@).take(k));
        } else if j > 0 {
            assert(comps[0].take(0) =~= Seq::<Seq<char>>::empty());
        } else {
            assert(comps[0] == split_slash(paths[0]@).drop_last());
            assert(comps[0].take(k) =~= split_slash(paths[0]@).take(k));
            lemma_join_split_prefix(paths[0]@, k);
        }
    }
}

proof fn lemma_last_slash_range(s: Seq<char>)
    ensures
        -1 <= last_slash(s) < s.len(),
    decreases s.len(),
{
    if s.len() > 0 {
        lemma_last_slash_range(s.drop_last());
    }
}

proof fn lemma_shared_components_bounds(comps: Seq<Seq<Seq<char>>>, i: int)
    requires
        0 <= i <= comps[0].len(),
    ensures
        i <= shared_components(comps, i) <= comps[0].len(),
    decreases comps[0].len() - i,
{
    if i < comps[0].len() && agree_at(comps, i) {
        lemma_shared_components_bounds(comps, i + 1);
    }
}

proof fn lemma_shared_components_agree(comps: Seq<Seq<Seq<char>>>, i: int, t: int)
    requires
        0 <= i <= t < shared_components(comps, i),
        i <= comps[0].len(),
    ensures
        agree_at(comps, t),
    decreases comps[0].len() - i,
{
    if i < comps[0].len() && agree_at(comps, i) {
        if t > i {
            lemma_shared_components_agree(comps, i + 1, t);
        }
    }
}

} // verus!
