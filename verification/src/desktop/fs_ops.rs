//! Scanning a directory in the desktop application: which walked entries are
//! kept, what is recorded of them, when progress is reported, and the include
//! and exclude filters. Walking the directory and sending the progress are the
//! caller's.
use vstd::prelude::*;
use crate::glob_patterns::{
    broken_glob, compile_pattern, glob_compiles, glob_decides, glob_matches, has_double_star, pattern_matches, plain_glob, whole_star_runs,
    separator_free, GlobPattern,
};

verus! {

/// A scanned file or directory.
#[derive(Debug, Clone)]
pub struct FileInfo {
    pub path: String,
    pub is_dir: bool,
    pub size: u64,
}

/// What the file system reports of a walked entry.
#[derive(Debug, Clone, Copy)]
pub struct EntryMetadata {
    pub is_dir: bool,
    pub is_file: bool,
    pub len: u64,
}

/// The record kept of an entry: its path, whether it is a directory, and its
/// size when it is a file (else 0).
pub open spec fn file_info_of(path: Seq<char>, meta: EntryMetadata) -> (Seq<char>, bool, u64) {
    (path, meta.is_dir, if meta.is_file { meta.len } else { 0 })
}

/// A record's path, directory flag and size.
pub open spec fn info_view(info: FileInfo) -> (Seq<char>, bool, u64) {
    (info.path@, info.is_dir, info.size)
}

/// An entry is filtered out when include patterns exist and none of them
/// matched, or when any exclude pattern matched.
pub open spec fn filtered_out(include_hits: Seq<bool>, exclude_hits: Seq<bool>) -> bool {
    (include_hits.len() > 0 && !include_hits.contains(true)) || exclude_hits.contains(true)
}

/// Without patterns nothing is filtered out; with include patterns, a path
/// that none of them matches is filtered out whatever the exclude patterns
/// say; a path that an exclude pattern matches is always filtered out.
pub proof fn lemma_filter_rules(include_hits: Seq<bool>, exclude_hits: Seq<bool>)
    ensures
        include_hits.len() == 0 && exclude_hits.len() == 0 ==> !filtered_out(include_hits, exclude_hits),
        include_hits.len() > 0 && (forall|i: int| 0 <= i < include_hits.len() ==> !include_hits[i]) ==> filtered_out(include_hits, exclude_hits),
        exclude_hits.contains(true) ==> filtered_out(include_hits, exclude_hits),
{
}

/// Whether any of the flags is set.
pub fn any_set(flags: &[bool]) -> (r: bool)
    ensures
        r == flags@.contains(true),
{
    for i in 0..flags.len()
        invariant
            forall|k: int| 0 <= k < i ==> !flags@[k],
    {
        if flags[i] {
            assert(flags@[i as int] == true);
            return true;
        }
    }
    false
}

/// Decides `filtered_out` from which include and exclude patterns matched.
pub fn filter_verdict(include_hits: &[bool], exclude_hits: &[bool]) -> (r: bool)
    ensures
        r == filtered_out(include_hits@, exclude_hits@),
{
    if include_hits.len() > 0 && !any_set(include_hits) {
        return true;
    }
    any_set(exclude_hits)
}

/// The texts of compiled patterns.
pub open spec fn sources(patterns: Seq<GlobPattern>) -> Seq<Seq<char>> {
    patterns.map_values(|g: GlobPattern| g@)
}

/// None of the texts holds a `\`.
pub open spec fn all_separator_free(texts: Seq<Seq<char>>) -> bool {
    forall|i: int| 0 <= i < texts.len() ==> separator_free(#[trigger] texts[i])
}

/// Whether each compiled pattern matches `path`.
pub open spec fn glob_hits(patterns: Seq<Seq<char>>, path: Seq<char>) -> Seq<bool> {
    Seq::new(patterns.len(), |i: int| glob_matches(patterns[i], path))
}

/// Every platform decides alike whether each of the patterns matches `path`
/// (see `glob_decides`).
pub open spec fn all_decided(patterns: Seq<Seq<char>>, path: Seq<char>) -> bool {
    forall|i: int| 0 <= i < patterns.len() ==> glob_decides(#[trigger] patterns[i], path)
}

/// Tests `path` against each compiled pattern: hit `i` is whether pattern
/// `i` matches, as `glob` decides (`glob_matches`) wherever every platform
/// decides alike: for patterns and a path without `\`, and for bare
/// patterns and any path.
pub fn pattern_hits(patterns: &[GlobPattern], path: &str) -> (r: Vec<bool>)
    ensures
        r@.len() == patterns@.len(),
        forall|i: int| 0 <= i < patterns@.len() && glob_decides(sources(patterns@)[i], path@) ==> #[trigger] r@[i]
            == glob_matches(sources(patterns@)[i], path@),
        all_decided(sources(patterns@), path@) ==> r@ == glob_hits(sources(patterns@), path@),
        all_separator_free(sources(patterns@)) && separator_free(path@) ==> r@ == glob_hits(
            sources(patterns@),
            path@,
        ),
{
    let mut hits: Vec<bool> = Vec::new();
    for i in 0..patterns.len()
        invariant
            hits@.len() == i,
            all_separator_free(sources(patterns@)) && separator_free(path@) ==> hits@ == glob_hits(
                sources(patterns@),
                path@,
            ).take(i as int),
            forall|k: int| 0 <= k < i && glob_decides(sources(patterns@)[k], path@) ==> #[trigger] hits@[k]
                == glob_matches(sources(patterns@)[k], path@),
    {
        proof {
            if all_separator_free(sources(patterns@)) {
                assert(separator_free(sources(patterns@)[i as int]));
            }
        }
        let hit = pattern_matches(&patterns[i], path);
        let ghost before = hits@;
        hits.push(hit);
        proof {
            assert(sources(patterns@)[i as int] == patterns@[i as int]@);
            if all_separator_free(sources(patterns@)) && separator_free(path@) {
                assert(hits@ =~= glob_hits(sources(patterns@), path@).take(i + 1));
            }
            assert forall|k: int| 0 <= k < i + 1 && glob_decides(sources(patterns@)[k], path@) implies #[trigger] hits@[k]
                == glob_matches(sources(patterns@)[k], path@) by {
                if k < i {
                    assert(hits@[k] == before[k]);
                }
            }
        }
    }
    proof {
        if all_separator_free(sources(patterns@)) && separator_free(path@) {
            assert(glob_hits(sources(patterns@), path@).take(patterns@.len() as int) =~= glob_hits(sources(patterns@), path@));
        }
        if all_decided(sources(patterns@), path@) {
            assert forall|k: int| 0 <= k < hits@.len() implies hits@[k] == glob_hits(sources(patterns@), path@)[k] by {
                assert(glob_decides(sources(patterns@)[k], path@));
            }
            assert(hits@ =~= glob_hits(sources(patterns@), path@));
        }
    }
    hits
}

/// The texts of the patterns that `glob` compiles, in order.
pub open spec fn compiled_sources(patterns: Seq<Seq<char>>) -> Seq<Seq<char>>
    decreases patterns.len(),
{
    if patterns.len() == 0 {
        Seq::empty()
    } else if glob_compiles(patterns.last()) {
        compiled_sources(patterns.drop_last()).push(patterns.last())
    } else {
        compiled_sources(patterns.drop_last())
    }
}

/// The texts among `patterns` whose runs of `*` are whole (see
/// `whole_star_runs`), in order: those that compile when no `[` occurs.
pub open spec fn star_sources(patterns: Seq<Seq<char>>) -> Seq<Seq<char>>
    decreases patterns.len(),
{
    if patterns.len() == 0 {
        Seq::empty()
    } else if whole_star_runs(patterns.last()) {
        star_sources(patterns.drop_last()).push(patterns.last())
    } else {
        star_sources(patterns.drop_last())
    }
}

/// No text holds a `[`.
pub open spec fn all_bracket_free(texts: Seq<Seq<char>>) -> bool {
    forall|i: int| 0 <= i < texts.len() ==> !(#[trigger] texts[i]).contains('[')
}

/// The texts of a list of strings.
pub open spec fn texts_of(v: Seq<String>) -> Seq<Seq<char>> {
    v.map_values(|s: String| s@)
}

/// The number of the patterns that compile on every platform.
pub open spec fn plain_count(patterns: Seq<String>) -> nat
    decreases patterns.len(),
{
    if patterns.len() == 0 {
        0
    } else {
        plain_count(patterns.drop_last()) + if plain_glob(patterns.last()@) { 1nat } else { 0nat }
    }
}

/// The number of the patterns that compile on no platform.
pub open spec fn broken_count(patterns: Seq<String>) -> nat
    decreases patterns.len(),
{
    if patterns.len() == 0 {
        0
    } else {
        broken_count(patterns.drop_last()) + if broken_glob(patterns.last()@) { 1nat } else { 0nat }
    }
}

/// Compiles each pattern, leaving out those that do not compile: one compiled
/// pattern for each that compiles, in order. For patterns without `\` these
/// are exactly the ones `glob` compiles (`compiled_sources`), and, with no
/// `[` either, those whose runs of `*` are whole (`star_sources`). Whatever the
/// platform, every pattern without `[` and `**` is kept, and every pattern
/// without `[` but with `***` is left out.
pub fn compile_patterns(patterns: &[String]) -> (r: Vec<GlobPattern>)
    ensures
        plain_count(patterns@) <= r@.len(),
        r@.len() + broken_count(patterns@) <= patterns@.len(),
        all_separator_free(texts_of(patterns@)) ==> sources(r@) == compiled_sources(texts_of(patterns@)),
        all_separator_free(texts_of(patterns@)) && all_bracket_free(texts_of(patterns@)) ==> sources(r@)
            == star_sources(texts_of(patterns@)),
{
    let mut compiled: Vec<GlobPattern> = Vec::new();
    let ghost texts = texts_of(patterns@);
    for i in 0..patterns.len()
        invariant
            texts == texts_of(patterns@),
            plain_count(patterns@.take(i as int)) <= compiled@.len(),
            compiled@.len() + broken_count(patterns@.take(i as int)) <= i,
            all_separator_free(texts) ==> sources(compiled@) == compiled_sources(texts.take(i as int)),
            all_separator_free(texts) && all_bracket_free(texts) ==> sources(compiled@) == star_sources(texts.take(i as int)),
    {
        let ghost t = patterns@.take(i + 1);
        assert(t.drop_last() == patterns@.take(i as int));
        assert(t.last() == patterns@[i as int]);
        assert(texts.take(i + 1).drop_last() == texts.take(i as int));
        assert(texts.take(i + 1).last() == patterns@[i as int]@);
        proof {
            if all_separator_free(texts) {
                assert(separator_free(texts[i as int]));
            }
            if all_bracket_free(texts) {
                assert(!texts[i as int].contains('['));
            }
        }
        let ghost before = sources(compiled@);
        proof {
            if broken_glob(patterns@[i as int]@) {
                let s = patterns@[i as int]@;
                let k = choose|k: int| 0 <= k && k + 2 < s.len() && #[trigger] s[k] == '*' && s[k + 1] == '*' && s[k + 2] == '*';
                assert(s[k] == '*' && s[k + 1] == '*');
                assert(has_double_star(s));
            }
        }
        match compile_pattern(patterns[i].as_str()) {
            Ok(p) => {
                compiled.push(p);
                assert(sources(compiled@) =~= before.push(patterns@[i as int]@));
            },
            Err(_) => {},
        }
    }
    assert(patterns@.take(patterns@.len() as int) == patterns@);
    assert(texts.take(patterns@.len() as int) == texts);
    compiled
}

/// Scans directories.
pub struct Scanner;

impl Scanner {
    /// A scanner.
    pub fn new() -> (r: Self) {
        Scanner
    }

    /// Whether a path is left out of a scan: some include pattern exists and
    /// none matches it, or some exclude pattern matches it. For patterns and
    /// a path without `\` the matches are `glob_hits`; in any case the
    /// answer is `filtered_out` of the patterns' matches.
    pub fn should_filter_path(&self, exclude_patterns: &Vec<GlobPattern>, include_patterns: &Vec<GlobPattern>, path: &str) -> (r: bool)
        ensures
            all_decided(sources(include_patterns@), path@) && all_decided(sources(exclude_patterns@), path@) ==> r
                == filtered_out(
                glob_hits(sources(include_patterns@), path@),
                glob_hits(sources(exclude_patterns@), path@),
            ),
            all_separator_free(sources(include_patterns@)) && all_separator_free(sources(exclude_patterns@))
                && separator_free(path@) ==> r == filtered_out(
                glob_hits(sources(include_patterns@), path@),
                glob_hits(sources(exclude_patterns@), path@),
            ),
            exists|include_hits: Seq<bool>, exclude_hits: Seq<bool>|
                include_hits.len() == include_patterns@.len() && exclude_hits.len() == exclude_patterns@.len()
                    && r == filtered_out(include_hits, exclude_hits),
    {
        let include_hits = pattern_hits(include_patterns.as_slice(), path);
        let exclude_hits = pattern_hits(exclude_patterns.as_slice(), path);
        let r = filter_verdict(include_hits.as_slice(), exclude_hits.as_slice());
        assert(include_hits@.len() == include_patterns@.len() && exclude_hits@.len() == exclude_patterns@.len()
            && r == filtered_out(include_hits@, exclude_hits@));
        r
    }
}

/// The state of a scan in progress: how many entries were walked and the
/// records kept so far.
pub struct ScanState {
    pub count: usize,
    pub files: Vec<FileInfo>,
}

/// A progress report is due after every hundredth entry.
pub open spec fn progress_due(count: int) -> bool {
    count % 100 == 0
}

impl ScanState {
    /// A scan that has walked nothing.
    pub fn new() -> (r: Self)
        ensures
            r.count == 0,
            r.files@.len() == 0,
    {
        ScanState { count: 0, files: Vec::new() }
    }

    /// Takes in one walked entry. `metadata` is `None` when the file system
    /// could not describe it, and `filtered` says whether the filters left it
    /// out. The entry is counted; it is recorded when it was neither filtered
    /// out nor without metadata. Returns the count to report as progress when
    /// one is due.
    pub fn visit(&mut self, path: String, filtered: bool, metadata: Option<EntryMetadata>) -> (report: Option<usize>)
        requires
            old(self).count < usize::MAX,
        ensures
            final(self).count == old(self).count + 1,
            report == if progress_due(final(self).count as int) {
                Some(final(self).count)
            } else {
                None::<usize>
            },
            (!filtered && metadata is Some) ==> final(self).files@.len() == old(self).files@.len() + 1
                && final(self).files@.drop_last() == old(self).files@
                && info_view(final(self).files@.last()) == file_info_of(path@, metadata->0),
            (filtered || metadata is None) ==> final(self).files@ == old(self).files@,
    {
        self.count = self.count + 1;
        let report = if self.count % 100 == 0 { Some(self.count) } else { None };
        if !filtered {
            match metadata {
                Some(meta) => {
                    let size = if meta.is_file { meta.len } else { 0 };
                    self.files.push(FileInfo { path, is_dir: meta.is_dir, size });
                },
                None => {},
            }
        }
        report
    }

    /// Takes in one walked entry of a filtered scan: as `visit`, with the
    /// entry filtered out when `scanner` says so for these patterns. For
    /// patterns and a path without `\`, the entry is recorded exactly when
    /// its metadata is known and it passes the filters (see
    /// `passes_filters`), and a scan that recorded only passing paths still
    /// does.
    pub fn visit_filtered(
        &mut self,
        scanner: &Scanner,
        exclude_patterns: &Vec<GlobPattern>,
        include_patterns: &Vec<GlobPattern>,
        path: String,
        metadata: Option<EntryMetadata>,
    ) -> (report: Option<usize>)
        requires
            old(self).count < usize::MAX,
        ensures
            final(self).count == old(self).count + 1,
            report == if progress_due(final(self).count as int) {
                Some(final(self).count)
            } else {
                None::<usize>
            },
            all_separator_free(sources(include_patterns@)) && all_separator_free(sources(exclude_patterns@))
                && separator_free(path@) ==> {
                &&& (passes_filters(path@, sources(include_patterns@), sources(exclude_patterns@)) && metadata is Some)
                    ==> final(self).files@.len() == old(self).files@.len() + 1
                    && final(self).files@.drop_last() == old(self).files@
                    && info_view(final(self).files@.last()) == file_info_of(path@, metadata->0)
                &&& (!passes_filters(path@, sources(include_patterns@), sources(exclude_patterns@)) || metadata is None)
                    ==> final(self).files@ == old(self).files@
            },
            all_separator_free(sources(include_patterns@)) && all_separator_free(sources(exclude_patterns@))
                && separator_free(path@) && all_pass(old(self).files@, sources(include_patterns@), sources(exclude_patterns@))
                ==> all_pass(final(self).files@, sources(include_patterns@), sources(exclude_patterns@)),
            all_decided(sources(include_patterns@), path@) && all_decided(sources(exclude_patterns@), path@) ==> {
                &&& (passes_filters(path@, sources(include_patterns@), sources(exclude_patterns@)) && metadata is Some)
                    ==> final(self).files@ == old(self).files@.push(final(self).files@.last())
                    && info_view(final(self).files@.last()) == file_info_of(path@, metadata->0)
                &&& (!passes_filters(path@, sources(include_patterns@), sources(exclude_patterns@)) || metadata is None)
                    ==> final(self).files@ == old(self).files@
            },
            exists|include_hits: Seq<bool>, exclude_hits: Seq<bool>| {
                &&& include_hits.len() == include_patterns@.len()
                &&& exclude_hits.len() == exclude_patterns@.len()
                &&& (!#[trigger] filtered_out(include_hits, exclude_hits) && metadata is Some) ==> final(self).files@
                    == old(self).files@.push(final(self).files@.last()) && info_view(final(self).files@.last())
                    == file_info_of(path@, metadata->0)
                &&& (filtered_out(include_hits, exclude_hits) || metadata is None) ==> final(self).files@ == old(self).files@
            },
    {
        let filtered = scanner.should_filter_path(exclude_patterns, include_patterns, path.as_str());
        let ghost p = path@;
        let ghost before = self.files@;
        let report = self.visit(path, filtered, metadata);
        proof {
            let (ih, eh) = choose|ih: Seq<bool>, eh: Seq<bool>|
                ih.len() == include_patterns@.len() && eh.len() == exclude_patterns@.len() && filtered
                    == #[trigger] filtered_out(ih, eh);
            if !filtered && metadata is Some {
                assert(self.files@ =~= before.push(self.files@.last()));
            }
            assert(ih.len() == include_patterns@.len() && eh.len() == exclude_patterns@.len() && filtered == filtered_out(ih, eh));
            if all_separator_free(sources(include_patterns@)) && all_separator_free(sources(exclude_patterns@))
                && separator_free(p) && all_pass(before, sources(include_patterns@), sources(exclude_patterns@)) {
                assert forall|i: int| 0 <= i < self.files@.len() implies passes_filters(
                    #[trigger] self.files@[i].path@,
                    sources(include_patterns@),
                    sources(exclude_patterns@),
                ) by {
                    if i < before.len() {
                        assert(self.files@[i] == before[i]);
                    }
                }
            }
        }
        report
    }
}

/// A path passes the filters: `filtered_out` does not hold of the patterns'
/// matches.
pub open spec fn passes_filters(path: Seq<char>, wanted: Seq<Seq<char>>, unwanted: Seq<Seq<char>>) -> bool {
    !filtered_out(glob_hits(wanted, path), glob_hits(unwanted, path))
}

/// A path that some include pattern matches and no exclude pattern matches
/// passes the filters, with or without `\` in it; one that an exclude
/// pattern matches never does.
pub proof fn lemma_matches_decide_filters(wanted: Seq<Seq<char>>, unwanted: Seq<Seq<char>>, path: Seq<char>)
    ensures
        (exists|i: int| 0 <= i < wanted.len() && glob_matches(#[trigger] wanted[i], path))
            && (forall|j: int| 0 <= j < unwanted.len() ==> !glob_matches(#[trigger] unwanted[j], path))
            ==> passes_filters(path, wanted, unwanted),
        (exists|j: int| 0 <= j < unwanted.len() && glob_matches(#[trigger] unwanted[j], path))
            ==> !passes_filters(path, wanted, unwanted),
{
    let ih = glob_hits(wanted, path);
    let eh = glob_hits(unwanted, path);
    if exists|i: int| 0 <= i < wanted.len() && glob_matches(#[trigger] wanted[i], path) {
        let i = choose|i: int| 0 <= i < wanted.len() && glob_matches(#[trigger] wanted[i], path);
        assert(ih[i]);
        assert(ih.contains(true));
    }
    if exists|j: int| 0 <= j < unwanted.len() && glob_matches(#[trigger] unwanted[j], path) {
        let j = choose|j: int| 0 <= j < unwanted.len() && glob_matches(#[trigger] unwanted[j], path);
        assert(eh[j]);
        assert(eh.contains(true));
    }
}

/// Every recorded path passes the filters.
pub open spec fn all_pass(files: Seq<FileInfo>, wanted: Seq<Seq<char>>, unwanted: Seq<Seq<char>>) -> bool {
    forall|i: int| 0 <= i < files.len() ==> passes_filters(#[trigger] files[i].path@, wanted, unwanted)
}

} // verus!
