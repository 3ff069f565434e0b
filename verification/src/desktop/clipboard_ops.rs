//! The text that the desktop application copies to the clipboard: the files'
//! contents, an optional tree of the files, and an optional compression that
//! shortens common keywords and drops comments and repeated whitespace.
use vstd::prelude::*;
use crate::desktop::file_tree::{all_placed_from, all_simple, file_tree_of, generate_file_tree, tree_text, Located};
use crate::desktop::fs_ops::texts_of;
use crate::text::{is_prefix, push_chars, starts_with};
use crate::text::{
    ascii_blank, lemma_ascii_blank_is_white_space, join_with, lemma_join_with_push, lemma_take_push, chars_of, extend_chars, is_white_space, is_whitespace, replace_all, replace_chars, string_from_chars,
};

verus! {

/// The keyword abbreviations applied before compressing, in the order they apply.
pub open spec fn abbreviations() -> Seq<(Seq<char>, Seq<char>)> {
    seq![
        ("function"@, "fn"@),
        ("return"@, "ret"@),
        ("const "@, "c "@),
        ("let "@, "l "@),
        ("var "@, "v "@),
        ("import "@, "imp "@),
        ("export "@, "exp "@),
        ("interface "@, "iface "@),
        ("implements "@, "impl "@),
        ("extends "@, "ext "@),
        ("public "@, "pub "@),
        ("private "@, "priv "@),
        ("protected "@, "prot "@),
        ("static "@, "stat "@),
        ("class "@, "cls "@),
        ("struct "@, "st "@),
        ("string"@, "str"@),
        ("number"@, "num"@),
        ("boolean"@, "bool"@),
    ]
}

/// `s` after the first `n` abbreviations, each applied to the result of the previous.
pub open spec fn abbreviate(s: Seq<char>, n: nat) -> Seq<char>
    decreases n,
{
    if n == 0 {
        s
    } else {
        let (from, to) = abbreviations()[n - 1];
        replace_all(abbreviate(s, (n - 1) as nat), from, to)
    }
}

/// What the compressor has seen so far: its output, whether it is inside a
/// `//` comment or a string literal, the last character it kept track of, and
/// the length of the current run of whitespace.
pub struct Compression {
    pub out: Seq<char>,
    pub in_comment: bool,
    pub in_string: bool,
    pub prev: char,
    pub spaces: nat,
}

/// The compressor before any character.
pub open spec fn compression_start() -> Compression {
    Compression { out: Seq::empty(), in_comment: false, in_string: false, prev: ' ', spaces: 0 }
}

/// The compressor after one more character `c`:
/// - a `/` after a `/` opens a comment and takes back the first `/`;
/// - a newline ends a comment and is kept;
/// - other characters in a comment are dropped;
/// - a `"` not after `\` opens or closes a string, whose characters are kept;
/// - outside strings, a run of whitespace keeps its first character and its newlines.
pub open spec fn compression_step(st: Compression, c: char) -> Compression {
    if st.prev == '/' && c == '/' {
        Compression {
            out: if st.out.len() > 0 { st.out.drop_last() } else { st.out },
            in_comment: true,
            ..st
        }
    } else if st.in_comment && c == '\n' {
        Compression { out: st.out.push(c), in_comment: false, prev: c, spaces: 0, ..st }
    } else if st.in_comment {
        st
    } else {
        let in_string = if c == '"' && st.prev != '\\' { !st.in_string } else { st.in_string };
        if in_string {
            Compression { out: st.out.push(c), in_string, prev: c, ..st }
        } else if is_white_space(c) {
            let spaces = st.spaces + 1;
            Compression {
                out: if c == '\n' || spaces <= 1 { st.out.push(c) } else { st.out },
                in_string,
                prev: c,
                spaces,
                ..st
            }
        } else {
            Compression { out: st.out.push(c), in_string, prev: c, spaces: 0, ..st }
        }
    }
}

/// The compressor after all of `s`.
pub open spec fn compression_run(s: Seq<char>) -> Compression
    decreases s.len(),
{
    if s.len() == 0 {
        compression_start()
    } else {
        compression_step(compression_run(s.drop_last()), s.last())
    }
}

/// The compressed text: the abbreviations, then the character-by-character pass.
pub open spec fn compressed(text: Seq<char>) -> Seq<char> {
    compression_run(abbreviate(text, abbreviations().len())).out
}

proof fn lemma_replace_all_not_longer(s: Seq<char>, from: Seq<char>, to: Seq<char>)
    requires
        to.len() <= from.len(),
    ensures
        replace_all(s, from, to).len() <= s.len(),
    decreases s.len(),
{
    if from.len() == 0 || s.len() < from.len() {
    } else if s.take(from.len() as int) == from {
        lemma_replace_all_not_longer(s.skip(from.len() as int), from, to);
    } else {
        lemma_replace_all_not_longer(s.drop_first(), from, to);
    }
}

proof fn lemma_abbreviate_not_longer(s: Seq<char>, n: nat)
    requires
        n <= abbreviations().len(),
    ensures
        abbreviate(s, n).len() <= s.len(),
    decreases n,
{
    if n > 0 {
        reveal_strlit("function");
        reveal_strlit("fn");
        reveal_strlit("return");
        reveal_strlit("ret");
        reveal_strlit("const ");
        reveal_strlit("c ");
        reveal_strlit("let ");
        reveal_strlit("l ");
        reveal_strlit("var ");
        reveal_strlit("v ");
        reveal_strlit("import ");
        reveal_strlit("imp ");
        reveal_strlit("export ");
        reveal_strlit("exp ");
        reveal_strlit("interface ");
        reveal_strlit("iface ");
        reveal_strlit("implements ");
        reveal_strlit("impl ");
        reveal_strlit("extends ");
        reveal_strlit("ext ");
        reveal_strlit("public ");
        reveal_strlit("pub ");
        reveal_strlit("private ");
        reveal_strlit("priv ");
        reveal_strlit("protected ");
        reveal_strlit("prot ");
        reveal_strlit("static ");
        reveal_strlit("stat ");
        reveal_strlit("class ");
        reveal_strlit("cls ");
        reveal_strlit("struct ");
        reveal_strlit("st ");
        reveal_strlit("string");
        reveal_strlit("str");
        reveal_strlit("number");
        reveal_strlit("num");
        reveal_strlit("boolean");
        reveal_strlit("bool");
        lemma_abbreviate_not_longer(s, (n - 1) as nat);
        let (from, to) = abbreviations()[n - 1];
        assert(to.len() <= from.len());
        lemma_replace_all_not_longer(abbreviate(s, (n - 1) as nat), from, to);
    }
}

proof fn lemma_compression_not_longer(s: Seq<char>)
    ensures
        compression_run(s).out.len() <= s.len(),
    decreases s.len(),
{
    if s.len() > 0 {
        lemma_compression_not_longer(s.drop_last());
    }
}

/// No `"` and no `/`: nothing in `s` opens a string or a comment.
pub open spec fn plain_code(s: Seq<char>) -> bool {
    forall|k: int| 0 <= k < s.len() ==> s[k] != '"' && s[k] != '/'
}

/// Over plain code the compressor is never in a string or a comment, its
/// last character is the text's last one (a space at the start), and after
/// a whitespace character its run is under way.
proof fn lemma_plain_run(s: Seq<char>)
    requires
        plain_code(s),
    ensures
        !compression_run(s).in_comment,
        !compression_run(s).in_string,
        compression_run(s).prev != '/',
        s.len() > 0 && is_white_space(s.last()) ==> compression_run(s).spaces >= 1,
        s.len() > 0 && !is_white_space(s.last()) ==> compression_run(s).spaces == 0,
        s.len() == 0 ==> compression_run(s).spaces == 0,
    decreases s.len(),
{
    if s.len() > 0 {
        assert(plain_code(s.drop_last())) by {
            assert forall|k: int| 0 <= k < s.drop_last().len() implies s.drop_last()[k] != '"' && s.drop_last()[k] != '/' by {
                assert(s.drop_last()[k] == s[k]);
            }
        }
        lemma_plain_run(s.drop_last());
        assert(s.last() == s[s.len() - 1]);
    }
}

/// Outside strings and comments a run of whitespace keeps only its first
/// character and its newlines: in plain code, any whitespace character
/// other than a newline that follows a whitespace character (a tab after a
/// newline, a second space, ...) is dropped.
pub proof fn lemma_whitespace_run_collapses(s: Seq<char>, c: char, w: char)
    requires
        plain_code(s),
        is_white_space(c),
        is_white_space(w),
        w != '\n',
    ensures
        compression_run(s.push(c).push(w)).out == compression_run(s.push(c)).out,
{
    assert(plain_code(s.push(c))) by {
        assert forall|k: int| 0 <= k < s.push(c).len() implies s.push(c)[k] != '"' && s.push(c)[k] != '/' by {
            if k < s.len() {
                assert(s.push(c)[k] == s[k]);
            }
        }
    }
    lemma_plain_run(s.push(c));
    assert(s.push(c).push(w).drop_last() == s.push(c));
}

/// The same for the ASCII blanks: a tab, vertical tab, form feed, carriage
/// return or space after any of them (or after a newline) is dropped.
pub proof fn lemma_blank_run_collapses(s: Seq<char>, c: char, w: char)
    requires
        plain_code(s),
        ascii_blank(c),
        ascii_blank(w),
        w != '\n',
    ensures
        compression_run(s.push(c).push(w)).out == compression_run(s.push(c)).out,
{
    lemma_ascii_blank_is_white_space(c);
    lemma_ascii_blank_is_white_space(w);
    lemma_whitespace_run_collapses(s, c, w);
}

/// The first whitespace character after code, or at the start, is kept.
pub proof fn lemma_run_start_kept(s: Seq<char>, w: char)
    requires
        plain_code(s),
        s.len() == 0 || !is_white_space(s.last()),
        is_white_space(w),
    ensures
        compression_run(s.push(w)).out == compression_run(s).out.push(w),
{
    lemma_plain_run(s);
    assert(s.push(w).drop_last() == s);
}

/// Outside strings and comments every newline is kept, even inside a run of
/// whitespace.
pub proof fn lemma_newline_kept(s: Seq<char>)
    requires
        plain_code(s),
    ensures
        compression_run(s.push('\n')).out == compression_run(s).out.push('\n'),
{
    lemma_plain_run(s);
    assert(s.push('\n').drop_last() == s);
}

/// Replacing an abbreviation in a text of ASCII blanks changes nothing.
proof fn lemma_replace_in_blanks(s: Seq<char>, from: Seq<char>, to: Seq<char>)
    requires
        forall|k: int| 0 <= k < s.len() ==> ascii_blank(s[k]),
        from.len() > 0,
        !ascii_blank(from[0]),
    ensures
        replace_all(s, from, to) == s,
    decreases s.len(),
{
    if s.len() >= from.len() {
        assert(s.take(from.len() as int)[0] == s[0]);
        assert(s.take(from.len() as int) != from);
        assert forall|k: int| 0 <= k < s.drop_first().len() implies ascii_blank(s.drop_first()[k]) by {
            assert(s.drop_first()[k] == s[k + 1]);
        }
        lemma_replace_in_blanks(s.drop_first(), from, to);
        assert(seq![s[0]] + s.drop_first() =~= s);
    }
}

/// No abbreviation touches a text of ASCII blanks.
proof fn lemma_abbreviate_blanks(s: Seq<char>, n: nat)
    requires
        forall|k: int| 0 <= k < s.len() ==> ascii_blank(s[k]),
        n <= abbreviations().len(),
    ensures
        abbreviate(s, n) == s,
    decreases n,
{
    if n > 0 {
        reveal_strlit("function");
        reveal_strlit("return");
        reveal_strlit("const ");
        reveal_strlit("let ");
        reveal_strlit("var ");
        reveal_strlit("import ");
        reveal_strlit("export ");
        reveal_strlit("interface ");
        reveal_strlit("implements ");
        reveal_strlit("extends ");
        reveal_strlit("public ");
        reveal_strlit("private ");
        reveal_strlit("protected ");
        reveal_strlit("static ");
        reveal_strlit("class ");
        reveal_strlit("struct ");
        reveal_strlit("string");
        reveal_strlit("number");
        reveal_strlit("boolean");
        lemma_abbreviate_blanks(s, (n - 1) as nat);
        let (from, to) = abbreviations()[n - 1];
        lemma_replace_in_blanks(s, from, to);
    }
}

/// The compressor over a run of ASCII blanks without newline keeps its first.
proof fn lemma_blank_run_out(t: Seq<char>)
    requires
        t.len() > 0,
        forall|k: int| 0 <= k < t.len() ==> ascii_blank(t[k]) && t[k] != '\n',
    ensures
        compression_run(t).out == seq![t[0]],
    decreases t.len(),
{
    assert(plain_code(t));
    if t.len() == 1 {
        assert(t.drop_last().len() == 0);
        lemma_ascii_blank_is_white_space(t[0]);
        lemma_run_start_kept(t.drop_last(), t[0]);
        assert(t.drop_last().push(t[0]) =~= t);
    } else {
        let d = t.drop_last();
        assert forall|k: int| 0 <= k < d.len() implies ascii_blank(d[k]) && d[k] != '\n' by {
            assert(d[k] == t[k]);
        }
        lemma_blank_run_out(d);
        let e = d.drop_last();
        assert(plain_code(e)) by {
            assert forall|k: int| 0 <= k < e.len() implies e[k] != '"' && e[k] != '/' by {
                assert(e[k] == t[k]);
            }
        }
        lemma_blank_run_collapses(e, d.last(), t.last());
        assert(e.push(d.last()) =~= d);
        assert(d.push(t.last()) =~= t);
        assert(d[0] == t[0]);
    }
}

/// A text made only of tabs, spaces, carriage returns, vertical tabs and
/// form feeds compresses to its first character.
pub proof fn lemma_blank_text_compresses_to_first(t: Seq<char>)
    requires
        t.len() > 0,
        forall|k: int| 0 <= k < t.len() ==> ascii_blank(t[k]) && t[k] != '\n',
    ensures
        compressed(t) == seq![t[0]],
{
    assert forall|k: int| 0 <= k < t.len() implies ascii_blank(t[k]) by {}
    lemma_abbreviate_blanks(t, abbreviations().len());
    lemma_blank_run_out(t);
}

/// Compressing never makes a text longer.
pub proof fn lemma_compressed_not_longer(text: Seq<char>)
    ensures
        compressed(text).len() <= text.len(),
{
    lemma_abbreviate_not_longer(text, abbreviations().len());
    lemma_compression_not_longer(abbreviate(text, abbreviations().len()));
}

/// Applies the `n`-th abbreviation (counting from one).
fn abbreviate_step(s: Vec<char>, n: usize, from: &str, to: &str) -> (r: Vec<char>)
    requires
        1 <= n <= abbreviations().len(),
        abbreviations()[n - 1] == (from@, to@),
        from@.len() > 0,
    ensures
        forall|t: Seq<char>| s@ == abbreviate(t, (n - 1) as nat) ==> r@ == abbreviate(t, n as nat),
{
    let f = chars_of(from);
    let t = chars_of(to);
    replace_chars(s.as_slice(), f.as_slice(), t.as_slice())
}

/// Shortens a text for pasting into a language model: abbreviates common
/// keywords, removes `//` comments, and collapses runs of whitespace, keeping
/// string literals as they are (see `compressed`).
pub fn compress_text(text: &str) -> (r: String)
    ensures
        r@ == compressed(text@),
{
    let ghost t = text@;
    let s = chars_of(text);
    proof {
        reveal_strlit("function");
        reveal_strlit("return");
        reveal_strlit("const ");
        reveal_strlit("let ");
        reveal_strlit("var ");
        reveal_strlit("import ");
        reveal_strlit("export ");
        reveal_strlit("interface ");
        reveal_strlit("implements ");
        reveal_strlit("extends ");
        reveal_strlit("public ");
        reveal_strlit("private ");
        reveal_strlit("protected ");
        reveal_strlit("static ");
        reveal_strlit("class ");
        reveal_strlit("struct ");
        reveal_strlit("string");
        reveal_strlit("number");
        reveal_strlit("boolean");
    }
    assert(s@ == abbreviate(t, 0));
    let s = abbreviate_step(s, 1, "function", "fn");
    let s = abbreviate_step(s, 2, "return", "ret");
    let s = abbreviate_step(s, 3, "const ", "c ");
    let s = abbreviate_step(s, 4, "let ", "l ");
    let s = abbreviate_step(s, 5, "var ", "v ");
    let s = abbreviate_step(s, 6, "import ", "imp ");
    let s = abbreviate_step(s, 7, "export ", "exp ");
    let s = abbreviate_step(s, 8, "interface ", "iface ");
    let s = abbreviate_step(s, 9, "implements ", "impl ");
    let s = abbreviate_step(s, 10, "extends ", "ext ");
    let s = abbreviate_step(s, 11, "public ", "pub ");
    let s = abbreviate_step(s, 12, "private ", "priv ");
    let s = abbreviate_step(s, 13, "protected ", "prot ");
    let s = abbreviate_step(s, 14, "static ", "stat ");
    let s = abbreviate_step(s, 15, "class ", "cls ");
    let s = abbreviate_step(s, 16, "struct ", "st ");
    let s = abbreviate_step(s, 17, "string", "str");
    let s = abbreviate_step(s, 18, "number", "num");
    let processed = abbreviate_step(s, 19, "boolean", "bool");
    assert(processed@ == abbreviate(t, abbreviations().len()));
    let mut result: Vec<char> = Vec::new();
    let mut in_comment = false;
    let mut in_string = false;
    let mut prev_char = ' ';
    let mut consecutive_spaces: usize = 0;
    let n = processed.len();
    for i in 0..n
        invariant
            n == processed@.len(),
            consecutive_spaces <= i,
            ({
                let st = compression_run(processed@.take(i as int));
                &&& st.out == result@
                &&& st.in_comment == in_comment
                &&& st.in_string == in_string
                &&& st.prev == prev_char
                &&& st.spaces == consecutive_spaces
            }),
    {
        let c = processed[i];
        assert(processed@.take(i + 1).drop_last() == processed@.take(i as int));
        if prev_char == '/' && c == '/' {
            in_comment = true;
            if result.len() > 0 {
                result.pop();
            }
        } else if in_comment && c == '\n' {
            in_comment = false;
            result.push(c);
            prev_char = c;
            consecutive_spaces = 0;
        } else if in_comment {
        } else {
            if c == '"' && prev_char != '\\' {
                in_string = !in_string;
            }
            if in_string {
                result.push(c);
                prev_char = c;
            } else {
                if is_whitespace(c) {
                    consecutive_spaces = consecutive_spaces + 1;
                    if c == '\n' || consecutive_spaces <= 1 {
                        result.push(c);
                    }
                } else {
                    consecutive_spaces = 0;
                    result.push(c);
                }
                prev_char = c;
            }
        }
    }
    assert(processed@.take(n as int) == processed@);
    string_from_chars(result.as_slice())
}

/// The block copied for one file: an optional `// File:` header, the
/// content, and a blank line.
pub open spec fn copied_block(path: Seq<char>, content: Seq<char>, include_filenames: bool) -> Seq<char> {
    if include_filenames {
        "// File: "@ + path + "\n"@ + content + "\n\n"@
    } else {
        content + "\n\n"@
    }
}

/// The text copied for a list of `(path, content)` pairs: their blocks in order.
pub open spec fn copied_text(contents: Seq<(String, String)>, include_filenames: bool) -> Seq<char> {
    join_with(
        Seq::new(contents.len(), |i: int| copied_block(contents[i].0@, contents[i].1@, include_filenames)),
        Seq::empty(),
    )
}

/// The text that copying the files' contents puts on the clipboard (see
/// `copied_text`); the caller does the copying.
pub fn file_contents_text(contents: &[(String, String)], include_filenames: bool) -> (r: String)
    ensures
        r@ == copied_text(contents@, include_filenames),
{
    let ghost blocks = Seq::new(contents@.len(), |i: int| copied_block(contents@[i].0@, contents@[i].1@, include_filenames));
    let mut concatenated = String::new();
    for i in 0..contents.len()
        invariant
            blocks == Seq::new(contents@.len(), |i: int| copied_block(contents@[i].0@, contents@[i].1@, include_filenames)),
            concatenated@ == join_with(blocks.take(i as int), Seq::empty()),
    {
        let ghost before = concatenated@;
        let (path, content) = &contents[i];
        if include_filenames {
            concatenated.append("// File: ");
            concatenated.append(path.as_str());
            concatenated.append("\n");
        }
        concatenated.append(content.as_str());
        concatenated.append("\n\n");
        proof {
            lemma_take_push(blocks, i as int);
            lemma_join_with_push(blocks.take(i as int), blocks[i as int], Seq::empty());
            if i > 0 {
                assert(concatenated@ =~= before + Seq::<char>::empty() + blocks[i as int]);
            } else {
                assert(concatenated@ =~= blocks[i as int]);
            }
        }
    }
    assert(blocks.take(contents@.len() as int) == blocks);
    concatenated
}

/// `path` relative to the root folder: what follows the root when the root
/// ends with `/` or `\`, or what follows the root and a `/` or `\` after it;
/// else the path itself.
pub open spec fn relative_for_copy(path: Seq<char>, root: Seq<char>) -> Seq<char> {
    if !is_prefix(root, path) {
        path
    } else if root.len() > 0 && (root.last() == '/' || root.last() == '\\') {
        path.skip(root.len() as int)
    } else if is_prefix(root.push('/'), path) || is_prefix(root.push('\\'), path) {
        path.skip(root.len() + 1int)
    } else {
        path
    }
}

/// The block copied for one file: a header naming it relative to the root
/// folder, its content (compressed when asked), and a blank line.
pub open spec fn compressed_block(path: Seq<char>, content: Seq<char>, use_compression: bool, root: Seq<char>) -> Seq<char> {
    "// ---- File: "@ + relative_for_copy(path, root) + " ----\n"@ + (if use_compression {
        compressed(content)
    } else {
        content
    }) + "\n\n"@
}

/// The copied text: the tree (possibly empty), the blocks of the files, and,
/// when compressing, a closing note saying so.
pub open spec fn assembled_text(tree: Seq<char>, contents: Seq<(String, String)>, use_compression: bool, root: Seq<char>) -> Seq<char> {
    tree + join_with(
        Seq::new(contents.len(), |i: int| compressed_block(contents[i].0@, contents[i].1@, use_compression, root)),
        Seq::empty(),
    ) + if use_compression {
        "\n// Note: This text has been compressed to reduce tokens while maintaining LLM readability."@
    } else {
        Seq::empty()
    }
}

/// The characters of `path` relative to the root folder (see `relative_for_copy`).
pub fn relative_for_copy_exec(path: &[char], root: &[char]) -> (r: Vec<char>)
    ensures
        r@ == relative_for_copy(path@, root@),
{
    let mut skip: usize = 0;
    if starts_with(path, root) {
        if root.len() > 0 && (root[root.len() - 1] == '/' || root[root.len() - 1] == '\\') {
            skip = root.len();
        } else {
            let mut with_slash: Vec<char> = Vec::new();
            extend_chars(&mut with_slash, root);
            with_slash.push('/');
            let mut with_backslash: Vec<char> = Vec::new();
            extend_chars(&mut with_backslash, root);
            with_backslash.push('\\');
            if starts_with(path, with_slash.as_slice()) || starts_with(path, with_backslash.as_slice()) {
                skip = with_slash.len();
            }
        }
    }
    let mut r: Vec<char> = Vec::new();
    let n = path.len();
    for i in skip..n
        invariant
            skip <= n,
            n == path@.len(),
            r@ == path@.subrange(skip as int, i as int),
    {
        r.push(path[i]);
        assert(path@.subrange(skip as int, i + 1) == path@.subrange(skip as int, i as int).push(path@[i as int]));
    }
    assert(path@.subrange(0, n as int) == path@);
    r
}

/// Puts together the copied text from a drawn tree (see `assembled_text`).
pub fn assemble_text(tree: &str, contents: &[(String, String)], use_compression: bool, root_folder: &str) -> (r: String)
    ensures
        r@ == assembled_text(tree@, contents@, use_compression, root_folder@),
{
    let ghost blocks = Seq::new(contents@.len(), |i: int| compressed_block(contents@[i].0@, contents@[i].1@, use_compression, root_folder@));
    let root = chars_of(root_folder);
    let mut concatenated = String::from_str(tree);
    let ghost head = concatenated@;
    for i in 0..contents.len()
        invariant
            root@ == root_folder@,
            blocks == Seq::new(contents@.len(), |i: int| compressed_block(contents@[i].0@, contents@[i].1@, use_compression, root_folder@)),
            concatenated@ == head + join_with(blocks.take(i as int), Seq::empty()),
    {
        let ghost before = concatenated@;
        let (path, content) = &contents[i];
        let path_chars = chars_of(path.as_str());
        let relative = relative_for_copy_exec(path_chars.as_slice(), root.as_slice());
        concatenated.append("// ---- File: ");
        push_chars(&mut concatenated, relative.as_slice());
        concatenated.append(" ----\n");
        if use_compression {
            let compressed = compress_text(content.as_str());
            concatenated.append(compressed.as_str());
        } else {
            concatenated.append(content.as_str());
        }
        concatenated.append("\n\n");
        proof {
            lemma_take_push(blocks, i as int);
            lemma_join_with_push(blocks.take(i as int), blocks[i as int], Seq::empty());
            if i > 0 {
                assert(concatenated@ =~= head + (join_with(blocks.take(i as int), Seq::empty()) + Seq::<char>::empty() + blocks[i as int]));
            } else {
                assert(concatenated@ =~= head + blocks[i as int]);
            }
        }
    }
    assert(blocks.take(contents@.len() as int) == blocks);
    let ghost body = concatenated@;
    if use_compression {
        concatenated.append("\n// Note: This text has been compressed to reduce tokens while maintaining LLM readability.");
    }
    assert(concatenated@ =~= body + if use_compression {
        "\n// Note: This text has been compressed to reduce tokens while maintaining LLM readability."@
    } else {
        Seq::<char>::empty()
    });
    concatenated
}

/// The paths of `(path, content)` pairs, as texts.
pub open spec fn content_paths(contents: Seq<(String, String)>) -> Seq<Seq<char>> {
    contents.map_values(|p: (String, String)| p.0@)
}

/// The paths of `(path, content)` pairs.
fn paths_of(contents: &[(String, String)]) -> (r: Vec<String>)
    ensures
        texts_of(r@) == content_paths(contents@),
{
    let mut paths: Vec<String> = Vec::new();
    for i in 0..contents.len()
        invariant
            texts_of(paths@) == content_paths(contents@).take(i as int),
    {
        let ghost before = paths@;
        let path = contents[i].0.clone();
        assert(path@ == contents@[i as int].0@);
        paths.push(path);
        assert(texts_of(paths@) =~= texts_of(before).push(path@));
        assert(content_paths(contents@).take(i + 1) =~= content_paths(contents@).take(i as int).push(path@));
    }
    assert(content_paths(contents@).take(contents@.len() as int) =~= content_paths(contents@));
    paths
}

/// The text that copying with optional compression puts on the clipboard:
/// the tree of the files when `include_filenames` is set, then each file's
/// block, and the compression note when compressing (see `assembled_text`).
/// The caller does the copying.
pub fn compressed_contents_text(contents: &[(String, String)], include_filenames: bool, use_compression: bool, root_folder: &str) -> (r: String)
    ensures
        !include_filenames ==> r@ == assembled_text(Seq::empty(), contents@, use_compression, root_folder@),
        include_filenames && contents@.len() == 0 ==> r@ == assembled_text(Seq::empty(), contents@, use_compression, root_folder@),
        include_filenames && all_simple(content_paths(contents@)) ==> r@ == assembled_text(
            file_tree_of(content_paths(contents@)),
            contents@,
            use_compression,
            root_folder@,
        ),
        include_filenames && contents@.len() > 0 ==> exists|root: Seq<char>, located: Seq<Located>| {
            &&& r@ == assembled_text(#[trigger] tree_text(root, located, true), contents@, use_compression, root_folder@)
            &&& is_prefix(root, content_paths(contents@)[0])
            &&& all_placed_from(located, content_paths(contents@))
        },
{
    if include_filenames {
        let file_paths = paths_of(contents);
        let tree = generate_file_tree(file_paths.as_slice());
        assemble_text(tree.as_str(), contents, use_compression, root_folder)
    } else {
        proof {
            reveal_strlit("");
        }
        assemble_text("", contents, use_compression, root_folder)
    }
}

} // verus!
