//! Clipboard text for the Tauri application. The clipboard itself belongs to
//! the Tauri clipboard plugin; these functions only shape the text.
use vstd::prelude::*;
use crate::text::{join_with, lemma_join_with_push, lemma_take_push};

verus! {

/// Kept for callers of the earlier clipboard interface: the Tauri clipboard
/// plugin does the copying, so this accepts any text and reports success.
pub fn copy_to_clipboard(_text: &str) -> (r: Result<(), String>)
    ensures
        r is Ok,
{
    Ok(())
}

/// Kept for callers of the earlier clipboard interface: reports an empty text.
pub fn get_from_clipboard() -> (r: Result<String, String>)
    ensures
        r matches Ok(s) && s@ == Seq::<char>::empty(),
{
    Ok(String::new())
}

/// The block for one file: an optional header line naming it, then its content.
pub open spec fn file_block(path: Seq<char>, content: Seq<char>, include_filenames: bool) -> Seq<char> {
    if include_filenames {
        "// Archivo: "@ + path + "\n"@ + content
    } else {
        content
    }
}

/// The blocks of the first `n` files, where `n` is the shorter of the two lists.
pub open spec fn file_blocks(paths: Seq<String>, contents: Seq<String>, include_filenames: bool) -> Seq<Seq<char>> {
    let n = if paths.len() <= contents.len() { paths.len() } else { contents.len() };
    Seq::new(n, |i: int| file_block(paths[i]@, contents[i]@, include_filenames))
}

/// Joins the files' contents, pairing `paths[i]` with `contents[i]`, with a
/// blank line between files; each block starts with `// Archivo: <path>` when
/// `include_filenames` is set. Files beyond the shorter list are left out.
pub fn format_file_contents(paths: &[String], contents: &[String], include_filenames: bool) -> (r: String)
    ensures
        r@ == join_with(file_blocks(paths@, contents@, include_filenames), "\n\n"@),
{
    let n = if paths.len() <= contents.len() { paths.len() } else { contents.len() };
    let ghost blocks = file_blocks(paths@, contents@, include_filenames);
    let mut concatenated = String::new();
    for i in 0..n
        invariant
            n == blocks.len(),
            n <= paths@.len(),
            n <= contents@.len(),
            blocks == file_blocks(paths@, contents@, include_filenames),
            concatenated@ == join_with(blocks.take(i as int), "\n\n"@),
    {
        let ghost before = concatenated@;
        if i > 0 {
            concatenated.append("\n\n");
        }
        if include_filenames {
            concatenated.append("// Archivo: ");
            concatenated.append(paths[i].as_str());
            concatenated.append("\n");
        }
        concatenated.append(contents[i].as_str());
        proof {
            lemma_take_push(blocks, i as int);
            lemma_join_with_push(blocks.take(i as int), blocks[i as int], "\n\n"@);
            if i > 0 {
                assert(concatenated@ =~= before + "\n\n"@ + blocks[i as int]);
            } else {
                assert(concatenated@ =~= blocks[i as int]);
            }
        }
    }
    assert(blocks.take(n as int) == blocks);
    concatenated
}

} // verus!
