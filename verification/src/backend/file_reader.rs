//! Combining the contents of the selected files into one text, and telling
//! text files from binary ones. Reading the files is left to the caller, which
//! hands over what each read gave.
use vstd::prelude::*;
use crate::paths::{dir_with_slash, relative_path, relative_to, with_trailing_slash};
use crate::text::{chars_of, join_with, lemma_join_with_push, lemma_take_push, push_chars};

verus! {

/// The text shown for a file: its content, or the read error after a note.
pub open spec fn read_outcome_text(outcome: Result<String, String>) -> Seq<char> {
    match outcome {
        Ok(content) => content@,
        Err(error) => "Error al leer el archivo: "@ + error@,
    }
}

/// The block for one file: a header naming the file relative to the root
/// directory, then what reading it gave.
pub open spec fn read_block(path: Seq<char>, root: Seq<char>, outcome: Result<String, String>) -> Seq<char> {
    "// ---- File: "@ + relative_to(path, with_trailing_slash(root)) + " ----\n"@
        + read_outcome_text(outcome)
}

/// The blocks of all files.
pub open spec fn read_blocks(paths: Seq<String>, root: Seq<char>, outcomes: Seq<Result<String, String>>) -> Seq<Seq<char>> {
    Seq::new(paths.len(), |i: int| read_block(paths[i]@, root, outcomes[i]))
}

/// Combines the files' contents into one text: one block per file, in the
/// given order, separated by blank lines. `outcomes[i]` is what reading
/// `paths[i]` gave: its content, or the error message. Always succeeds.
pub fn read_files(paths: &[String], root_dir: &str, outcomes: &[Result<String, String>]) -> (r: Result<String, String>)
    requires
        outcomes@.len() == paths@.len(),
    ensures
        r matches Ok(text) && text@ == join_with(read_blocks(paths@, root_dir@, outcomes@), "\n\n"@),
{
    let ghost blocks = read_blocks(paths@, root_dir@, outcomes@);
    let root = dir_with_slash(root_dir);
    let mut combined_content = String::new();
    for i in 0..paths.len()
        invariant
            outcomes@.len() == paths@.len(),
            blocks == read_blocks(paths@, root_dir@, outcomes@),
            root@ == with_trailing_slash(root_dir@),
            combined_content@ == join_with(blocks.take(i as int), "\n\n"@),
    {
        let ghost before = combined_content@;
        if i > 0 {
            combined_content.append("\n\n");
        }
        let path = chars_of(paths[i].as_str());
        let relative = relative_path(path.as_slice(), root.as_slice());
        combined_content.append("// ---- File: ");
        push_chars(&mut combined_content, relative.as_slice());
        combined_content.append(" ----\n");
        match &outcomes[i] {
            Ok(content) => {
                combined_content.append(content.as_str());
            },
            Err(error) => {
                combined_content.append("Error al leer el archivo: ");
                combined_content.append(error.as_str());
            },
        }
        proof {
            let b = blocks[i as int];
            lemma_take_push(blocks, i as int);
            lemma_join_with_push(blocks.take(i as int), b, "\n\n"@);
            if i > 0 {
                assert(combined_content@ =~= before + "\n\n"@ + b);
            } else {
                assert(combined_content@ =~= b);
            }
        }
    }
    assert(blocks.take(paths@.len() as int) == blocks);
    Ok(combined_content)
}

/// The number of zero bytes in `s`.
pub open spec fn zero_count(s: Seq<u8>) -> nat
    decreases s.len(),
{
    if s.len() == 0 {
        0
    } else {
        zero_count(s.drop_last()) + if s.last() == 0 { 1nat } else { 0nat }
    }
}

/// Whether the first bytes of a file look like text: an empty file does; else
/// fewer than 10% of the bytes may be zero. `head` is
/// `None` when the file could not be opened or read, and then it does not.
pub open spec fn looks_like_text(head: Option<Seq<u8>>) -> bool {
    match head {
        None => false,
        Some(bytes) => bytes.len() == 0 || 10 * zero_count(bytes) < bytes.len(),
    }
}

/// Only zero bytes count against a head: a head without any zero byte
/// (every non-empty UTF-8 text, for one) looks like text.
pub proof fn lemma_no_zero_is_text(bytes: Seq<u8>)
    requires
        forall|i: int| 0 <= i < bytes.len() ==> bytes[i] != 0,
    ensures
        looks_like_text(Some(bytes)),
{
    lemma_zero_count_bounds(bytes);
}

/// A head made only of zero bytes does not look like text, unless empty.
pub proof fn lemma_all_zero_not_text(bytes: Seq<u8>)
    requires
        bytes.len() > 0,
        forall|i: int| 0 <= i < bytes.len() ==> bytes[i] == 0,
    ensures
        !looks_like_text(Some(bytes)),
{
    lemma_zero_count_bounds(bytes);
}

/// The verdict depends only on which bytes are zero: two heads of the same
/// length with their zero bytes at the same places get the same verdict,
/// whatever their other bytes.
pub proof fn lemma_verdict_follows_zeros(a: Seq<u8>, b: Seq<u8>)
    requires
        a.len() == b.len(),
        forall|i: int| 0 <= i < a.len() ==> (a[i] == 0 <==> b[i] == 0),
    ensures
        looks_like_text(Some(a)) == looks_like_text(Some(b)),
{
    lemma_same_zeros(a, b);
}

/// Heads with zero bytes at the same places count alike.
proof fn lemma_same_zeros(a: Seq<u8>, b: Seq<u8>)
    requires
        a.len() == b.len(),
        forall|i: int| 0 <= i < a.len() ==> (a[i] == 0 <==> b[i] == 0),
    ensures
        zero_count(a) == zero_count(b),
    decreases a.len(),
{
    if a.len() > 0 {
        assert(a.last() == a[a.len() - 1] && b.last() == b[b.len() - 1]);
        lemma_same_zeros(a.drop_last(), b.drop_last());
    }
}

/// With no zero byte the count is 0; with only zero bytes it is the length.
proof fn lemma_zero_count_bounds(s: Seq<u8>)
    ensures
        (forall|i: int| 0 <= i < s.len() ==> s[i] != 0) ==> zero_count(s) == 0,
        (forall|i: int| 0 <= i < s.len() ==> s[i] == 0) ==> zero_count(s) == s.len(),
    decreases s.len(),
{
    if s.len() > 0 {
        lemma_zero_count_bounds(s.drop_last());
        assert(s.last() == s[s.len() - 1]);
        assert((forall|i: int| 0 <= i < s.len() ==> s[i] != 0) ==> (forall|i: int|
            0 <= i < s.drop_last().len() ==> s.drop_last()[i] != 0));
        assert((forall|i: int| 0 <= i < s.len() ==> s[i] == 0) ==> (forall|i: int|
            0 <= i < s.drop_last().len() ==> s.drop_last()[i] == 0));
    }
}

/// Tells whether a file is readable as text from the bytes read at its start
/// (the caller reads up to 1024 of them), or `None` when it could not be read.
pub fn is_text_file(head: Option<&[u8]>) -> (r: bool)
    ensures
        r == looks_like_text(
            match head {
                Some(b) => Some(b@),
                None => None,
            },
        ),
{
    match head {
        None => false,
        Some(bytes) => {
            let bytes_read = bytes.len();
            if bytes_read == 0 {
                return true;
            }
            let mut null_bytes: usize = 0;
            for i in 0..bytes_read
                invariant
                    bytes_read == bytes@.len(),
                    null_bytes == zero_count(bytes@.take(i as int)),
                    null_bytes <= i,
            {
                assert(bytes@.take(i + 1).drop_last() == bytes@.take(i as int));
                if bytes[i] == 0 {
                    null_bytes = null_bytes + 1;
                }
            }
            assert(bytes@.take(bytes_read as int) == bytes@);
            (null_bytes as u128) * 10 < bytes_read as u128
        },
    }
}

} // verus!
