//! The state the Tauri application keeps between commands, and the decisions
//! of its commands: what is copied for the selected files, and the messages
//! returned.
use vstd::prelude::*;
use crate::backend::file_reader::{read_blocks, read_files};
use crate::backend::fs_ops::{file_tree_text, generate_file_tree, strings_view};
use crate::text::{decimal, join_with, push_decimal};

verus! {

/// The last directory scanned and the files selected.
pub struct AppState {
    last_directory: Option<String>,
    selected_files: Vec<String>,
}

/// A copy of a list of strings.
fn clone_strings(v: &Vec<String>) -> (r: Vec<String>)
    ensures
        r@ == v@,
{
    let mut r: Vec<String> = Vec::new();
    for i in 0..v.len()
        invariant
            r@ == v@.take(i as int),
    {
        r.push(v[i].clone());
        assert(v@.take(i + 1) == v@.take(i as int).push(v@[i as int]));
    }
    assert(v@.take(v@.len() as int) == v@);
    r
}

/// The text copied for the selection: the tree (when asked for), a blank
/// line, then the files' contents.
pub open spec fn selection_text(files: Seq<String>, root: Seq<char>, outcomes: Seq<Result<String, String>>, include_tree: bool) -> Seq<char> {
    let content = join_with(read_blocks(files, root, outcomes), "\n\n"@);
    if include_tree {
        file_tree_text(strings_view(files), root) + "\n\n"@ + content
    } else {
        content
    }
}

impl AppState {
    /// The last directory scanned, if any.
    pub closed spec fn last_dir(&self) -> Option<Seq<char>> {
        match self.last_directory {
            Some(d) => Some(d@),
            None => None,
        }
    }

    /// The selected files.
    pub closed spec fn selection(&self) -> Seq<String> {
        self.selected_files@
    }

    /// No directory scanned and nothing selected.
    pub fn new() -> (r: Self)
        ensures
            r.last_dir() is None,
            r.selection().len() == 0,
    {
        AppState { last_directory: None, selected_files: Vec::new() }
    }

    /// Records a directory that was scanned successfully.
    pub fn record_scan(&mut self, path: String)
        ensures
            final(self).last_dir() == Some(path@),
            final(self).selection() == old(self).selection(),
    {
        self.last_directory = Some(path);
    }

    /// The last directory scanned, if any.
    pub fn get_last_directory(&self) -> (r: Option<String>)
        ensures
            match r {
                Some(d) => self.last_dir() == Some(d@),
                None => self.last_dir() is None,
            },
    {
        match &self.last_directory {
            Some(d) => Some(d.clone()),
            None => None,
        }
    }

    /// Replaces the selection. Always succeeds.
    pub fn select_files(&mut self, files: Vec<String>) -> (r: Result<(), String>)
        ensures
            r is Ok,
            final(self).selection() == files@,
            final(self).last_dir() == old(self).last_dir(),
    {
        self.selected_files = files;
        Ok(())
    }

    /// The selected files.
    pub fn get_selected_files(&self) -> (r: Vec<String>)
        ensures
            r@ == self.selection(),
    {
        clone_strings(&self.selected_files)
    }

    /// The text to copy for the selection (see `selection_text`), given what
    /// reading each selected file gave; an error when nothing is selected.
    pub fn clipboard_text(&self, root_directory: &str, outcomes: &[Result<String, String>], include_tree: bool) -> (r: Result<String, String>)
        requires
            outcomes@.len() == self.selection().len(),
        ensures
            self.selection().len() == 0 ==> (r matches Err(e) && e@ == "No hay archivos seleccionados"@),
            self.selection().len() > 0 ==> (r matches Ok(text)
                && text@ == selection_text(self.selection(), root_directory@, outcomes@, include_tree)),
    {
        if self.selected_files.len() == 0 {
            return Err(String::from_str("No hay archivos seleccionados"));
        }
        let content = match read_files(self.selected_files.as_slice(), root_directory, outcomes) {
            Ok(c) => c,
            Err(e) => return Err(e),
        };
        if include_tree {
            let tree = match generate_file_tree(self.selected_files.as_slice(), root_directory) {
                Ok(t) => t,
                Err(e) => return Err(e),
            };
            let mut text = tree;
            text.append("\n\n");
            text.append(content.as_str());
            Ok(text)
        } else {
            Ok(content)
        }
    }
}

/// The message after copying `count` files.
pub fn copied_message(count: usize) -> (r: String)
    ensures
        r@ == "Contenido de "@ + decimal(count as nat) + " archivos copiado al portapapeles"@,
{
    let mut m = String::from_str("Contenido de ");
    push_decimal(&mut m, count);
    m.append(" archivos copiado al portapapeles");
    m
}

/// The answer of the folder dialog command: the folder picked, if any, or an
/// error when the dialog's channel closed before answering (`received` is
/// `None`).
pub fn dialog_answer(received: Option<Option<String>>) -> (r: Result<Option<String>, String>)
    ensures
        received matches Some(picked) ==> r == Ok::<Option<String>, String>(picked),
        received is None ==> (r matches Err(e) && e@ == "El canal del diálogo se cerró inesperadamente"@),
{
    match received {
        Some(picked) => Ok(picked),
        None => Err(String::from_str("El canal del diálogo se cerró inesperadamente")),
    }
}

/// The folder dialog is opened from the front end; this command only answers.
pub fn open_directory_dialog() -> (r: Result<(), String>)
    ensures
        r is Ok,
{
    Ok(())
}

} // verus!
