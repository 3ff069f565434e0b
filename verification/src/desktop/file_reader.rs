//! Reading file contents in the desktop application: the cache of contents
//! already read, the reading of a file chunk by chunk with its size limit, and
//! the text recorded when a read fails. The reads themselves are the caller's.
use vstd::prelude::*;
use vstd::utf8::{decode_utf8, valid_utf8};
use crate::text::chars_of;

verus! {

/// The error of bytes that are not UTF-8.
#[verifier::external_type_specification]
#[verifier::external_body]
pub struct ExUtf8Error(core::str::Utf8Error);

/// Reads bytes as UTF-8 text.
///
/// Trusted: calls `std::str::from_utf8`, which succeeds exactly on valid UTF-8
/// and then gives the text the bytes encode.
#[verifier::external_body]
fn utf8_text(bytes: &[u8]) -> (r: Result<&str, core::str::Utf8Error>)
    ensures
        r is Ok <==> valid_utf8(bytes@),
        r matches Ok(text) ==> text@ == decode_utf8(bytes@),
{
    std::str::from_utf8(bytes)
}

/// A file's contents as last read, and the modification time (nanoseconds
/// since the Unix epoch) recorded with them.
pub struct CacheEntry {
    pub path: String,
    pub content: String,
    pub modified: u128,
}

/// Reads files, remembering what it read.
pub struct FileContentReader {
    cache: Vec<CacheEntry>,
}

/// The cached content and time for `path`, looked up among `entries`.
pub open spec fn cache_lookup(entries: Seq<CacheEntry>, path: Seq<char>) -> Option<(Seq<char>, u128)>
    decreases entries.len(),
{
    if entries.len() == 0 {
        None
    } else if entries.last().path@ == path {
        Some((entries.last().content@, entries.last().modified))
    } else {
        cache_lookup(entries.drop_last(), path)
    }
}

/// Whether a cached content may be served: the file's modification time is
/// known and not after the time recorded with the content.
pub open spec fn cache_fresh(cached: Option<(Seq<char>, u128)>, modified: Option<u128>) -> bool {
    match (cached, modified) {
        (Some((_, recorded)), Some(m)) => m <= recorded,
        _ => false,
    }
}

/// A content remembered with a modification time is served for any later
/// check that finds the file modified no later than that time, and not for
/// one that finds it modified after it or cannot tell.
pub proof fn lemma_cache_serves_remembered(content: Seq<char>, recorded: u128, modified: Option<u128>)
    ensures
        cache_fresh(Some((content, recorded)), modified) <==> (modified matches Some(m) && m <= recorded),
{
}

/// Tests equality of two texts.
fn same_text(a: &str, b: &str) -> (r: bool)
    ensures
        r == (a@ == b@),
{
    let x = chars_of(a);
    let y = chars_of(b);
    if x.len() != y.len() {
        return false;
    }
    for i in 0..x.len()
        invariant
            x@ == a@,
            y@ == b@,
            x@.len() == y@.len(),
            forall|k: int| 0 <= k < i ==> x@[k] == y@[k],
    {
        if x[i] != y[i] {
            return false;
        }
    }
    assert(x@ =~= y@);
    true
}

impl FileContentReader {
    /// The cached contents and times by path.
    pub closed spec fn cached(&self, path: Seq<char>) -> Option<(Seq<char>, u128)> {
        cache_lookup(self.cache@, path)
    }

    /// A reader with nothing cached.
    pub fn new() -> (r: Self)
        ensures
            forall|p: Seq<char>| r.cached(p) is None,
    {
        FileContentReader { cache: Vec::new() }
    }

    /// The cached content of `path`, when it may be served: `modified` is the
    /// file's current modification time, `None` when it could not be learned.
    pub fn cached_content(&self, path: &str, modified: Option<u128>) -> (r: Option<String>)
        ensures
            cache_fresh(self.cached(path@), modified) ==> (r matches Some(c) && self.cached(path@) matches Some((text, _)) && c@ == text),
            !cache_fresh(self.cached(path@), modified) ==> r is None,
    {
        let mut i = self.cache.len();
        assert(self.cache@.take(i as int) == self.cache@);
        while i > 0
            invariant
                i <= self.cache@.len(),
                self.cached(path@) == cache_lookup(self.cache@.take(i as int), path@),
            decreases i,
        {
            let entry = &self.cache[i - 1];
            assert(self.cache@.take(i as int).last() == self.cache@[i - 1]);
            if same_text(entry.path.as_str(), path) {
                return match modified {
                    Some(m) => if m <= entry.modified {
                        Some(entry.content.clone())
                    } else {
                        None
                    },
                    None => None,
                };
            }
            assert(self.cache@.take(i as int).drop_last() == self.cache@.take(i - 1));
            i = i - 1;
        }
        None
    }

    /// A content remembered for `path` with modification time `recorded` is
    /// what `cached_content` serves while the file is found modified no later
    /// than that time.
    pub proof fn lemma_remembered_is_served(&self, path: Seq<char>, content: Seq<char>, recorded: u128, modified: u128)
        requires
            self.cached(path) == Some((content, recorded)),
            modified <= recorded,
        ensures
            cache_fresh(self.cached(path), Some(modified)),
            self.cached(path) matches Some((text, _)) && text == content,
    {
    }

    /// Records the content read from `path` and the time to compare later
    /// modification times with, replacing what was cached for it.
    pub fn remember(&mut self, path: &str, content: String, modified: u128)
        ensures
            final(self).cached(path@) == Some((content@, modified)),
            forall|p: Seq<char>| p != path@ ==> final(self).cached(p) == old(self).cached(p),
    {
        let ghost before = self.cache@;
        self.cache.push(CacheEntry { path: String::from_str(path), content, modified });
        assert(self.cache@.drop_last() == before);
    }
}

/// How reading a file chunk by chunk goes on: the text gathered so far, the
/// number of bytes read, and whether reading has stopped.
pub struct ChunkedRead {
    pub contents: String,
    pub total_read: usize,
    pub stopped: bool,
}

/// The most bytes read from one file: 10 MiB.
pub const MAX_FILE_SIZE: usize = 10485760;

/// The size of the buffer a file is read through: 8 KiB.
pub const CHUNK_SIZE: usize = 8192;

/// The text added for one more chunk of `len` bytes, given the bytes read
/// before it: a truncation note when the size limit is passed, the chunk's
/// text when it is UTF-8, else a note that the content is not UTF-8.
pub open spec fn chunk_text(total_before: int, chunk: Seq<u8>) -> Seq<char> {
    if total_before + chunk.len() > MAX_FILE_SIZE {
        "[Content truncated due to size limit]"@
    } else if valid_utf8(chunk) {
        decode_utf8(chunk)
    } else {
        "[Non-UTF-8 content]"@
    }
}

impl ChunkedRead {
    /// Nothing read yet.
    pub fn new() -> (r: Self)
        ensures
            r.contents@ == Seq::<char>::empty(),
            r.total_read == 0,
            !r.stopped,
    {
        ChunkedRead { contents: String::new(), total_read: 0, stopped: false }
    }

    /// Takes in the next chunk read from the file. An empty chunk is the end
    /// of the file and stops the reading. Otherwise the chunk's bytes are
    /// counted and `chunk_text` is added; reading stops when the size limit
    /// is passed or the chunk is not UTF-8.
    pub fn push_chunk(&mut self, chunk: &[u8])
        requires
            !old(self).stopped,
            old(self).total_read <= MAX_FILE_SIZE,
            chunk@.len() <= CHUNK_SIZE,
        ensures
            chunk@.len() == 0 ==> final(self).stopped && final(self).contents@ == old(self).contents@
                && final(self).total_read == old(self).total_read,
            chunk@.len() > 0 ==> final(self).contents@ == old(self).contents@ + chunk_text(
                old(self).total_read as int,
                chunk@,
            ) && final(self).total_read == old(self).total_read + chunk@.len()
                && final(self).stopped == (old(self).total_read + chunk@.len() > MAX_FILE_SIZE
                    || !valid_utf8(chunk@)),
            !final(self).stopped ==> final(self).total_read <= MAX_FILE_SIZE,
    {
        if chunk.len() == 0 {
            self.stopped = true;
            return;
        }
        self.total_read = self.total_read + chunk.len();
        if self.total_read > MAX_FILE_SIZE {
            self.contents.append("[Content truncated due to size limit]");
            self.stopped = true;
            return;
        }
        match utf8_text(chunk) {
            Ok(text) => {
                self.contents.append(text);
            },
            Err(_) => {
                self.contents.append("[Non-UTF-8 content]");
                self.stopped = true;
            },
        }
    }
}

/// The text recorded for a file: its content, or the read error after a note.
pub open spec fn read_text(outcome: Result<String, String>) -> Seq<char> {
    match outcome {
        Ok(content) => content@,
        Err(error) => "Error reading file: "@ + error@,
    }
}

/// The `(path, text)` pair recorded for a file once read.
pub fn read_entry(path: String, outcome: Result<String, String>) -> (r: (String, String))
    ensures
        r.0@ == path@,
        r.1@ == read_text(outcome),
{
    match outcome {
        Ok(content) => (path, content),
        Err(error) => {
            let mut text = String::from_str("Error reading file: ");
            text.append(error.as_str());
            (path, text)
        },
    }
}

} // verus!
