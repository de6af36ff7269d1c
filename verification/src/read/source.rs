//! Where the bytes of a file come from, and which files a path stands for.

use vstd::prelude::*;
use crate::error::{HipoError, Result};
use crate::text::chars_of;

verus! {

/// A source of bytes at an offset: everything that reading asks of a file.
///
/// A source stands for one unchanging run of bytes. Reads never return anything else, but they
/// may fail.
pub trait ReadAt {
    /// The bytes that the source stands for.
    spec fn bytes(&self) -> Seq<u8>;

    /// No read within the bytes fails.
    spec fn reliable(&self) -> bool;

    /// Fill `buf` with the bytes from `offset` on. A short read is an error.
    fn read_exact_at(&self, buf: &mut [u8], offset: u64) -> (r: Result<()>)
        ensures
            final(buf)@.len() == old(buf)@.len(),
            r is Ok ==> offset + old(buf)@.len() <= self.bytes().len() && final(buf)@
                == self.bytes().subrange(offset as int, offset + old(buf)@.len()),
            self.reliable() && offset + old(buf)@.len() <= self.bytes().len() ==> r is Ok,
    ;
}

/// `std::io::Error::new`: the error of reading past the end of a source. Nothing is said of it.
#[verifier::external_body]
pub(crate) fn unexpected_eof() -> std::io::Error {
    std::io::Error::new(
        std::io::ErrorKind::UnexpectedEof,
        "read past end of in-memory source",
    )
}

/// A whole file held in memory.
#[derive(Debug)]
pub struct InMemory {
    bytes: Vec<u8>,
}

impl InMemory {
    pub fn new(bytes: Vec<u8>) -> (r: Self)
        ensures
            r.bytes() == bytes@,
            r.reliable(),
    {
        InMemory { bytes }
    }
}

impl ReadAt for InMemory {
    closed spec fn bytes(&self) -> Seq<u8> {
        self.bytes@
    }

    open spec fn reliable(&self) -> bool {
        true
    }

    fn read_exact_at(&self, buf: &mut [u8], offset: u64) -> (r: Result<()>) {
        let have: usize = self.bytes.len();
        let n: usize = buf.len();
        if offset > have as u64 || n > have - offset as usize {
            return Err(HipoError::Io(unexpected_eof()));
        }
        let start: usize = offset as usize;
        let mut k: usize = 0;
        while k < n
            invariant
                k <= n,
                n == buf@.len(),
                have == self.bytes@.len(),
                start + n <= have,
                forall|i: int| 0 <= i < k ==> #[trigger] buf@[i] == self.bytes@[start + i],
            decreases n - k,
        {
            buf[k] = self.bytes[start + k];
            k = k + 1;
        }
        assert(buf@ =~= self.bytes@.subrange(start as int, start + n));
        Ok(())
    }
}

/// Every answer of `read` is the asked run of one and the same sequence of bytes. It may fail.
pub open spec fn stands_for<F: Fn(u64, usize) -> Result<Vec<u8>>>(read: F, bytes: Seq<u8>) -> bool {
    forall|offset: u64, n: usize, r: Result<Vec<u8>>| #[trigger]
        read.ensures((offset, n), r) ==> match r {
            Ok(v) => offset + n <= bytes.len() && v@ == bytes.subrange(offset as int, offset + n),
            Err(_) => true,
        }
}

/// No read within the bytes fails.
pub open spec fn never_fails<F: Fn(u64, usize) -> Result<Vec<u8>>>(
    read: F,
    bytes: Seq<u8>,
) -> bool {
    forall|offset: u64, n: usize, r: Result<Vec<u8>>| #[trigger]
        read.ensures((offset, n), r) && offset + n <= bytes.len() ==> r is Ok
}

/// `read` takes every offset and number of bytes, and answers for some sequence of bytes.
pub open spec fn is_source<F: Fn(u64, usize) -> Result<Vec<u8>>>(read: F) -> bool {
    &&& forall|offset: u64, n: usize| #[trigger] read.requires((offset, n))
    &&& exists|bytes: Seq<u8>| stands_for(read, bytes)
}

/// A source behind a function from an offset and a number of bytes to those bytes.
pub struct FnSource<F: Fn(u64, usize) -> Result<Vec<u8>>> {
    read: F,
}

impl<F: Fn(u64, usize) -> Result<Vec<u8>>> FnSource<F> {
    #[verifier::type_invariant]
    closed spec fn inv(self) -> bool {
        is_source(self.read)
    }

    /// The function that answers.
    pub closed spec fn answers(self) -> F {
        self.read
    }

    /// The source that `read` answers for.
    pub fn new(read: F) -> (r: Self)
        requires
            is_source(read),
        ensures
            r.answers() == read,
            stands_for(read, r.bytes()),
            r.reliable() == never_fails(read, r.bytes()),
    {
        FnSource { read }
    }
}

impl<F: Fn(u64, usize) -> Result<Vec<u8>>> ReadAt for FnSource<F> {
    closed spec fn bytes(&self) -> Seq<u8> {
        choose|bytes: Seq<u8>| stands_for(self.read, bytes)
    }

    closed spec fn reliable(&self) -> bool {
        never_fails(self.read, self.bytes())
    }

    fn read_exact_at(&self, buf: &mut [u8], offset: u64) -> (r: Result<()>) {
        proof {
            use_type_invariant(self);
        }
        let n: usize = buf.len();
        let v = match (self.read)(offset, n) {
            Ok(v) => v,
            Err(e) => {
                return Err(e);
            },
        };
        let mut k: usize = 0;
        while k < n
            invariant
                k <= n,
                n == buf@.len(),
                n == v@.len(),
                forall|i: int| 0 <= i < k ==> #[trigger] buf@[i] == v@[i],
            decreases n - k,
        {
            buf[k] = v[k];
            k = k + 1;
        }
        assert(buf@ =~= v@);
        Ok(())
    }
}

/// What a path stands for.
#[derive(Debug, Clone, Copy, PartialEq, Eq, Structural)]
pub enum PathKind {
    /// A directory: every file in it with the right extension.
    Directory,
    /// A file: itself.
    File,
    /// A pattern: every file that matches it.
    Pattern,
    /// Nothing that exists: an error rather than an empty result.
    Missing,
}

/// A character that makes a path a pattern.
pub open spec fn is_pattern_mark(c: char) -> bool {
    c == '*' || c == '?' || c == '['
}

/// The text holds a character that makes it a pattern.
pub open spec fn is_pattern(text: Seq<char>) -> bool {
    exists|i: int| 0 <= i < text.len() && is_pattern_mark(#[trigger] text[i])
}

/// Does the text hold a character that makes it a pattern?
pub fn has_pattern_mark(text: &str) -> (r: bool)
    ensures
        r == is_pattern(text@),
{
    let cs = chars_of(text);
    let mut i: usize = 0;
    while i < cs.len()
        invariant
            i <= cs.len(),
            cs@ == text@,
            forall|k: int| 0 <= k < i ==> !is_pattern_mark(#[trigger] text@[k]),
        decreases cs.len() - i,
    {
        if cs[i] == '*' || cs[i] == '?' || cs[i] == '[' {
            assert(is_pattern_mark(text@[i as int]));
            return true;
        }
        i = i + 1;
    }
    false
}

/// What the path with this text stands for, given what exists under it. What exists comes
/// first; of what does not, only a text with a pattern character is a pattern.
pub fn path_kind(is_dir: bool, is_file: bool, text: Option<&str>) -> (r: PathKind)
    ensures
        r == (if is_dir {
            PathKind::Directory
        } else if is_file {
            PathKind::File
        } else {
            match text {
                Some(t) => if is_pattern(t@) {
                    PathKind::Pattern
                } else {
                    PathKind::Missing
                },
                None => PathKind::Missing,
            }
        }),
{
    if is_dir {
        PathKind::Directory
    } else if is_file {
        PathKind::File
    } else {
        match text {
            Some(t) => if has_pattern_mark(t) {
                PathKind::Pattern
            } else {
                PathKind::Missing
            },
            None => PathKind::Missing,
        }
    }
}

/// The extension of the files that are read from a directory, in either case.
pub open spec fn is_hipo(ext: Seq<char>) -> bool {
    &&& ext.len() == 4
    &&& ext[0] == 'h' || ext[0] == 'H'
    &&& ext[1] == 'i' || ext[1] == 'I'
    &&& ext[2] == 'p' || ext[2] == 'P'
    &&& ext[3] == 'o' || ext[3] == 'O'
}

/// Is this the extension of the files that are read from a directory?
pub fn is_hipo_extension(ext: &str) -> (r: bool)
    ensures
        r == is_hipo(ext@),
{
    let cs = chars_of(ext);
    cs.len() == 4 && (cs[0] == 'h' || cs[0] == 'H') && (cs[1] == 'i' || cs[1] == 'I') && (cs[2]
        == 'p' || cs[2] == 'P') && (cs[3] == 'o' || cs[3] == 'O')
}

} // verus!
