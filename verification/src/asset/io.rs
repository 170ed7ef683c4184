//! The file-system facade of the pipeline: a store of files behind a trait,
//! and the reading and writing of sidecars and artifacts on top of it.

use vstd::prelude::*;
use vstd::slice::{slice_subrange, slice_to_vec};
use vstd::utf8::{decode_utf8, encode_utf8, valid_utf8};
use vstd::string::StrSliceExecFns;
use crate::asset::artifact::{
    decode_artifact, decode_header, decode_meta, header_len, Artifact, ArtifactMeta,
};
use crate::asset::bytes::{le_value, IntoBytes};
use crate::asset::config::{artifact_path, library_path, metadata_path, AssetConfig};
use crate::asset::database::library::{
    decode_library, encode_library, library_encodable, AssetLibrary,
};
use crate::asset::sidecar::{
    metadata_of_text, names_metadata, stored_metadata, text_of_metadata, unwritable, written_for,
};
use crate::asset::{AssetId, AssetMetadata, Settings};

verus! {

/// What can go wrong when the pipeline reads or writes.
#[derive(Debug)]
pub enum AssetIoError {
    /// Nothing is stored under the path.
    NotFound(String),
    /// The backing store failed; the text says how.
    Io(String),
    /// A remote backing store answered with this status.
    Http(u16),
    /// What was read cannot be decoded; the text says what.
    InvalidData(String),
}

impl Clone for AssetIoError {
    fn clone(&self) -> (copy: AssetIoError)
        ensures
            copy == *self,
    {
        match self {
            AssetIoError::NotFound(path) => AssetIoError::NotFound(path.clone()),
            AssetIoError::Io(cause) => AssetIoError::Io(cause.clone()),
            AssetIoError::Http(status) => AssetIoError::Http(*status),
            AssetIoError::InvalidData(context) => AssetIoError::InvalidData(context.clone()),
        }
    }
}

impl PartialEq for AssetIoError {
    fn eq(&self, other: &Self) -> (equal: bool) {
        match (self, other) {
            (AssetIoError::NotFound(a), AssetIoError::NotFound(b)) => *a == *b,
            (AssetIoError::Io(a), AssetIoError::Io(b)) => *a == *b,
            (AssetIoError::Http(a), AssetIoError::Http(b)) => *a == *b,
            (AssetIoError::InvalidData(a), AssetIoError::InvalidData(b)) => *a == *b,
            _ => false,
        }
    }
}

impl Eq for AssetIoError {

}

impl vstd::std_specs::cmp::PartialEqSpecImpl for AssetIoError {
    open spec fn obeys_eq_spec() -> bool {
        true
    }

    open spec fn eq_spec(&self, other: &Self) -> bool {
        match (self, other) {
            (AssetIoError::NotFound(a), AssetIoError::NotFound(b)) => a@ == b@,
            (AssetIoError::Io(a), AssetIoError::Io(b)) => a@ == b@,
            (AssetIoError::Http(a), AssetIoError::Http(b)) => a == b,
            (AssetIoError::InvalidData(a), AssetIoError::InvalidData(b)) => a@ == b@,
            _ => false,
        }
    }
}

impl AssetIoError {
    /// The error as a line of text.
    pub fn to_string(&self) -> (text: String)
        ensures
            text@ == match *self {
                AssetIoError::NotFound(path) => "Asset not found: "@ + path@,
                AssetIoError::Io(cause) => "IO error: "@ + cause@,
                AssetIoError::Http(status) => "HTTP error: "@ + crate::asset::decimal(
                    status as nat,
                ),
                AssetIoError::InvalidData(context) => "Invalid data: "@ + context@,
            },
    {
        match self {
            AssetIoError::NotFound(path) => String::from_str("Asset not found: ").concat(
                path.as_str(),
            ),
            AssetIoError::Io(cause) => String::from_str("IO error: ").concat(cause.as_str()),
            AssetIoError::Http(status) => String::from_str("HTTP error: ").concat(
                crate::asset::decimal_string(*status as u64).as_str(),
            ),
            AssetIoError::InvalidData(context) => String::from_str("Invalid data: ").concat(
                context.as_str(),
            ),
        }
    }
}

/// The CRC-32 checksum of `bytes`, as the `crc32fast` crate computes it.
pub uninterp spec fn crc32(bytes: Seq<u8>) -> u32;

/// `crc32fast::hash`: the CRC-32 checksum of a slice of bytes.
#[verifier::external_body]
fn crc32_hash(bytes: &[u8]) -> (sum: u32)
    ensures
        sum == crc32(bytes@),
{
    crc32fast::hash(bytes)
}

/// One read of `n` bytes: they leave the front of the source and stand at
/// the front of the buffer, whose other bytes stay. No byte is read only
/// where the buffer is empty or the source is at its end.
pub open spec fn read_step(
    source: Seq<u8>,
    rest: Seq<u8>,
    buffer: Seq<u8>,
    filled: Seq<u8>,
    n: int,
) -> bool {
    &&& 0 <= n <= buffer.len()
    &&& n <= source.len()
    &&& filled.take(n) == source.take(n)
    &&& filled.skip(n) == buffer.skip(n)
    &&& rest == source.skip(n)
    &&& n == 0 ==> buffer.len() == 0 || source.len() == 0
}

/// What a reader has taken from a source when it stopped before it had
/// `wanted` bytes: some bytes from the front, fewer than wanted, which stand
/// at the front of what it has filled.
pub open spec fn read_part(source: Seq<u8>, rest: Seq<u8>, filled: Seq<u8>, wanted: int) -> bool {
    exists|n: int|
        0 <= n < wanted && n <= source.len() && n <= filled.len() && #[trigger] filled.take(n)
            == source.take(n) && rest == source.skip(n)
}

/// A source of bytes that is read from front to back.
pub trait ByteRead {
    /// The bytes that have not been read yet. A source that is implemented
    /// outside the verifier keeps this default and answers for the contract
    /// of `read` itself.
    open spec fn remaining(&self) -> Seq<u8> {
        arbitrary()
    }

    /// Whether the source never fails. A source that is implemented outside
    /// the verifier keeps this default and so promises no success.
    open spec fn reliable(&self) -> bool {
        false
    }

    /// Reads bytes into the front of `buffer` and says how many. None are
    /// read only where the buffer is empty or the source is at its end. A
    /// read that fails has read nothing.
    fn read(&mut self, buffer: &mut [u8]) -> (count: Result<usize, AssetIoError>)
        ensures
            final(buffer)@.len() == old(buffer)@.len(),
            final(self).reliable() == old(self).reliable(),
            match count {
                Ok(n) => read_step(
                    old(self).remaining(),
                    final(self).remaining(),
                    old(buffer)@,
                    final(buffer)@,
                    n as int,
                ),
                Err(_) => final(self).remaining() == old(self).remaining(),
            },
            old(self).reliable() ==> count is Ok,
    ;
}

/// What becomes of one read in a reader that needs more bytes: no bytes
/// means that the source has ended too early, which is a failure of its own;
/// a count and an error of the source are handed on.
pub fn needed(count: Result<usize, AssetIoError>) -> (more: Result<usize, AssetIoError>)
    ensures
        match count {
            Ok(n) => if n == 0 {
                more matches Err(e) && e is Io
            } else {
                more == Ok::<usize, AssetIoError>(n)
            },
            Err(error) => more == Err::<usize, AssetIoError>(error),
        },
{
    match count {
        Ok(count) => if count == 0 {
            Err(AssetIoError::Io(String::from_str("unexpected end of file")))
        } else {
            Ok(count)
        },
        Err(error) => Err(error),
    }
}

/// A handle on a file that is read in pieces, so that a reader of the front
/// of a file need not read the rest.
pub struct FileReader<R: ByteRead> {
    reader: R,
}

impl<R: ByteRead> FileReader<R> {
    /// The bytes that have not been read yet.
    pub closed spec fn remaining(&self) -> Seq<u8> {
        self.reader.remaining()
    }

    /// Whether the source behind the handle never fails.
    pub closed spec fn reliable(&self) -> bool {
        self.reader.reliable()
    }

    pub fn new(reader: R) -> (handle: FileReader<R>)
        ensures
            handle.remaining() == reader.remaining(),
            handle.reliable() == reader.reliable(),
    {
        FileReader { reader }
    }

    /// Reads bytes into the front of `buffer` and says how many. A read that
    /// fails has read nothing; a reliable source does not fail.
    pub fn read(&mut self, buffer: &mut [u8]) -> (count: Result<usize, AssetIoError>)
        ensures
            final(buffer)@.len() == old(buffer)@.len(),
            final(self).reliable() == old(self).reliable(),
            match count {
                Ok(n) => read_step(
                    old(self).remaining(),
                    final(self).remaining(),
                    old(buffer)@,
                    final(buffer)@,
                    n as int,
                ),
                Err(_) => final(self).remaining() == old(self).remaining(),
            },
            old(self).reliable() ==> count is Ok,
    {
        self.reader.read(buffer)
    }

    /// Fills `buffer` with the next bytes. Where the source ends before the
    /// buffer is full, or fails, the result is an error, and the bytes read
    /// until then stand at the front of the buffer. An empty buffer is
    /// filled without a read; a reliable source fills the buffer exactly
    /// when it has bytes enough.
    pub fn read_exact(&mut self, buffer: &mut [u8]) -> (done: Result<(), AssetIoError>)
        ensures
            final(buffer)@.len() == old(buffer)@.len(),
            final(self).reliable() == old(self).reliable(),
            match done {
                Ok(_) => {
                    &&& old(buffer)@.len() <= old(self).remaining().len()
                    &&& final(buffer)@ == old(self).remaining().take(old(buffer)@.len() as int)
                    &&& final(self).remaining() == old(self).remaining().skip(
                        old(buffer)@.len() as int,
                    )
                },
                Err(_) => read_part(
                    old(self).remaining(),
                    final(self).remaining(),
                    final(buffer)@,
                    old(buffer)@.len() as int,
                ),
            },
            old(buffer)@.len() == 0 ==> done is Ok,
            old(self).reliable() ==> (done is Ok <==> old(buffer)@.len()
                <= old(self).remaining().len()),
            old(self).reliable() ==> (done matches Err(e) ==> e is Io),
    {
        let len = buffer.len();
        let ghost source = self.reader.remaining();
        let mut filled: usize = 0;
        while filled < len
            invariant
                filled <= len,
                len == buffer@.len(),
                len == old(buffer)@.len(),
                filled <= source.len(),
                buffer@.take(filled as int) == source.take(filled as int),
                self.reader.remaining() == source.skip(filled as int),
                source == old(self).reader.remaining(),
                self.reader.reliable() == old(self).reader.reliable(),
            decreases len - filled,
        {
            let wanted: usize = len - filled;
            let mut chunk: Vec<u8> = vec![0u8; wanted];
            let ghost rest = self.reader.remaining();
            let outcome = self.reader.read(chunk.as_mut_slice());
            proof {
                assert(rest.skip(0) == rest);
            }
            let count = match needed(outcome) {
                Ok(count) => count,
                Err(error) => {
                    proof {
                        assert(self.reader.remaining() == source.skip(filled as int));
                        assert(buffer@.take(filled as int) == source.take(filled as int));
                        assert(read_part(source, self.reader.remaining(), buffer@, len as int));
                    }
                    return Err(error);
                },
            };
            let start = filled;
            let mut i: usize = 0;
            while i < count
                invariant
                    i <= count,
                    count <= chunk@.len(),
                    start + count <= len,
                    len == buffer@.len(),
                    start + count <= source.len(),
                    chunk@.take(count as int) == source.skip(start as int).take(count as int),
                    buffer@.take(start + i) == source.take(start + i),
                decreases count - i,
            {
                buffer[start + i] = chunk[i];
                proof {
                    assert(chunk@[i as int] == chunk@.take(count as int)[i as int]);
                    assert(buffer@.take(start + i + 1) =~= source.take(start + i + 1));
                }
                i += 1;
            }
            filled = start + count;
            proof {
                assert(source.skip(start as int).skip(count as int) == source.skip(filled as int));
            }
        }
        proof {
            assert(buffer@.take(len as int) == buffer@);
        }
        Ok(())
    }

    /// Reads the next `len` bytes, in pieces, so that a length that the
    /// source cannot honour costs no more than the source holds. Where the
    /// source ends before that, or fails, the result is an error, and the
    /// bytes read until then are lost. No bytes are had without a read; a
    /// reliable source gives the bytes exactly when it has that many.
    pub fn read_vec(&mut self, len: usize) -> (bytes: Result<Vec<u8>, AssetIoError>)
        ensures
            final(self).reliable() == old(self).reliable(),
            match bytes {
                Ok(b) => {
                    &&& len <= old(self).remaining().len()
                    &&& b@ == old(self).remaining().take(len as int)
                    &&& final(self).remaining() == old(self).remaining().skip(len as int)
                },
                Err(_) => exists|n: int|
                    0 <= n < len && n <= old(self).remaining().len() && final(self).remaining()
                        == #[trigger] old(self).remaining().skip(n),
            },
            len == 0 ==> bytes is Ok,
            old(self).reliable() ==> (bytes is Ok <==> len <= old(self).remaining().len()),
            old(self).reliable() ==> (bytes matches Err(e) ==> e is Io),
    {
        let ghost source = self.reader.remaining();
        let mut bytes: Vec<u8> = Vec::new();
        while bytes.len() < len
            invariant
                source == old(self).reader.remaining(),
                bytes@.len() <= len,
                bytes@.len() <= source.len(),
                bytes@ == source.take(bytes@.len() as int),
                self.reader.remaining() == source.skip(bytes@.len() as int),
                self.reader.reliable() == old(self).reader.reliable(),
            decreases len - bytes@.len(),
        {
            let missing: usize = len - bytes.len();
            let wanted: usize = if missing < 4096 {
                missing
            } else {
                4096
            };
            let mut chunk: Vec<u8> = vec![0u8; wanted];
            let ghost rest = self.reader.remaining();
            let outcome = self.reader.read(chunk.as_mut_slice());
            proof {
                assert(rest.skip(0) == rest);
            }
            let count = match needed(outcome) {
                Ok(count) => count,
                Err(error) => {
                    proof {
                        let n = bytes@.len() as int;
                        assert(0 <= n < len && n <= source.len());
                        assert(self.remaining() == old(self).remaining().skip(n));
                    }
                    return Err(error);
                },
            };
            let ghost before = bytes@;
            let mut piece = slice_to_vec(slice_subrange(chunk.as_slice(), 0, count));
            bytes.append(&mut piece);
            proof {
                assert(chunk@.subrange(0, count as int) == chunk@.take(count as int));
                assert(source.skip(before.len() as int).skip(count as int) == source.skip(
                    before.len() + count,
                ));
                assert(bytes@ =~= source.take(before.len() + count));
            }
        }
        Ok(bytes)
    }

    /// Reads all bytes that are left. Where the source fails, the result is
    /// its error, and the bytes read until then are lost; a reliable source
    /// gives all its bytes.
    pub fn read_to_end(&mut self) -> (bytes: Result<Vec<u8>, AssetIoError>)
        ensures
            final(self).reliable() == old(self).reliable(),
            match bytes {
                Ok(b) => b@ == old(self).remaining() && final(self).remaining().len() == 0,
                Err(_) => exists|n: int|
                    0 <= n <= old(self).remaining().len() && final(self).remaining()
                        == #[trigger] old(self).remaining().skip(n),
            },
            old(self).reliable() ==> bytes is Ok,
    {
        let ghost source = self.reader.remaining();
        let mut bytes: Vec<u8> = Vec::new();
        loop
            invariant
                source == old(self).reader.remaining(),
                bytes@.len() <= source.len(),
                bytes@ == source.take(bytes@.len() as int),
                self.reader.remaining() == source.skip(bytes@.len() as int),
                self.reader.reliable() == old(self).reader.reliable(),
            decreases self.reader.remaining().len(),
        {
            let mut chunk: Vec<u8> = vec![0u8; 4096];
            let count = match self.reader.read(chunk.as_mut_slice()) {
                Ok(count) => count,
                Err(error) => {
                    proof {
                        let n = bytes@.len() as int;
                        assert(0 <= n <= source.len());
                        assert(self.remaining() == old(self).remaining().skip(n));
                    }
                    return Err(error);
                },
            };
            if count == 0 {
                proof {
                    assert(source.take(source.len() as int) == source);
                }
                return Ok(bytes);
            }
            let ghost before = bytes@;
            let mut piece = slice_to_vec(slice_subrange(chunk.as_slice(), 0, count));
            bytes.append(&mut piece);
            proof {
                assert(chunk@.subrange(0, count as int) == chunk@.take(count as int));
                assert(source.skip(before.len() as int).skip(count as int) == source.skip(
                    before.len() + count,
                ));
                assert(bytes@ =~= source.take(before.len() + count));
            }
        }
    }
}

/// A store of files: a map from paths to bytes, with the operations that the
/// pipeline needs. An operation that fails leaves the files as they were.
pub trait FileSystem {
    /// The kind of source that `reader` hands out.
    type Reader: ByteRead;

    /// The files of the store and what they hold. A store that is
    /// implemented outside the verifier keeps this default and answers for
    /// the contracts of the operations itself.
    open spec fn files(&self) -> Map<Seq<char>, Seq<u8>> {
        arbitrary()
    }

    /// Whether the store fails only where its files say so: it reads every
    /// file that is there and writes whatever it is given. A store that is
    /// implemented outside the verifier keeps this default and so promises
    /// no success.
    open spec fn reliable(&self) -> bool {
        false
    }

    /// The time at which the store has the file at `path` as last
    /// modified, in seconds since the epoch. A store tells the same time
    /// for as long as it is not changed.
    open spec fn modified_at(&self, path: Seq<char>) -> u64 {
        arbitrary()
    }

    /// Whether there is a file at `path`.
    fn is_file(&self, path: &str) -> (found: bool)
        ensures
            found == self.files().contains_key(path@),
    ;

    /// The bytes of the file at `path`.
    fn read(&self, path: &str) -> (bytes: Result<Vec<u8>, AssetIoError>)
        ensures
            bytes matches Ok(b) ==> self.files().contains_key(path@) && b@ == self.files()[path@],
            self.reliable() ==> (bytes is Ok <==> self.files().contains_key(path@)),
    ;

    /// The file at `path` as text; its bytes are the UTF-8 form of the text.
    fn read_to_string(&self, path: &str) -> (text: Result<String, AssetIoError>)
        ensures
            text matches Ok(t) ==> self.files().contains_key(path@) && encode_utf8(t@)
                == self.files()[path@],
            self.reliable() ==> (text is Ok <==> self.files().contains_key(path@) && valid_utf8(
                self.files()[path@],
            )),
    ;

    /// Fills `buffer` with the first bytes of the file at `path`.
    fn read_exact(&self, path: &str, buffer: &mut [u8]) -> (done: Result<(), AssetIoError>)
        ensures
            final(buffer)@.len() == old(buffer)@.len(),
            done is Ok ==> {
                &&& self.files().contains_key(path@)
                &&& old(buffer)@.len() <= self.files()[path@].len()
                &&& final(buffer)@ == self.files()[path@].take(old(buffer)@.len() as int)
            },
            self.reliable() ==> (done is Ok <==> self.files().contains_key(path@)
                && old(buffer)@.len() <= self.files()[path@].len()),
    ;

    /// A handle that reads the file at `path` front to back.
    fn reader(&self, path: &str) -> (handle: Result<FileReader<Self::Reader>, AssetIoError>)
        ensures
            handle matches Ok(h) ==> self.files().contains_key(path@) && h.remaining()
                == self.files()[path@] && (self.reliable() ==> h.reliable()),
            self.reliable() ==> (handle is Ok <==> self.files().contains_key(path@)),
    ;

    /// The time at which the file at `path` was last modified, in seconds
    /// since the epoch.
    fn modified(&self, path: &str) -> (secs: Result<u64, AssetIoError>)
        ensures
            secs matches Ok(t) ==> self.files().contains_key(path@) && t == self.modified_at(
                path@,
            ),
            self.reliable() ==> (secs is Ok <==> self.files().contains_key(path@)),
    ;

    /// Puts `data` at `path`, in place of what was there.
    fn write(&mut self, path: &str, data: &[u8]) -> (done: Result<(), AssetIoError>)
        ensures
            final(self).reliable() == old(self).reliable(),
            match done {
                Ok(_) => final(self).files() == old(self).files().insert(path@, data@),
                Err(_) => final(self).files() == old(self).files(),
            },
            old(self).reliable() ==> done is Ok,
    ;

    /// Removes the file at `path`, or, where `path` is no file, every file
    /// below it; returns the paths of the files that were below it.
    fn remove(&mut self, path: &str) -> (removed: Result<Vec<String>, AssetIoError>)
        ensures
            final(self).reliable() == old(self).reliable(),
            match removed {
                Ok(paths) => remove_outcome(old(self).files(), final(self).files(), path@, paths@),
                Err(_) => final(self).files() == old(self).files(),
            },
            old(self).reliable() ==> (removed is Ok <==> removable(old(self).files(), path@)),
    ;

    /// Moves the file at `from` to `to`.
    fn rename(&mut self, from: &str, to: &str) -> (done: Result<(), AssetIoError>)
        ensures
            final(self).reliable() == old(self).reliable(),
            match done {
                Ok(_) => rename_outcome(old(self).files(), final(self).files(), from@, to@),
                Err(_) => final(self).files() == old(self).files(),
            },
            old(self).reliable() ==> (done is Ok <==> old(self).files().contains_key(from@)),
    ;

    /// The paths of the files below the directory `path`: all of them where
    /// `recursive` is set, else those directly in it.
    fn read_directory(&self, path: &str, recursive: bool) -> (paths: Result<
        Vec<String>,
        AssetIoError,
    >)
        ensures
            paths matches Ok(list) ==> named(list@) == listing(self.files(), path@, recursive),
            self.reliable() ==> paths is Ok,
    ;

    /// Makes the directory `path` and those above it. No file changes.
    fn create_dir(&mut self, path: &str) -> (done: Result<(), AssetIoError>)
        ensures
            final(self).reliable() == old(self).reliable(),
            final(self).files() == old(self).files(),
            old(self).reliable() ==> done is Ok,
    ;
}

/// Whether `path` lies below the directory `dir`: it is `dir`, a `/`, and more.
pub open spec fn is_below(dir: Seq<char>, path: Seq<char>) -> bool {
    path.len() > dir.len() && path.take(dir.len() as int) == dir && path[dir.len() as int] == '/'
}

/// Whether `path` lies in the directory `dir` itself, and in no directory below it.
pub open spec fn is_directly_below(dir: Seq<char>, path: Seq<char>) -> bool {
    is_below(dir, path) && forall|i: int| dir.len() < i < path.len() ==> path[i] != '/'
}

/// The paths that a list names.
pub open spec fn named(list: Seq<String>) -> Set<Seq<char>> {
    Set::new(|p: Seq<char>| exists|i: int| 0 <= i < list.len() && (#[trigger] list[i])@ == p)
}

/// The files below the directory `dir`: all of them where `recursive` is
/// set, else those in the directory itself.
pub open spec fn listing(files: Map<Seq<char>, Seq<u8>>, dir: Seq<char>, recursive: bool) -> Set<
    Seq<char>,
> {
    Set::new(
        |p: Seq<char>|
            files.contains_key(p) && if recursive {
                is_below(dir, p)
            } else {
                is_directly_below(dir, p)
            },
    )
}

/// The paths below the directory `dir`.
pub open spec fn below(dir: Seq<char>) -> Set<Seq<char>> {
    Set::new(|p: Seq<char>| is_below(dir, p))
}

/// What the removal of `path` leaves, and which paths it gives back. Where
/// `path` was a file, that file is gone and no path is given back. Else
/// the files below `path` are gone, and their paths are given back.
pub open spec fn remove_outcome(
    before: Map<Seq<char>, Seq<u8>>,
    after: Map<Seq<char>, Seq<u8>>,
    path: Seq<char>,
    removed: Seq<String>,
) -> bool {
    if before.contains_key(path) {
        after == before.remove(path) && removed.len() == 0
    } else {
        after == before.remove_keys(below(path)) && named(removed) == listing(before, path, true)
    }
}

/// Whether there is something to remove at `path`: a file there, or a file below it.
pub open spec fn removable(files: Map<Seq<char>, Seq<u8>>, path: Seq<char>) -> bool {
    files.contains_key(path) || exists|p: Seq<char>| #[trigger]
        listing(files, path, true).contains(p)
}

/// With one more path at its end a list names that path too.
pub proof fn lemma_named_push(list: Seq<String>, path: String)
    ensures
        named(list.push(path)) == named(list).insert(path@),
{
    let longer = list.push(path);
    assert forall|p: Seq<char>| named(longer).contains(p) <==> named(list).insert(
        path@,
    ).contains(p) by {
        if named(longer).contains(p) {
            let i = choose|i: int| 0 <= i < longer.len() && (#[trigger] longer[i])@ == p;
            if i < list.len() {
                assert(list[i]@ == p);
            }
        }
        if named(list).contains(p) {
            let i = choose|i: int| 0 <= i < list.len() && (#[trigger] list[i])@ == p;
            assert(longer[i]@ == p);
        }
        if p == path@ {
            assert(longer[list.len() as int]@ == p);
        }
    }
    assert(named(longer) =~= named(list).insert(path@));
}

/// What the move of the file at `from` to `to` leaves: the file stands at
/// `to` and no longer at `from`. The move of a directory is not described.
pub open spec fn rename_outcome(
    before: Map<Seq<char>, Seq<u8>>,
    after: Map<Seq<char>, Seq<u8>>,
    from: Seq<char>,
    to: Seq<char>,
) -> bool {
    before.contains_key(from) ==> after == before.remove(from).insert(to, before[from])
}

/// The artifact that was read, where reading went well and the bytes are
/// those of an artifact; bytes that are none are invalid data, and an error
/// of the store is handed on.
pub fn artifact_of_read(read: Result<Vec<u8>, AssetIoError>) -> (artifact: Result<
    Artifact,
    AssetIoError,
>)
    ensures
        match read {
            Ok(bytes) => match decode_artifact(bytes@) {
                Some(a) => artifact matches Ok(x) && x@ == a && x.wf(),
                None => artifact matches Err(e) && e is InvalidData,
            },
            Err(error) => artifact == Err::<Artifact, AssetIoError>(error),
        },
{
    match read {
        Ok(bytes) => match Artifact::from_bytes(bytes.as_slice()) {
            Some(artifact) => Ok(artifact),
            None => Err(AssetIoError::InvalidData(String::from_str("Could not read artifact."))),
        },
        Err(error) => Err(error),
    }
}

/// The library that was read, where reading went well and the bytes are
/// those of a library; bytes that are none are invalid data, and an error of
/// the store is handed on.
pub fn library_of_read(read: Result<Vec<u8>, AssetIoError>) -> (library: Result<
    AssetLibrary,
    AssetIoError,
>)
    ensures
        match read {
            Ok(bytes) => match decode_library(bytes@) {
                Some(entries) => library matches Ok(l) && l@ == entries && l.wf(),
                None => library matches Err(e) && e is InvalidData,
            },
            Err(error) => library == Err::<AssetLibrary, AssetIoError>(error),
        },
{
    match read {
        Ok(bytes) => match AssetLibrary::from_bytes(bytes.as_slice()) {
            Some(library) => Ok(library),
            None => Err(AssetIoError::InvalidData(String::from_str("Could not read library."))),
        },
        Err(error) => Err(error),
    }
}

/// The length that the first eight bytes of an artifact file give: bytes
/// that are no length are invalid data, and an error of the source is
/// handed on.
pub fn header_length(prefix: Result<Vec<u8>, AssetIoError>) -> (len: Result<usize, AssetIoError>)
    ensures
        match prefix {
            Ok(bytes) => if bytes@.len() == 8 && le_value(bytes@) <= usize::MAX {
                len == Ok::<usize, AssetIoError>(le_value(bytes@) as usize)
            } else {
                len matches Err(e) && e is InvalidData
            },
            Err(error) => len == Err::<usize, AssetIoError>(error),
        },
{
    match prefix {
        Ok(bytes) => match usize::from_bytes(bytes.as_slice()) {
            Some(len) => Ok(len),
            None => Err(AssetIoError::InvalidData(String::from_str("Could not read length."))),
        },
        Err(error) => Err(error),
    }
}

/// The header that the bytes after the length give: bytes that are no header
/// are invalid data, and an error of the source is handed on.
pub fn header_of_read(read: Result<Vec<u8>, AssetIoError>) -> (meta: Result<
    ArtifactMeta,
    AssetIoError,
>)
    ensures
        match read {
            Ok(bytes) => match decode_meta(bytes@) {
                Some(header) => meta matches Ok(m) && m@ == header && m.wf(),
                None => meta matches Err(e) && e is InvalidData,
            },
            Err(error) => meta == Err::<ArtifactMeta, AssetIoError>(error),
        },
{
    match read {
        Ok(bytes) => match ArtifactMeta::from_bytes(bytes.as_slice()) {
            Some(meta) => Ok(meta),
            None => Err(
                AssetIoError::InvalidData(String::from_str("Could not read artifact meta.")),
            ),
        },
        Err(error) => Err(error),
    }
}

/// Reads the header of an artifact from the front of `handle`: eight bytes of
/// length, then the header. The payload is left unread. A reliable source
/// gives the header exactly when its front holds one; a front with a length
/// that fits and bytes that are no header is invalid data.
pub fn read_header<R: ByteRead>(handle: &mut FileReader<R>) -> (meta: Result<
    ArtifactMeta,
    AssetIoError,
>)
    ensures
        final(handle).reliable() == old(handle).reliable(),
        meta matches Ok(m) ==> {
            &&& decode_header(old(handle).remaining()) == Some(m@)
            &&& m.wf()
            &&& final(handle).remaining() == old(handle).remaining().skip(
                header_len(old(handle).remaining()).unwrap() as int,
            )
        },
        old(handle).reliable() ==> (meta is Ok <==> decode_header(old(handle).remaining()) is Some),
        old(handle).reliable() && header_len(old(handle).remaining()) is Some ==> (
        meta matches Err(e) ==> e is InvalidData),
{
    let ghost source = handle.remaining();
    let len = match header_length(handle.read_vec(8)) {
        Ok(len) => len,
        Err(error) => {
            return Err(error);
        },
    };
    let read = handle.read_vec(len);
    proof {
        assert(source.take(8) == source.subrange(0, 8));
        if read is Ok {
            assert(source.skip(8).take(len as int) == source.subrange(8, 8 + len));
            assert(source.skip(8).skip(len as int) == source.skip(8 + len));
        }
    }
    header_of_read(read)
}

/// The CRC-32 checksum of the source bytes followed by the bytes of the sidecar.
pub open spec fn checksum_of(asset: Seq<u8>, metadata: Seq<u8>) -> u32 {
    crc32(asset + metadata)
}

/// The files of a project: a store, and the places of the pipeline's files in it.
pub struct AssetFileSystem<F: FileSystem> {
    config: AssetConfig,
    system: F,
}

impl<F: FileSystem> AssetFileSystem<F> {
    /// The files of the store and what they hold.
    pub closed spec fn files(&self) -> Map<Seq<char>, Seq<u8>> {
        self.system.files()
    }

    /// The root of the project.
    pub closed spec fn root(&self) -> Seq<char> {
        self.config@
    }

    /// Whether the store behind the facade fails only where its files say so.
    pub closed spec fn reliable(&self) -> bool {
        self.system.reliable()
    }

    /// The time at which the store has the file at `path` as last modified.
    pub closed spec fn modified_at(&self, path: Seq<char>) -> u64 {
        self.system.modified_at(path)
    }

    pub fn new(config: AssetConfig, system: F) -> (fs: AssetFileSystem<F>)
        ensures
            fs.root() == config@,
            fs.files() == system.files(),
            fs.reliable() == system.reliable(),
            forall|path: Seq<char>| #[trigger] fs.modified_at(path) == system.modified_at(path),
    {
        AssetFileSystem { config, system }
    }

    pub fn config(&self) -> (config: &AssetConfig)
        ensures
            config@ == self.root(),
    {
        &self.config
    }

    /// The store behind the facade.
    pub fn system(&self) -> (system: &F)
        ensures
            system.files() == self.files(),
            system.reliable() == self.reliable(),
    {
        &self.system
    }

    /// Whether there is a file at `path`.
    pub fn is_file(&self, path: &str) -> (found: bool)
        ensures
            found == self.files().contains_key(path@),
    {
        self.system.is_file(path)
    }

    /// The bytes of the file at `path`; a reliable store gives them exactly
    /// when the file is there.
    pub fn read(&self, path: &str) -> (bytes: Result<Vec<u8>, AssetIoError>)
        ensures
            bytes matches Ok(b) ==> self.files().contains_key(path@) && b@ == self.files()[path@],
            self.reliable() ==> (bytes is Ok <==> self.files().contains_key(path@)),
    {
        self.system.read(path)
    }

    pub fn read_exact(&self, path: &str, buffer: &mut [u8]) -> (done: Result<(), AssetIoError>)
        ensures
            final(buffer)@.len() == old(buffer)@.len(),
            done is Ok ==> {
                &&& self.files().contains_key(path@)
                &&& old(buffer)@.len() <= self.files()[path@].len()
                &&& final(buffer)@ == self.files()[path@].take(old(buffer)@.len() as int)
            },
            self.reliable() ==> (done is Ok <==> self.files().contains_key(path@)
                && old(buffer)@.len() <= self.files()[path@].len()),
    {
        self.system.read_exact(path, buffer)
    }

    pub fn read_to_string(&self, path: &str) -> (text: Result<String, AssetIoError>)
        ensures
            text matches Ok(t) ==> self.files().contains_key(path@) && encode_utf8(t@)
                == self.files()[path@],
            self.reliable() ==> (text is Ok <==> self.files().contains_key(path@) && valid_utf8(
                self.files()[path@],
            )),
    {
        self.system.read_to_string(path)
    }

    pub fn reader(&self, path: &str) -> (handle: Result<FileReader<F::Reader>, AssetIoError>)
        ensures
            handle matches Ok(h) ==> self.files().contains_key(path@) && h.remaining()
                == self.files()[path@] && (self.reliable() ==> h.reliable()),
            self.reliable() ==> (handle is Ok <==> self.files().contains_key(path@)),
    {
        self.system.reader(path)
    }

    pub fn write(&mut self, path: &str, data: &[u8]) -> (done: Result<(), AssetIoError>)
        ensures
            final(self).root() == old(self).root(),
            final(self).reliable() == old(self).reliable(),
            match done {
                Ok(_) => final(self).files() == old(self).files().insert(path@, data@),
                Err(_) => final(self).files() == old(self).files(),
            },
            old(self).reliable() ==> done is Ok,
    {
        self.system.write(path, data)
    }

    pub fn remove(&mut self, path: &str) -> (removed: Result<Vec<String>, AssetIoError>)
        ensures
            final(self).root() == old(self).root(),
            final(self).reliable() == old(self).reliable(),
            match removed {
                Ok(paths) => remove_outcome(old(self).files(), final(self).files(), path@, paths@),
                Err(_) => final(self).files() == old(self).files(),
            },
            old(self).reliable() ==> (removed is Ok <==> removable(old(self).files(), path@)),
    {
        self.system.remove(path)
    }

    pub fn rename(&mut self, from: &str, to: &str) -> (done: Result<(), AssetIoError>)
        ensures
            final(self).root() == old(self).root(),
            final(self).reliable() == old(self).reliable(),
            match done {
                Ok(_) => rename_outcome(old(self).files(), final(self).files(), from@, to@),
                Err(_) => final(self).files() == old(self).files(),
            },
            old(self).reliable() ==> (done is Ok <==> old(self).files().contains_key(from@)),
    {
        self.system.rename(from, to)
    }

    pub fn read_directory(&self, path: &str, recursive: bool) -> (paths: Result<
        Vec<String>,
        AssetIoError,
    >)
        ensures
            paths matches Ok(list) ==> named(list@) == listing(self.files(), path@, recursive),
            self.reliable() ==> paths is Ok,
    {
        self.system.read_directory(path, recursive)
    }

    /// Reads the metadata of the source at `path` from its sidecar: the
    /// metadata that the sidecar holds. A sidecar that is missing or cannot
    /// be read gives an error, for which the caller takes the default
    /// metadata. A reliable store gives the metadata exactly when the
    /// sidecar holds some; a sidecar that is there fails only as invalid
    /// data.
    pub fn load_metadata<S: Settings>(&self, path: &str) -> (metadata: Result<
        AssetMetadata<S>,
        AssetIoError,
    >)
        ensures
            metadata matches Ok(m) ==> stored_metadata::<S>(self.files(), path@) == Some(
                (m.id, m.settings),
            ),
            self.reliable() ==> (metadata is Ok <==> stored_metadata::<S>(self.files(), path@)
                is Some),
            metadata is Ok ==> self.files().contains_key(metadata_path(path@)) && valid_utf8(
                self.files()[metadata_path(path@)],
            ),
            !self.files().contains_key(metadata_path(path@)) ==> metadata is Err,
            self.reliable() && self.files().contains_key(metadata_path(path@)) && valid_utf8(
                self.files()[metadata_path(path@)],
            ) ==> (metadata matches Err(e) ==> e is InvalidData),
    {
        let sidecar = AssetConfig::metadata(path);
        match self.read_to_string(sidecar.as_str()) {
            Ok(text) => {
                proof {
                    vstd::utf8::encode_utf8_valid_utf8(text@);
                    vstd::utf8::encode_utf8_decode_utf8(text@);
                }
                metadata_of_text(text.as_str())
            },
            Err(error) => Err(error),
        }
    }

    /// Writes `metadata` to the sidecar of the source at `path` and returns
    /// the bytes written, which are text written for the id of the
    /// metadata. Metadata without a TOML form is invalid data, and then
    /// nothing is written; with a reliable store nothing else fails.
    pub fn save_metadata<S: Settings>(&mut self, path: &str, metadata: &AssetMetadata<S>) -> (bytes:
        Result<Vec<u8>, AssetIoError>)
        ensures
            final(self).root() == old(self).root(),
            final(self).reliable() == old(self).reliable(),
            match bytes {
                Ok(b) => valid_utf8(b@) && written_for(b@, metadata.id) && final(self).files()
                    == old(self).files().insert(metadata_path(path@), b@),
                Err(_) => final(self).files() == old(self).files(),
            },
            old(self).reliable() ==> (bytes matches Err(e) ==> e is InvalidData),
            old(self).reliable() ==> (bytes is Err ==> unwritable(*metadata)),
            metadata.settings.toml_form() is None ==> bytes is Err,
            bytes matches Ok(b) ==> names_metadata(decode_utf8(b@), *metadata),
    {
        let sidecar = AssetConfig::metadata(path);
        let text = match text_of_metadata(metadata) {
            Ok(text) => text,
            Err(error) => {
                return Err(error);
            },
        };
        let bytes = text.as_str().as_bytes_vec();
        proof {
            vstd::utf8::encode_utf8_valid_utf8(text@);
            vstd::utf8::encode_utf8_decode_utf8(text@);
        }
        match self.write(sidecar.as_str(), bytes.as_slice()) {
            Ok(_) => Ok(bytes),
            Err(error) => Err(error),
        }
    }

    /// Reads the header of the artifact of `id`, and no more of the file
    /// than the header. A reliable store gives the header exactly when the
    /// artifact is there and its front holds one; an artifact with a length
    /// that fits and bytes that are no header is invalid data.
    pub fn load_artifact_meta(&self, id: &AssetId) -> (meta: Result<ArtifactMeta, AssetIoError>)
        ensures
            meta matches Ok(m) ==> {
                &&& self.files().contains_key(artifact_path(self.root(), *id))
                &&& decode_header(self.files()[artifact_path(self.root(), *id)]) == Some(m@)
                &&& m.wf()
            },
            self.reliable() ==> (meta is Ok <==> self.files().contains_key(
                artifact_path(self.root(), *id),
            ) && decode_header(self.files()[artifact_path(self.root(), *id)]) is Some),
            self.reliable() && self.files().contains_key(artifact_path(self.root(), *id))
                && header_len(self.files()[artifact_path(self.root(), *id)]) is Some ==> (
            meta matches Err(e) ==> e is InvalidData),
    {
        let path = self.config.artifact(id);
        let mut handle = match self.reader(path.as_str()) {
            Ok(handle) => handle,
            Err(error) => {
                return Err(error);
            },
        };
        read_header(&mut handle)
    }

    /// Reads the artifact of `id`, header and payload. A reliable store
    /// gives the artifact exactly when its file is there and holds one; a
    /// file that holds none is invalid data.
    pub fn load_artifact(&self, id: &AssetId) -> (artifact: Result<Artifact, AssetIoError>)
        ensures
            artifact matches Ok(a) ==> {
                &&& self.files().contains_key(artifact_path(self.root(), *id))
                &&& decode_artifact(self.files()[artifact_path(self.root(), *id)]) == Some(a@)
                &&& a.wf()
            },
            self.reliable() ==> (artifact is Ok <==> self.files().contains_key(
                artifact_path(self.root(), *id),
            ) && decode_artifact(self.files()[artifact_path(self.root(), *id)]) is Some),
            self.reliable() && self.files().contains_key(artifact_path(self.root(), *id)) ==> (
            artifact matches Err(e) ==> e is InvalidData),
    {
        let path = self.config.artifact(id);
        artifact_of_read(self.read(path.as_str()))
    }

    /// Reads the library index from its file. A reliable store gives the
    /// library exactly when its file is there and holds one; a file that
    /// holds none is invalid data.
    pub fn load_library(&self) -> (library: Result<AssetLibrary, AssetIoError>)
        ensures
            library matches Ok(l) ==> {
                &&& self.files().contains_key(library_path(self.root()))
                &&& decode_library(self.files()[library_path(self.root())]) == Some(l@)
                &&& l.wf()
            },
            self.reliable() ==> (library is Ok <==> self.files().contains_key(
                library_path(self.root()),
            ) && decode_library(self.files()[library_path(self.root())]) is Some),
            self.reliable() && self.files().contains_key(library_path(self.root())) ==> (
            library matches Err(e) ==> e is InvalidData),
    {
        let path = self.config.library();
        library_of_read(self.read(path.as_str()))
    }

    /// Writes the library index to its file. A library with a path too long
    /// to encode is invalid data, and then nothing is written.
    pub fn save_library(&mut self, library: &AssetLibrary) -> (done: Result<(), AssetIoError>)
        requires
            library.wf(),
        ensures
            final(self).root() == old(self).root(),
            match done {
                Ok(_) => final(self).files() == old(self).files().insert(
                    library_path(old(self).root()),
                    encode_library(library@),
                ),
                Err(_) => final(self).files() == old(self).files(),
            },
            final(self).reliable() == old(self).reliable(),
            !library_encodable(library@) ==> (done matches Err(e) && e is InvalidData),
            old(self).reliable() ==> (done is Ok <==> library_encodable(library@)),
    {
        if !library.is_encodable() {
            return Err(AssetIoError::InvalidData(String::from_str("Could not write library.")));
        }
        let path = self.config.library();
        let bytes = library.into_bytes();
        self.write(path.as_str(), bytes.as_slice())
    }

    /// The time at which the file at `path` was last modified, in seconds
    /// since the epoch.
    pub fn modified_secs(&self, path: &str) -> (secs: Result<u64, AssetIoError>)
        ensures
            secs matches Ok(t) ==> self.files().contains_key(path@) && t == self.modified_at(
                path@,
            ),
            self.reliable() ==> (secs is Ok <==> self.files().contains_key(path@)),
    {
        self.system.modified(path)
    }

    /// The checksum of a source and its sidecar: the CRC-32 of the source's
    /// bytes followed by the sidecar's.
    pub fn calculate_checksum(asset: &[u8], metadata: &[u8]) -> (sum: u32)
        ensures
            sum == checksum_of(asset@, metadata@),
    {
        let mut bytes = slice_to_vec(asset);
        let mut rest = slice_to_vec(metadata);
        bytes.append(&mut rest);
        crc32_hash(bytes.as_slice())
    }
}

} // verus!
