//! A store of files in memory: a log of writes and removals, of which the
//! last for a path decides what the path holds.

use vstd::prelude::*;
use vstd::slice::slice_to_vec;
use vstd::string::StrSliceExecFns;
use crate::asset::io::{
    below, is_below, lemma_named_push, listing, named, AssetIoError, ByteRead, FileReader,
    FileSystem,
};
use crate::asset::bytes::text_of_utf8;
use crate::asset::path::same_text;

verus! {

/// One line of the log: the path was written with these bytes at this time,
/// or, where there are no bytes, was removed.
pub struct MemoryEntry {
    pub path: String,
    pub data: Option<Vec<u8>>,
    pub modified: u64,
}

/// A line of the log as plain values.
pub ghost struct LineView {
    pub path: Seq<char>,
    pub data: Option<Seq<u8>>,
}

impl View for MemoryEntry {
    type V = LineView;

    open spec fn view(&self) -> LineView {
        LineView {
            path: self.path@,
            data: match self.data {
                Some(data) => Some(data@),
                None => None,
            },
        }
    }
}

/// The lines of a log as plain values.
pub open spec fn lines(log: Seq<MemoryEntry>) -> Seq<LineView> {
    log.map_values(|entry: MemoryEntry| entry@)
}

/// The files that a log stands for.
pub open spec fn files_of(log: Seq<LineView>) -> Map<Seq<char>, Seq<u8>>
    decreases log.len(),
{
    if log.len() == 0 {
        Map::empty()
    } else {
        let front = files_of(log.drop_last());
        match log.last().data {
            Some(data) => front.insert(log.last().path, data),
            None => front.remove(log.last().path),
        }
    }
}

/// The position of the last line for `path` in the log, or -1.
pub open spec fn last_line(log: Seq<LineView>, path: Seq<char>) -> int
    decreases log.len(),
{
    if log.len() == 0 {
        -1
    } else if log.last().path == path {
        log.len() - 1
    } else {
        last_line(log.drop_last(), path)
    }
}

/// The log without the lines for the paths below `dir`.
pub open spec fn outside(log: Seq<LineView>, dir: Seq<char>) -> Seq<LineView>
    decreases log.len(),
{
    if log.len() == 0 {
        log
    } else if is_below(dir, log.last().path) {
        outside(log.drop_last(), dir)
    } else {
        outside(log.drop_last(), dir).push(log.last())
    }
}

/// The last line for a path decides whether the path is a file and what it holds.
pub proof fn lemma_last_line(log: Seq<LineView>, path: Seq<char>)
    ensures
        -1 <= last_line(log, path) < log.len(),
        last_line(log, path) >= 0 ==> log[last_line(log, path)].path == path,
        files_of(log).contains_key(path) <==> last_line(log, path) >= 0 && log[last_line(
            log,
            path,
        )].data is Some,
        files_of(log).contains_key(path) ==> files_of(log)[path] == log[last_line(
            log,
            path,
        )].data.unwrap(),
    decreases log.len(),
{
    if log.len() > 0 {
        lemma_last_line(log.drop_last(), path);
    }
}

/// Without the lines for the paths below `dir`, the log stands for the same
/// files but those below `dir`.
pub proof fn lemma_outside(log: Seq<LineView>, dir: Seq<char>)
    ensures
        forall|p: Seq<char>| #[trigger]
            files_of(outside(log, dir)).contains_key(p) <==> files_of(log).contains_key(p)
                && !is_below(dir, p),
        forall|p: Seq<char>|
            files_of(outside(log, dir)).contains_key(p) ==> #[trigger] files_of(
                outside(log, dir),
            )[p] == files_of(log)[p],
    decreases log.len(),
{
    if log.len() > 0 {
        let front = log.drop_last();
        let last = log.last();
        lemma_outside(front, dir);
        let kept = outside(log, dir);
        let inner = outside(front, dir);
        assert(files_of(log) == match last.data {
            Some(data) => files_of(front).insert(last.path, data),
            None => files_of(front).remove(last.path),
        });
        if !is_below(dir, last.path) {
            assert(kept.drop_last() =~= inner);
            assert(kept.last() == last);
            assert(files_of(kept) == match last.data {
                Some(data) => files_of(inner).insert(last.path, data),
                None => files_of(inner).remove(last.path),
            });
        } else {
            assert(kept == inner);
        }
        assert forall|p: Seq<char>| #[trigger]
            files_of(kept).contains_key(p) <==> files_of(log).contains_key(p) && !is_below(
                dir,
                p,
            ) by {
            if p == last.path {
            } else {
                assert(files_of(log).contains_key(p) == files_of(front).contains_key(p));
            }
        }
        assert forall|p: Seq<char>| files_of(kept).contains_key(p) implies #[trigger] files_of(
            kept,
        )[p] == files_of(log)[p] by {
            if p == last.path {
            } else {
                assert(files_of(log).contains_key(p) == files_of(front).contains_key(p));
            }
        }
    }
}

/// A source of bytes over a vector in memory.
pub struct MemoryReader {
    data: Vec<u8>,
    at: usize,
}

impl ByteRead for MemoryReader {
    /// A vector in memory is always read.
    open spec fn reliable(&self) -> bool {
        true
    }

    closed spec fn remaining(&self) -> Seq<u8> {
        if self.at <= self.data@.len() {
            self.data@.skip(self.at as int)
        } else {
            Seq::empty()
        }
    }

    /// A read of a vector in memory does not fail.
    fn read(&mut self, buffer: &mut [u8]) -> (count: Result<usize, AssetIoError>)
        ensures
            count is Ok,
    {
        if self.at > self.data.len() {
            proof {
                let source = self.remaining();
                assert(source.take(0) =~= buffer@.take(0));
                assert(source.skip(0) =~= source);
            }
            return Ok(0);
        }
        let left: usize = self.data.len() - self.at;
        let count: usize = if buffer.len() < left {
            buffer.len()
        } else {
            left
        };
        let start = self.at;
        let total = self.data.len();
        let mut i: usize = 0;
        while i < count
            invariant
                i <= count,
                total == self.data@.len(),
                count <= buffer@.len(),
                buffer@.len() == old(buffer)@.len(),
                start + count <= self.data@.len(),
                self.at == start,
                self.data@ == old(self).data@,
                buffer@.take(i as int) == self.data@.skip(start as int).take(i as int),
                buffer@.skip(i as int) == old(buffer)@.skip(i as int),
            decreases count - i,
        {
            let ghost before = buffer@;
            buffer[i] = self.data[start + i];
            proof {
                assert(buffer@.take(i + 1) =~= self.data@.skip(start as int).take(i + 1));
                assert forall|j: int| i + 1 <= j < buffer@.len() implies #[trigger] buffer@[j]
                    == old(buffer)@[j] by {
                    assert(before.skip(i as int)[j - i] == old(buffer)@.skip(i as int)[j - i]);
                }
                assert(buffer@.skip(i + 1) =~= old(buffer)@.skip(i + 1));
            }
            i += 1;
        }
        self.at = start + count;
        proof {
            assert(self.data@.skip(start as int).skip(count as int) =~= self.data@.skip(
                start + count,
            ));
        }
        Ok(count)
    }
}

/// A store of files in memory.
pub struct MemoryFileSystem {
    log: Vec<MemoryEntry>,
    clock: u64,
}

fn lies_below(dir: &str, path: &str) -> (yes: bool)
    ensures
        yes == is_below(dir@, path@),
{
    let dir_len = dir.unicode_len();
    let path_len = path.unicode_len();
    if path_len <= dir_len {
        return false;
    }
    if path.get_char(dir_len) != '/' {
        return false;
    }
    let front = path.substring_char(0, dir_len);
    proof {
        assert(path@.subrange(0, dir_len as int) == path@.take(dir_len as int));
    }
    same_text(front, dir)
}

fn has_slash(text: &str, from: usize) -> (yes: bool)
    requires
        from <= text@.len(),
    ensures
        yes == exists|k: int| from <= k < text@.len() && text@[k] == '/',
{
    let len = text.unicode_len();
    let mut i: usize = from;
    while i < len
        invariant
            from <= i <= len,
            len == text@.len(),
            forall|k: int| from <= k < i ==> text@[k] != '/',
        decreases len - i,
    {
        if text.get_char(i) == '/' {
            return true;
        }
        i += 1;
    }
    false
}

impl MemoryFileSystem {
    /// A store without files, at the time 0.
    pub fn new() -> (store: MemoryFileSystem)
        ensures
            store.files() == Map::<Seq<char>, Seq<u8>>::empty(),
            store.now() == 0,
    {
        MemoryFileSystem { log: Vec::new(), clock: 0 }
    }

    /// The time with which the store stamps a write.
    pub closed spec fn now(&self) -> u64 {
        self.clock
    }

    /// The time with which the last line for `path` is stamped.
    pub closed spec fn stamp(&self, path: Seq<char>) -> u64 {
        self.log@[last_line(lines(self.log@), path)].modified
    }

    /// Sets the time with which later writes are stamped. The files and
    /// their stamps stay.
    pub fn set_time(&mut self, secs: u64)
        ensures
            final(self).now() == secs,
            final(self).files() == old(self).files(),
            forall|path: Seq<char>| final(self).stamp(path) == old(self).stamp(path),
    {
        self.clock = secs;
    }

    /// The position of the last line for `path`.
    fn find(&self, path: &str) -> (at: Option<usize>)
        ensures
            match at {
                Some(i) => i == last_line(lines(self.log@), path@),
                None => last_line(lines(self.log@), path@) == -1,
            },
    {
        let mut at: Option<usize> = None;
        let mut i: usize = 0;
        while i < self.log.len()
            invariant
                i <= self.log@.len(),
                match at {
                    Some(j) => j == last_line(lines(self.log@).take(i as int), path@),
                    None => last_line(lines(self.log@).take(i as int), path@) == -1,
                },
            decreases self.log@.len() - i,
        {
            proof {
                let all = lines(self.log@);
                assert(all.take(i + 1).drop_last() == all.take(i as int));
                assert(all[i as int] == self.log@[i as int]@);
            }
            if same_text(self.log[i].path.as_str(), path) {
                at = Some(i);
            }
            i += 1;
        }
        proof {
            assert(lines(self.log@).take(self.log@.len() as int) == lines(self.log@));
        }
        at
    }

    /// The bytes of the file at `path`, if there is one.
    fn lookup(&self, path: &str) -> (data: Option<&Vec<u8>>)
        ensures
            match data {
                Some(d) => self.files().contains_key(path@) && d@ == self.files()[path@]
                    && last_line(lines(self.log@), path@) >= 0,
                None => !self.files().contains_key(path@),
            },
    {
        proof {
            lemma_last_line(lines(self.log@), path@);
        }
        match self.find(path) {
            Some(i) => {
                proof {
                    assert(lines(self.log@)[i as int] == self.log@[i as int]@);
                }
                match &self.log[i].data {
                    Some(data) => Some(data),
                    None => None,
                }
            },
            None => None,
        }
    }
}

impl MemoryFileSystem {
    /// The paths of the files below `dir`: all of them where `recursive` is
    /// set, else those in the directory itself.
    fn files_below(&self, dir: &str, recursive: bool) -> (list: Vec<String>)
        ensures
            named(list@) == listing(self.files(), dir@, recursive),
    {
        let ghost log = lines(self.log@);
        let dir_len = dir.unicode_len();
        let mut list: Vec<String> = Vec::new();
        let mut i: usize = 0;
        proof {
            assert forall|p: Seq<char>| #[trigger]
                named(list@).contains(p) <==> listing(files_of(log), dir@, recursive).contains(p)
                    && last_line(log, p) < 0 by {
                lemma_last_line(log, p);
            }
        }
        while i < self.log.len()
            invariant
                i <= self.log@.len(),
                log == lines(self.log@),
                dir_len == dir@.len(),
                forall|p: Seq<char>| #[trigger]
                    named(list@).contains(p) <==> listing(files_of(log), dir@, recursive).contains(
                        p,
                    ) && last_line(log, p) < i,
            decreases self.log@.len() - i,
        {
            let entry = &self.log[i];
            let ghost before = list@;
            proof {
                assert(log[i as int] == self.log@[i as int]@);
                lemma_last_line(log, entry.path@);
            }
            let mut take = false;
            if lies_below(dir, entry.path.as_str()) {
                let last = match self.find(entry.path.as_str()) {
                    Some(last) => last == i && entry.data.is_some(),
                    None => false,
                };
                let name_len = entry.path.as_str().unicode_len();
                if last && (recursive || !has_slash(entry.path.as_str(), dir_len + 1)) {
                    take = true;
                }
            }
            if take {
                list.push(entry.path.clone());
            }
            proof {
                if take {
                    lemma_named_push(before, entry.path);
                }
                assert forall|p: Seq<char>| #[trigger]
                    named(list@).contains(p) <==> listing(files_of(log), dir@, recursive).contains(
                        p,
                    ) && last_line(log, p) < i + 1 by {
                    lemma_last_line(log, p);
                    if last_line(log, p) == i {
                        assert(p == entry.path@);
                    }
                }
            }
            i += 1;
        }
        proof {
            assert forall|p: Seq<char>| named(list@).contains(p) <==> listing(
                files_of(log),
                dir@,
                recursive,
            ).contains(p) by {
                lemma_last_line(log, p);
            }
            assert(named(list@) =~= listing(files_of(log), dir@, recursive));
        }
        list
    }
}

impl FileSystem for MemoryFileSystem {
    type Reader = MemoryReader;

    closed spec fn files(&self) -> Map<Seq<char>, Seq<u8>> {
        files_of(lines(self.log@))
    }

    /// The store in memory fails only where its files say so.
    open spec fn reliable(&self) -> bool {
        true
    }

    /// The time with which the last write of the file was stamped.
    open spec fn modified_at(&self, path: Seq<char>) -> u64 {
        self.stamp(path)
    }

    fn is_file(&self, path: &str) -> (found: bool) {
        self.lookup(path).is_some()
    }

    /// Reading fails only where there is no file.
    fn read(&self, path: &str) -> (bytes: Result<Vec<u8>, AssetIoError>)
        ensures
            bytes matches Err(e) ==> e is NotFound,
    {
        match self.lookup(path) {
            Some(data) => Ok(data.clone()),
            None => Err(AssetIoError::NotFound(String::from_str(path))),
        }
    }

    /// A file that is no UTF-8 is invalid data.
    fn read_to_string(&self, path: &str) -> (text: Result<String, AssetIoError>)
        ensures
            text matches Err(e) ==> if self.files().contains_key(path@) {
                e is InvalidData
            } else {
                e is NotFound
            },
    {
        match self.lookup(path) {
            Some(data) => match text_of_utf8(data.clone()) {
                Some(text) => Ok(text),
                None => Err(AssetIoError::InvalidData(String::from_str("The file is no UTF-8."))),
            },
            None => Err(AssetIoError::NotFound(String::from_str(path))),
        }
    }

    /// A file that is shorter than the buffer is a failure of reading.
    fn read_exact(&self, path: &str, buffer: &mut [u8]) -> (done: Result<(), AssetIoError>)
        ensures
            done matches Err(e) ==> if self.files().contains_key(path@) {
                e is Io && final(buffer)@ == old(buffer)@
            } else {
                e is NotFound && final(buffer)@ == old(buffer)@
            },
    {
        match self.lookup(path) {
            Some(data) => {
                let len = buffer.len();
                if data.len() < len {
                    return Err(AssetIoError::Io(String::from_str("unexpected end of file")));
                }
                let mut i: usize = 0;
                while i < len
                    invariant
                        i <= len,
                        len == buffer@.len(),
                        len == old(buffer)@.len(),
                        len <= data@.len(),
                        buffer@.take(i as int) == data@.take(i as int),
                    decreases len - i,
                {
                    buffer[i] = data[i];
                    proof {
                        assert(buffer@.take(i + 1) =~= data@.take(i + 1));
                    }
                    i += 1;
                }
                proof {
                    assert(buffer@.take(len as int) == buffer@);
                }
                Ok(())
            },
            None => Err(AssetIoError::NotFound(String::from_str(path))),
        }
    }

    /// A handle is refused only where there is no file.
    fn reader(&self, path: &str) -> (handle: Result<FileReader<MemoryReader>, AssetIoError>)
        ensures
            handle matches Err(e) ==> e is NotFound,
    {
        match self.lookup(path) {
            Some(data) => {
                let reader = MemoryReader { data: data.clone(), at: 0 };
                proof {
                    assert(reader.data@.skip(0) == reader.data@);
                }
                Ok(FileReader::new(reader))
            },
            None => Err(AssetIoError::NotFound(String::from_str(path))),
        }
    }

    /// The time with which the last write of the file was stamped.
    fn modified(&self, path: &str) -> (secs: Result<u64, AssetIoError>)
        ensures
            secs matches Ok(t) ==> t == self.stamp(path@),
            secs matches Err(e) ==> e is NotFound,
    {
        proof {
            lemma_last_line(lines(self.log@), path@);
        }
        match self.find(path) {
            Some(i) => {
                proof {
                    assert(lines(self.log@)[i as int] == self.log@[i as int]@);
                }
                match &self.log[i].data {
                    Some(_) => Ok(self.log[i].modified),
                    None => Err(AssetIoError::NotFound(String::from_str(path))),
                }
            },
            None => Err(AssetIoError::NotFound(String::from_str(path))),
        }
    }

    /// Writing never fails; the file is stamped with the time of the store.
    fn write(&mut self, path: &str, data: &[u8]) -> (done: Result<(), AssetIoError>)
        ensures
            done is Ok,
            final(self).now() == old(self).now(),
            final(self).stamp(path@) == old(self).now(),
    {
        let ghost before = lines(self.log@);
        self.log.push(
            MemoryEntry {
                path: String::from_str(path),
                data: Some(slice_to_vec(data)),
                modified: self.clock,
            },
        );
        proof {
            let after = lines(self.log@);
            assert(after.drop_last() =~= before);
            assert(after.last() == (LineView { path: path@, data: Some(data@) }));
        }
        Ok(())
    }

    /// Removing a file never fails; removing what is no file fails where no
    /// file lies below it.
    fn remove(&mut self, path: &str) -> (removed: Result<Vec<String>, AssetIoError>)
        ensures
            removed matches Err(e) ==> e is NotFound,
            final(self).now() == old(self).now(),
    {
        let ghost before = lines(self.log@);
        if self.is_file(path) {
            self.log.push(
                MemoryEntry { path: String::from_str(path), data: None, modified: self.clock },
            );
            proof {
                let after = lines(self.log@);
                assert(after.drop_last() =~= before);
                assert(after.last() == (LineView { path: path@, data: None }));
            }
            return Ok(Vec::new());
        }
        let removed = self.files_below(path, true);
        if removed.len() == 0 {
            return Err(AssetIoError::NotFound(String::from_str(path)));
        }
        proof {
            assert(named(removed@).contains(removed@[0]@));
            assert(listing(self.files(), path@, true).contains(removed@[0]@));
        }
        let mut kept: Vec<MemoryEntry> = Vec::new();
        let mut i: usize = 0;
        while i < self.log.len()
            invariant
                i <= self.log@.len(),
                lines(self.log@) == before,
                lines(kept@) == outside(before.take(i as int), path@),
            decreases self.log@.len() - i,
        {
            proof {
                assert(before.take(i + 1).drop_last() == before.take(i as int));
                assert(before[i as int] == self.log@[i as int]@);
            }
            let entry = &self.log[i];
            let ghost shorter = lines(kept@);
            if !lies_below(path, entry.path.as_str()) {
                let data = match &entry.data {
                    Some(data) => Some(data.clone()),
                    None => None,
                };
                kept.push(
                    MemoryEntry { path: entry.path.clone(), data, modified: entry.modified },
                );
                proof {
                    assert(lines(kept@) =~= shorter.push(before[i as int]));
                }
            }
            i += 1;
        }
        proof {
            assert(before.take(before.len() as int) == before);
            lemma_outside(before, path@);
            assert(files_of(lines(kept@)) =~= files_of(before).remove_keys(below(path@)));
        }
        self.log = kept;
        Ok(removed)
    }

    /// Moving fails only where there is no file to move.
    fn rename(&mut self, from: &str, to: &str) -> (done: Result<(), AssetIoError>)
        ensures
            done matches Err(e) ==> e is NotFound,
            final(self).now() == old(self).now(),
    {
        let data = match self.lookup(from) {
            Some(data) => data.clone(),
            None => {
                return Err(AssetIoError::NotFound(String::from_str(from)));
            },
        };
        let ghost before = lines(self.log@);
        let ghost bytes = data@;
        self.log.push(
            MemoryEntry { path: String::from_str(from), data: None, modified: self.clock },
        );
        let ghost middle = lines(self.log@);
        self.log.push(
            MemoryEntry { path: String::from_str(to), data: Some(data), modified: self.clock },
        );
        proof {
            let after = lines(self.log@);
            assert(middle.drop_last() =~= before);
            assert(middle.last() == (LineView { path: from@, data: None }));
            assert(after.drop_last() =~= middle);
            assert(after.last() == (LineView { path: to@, data: Some(bytes) }));
            assert(files_of(middle) == files_of(before).remove(from@));
            assert(files_of(after) == files_of(middle).insert(to@, bytes));
        }
        Ok(())
    }

    /// Listing never fails.
    fn read_directory(&self, path: &str, recursive: bool) -> (paths: Result<
        Vec<String>,
        AssetIoError,
    >)
        ensures
            paths is Ok,
    {
        Ok(self.files_below(path, recursive))
    }

    /// Directories need not be made: this does nothing.
    fn create_dir(&mut self, path: &str) -> (done: Result<(), AssetIoError>)
        ensures
            done is Ok,
            final(self).now() == old(self).now(),
    {
        Ok(())
    }
}

} // verus!
