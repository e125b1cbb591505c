//! The library: the files that it holds, by hash, and what comes in and goes
//! out of it.

use crate::hash::{hex_of, FileHash};
use crate::index::{
    entries_of, parse_index, read_hash_file, render_index, write_hash_file, Entry, IndexError,
    LibraryFile,
};
use crate::policy::{
    base_name, date_directory, date_of, directory_of_day, file_name, join, join_path, SortPolicy,
};
use crate::text::texts_of;
use vstd::prelude::*;

verus! {

/// The directory below the library's root that holds what the library keeps
/// for itself.
pub const META_DIRECTORY: &'static str = "_pometa";

/// The file in [`META_DIRECTORY`] that holds the index.
pub const HASH_FILE: &'static str = "hashes";

/// A file that may be taken into the library: its hash, and where it lies.
#[derive(Debug)]
pub struct UnsortedFile {
    pub hash: FileHash,
    pub path: String,
}

/// An [`UnsortedFile`] as the contracts see it.
pub struct Candidate {
    /// The bytes of the hash.
    pub hash: Seq<u8>,
    /// Where the file lies.
    pub path: Seq<char>,
}

impl View for UnsortedFile {
    type V = Candidate;

    open spec fn view(&self) -> Candidate {
        Candidate { hash: self.hash@, path: self.path@ }
    }
}

/// The candidates that `files` stand for.
pub open spec fn candidates_of(files: Seq<UnsortedFile>) -> Seq<Candidate> {
    Seq::new(files.len(), |i: int| files[i]@)
}

/// Whether one of `entries` has the hash `hash`.
pub open spec fn has_hash(entries: Seq<Entry>, hash: Seq<u8>) -> bool {
    exists|i: int| 0 <= i < entries.len() && (#[trigger] entries[i]).hash == hash
}

/// Whether one of `entries` lies at `path`.
pub open spec fn has_path(entries: Seq<Entry>, path: Seq<char>) -> bool {
    exists|i: int| 0 <= i < entries.len() && (#[trigger] entries[i]).path == path
}

/// Whether no two of `entries` have the same hash.
pub open spec fn hashes_are_unique(entries: Seq<Entry>) -> bool {
    forall|i: int, j: int|
        0 <= i < j < entries.len() ==> (#[trigger] entries[i]).hash != (#[trigger] entries[j]).hash
}

/// The files among `inputs` that are new to a library that holds `entries`:
/// those whose hash none of `entries` has, in their order.
pub open spec fn new_among(inputs: Seq<Candidate>, entries: Seq<Entry>) -> Seq<Candidate> {
    inputs.filter(|file: Candidate| !has_hash(entries, file.hash))
}

/// The line that lists `entry`: the text form of its hash, a space, and its
/// path.
pub open spec fn listed(entry: Entry) -> Seq<char> {
    hex_of(entry.hash) + seq![' '] + entry.path
}

/// The lines that list those of `entries` that `wanted` marks, in their
/// order. An entry for which `wanted` has no mark is not listed.
pub open spec fn listing(entries: Seq<Entry>, wanted: Seq<bool>) -> Seq<Seq<char>>
    decreases entries.len(),
{
    if entries.len() == 0 {
        seq![]
    } else {
        let before = listing(entries.drop_last(), wanted);
        if entries.len() <= wanted.len() && wanted[entries.len() - 1] {
            before.push(listed(entries.last()))
        } else {
            before
        }
    }
}

/// Calls `fast_glob::glob_match`, which tells whether the glob `query`
/// matches `path`. What counts as a separator of paths is the platform's, so
/// nothing is said here of the answer.
#[verifier::external_body]
fn glob_matches(query: &str, path: &str) -> (matched: bool) {
    fast_glob::glob_match(query, path)
}

/// Where the index of the library at `output_root` lies.
pub open spec fn hash_file_path(output_root: Seq<char>) -> Seq<char> {
    join_path(join_path(output_root, META_DIRECTORY@), HASH_FILE@)
}

/// A library as the contracts see it.
pub struct LibraryState {
    /// The directory that holds the library.
    pub output_root: Seq<char>,
    /// The directory that holds the index.
    pub meta_root: Seq<char>,
    /// The files of the library, in the order in which they came.
    pub entries: Seq<Entry>,
}

impl LibraryState {
    /// The index lies in [`META_DIRECTORY`] below the library's root.
    pub open spec fn is_valid(self) -> bool {
        self.meta_root == join_path(self.output_root, META_DIRECTORY@)
    }
}

/// The files of a library, with the directory that holds it.
#[derive(Debug)]
pub struct Library {
    output_root: String,
    meta_root: String,
    files: Vec<LibraryFile>,
}

impl View for Library {
    type V = LibraryState;

    closed spec fn view(&self) -> LibraryState {
        LibraryState {
            output_root: self.output_root@,
            meta_root: self.meta_root@,
            entries: entries_of(self.files@),
        }
    }
}

/// The index of a library, ready to be written.
#[derive(Debug)]
pub struct StoredIndex {
    /// The file that holds the index.
    pub path: String,
    /// What the file is to hold.
    pub content: String,
}

/// What the caller of [`Library::sort_files`] reports.
#[derive(Debug, Clone, Copy, PartialEq, Eq)]
pub enum SortEvent {
    /// Nothing yet: the sorting begins, or begins again.
    Started,
    /// The file whose time was asked for was made `seconds` seconds after
    /// the start of 1970.
    CreatedAt { seconds: u64 },
    /// The file that was to be moved lies at its new place.
    Moved,
}

/// What the caller of [`Library::sort_files`] is to do next.
#[derive(Debug)]
pub enum SortAction {
    /// Find out when the file at `path` was made, and report it.
    ReadCreationTime { path: String },
    /// Make the directory `directory` with those above it, if one is given;
    /// move the file at `from` to `to`; and report it.
    MoveFile { from: String, to: String, directory: Option<String> },
    /// Nothing: every file lies in the library.
    Finished,
}

/// A [`SortAction`] as the contracts see it.
pub enum Action {
    ReadCreationTime { path: Seq<char> },
    MoveFile { from: Seq<char>, to: Seq<char>, directory: Option<Seq<char>> },
    Finished,
}

impl View for SortAction {
    type V = Action;

    open spec fn view(&self) -> Action {
        match self {
            SortAction::ReadCreationTime { path } => Action::ReadCreationTime { path: path@ },
            SortAction::MoveFile { from, to, directory } => Action::MoveFile {
                from: from@,
                to: to@,
                directory: match directory {
                    Some(text) => Some(text@),
                    None => None,
                },
            },
            SortAction::Finished => Action::Finished,
        }
    }
}

/// Why the sorting does not go on.
#[derive(Debug, Clone, Copy, PartialEq, Eq)]
pub enum SortError {
    /// The path of the file names no file.
    MissingFileName,
    /// A file of the library lies where the file would go: no file is put in
    /// the place of another.
    PathTaken,
    /// The time at which the file was made lies beyond the calendar.
    DateOutOfRange,
    /// The report does not answer what was asked for.
    UnexpectedEvent,
}

/// What a [`SortBatch`] waits for.
#[derive(Debug)]
enum Pending {
    Nothing,
    CreationTime,
    Move { path_in_library: String },
}

/// What a batch waits for, as the contracts see it.
pub enum PendingState {
    /// The batch waits for nothing.
    Nothing,
    /// The batch waits for the time at which its next file was made.
    CreationTime,
    /// The batch waits for its next file to be moved to `path_in_library`
    /// below the library's root.
    Move { path_in_library: Seq<char> },
}

impl View for Pending {
    type V = PendingState;

    closed spec fn view(&self) -> PendingState {
        match self {
            Pending::Nothing => PendingState::Nothing,
            Pending::CreationTime => PendingState::CreationTime,
            Pending::Move { path_in_library } => PendingState::Move {
                path_in_library: path_in_library@,
            },
        }
    }
}

/// A batch as the contracts see it.
pub struct BatchState {
    /// The files of the batch, in their order.
    pub files: Seq<Candidate>,
    /// The policy by which they are sorted.
    pub policy: SortPolicy,
    /// How many of the files lie in the library.
    pub next: nat,
    /// What the batch waits for.
    pub pending: PendingState,
}

impl BatchState {
    /// A batch waits for no more files than it holds.
    pub open spec fn is_valid(self) -> bool {
        &&& self.next <= self.files.len()
        &&& self.pending !is Nothing ==> self.next < self.files.len()
    }
}

/// Files on their way into a library, with the policy that sorts them and
/// how far the sorting has come.
#[derive(Debug)]
pub struct SortBatch {
    files: Vec<UnsortedFile>,
    policy: SortPolicy,
    next: usize,
    pending: Pending,
}

impl View for SortBatch {
    type V = BatchState;

    closed spec fn view(&self) -> BatchState {
        BatchState {
            files: candidates_of(self.files@),
            policy: self.policy,
            next: self.next as nat,
            pending: self.pending@,
        }
    }
}

impl SortBatch {
    #[verifier::type_invariant]
    closed spec fn is_valid(&self) -> bool {
        self@.is_valid()
    }

    /// The batch of `new_files`, none of them sorted yet.
    pub fn new(new_files: Vec<UnsortedFile>, sort_policy: SortPolicy) -> (batch: SortBatch)
        ensures
            batch@ == (BatchState {
                files: candidates_of(new_files@),
                policy: sort_policy,
                next: 0,
                pending: PendingState::Nothing,
            }),
    {
        SortBatch { files: new_files, policy: sort_policy, next: 0, pending: Pending::Nothing }
    }

    /// How many files of the batch lie in the library.
    pub fn sorted(&self) -> (count: usize)
        ensures
            count == self@.next,
            self@.is_valid(),
    {
        proof {
            use_type_invariant(self);
        }
        self.next
    }
}

/// A library and a batch after one step of the sorting, with what the step
/// asks for.
pub struct SortOutcome {
    pub library: LibraryState,
    pub batch: BatchState,
    pub step: Result<Action, SortError>,
}

/// A step that ends in `error` and changes nothing.
pub open spec fn stopped(library: LibraryState, batch: BatchState, error: SortError) -> SortOutcome {
    SortOutcome { library, batch, step: Err(error) }
}

/// Turns to the next file of the batch. Under [`SortPolicy::MoveToRoot`] the
/// file goes into the library's root under its own name, unless a file of
/// the library lies there; under [`SortPolicy::Date`] the time at which it
/// was made is asked for first.
pub open spec fn start_next(library: LibraryState, batch: BatchState) -> SortOutcome {
    if batch.next >= batch.files.len() {
        SortOutcome { library, batch, step: Ok(Action::Finished) }
    } else {
        let file = batch.files[batch.next as int];
        match batch.policy {
            SortPolicy::Date => SortOutcome {
                library,
                batch: BatchState { pending: PendingState::CreationTime, ..batch },
                step: Ok(Action::ReadCreationTime { path: file.path }),
            },
            SortPolicy::MoveToRoot => match base_name(file.path) {
                None => stopped(library, batch, SortError::MissingFileName),
                Some(name) => if has_path(library.entries, name) {
                    stopped(library, batch, SortError::PathTaken)
                } else {
                    SortOutcome {
                        library,
                        batch: BatchState {
                            pending: PendingState::Move { path_in_library: name },
                            ..batch
                        },
                        step: Ok(
                            Action::MoveFile {
                                from: file.path,
                                to: join_path(library.output_root, name),
                                directory: None,
                            },
                        ),
                    }
                },
            },
        }
    }
}

/// Places the next file of the batch, which was made `seconds` seconds after
/// the start of 1970, under the year, the month and the day of that time,
/// unless a file of the library lies there.
pub open spec fn place_by_date(library: LibraryState, batch: BatchState, seconds: u64) -> SortOutcome {
    let file = batch.files[batch.next as int];
    match date_of(seconds) {
        None => stopped(library, batch, SortError::DateOutOfRange),
        Some((year, month, day)) => match base_name(file.path) {
            None => stopped(library, batch, SortError::MissingFileName),
            Some(name) => {
                let directory = date_directory(year, month, day);
                let path_in_library = join_path(directory, name);
                if has_path(library.entries, path_in_library) {
                    stopped(library, batch, SortError::PathTaken)
                } else {
                    SortOutcome {
                        library,
                        batch: BatchState {
                            pending: PendingState::Move { path_in_library },
                            ..batch
                        },
                        step: Ok(
                            Action::MoveFile {
                                from: file.path,
                                to: join_path(library.output_root, path_in_library),
                                directory: Some(join_path(library.output_root, directory)),
                            },
                        ),
                    }
                }
            },
        },
    }
}

/// Records that the next file of the batch lies at `path_in_library` below
/// the library's root, and turns to the file after it.
pub open spec fn record_move(
    library: LibraryState,
    batch: BatchState,
    path_in_library: Seq<char>,
) -> SortOutcome {
    let file = batch.files[batch.next as int];
    start_next(
        LibraryState {
            entries: library.entries.push(Entry { hash: file.hash, path: path_in_library }),
            ..library
        },
        BatchState { next: batch.next + 1, pending: PendingState::Nothing, ..batch },
    )
}

/// One step of the sorting: what becomes of `library` and `batch` when the
/// caller reports `event`, and what the caller is to do next.
///
/// A file is recorded in the library when the caller reports it moved, and
/// not before. A report that does not answer what the batch waits for
/// changes nothing.
pub open spec fn sort_step(library: LibraryState, batch: BatchState, event: SortEvent) -> SortOutcome {
    match (batch.pending, event) {
        (PendingState::Nothing, SortEvent::Started) => start_next(library, batch),
        (PendingState::CreationTime, SortEvent::CreatedAt { seconds }) => place_by_date(
            library,
            batch,
            seconds,
        ),
        (PendingState::Move { path_in_library }, SortEvent::Moved) => record_move(
            library,
            batch,
            path_in_library,
        ),
        _ => stopped(library, batch, SortError::UnexpectedEvent),
    }
}

/// What a step gave, as the contracts see it.
pub open spec fn step_view(step: Result<SortAction, SortError>) -> Result<Action, SortError> {
    match step {
        Ok(action) => Ok(action@),
        Err(error) => Err(error),
    }
}

impl Library {
    /// Where the index of the library at `output_root` lies.
    pub fn hash_file_of(output_root: &str) -> (path: String)
        ensures
            path@ == hash_file_path(output_root@),
    {
        let meta_root = join(output_root, META_DIRECTORY);
        join(meta_root.as_str(), HASH_FILE)
    }

    /// The library at `output_root`, of which `stored` is the index; `None`
    /// stands for a library that had no index yet, and holds no file.
    pub fn read_from_disk(output_root: String, stored: Option<&str>) -> (loaded: Result<
        Library,
        IndexError,
    >)
        ensures
            match loaded {
                Ok(library) => {
                    &&& library@.output_root == output_root@
                    &&& library@.is_valid()
                    &&& match stored {
                        Some(content) => parse_index(content@) == Ok::<Seq<Entry>, IndexError>(
                            library@.entries,
                        ),
                        None => library@.entries == Seq::<Entry>::empty(),
                    }
                },
                Err(error) => stored matches Some(content) && parse_index(content@) == Err::<
                    Seq<Entry>,
                    IndexError,
                >(error),
            },
    {
        let meta_root = join(output_root.as_str(), META_DIRECTORY);
        let files = match stored {
            None => Vec::new(),
            Some(content) => match read_hash_file(content) {
                Ok(files) => files,
                Err(error) => {
                    return Err(error);
                },
            },
        };
        Ok(Library { output_root, meta_root, files })
    }

    /// The files of the library, in the order in which they came.
    pub fn files(&self) -> (files: &Vec<LibraryFile>)
        ensures
            entries_of(files@) == self@.entries,
    {
        &self.files
    }

    /// The directory that holds the library.
    pub fn output_root(&self) -> (root: &String)
        ensures
            root@ == self@.output_root,
    {
        &self.output_root
    }

    /// The index of the library and the file that is to hold it.
    pub fn persist_to_disk(self) -> (stored: StoredIndex)
        ensures
            stored.path@ == join_path(self@.meta_root, HASH_FILE@),
            self@.is_valid() ==> stored.path@ == hash_file_path(self@.output_root),
            stored.content@ == render_index(self@.entries),
    {
        let path = join(self.meta_root.as_str(), HASH_FILE);
        let content = write_hash_file(&self.files);
        StoredIndex { path, content }
    }

    /// Turns to the next file of `batch`.
    fn start_next(&self, batch: &mut SortBatch) -> (step: Result<SortAction, SortError>)
        ensures
            start_next(self@, old(batch)@) == (SortOutcome {
                library: self@,
                batch: final(batch)@,
                step: step_view(step),
            }),
    {
        proof {
            use_type_invariant(&*batch);
        }
        if batch.next >= batch.files.len() {
            return Ok(SortAction::Finished);
        }
        match batch.policy {
            SortPolicy::Date => {
                let path = batch.files[batch.next].path.clone();
                batch.pending = Pending::CreationTime;
                Ok(SortAction::ReadCreationTime { path })
            },
            SortPolicy::MoveToRoot => {
                let name = match file_name(batch.files[batch.next].path.as_str()) {
                    Some(name) => name,
                    None => {
                        return Err(SortError::MissingFileName);
                    },
                };
                if self.holds_path(&name) {
                    return Err(SortError::PathTaken);
                }
                let from = batch.files[batch.next].path.clone();
                let to = join(self.output_root.as_str(), name.as_str());
                batch.pending = Pending::Move { path_in_library: name };
                Ok(SortAction::MoveFile { from, to, directory: None })
            },
        }
    }

    /// Places the next file of `batch` by the day on which it was made.
    fn place_by_date(&self, batch: &mut SortBatch, seconds: u64) -> (step: Result<
        SortAction,
        SortError,
    >)
        requires
            old(batch)@.pending is CreationTime,
        ensures
            place_by_date(self@, old(batch)@, seconds) == (SortOutcome {
                library: self@,
                batch: final(batch)@,
                step: step_view(step),
            }),
    {
        proof {
            use_type_invariant(&*batch);
        }
        let directory = match directory_of_day(seconds) {
            Some(directory) => directory,
            None => {
                return Err(SortError::DateOutOfRange);
            },
        };
        let name = match file_name(batch.files[batch.next].path.as_str()) {
            Some(name) => name,
            None => {
                return Err(SortError::MissingFileName);
            },
        };
        let path_in_library = join(directory.as_str(), name.as_str());
        if self.holds_path(&path_in_library) {
            return Err(SortError::PathTaken);
        }
        let from = batch.files[batch.next].path.clone();
        let to = join(self.output_root.as_str(), path_in_library.as_str());
        let directory = join(self.output_root.as_str(), directory.as_str());
        batch.pending = Pending::Move { path_in_library };
        Ok(SortAction::MoveFile { from, to, directory: Some(directory) })
    }

    /// One step of sorting the files of `batch` into the library.
    ///
    /// The caller begins with [`SortEvent::Started`], does what each step asks
    /// for, and reports it with the next call, until a step gives
    /// [`SortAction::Finished`]. Where the caller cannot do what a step asks
    /// for, it stops calling: the files that were reported as moved are in
    /// the library, and no other. A file that was reported as moved is in the
    /// library also where the step ends in an error, which then is about the
    /// file after it.
    pub fn sort_files(&mut self, batch: &mut SortBatch, event: SortEvent) -> (step: Result<
        SortAction,
        SortError,
    >)
        ensures
            sort_step(old(self)@, old(batch)@, event) == (SortOutcome {
                library: final(self)@,
                batch: final(batch)@,
                step: step_view(step),
            }),
            final(batch)@.is_valid(),
            final(self)@.is_valid() == old(self)@.is_valid(),
    {
        proof {
            use_type_invariant(&*batch);
            sort_step_only_appends(self@, batch@, event);
        }
        let step = match event {
            SortEvent::Started => match &batch.pending {
                Pending::Nothing => self.start_next(batch),
                _ => Err(SortError::UnexpectedEvent),
            },
            SortEvent::CreatedAt { seconds } => match &batch.pending {
                Pending::CreationTime => self.place_by_date(batch, seconds),
                _ => Err(SortError::UnexpectedEvent),
            },
            SortEvent::Moved => {
                let path_in_library = match &batch.pending {
                    Pending::Move { path_in_library } => path_in_library.clone(),
                    _ => {
                        return Err(SortError::UnexpectedEvent);
                    },
                };
                assert(batch@.pending !is Nothing);
                assert(batch.next < batch.files.len());
                let hash = batch.files[batch.next].hash.clone();
                let ghost before = self@.entries;
                self.files.push(LibraryFile { hash, path_in_library });
                assert(entries_of(self.files@) =~= before.push(
                    Entry {
                        hash: old(batch)@.files[old(batch)@.next as int].hash,
                        path: path_in_library@,
                    },
                ));
                batch.pending = Pending::Nothing;
                batch.next = batch.next + 1;
                self.start_next(batch)
            },
        };
        proof {
            use_type_invariant(&*batch);
        }
        step
    }

    /// The lines that list the files of the library that `wanted` marks, in
    /// their order.
    pub fn select(&self, wanted: &Vec<bool>) -> (lines: Vec<String>)
        ensures
            texts_of(lines@) == listing(self@.entries, wanted@),
    {
        let mut lines: Vec<String> = Vec::new();
        let mut at: usize = 0;
        while at < self.files.len()
            invariant
                at <= self.files.len(),
                texts_of(lines@) == listing(entries_of(self.files@).take(at as int), wanted@),
            decreases self.files.len() - at,
        {
            proof {
                let entries = entries_of(self.files@);
                assert(entries.take(at + 1).drop_last() =~= entries.take(at as int));
                assert(entries.take(at + 1).last() == self.files[at as int]@);
            }
            if at < wanted.len() && wanted[at] {
                let ghost before = texts_of(lines@);
                let line = self.files[at].describe();
                lines.push(line);
                assert(texts_of(lines@) =~= before.push(listed(self.files[at as int]@)));
            }
            at += 1;
        }
        assert(entries_of(self.files@).take(at as int) =~= entries_of(self.files@));
        lines
    }

    /// The lines that list the files of the library whose path the glob
    /// `query` matches, in their order. Which paths a glob matches is for
    /// the matcher to say: see [`Library::select`] for what is listed once
    /// that is known.
    pub fn query(&self, query: &str) -> (lines: Vec<String>)
        ensures
            exists|wanted: Seq<bool>|
                wanted.len() == self@.entries.len() && texts_of(lines@) == #[trigger] listing(
                    self@.entries,
                    wanted,
                ),
    {
        let mut wanted: Vec<bool> = Vec::new();
        let mut at: usize = 0;
        while at < self.files.len()
            invariant
                at <= self.files.len(),
                wanted.len() == at,
            decreases self.files.len() - at,
        {
            wanted.push(glob_matches(query, self.files[at].path_in_library.as_str()));
            at += 1;
        }
        self.select(&wanted)
    }

    /// Whether a file of the library lies at `path` below its root.
    pub fn holds_path(&self, path: &String) -> (found: bool)
        ensures
            found == has_path(self@.entries, path@),
    {
        let mut at: usize = 0;
        while at < self.files.len()
            invariant
                at <= self.files.len(),
                forall|i: int| 0 <= i < at ==> self.files[i].path_in_library@ != path@,
            decreases self.files.len() - at,
        {
            if self.files[at].path_in_library == *path {
                assert(entries_of(self.files@)[at as int].path == path@);
                return true;
            }
            at += 1;
        }
        false
    }

    /// Whether the library holds a file with the hash `hash`.
    pub fn contains(&self, hash: &FileHash) -> (found: bool)
        ensures
            found == has_hash(self@.entries, hash@),
    {
        let mut at: usize = 0;
        while at < self.files.len()
            invariant
                at <= self.files.len(),
                forall|i: int| 0 <= i < at ==> self.files[i].hash@ != hash@,
            decreases self.files.len() - at,
        {
            if self.files[at].hash == *hash {
                assert(entries_of(self.files@)[at as int].hash == hash@);
                return true;
            }
            at += 1;
        }
        false
    }

    /// The files among `inputs` that are new to the library, in their order:
    /// those whose hash no file of the library has. The library stays as it
    /// is.
    pub fn process_inputs(&mut self, inputs: Vec<UnsortedFile>) -> (new_files: Vec<UnsortedFile>)
        ensures
            *final(self) == *old(self),
            candidates_of(new_files@) == new_among(candidates_of(inputs@), old(self)@.entries),
    {
        let ghost given = candidates_of(inputs@);
        let ghost is_new = |file: Candidate| !has_hash(self@.entries, file.hash);
        let mut new_files: Vec<UnsortedFile> = Vec::new();
        proof {
            reveal(Seq::filter);
        }
        for file in it: inputs
            invariant
                *self == *old(self),
                given == candidates_of(it.seq()),
                is_new == |file: Candidate| !has_hash(self@.entries, file.hash),
                candidates_of(new_files@) == given.take(it.index()).filter(is_new),
        {
            proof {
                reveal(Seq::filter);
                assert(given.take(it.index() + 1).drop_last() =~= given.take(it.index()));
                assert(given.take(it.index() + 1).last() == file@);
            }
            if !self.contains(&file.hash) {
                new_files.push(file);
            }
        }
        assert(given.take(given.len() as int) =~= given);
        new_files
    }
}

/// A file whose hash the library has is not among the new files, however
/// it is named; any other file is among them as often as it was given.
pub proof fn new_files_are_the_unknown_ones(
    inputs: Seq<Candidate>,
    entries: Seq<Entry>,
    file: Candidate,
)
    ensures
        has_hash(entries, file.hash) ==> !new_among(inputs, entries).contains(file),
        new_among(inputs, entries).to_multiset().count(file) == if has_hash(entries, file.hash) {
            0
        } else {
            inputs.to_multiset().count(file)
        },
    decreases inputs.len(),
{
    reveal(Seq::filter);
    let is_new = |file: Candidate| !has_hash(entries, file.hash);
    let kept = new_among(inputs, entries);
    if inputs.len() == 0 {
        assert(kept =~= Seq::<Candidate>::empty());
        inputs.to_multiset_ensures();
    } else {
        let shorter = inputs.drop_last();
        let last = inputs.last();
        new_files_are_the_unknown_ones(shorter, entries, file);
        let kept_before = new_among(shorter, entries);
        assert(shorter.push(last) =~= inputs);
        shorter.to_multiset_ensures();
        kept_before.to_multiset_ensures();
        if is_new(last) {
            assert(kept =~= kept_before.push(last));
        } else {
            assert(kept =~= kept_before);
        }
    }
    kept.to_multiset_ensures();
}

/// Whether no two of `entries` lie at the same path.
pub open spec fn paths_are_unique(entries: Seq<Entry>) -> bool {
    forall|i: int, j: int|
        0 <= i < j < entries.len() ==> (#[trigger] entries[i]).path != (#[trigger] entries[j]).path
}

/// Sorting puts no file in the place of another: where no two files of the
/// library lie at one path, none do after a step.
pub proof fn sort_step_keeps_paths_unique(
    library: LibraryState,
    batch: BatchState,
    event: SortEvent,
)
    requires
        batch.is_valid(),
        paths_are_unique(library.entries),
        batch.pending matches PendingState::Move { path_in_library } ==> !has_path(
            library.entries,
            path_in_library,
        ),
    ensures
        paths_are_unique(sort_step(library, batch, event).library.entries),
        sort_step(library, batch, event).batch.pending matches PendingState::Move {
            path_in_library,
        } ==> !has_path(sort_step(library, batch, event).library.entries, path_in_library),
{
    sort_step_only_appends(library, batch, event);
    let after = sort_step(library, batch, event);
    if batch.pending is Move && event is Moved {
        let path = batch.pending->path_in_library;
        let count = library.entries.len() as int;
        assert forall|i: int, j: int| 0 <= i < j < after.library.entries.len() implies (
        #[trigger] after.library.entries[i]).path != (#[trigger] after.library.entries[j]).path by {
            if j == count {
                assert(library.entries[i].path != path);
            } else {
                assert(library.entries[i].path != library.entries[j].path);
            }
        }
    }
}

/// Whether a library and a batch are such that sorting the batch leaves no
/// two files of the library with one hash: no two files of the library have
/// one hash, and the files of the batch that are still to come are new to the
/// library and differ from one another in their hash.
pub open spec fn is_fresh(library: LibraryState, batch: BatchState) -> bool {
    &&& hashes_are_unique(library.entries)
    &&& forall|i: int|
        batch.next <= i < batch.files.len() ==> !has_hash(
            library.entries,
            (#[trigger] batch.files[i]).hash,
        )
    &&& forall|i: int, j: int|
        batch.next <= i < j < batch.files.len() ==> (#[trigger] batch.files[i]).hash != (
        #[trigger] batch.files[j]).hash
}

/// A step of the sorting keeps the root of the library, the files and the
/// policy of the batch, and what the library held; it adds at most one file
/// to the library: the next of the batch, when that file is reported moved.
pub proof fn sort_step_only_appends(library: LibraryState, batch: BatchState, event: SortEvent)
    requires
        batch.is_valid(),
    ensures
        ({
            let after = sort_step(library, batch, event);
            &&& after.batch.is_valid()
            &&& after.batch.files == batch.files
            &&& after.batch.policy == batch.policy
            &&& after.library.output_root == library.output_root
            &&& after.library.meta_root == library.meta_root
            &&& if batch.pending is Move && event is Moved {
                &&& after.batch.next == batch.next + 1
                &&& after.library.entries == library.entries.push(
                    Entry {
                        hash: batch.files[batch.next as int].hash,
                        path: batch.pending->path_in_library,
                    },
                )
            } else {
                &&& after.batch.next == batch.next
                &&& after.library.entries == library.entries
            }
        }),
{
}

/// Sorting files that are new to the library, and differ from one another in
/// their hash, leaves no two files of the library with one hash.
pub proof fn sort_step_keeps_hashes_unique(
    library: LibraryState,
    batch: BatchState,
    event: SortEvent,
)
    requires
        batch.is_valid(),
        is_fresh(library, batch),
    ensures
        is_fresh(sort_step(library, batch, event).library, sort_step(library, batch, event).batch),
        hashes_are_unique(sort_step(library, batch, event).library.entries),
{
    sort_step_only_appends(library, batch, event);
    let after = sort_step(library, batch, event);
    if batch.pending is Move && event is Moved {
        let added = batch.files[batch.next as int];
        let count = library.entries.len() as int;
        assert(!has_hash(library.entries, added.hash));
        assert forall|i: int, j: int| 0 <= i < j < after.library.entries.len() implies (
        #[trigger] after.library.entries[i]).hash != (#[trigger] after.library.entries[j]).hash by {
            if j == count {
                assert(library.entries[i].hash != added.hash);
            } else {
                assert(library.entries[i].hash != library.entries[j].hash);
            }
        }
        assert forall|i: int| after.batch.next <= i < batch.files.len() implies !has_hash(
            after.library.entries,
            (#[trigger] batch.files[i]).hash,
        ) by {
            if has_hash(after.library.entries, batch.files[i].hash) {
                let k = choose|k: int|
                    0 <= k < after.library.entries.len() && (
                    #[trigger] after.library.entries[k]).hash == batch.files[i].hash;
                if k == count {
                    assert(batch.files[batch.next as int].hash != batch.files[i].hash);
                } else {
                    assert(library.entries[k].hash == batch.files[i].hash);
                    assert(has_hash(library.entries, batch.files[i].hash));
                }
            }
        }
    }
}

/// The files that are new to a library without two files of one hash make a
/// fresh batch, if those that were given differ from one another in their
/// hash.
pub proof fn new_files_make_a_fresh_batch(
    library: LibraryState,
    inputs: Seq<Candidate>,
    policy: SortPolicy,
)
    requires
        hashes_are_unique(library.entries),
        forall|i: int, j: int|
            0 <= i < j < inputs.len() ==> (#[trigger] inputs[i]).hash != (#[trigger] inputs[j]).hash,
    ensures
        is_fresh(
            library,
            BatchState {
                files: new_among(inputs, library.entries),
                policy,
                next: 0,
                pending: PendingState::Nothing,
            },
        ),
{
    let kept = new_among(inputs, library.entries);
    lemma_new_among(inputs, library.entries);
    assert forall|i: int, j: int| 0 <= i < j < kept.len() implies (#[trigger] kept[i]).hash != (
    #[trigger] kept[j]).hash by {
        let (a, b) = choose|a: int, b: int|
            0 <= a < b < inputs.len() && inputs[a] == kept[i] && inputs[b] == kept[j];
        assert(inputs[a].hash != inputs[b].hash);
    }
}

/// The new files are new, and they stand in the order in which they were
/// given.
proof fn lemma_new_among(inputs: Seq<Candidate>, entries: Seq<Entry>)
    ensures
        forall|i: int|
            0 <= i < new_among(inputs, entries).len() ==> !has_hash(
                entries,
                (#[trigger] new_among(inputs, entries)[i]).hash,
            ),
        forall|i: int|
            0 <= i < new_among(inputs, entries).len() ==> exists|a: int|
                0 <= a < inputs.len() && inputs[a] == #[trigger] new_among(inputs, entries)[i],
        forall|i: int, j: int|
            0 <= i < j < new_among(inputs, entries).len() ==> exists|a: int, b: int|
                0 <= a < b < inputs.len() && inputs[a] == #[trigger] new_among(inputs, entries)[i]
                    && inputs[b] == #[trigger] new_among(inputs, entries)[j],
    decreases inputs.len(),
{
    reveal(Seq::filter);
    let kept = new_among(inputs, entries);
    if inputs.len() > 0 {
        let shorter = inputs.drop_last();
        let before = new_among(shorter, entries);
        lemma_new_among(shorter, entries);
        assert forall|i: int| 0 <= i < kept.len() implies exists|a: int|
            0 <= a < inputs.len() && inputs[a] == #[trigger] kept[i] by {
            if i < before.len() {
                let a = choose|a: int| 0 <= a < shorter.len() && shorter[a] == before[i];
                assert(inputs[a] == kept[i]);
            } else {
                assert(inputs[inputs.len() - 1] == kept[i]);
            }
        }
        assert forall|i: int, j: int| 0 <= i < j < kept.len() implies exists|a: int, b: int|
            0 <= a < b < inputs.len() && inputs[a] == #[trigger] kept[i] && inputs[b]
                == #[trigger] kept[j] by {
            if j < before.len() {
                let (a, b) = choose|a: int, b: int|
                    0 <= a < b < shorter.len() && shorter[a] == before[i] && shorter[b]
                        == before[j];
                assert(inputs[a] == kept[i] && inputs[b] == kept[j]);
            } else {
                let a = choose|a: int| 0 <= a < shorter.len() && shorter[a] == before[i];
                assert(inputs[a] == kept[i] && inputs[inputs.len() - 1] == kept[j]);
            }
        }
    }
}

} // verus!
