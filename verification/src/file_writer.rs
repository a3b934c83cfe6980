//! Writing a file in chunks that come in any order.
//!
//! Every chunk goes to a file of its own; when all are there, they are put together.
//! What is decided here is which file operations are to be done, in which order.

use vstd::prelude::*;
use std::collections::hash_map::DefaultHasher;
use std::hash::Hasher;
use vstd::bytes::*;
use vstd::std_specs::hash::*;
use vstd::utf8::*;
use crate::text;

verus! {

/// What a writer is doing.
#[derive(Debug, Clone, Copy, PartialEq, Eq, Structural)]
pub enum FileWriterState {
    /// Chunks are being written, as many as given.
    WritingChunks(usize),
    /// The chunks are being put together.
    Consolidating,
}

/// Why a chunk is not written or the chunks are not put together.
#[derive(Debug, Clone, Copy, PartialEq, Eq, Structural)]
pub enum FileWriterError {
    /// The offset is not a multiple of the chunk size.
    Unaligned,
    /// The offset is behind the end of the file.
    PastEnd,
    /// The data is not as long as a chunk.
    WrongSize,
    /// A chunk has come while the chunks are being put together.
    Consolidating,
    /// A chunk has been written while the chunks are being put together.
    NotWriting,
    /// The chunks are being put together already.
    StillConsolidating,
    /// A chunk is being written.
    Writing,
}

/// What to do with the data of a chunk.
#[derive(Debug, PartialEq)]
pub enum ChunkAction {
    /// The file is empty: create this file, and that is all.
    CreateEmpty { path: String },
    /// Write the data into this file.
    Write { chunk_pos: usize, path: String },
}

/// Where the data of a chunk goes when the chunks are put together.
#[derive(Debug, PartialEq)]
pub struct ConsolidateStep {
    /// The file of the chunk.
    pub chunk_path: String,
    /// Where its data starts in the whole file.
    pub offset: usize,
}

/// Writes one file in chunks.
#[derive(Debug)]
pub struct FileWriter {
    file_path: String,
    file_size: usize,
    chunk_size: usize,
    writing_chunk: Vec<bool>,
    suffix: String,
    state: FileWriterState,
}

#[verifier::ext_equal]
pub struct FileWriterView {
    pub file_path: Seq<char>,
    pub file_size: nat,
    pub chunk_size: nat,
    /// Which chunks are being written.
    pub writing: Seq<bool>,
    pub suffix: Seq<char>,
    pub state: FileWriterState,
}

impl View for FileWriter {
    type V = FileWriterView;

    closed spec fn view(&self) -> FileWriterView {
        FileWriterView {
            file_path: self.file_path@,
            file_size: self.file_size as nat,
            chunk_size: self.chunk_size as nat,
            writing: self.writing_chunk@,
            suffix: self.suffix@,
            state: self.state,
        }
    }
}

/// How many chunks a file has.
pub open spec fn chunk_count(file_size: nat, chunk_size: nat) -> nat {
    (file_size + chunk_size - 1) as nat / chunk_size
}

/// The file that a chunk is written to.
pub open spec fn chunk_path_of(v: FileWriterView, chunk_pos: nat) -> Seq<char> {
    v.file_path + ".part_"@ + text::decimal(chunk_pos) + "."@ + v.suffix
}

/// There is a flag for every chunk, and chunks have a size.
pub open spec fn writer_ok(v: FileWriterView) -> bool {
    &&& v.chunk_size > 0
    &&& v.file_size + v.chunk_size - 1 <= usize::MAX
    &&& v.writing.len() == chunk_count(v.file_size, v.chunk_size)
}

/// A number that tells the chunks of different writers apart.
pub open spec fn writer_hash(file_path: Seq<char>, file_size: usize, chunk_size: usize) -> u64 {
    DefaultHasher::spec_finish(
        seq![
            encode_utf8(file_path),
            seq![255u8],
            spec_u64_to_le_bytes(file_size as u64),
            spec_u64_to_le_bytes(chunk_size as u64),
        ],
    )
}

/// A writer that has nothing to do yet.
pub open spec fn fresh(
    file_path: Seq<char>,
    file_size: usize,
    chunk_size: usize,
) -> FileWriterView {
    FileWriterView {
        file_path,
        file_size: file_size as nat,
        chunk_size: chunk_size as nat,
        writing: Seq::new(chunk_count(file_size as nat, chunk_size as nat), |i: int| false),
        suffix: text::decimal(writer_hash(file_path, file_size, chunk_size) as nat),
        state: FileWriterState::WritingChunks(0),
    }
}

/// Why the data at an offset is not written.
pub open spec fn chunk_error(v: FileWriterView, data_len: nat, offset: nat) -> Option<
    FileWriterError,
> {
    if offset % v.chunk_size != 0 {
        Some(FileWriterError::Unaligned)
    } else if offset >= v.file_size {
        Some(FileWriterError::PastEnd)
    } else if data_len != v.chunk_size && !(data_len < v.chunk_size && offset == v.file_size
        / v.chunk_size * v.chunk_size) {
        Some(FileWriterError::WrongSize)
    } else if v.state is Consolidating {
        Some(FileWriterError::Consolidating)
    } else {
        None
    }
}

/// How an error is reported that came of writing so much data at an offset of a file, or of
/// putting the chunks of the file together.
pub open spec fn error_text(
    error: FileWriterError,
    file_path: Seq<char>,
    file_size: nat,
    chunk_size: nat,
    data_len: nat,
    offset: nat,
) -> Seq<char> {
    match error {
        FileWriterError::Unaligned => "Alignment is at multiples of "@ + text::decimal(chunk_size)
            + ", trying to write unaligned chunk at offset "@ + text::decimal(offset)
            + " for file "@ + file_path,
        FileWriterError::PastEnd | FileWriterError::Consolidating =>
            "Trying to write at position "@ + text::decimal(offset)
            + ", which is larger then the file "@ + text::decimal(file_size),
        FileWriterError::WrongSize => "Wrong chunk size "@ + text::decimal(data_len)
            + " for file "@ + file_path + " at offset "@ + text::decimal(offset),
        FileWriterError::NotWriting => "This should never happen, famous last words"@,
        FileWriterError::StillConsolidating =>
            "Currently consolidating cannot further consolidate"@,
        FileWriterError::Writing => "Currently writing cannot consolidate"@,
    }
}

impl FileWriterError {
    /// How the error is reported, where it came of writing so much data at an offset of a
    /// file, or of putting the chunks of the file together.
    pub fn to_text(
        &self,
        file_path: &str,
        file_size: usize,
        chunk_size: usize,
        data_len: usize,
        offset: usize,
    ) -> (r: String)
        ensures
            r@ == error_text(
                *self,
                file_path@,
                file_size as nat,
                chunk_size as nat,
                data_len as nat,
                offset as nat,
            ),
    {
        match self {
            FileWriterError::Unaligned => {
                let mut out = "Alignment is at multiples of ".to_owned();
                out.append(text::decimal_text(chunk_size as u64).as_str());
                out.append(", trying to write unaligned chunk at offset ");
                out.append(text::decimal_text(offset as u64).as_str());
                out.append(" for file ");
                out.append(file_path);
                out
            },
            FileWriterError::PastEnd | FileWriterError::Consolidating => {
                let mut out = "Trying to write at position ".to_owned();
                out.append(text::decimal_text(offset as u64).as_str());
                out.append(", which is larger then the file ");
                out.append(text::decimal_text(file_size as u64).as_str());
                out
            },
            FileWriterError::WrongSize => {
                let mut out = "Wrong chunk size ".to_owned();
                out.append(text::decimal_text(data_len as u64).as_str());
                out.append(" for file ");
                out.append(file_path);
                out.append(" at offset ");
                out.append(text::decimal_text(offset as u64).as_str());
                out
            },
            FileWriterError::NotWriting => "This should never happen, famous last words".to_owned(),
            FileWriterError::StillConsolidating =>
                "Currently consolidating cannot further consolidate".to_owned(),
            FileWriterError::Writing => "Currently writing cannot consolidate".to_owned(),
        }
    }
}

/// The writer after one more chunk is being written.
pub open spec fn with_chunk(v: FileWriterView, chunk_pos: int) -> FileWriterView {
    FileWriterView {
        writing: v.writing.update(chunk_pos, true),
        state: FileWriterState::WritingChunks((v.state->WritingChunks_0 + 1) as usize),
        ..v
    }
}


impl FileWriter {
    pub open spec fn wf(&self) -> bool {
        writer_ok(self@)
    }

    pub fn new(file_path: String, file_size: usize, chunk_size: usize) -> (r: Self)
        requires
            chunk_size > 0,
            file_size + chunk_size - 1 <= usize::MAX,
        ensures
            r.wf(),
            r@ == fresh(file_path@, file_size, chunk_size),
    {
        let n_of_chunks: usize = (file_size + (chunk_size - 1)) / chunk_size;
        let mut hasher = DefaultHasher::new();
        hasher.write(file_path.as_str().as_bytes());
        let end: [u8; 1] = [255];
        assert(end@ =~= seq![255u8]);
        hasher.write(end.as_slice());
        hasher.write(u64_to_le_bytes(file_size as u64).as_slice());
        hasher.write(u64_to_le_bytes(chunk_size as u64).as_slice());
        assert(hasher@ =~= seq![
            encode_utf8(file_path@),
            seq![255u8],
            spec_u64_to_le_bytes(file_size as u64),
            spec_u64_to_le_bytes(chunk_size as u64),
        ]);
        let suffix = text::decimal_text(hasher.finish());
        let mut writing_chunk: Vec<bool> = Vec::new();
        let mut i: usize = 0;
        while i < n_of_chunks
            invariant
                i <= n_of_chunks,
                writing_chunk@ == Seq::new(i as nat, |j: int| false),
            decreases n_of_chunks - i,
        {
            writing_chunk.push(false);
            i += 1;
            assert(writing_chunk@ =~= Seq::new(i as nat, |j: int| false));
        }
        FileWriter {
            file_path,
            file_size,
            chunk_size,
            writing_chunk,
            suffix,
            state: FileWriterState::WritingChunks(0),
        }
    }

    fn chunk_path(&self, chunk_pos: usize) -> (r: String)
        ensures
            r@ == chunk_path_of(self@, chunk_pos as nat),
    {
        let mut path = self.file_path.clone();
        path.append(".part_");
        path.append(text::decimal_text(chunk_pos as u64).as_str());
        path.append(".");
        path.append(self.suffix.as_str());
        path
    }

    /// Decides what to do with data that came for an offset, and notes that it is being
    /// written.
    pub fn begin_chunk(&mut self, data_len: usize, offset: usize) -> (r: Result<
        ChunkAction,
        FileWriterError,
    >)
        requires
            old(self).wf(),
            old(self)@.state matches FileWriterState::WritingChunks(n) ==> n < usize::MAX,
        ensures
            final(self).wf(),
            if offset == 0 && old(self)@.file_size == 0 {
                &&& final(self)@ == old(self)@
                &&& r matches Ok(ChunkAction::CreateEmpty { path })
                &&& path@ == chunk_path_of(old(self)@, 0)
            } else {
                match chunk_error(old(self)@, data_len as nat, offset as nat) {
                    Some(e) => r == Err::<ChunkAction, FileWriterError>(e) && final(self)@ == old(
                        self,
                    )@,
                    None => {
                        &&& r matches Ok(ChunkAction::Write { chunk_pos, path })
                        &&& chunk_pos == offset as nat / old(self)@.chunk_size
                        &&& chunk_pos < old(self)@.writing.len()
                        &&& path@ == chunk_path_of(old(self)@, chunk_pos as nat)
                        &&& final(self)@ == with_chunk(old(self)@, chunk_pos as int)
                    },
                }
            },
    {
        if offset == 0 && self.file_size == 0 {
            return Ok(ChunkAction::CreateEmpty { path: self.chunk_path(0) });
        }
        if offset % self.chunk_size != 0 {
            return Err(FileWriterError::Unaligned);
        }
        if offset >= self.file_size {
            return Err(FileWriterError::PastEnd);
        }
        proof {
            lemma_last_offset(self.file_size as nat, self.chunk_size as nat);
            lemma_chunk_pos(self.file_size as nat, self.chunk_size as nat, offset as nat);
        }
        let last_offset: usize = (self.file_size / self.chunk_size) * self.chunk_size;
        if data_len != self.chunk_size && !(data_len < self.chunk_size && offset == last_offset) {
            return Err(FileWriterError::WrongSize);
        }
        match self.state {
            FileWriterState::Consolidating => {
                return Err(FileWriterError::Consolidating);
            },
            FileWriterState::WritingChunks(x) => {
                self.state = FileWriterState::WritingChunks(x + 1);
            },
        }
        let chunk_pos: usize = offset / self.chunk_size;
        self.writing_chunk.set(chunk_pos, true);
        let path = self.chunk_path(chunk_pos);
        assert(path@ == chunk_path_of(old(self)@, chunk_pos as nat));
        assert(self@ =~= with_chunk(old(self)@, chunk_pos as int));
        Ok(ChunkAction::Write { chunk_pos, path })
    }

    /// Notes that the file of a chunk could not be opened.
    pub fn fail_chunk(&mut self, chunk_pos: usize)
        requires
            old(self).wf(),
            chunk_pos < old(self)@.writing.len(),
        ensures
            final(self).wf(),
            final(self)@ == (FileWriterView {
                writing: old(self)@.writing.update(chunk_pos as int, false),
                ..old(self)@
            }),
    {
        self.writing_chunk.set(chunk_pos, false);
    }

    /// Notes that a chunk has been written.
    pub fn finish_chunk(&mut self, chunk_pos: usize) -> (r: Result<(), FileWriterError>)
        requires
            old(self).wf(),
            chunk_pos < old(self)@.writing.len(),
            old(self)@.state != FileWriterState::WritingChunks(0),
        ensures
            final(self).wf(),
            ({
                let released = FileWriterView {
                    writing: old(self)@.writing.update(chunk_pos as int, false),
                    ..old(self)@
                };
                match old(self)@.state {
                    FileWriterState::WritingChunks(n) => {
                        &&& r is Ok
                        &&& final(self)@ == (FileWriterView {
                            state: FileWriterState::WritingChunks((n - 1) as usize),
                            ..released
                        })
                    },
                    FileWriterState::Consolidating => {
                        &&& r == Err::<(), FileWriterError>(FileWriterError::NotWriting)
                        &&& final(self)@ == released
                    },
                }
            }),
    {
        self.writing_chunk.set(chunk_pos, false);
        match self.state {
            FileWriterState::WritingChunks(x) => {
                self.state = FileWriterState::WritingChunks(x - 1);
                Ok(())
            },
            FileWriterState::Consolidating => Err(FileWriterError::NotWriting),
        }
    }

    /// Starts putting the chunks together: the whole file is created anew and each step
    /// copies a chunk into it and removes the file of the chunk. Nothing is to be done
    /// where a chunk is still marked as being written.
    pub fn begin_consolidate(&mut self) -> (r: Result<Option<Vec<ConsolidateStep>>, FileWriterError>)
        requires
            old(self).wf(),
        ensures
            final(self).wf(),
            match old(self)@.state {
                FileWriterState::Consolidating => r == Err::<
                    Option<Vec<ConsolidateStep>>,
                    FileWriterError,
                >(FileWriterError::StillConsolidating) && final(self)@ == old(self)@,
                FileWriterState::WritingChunks(n) => if n > 0 {
                    r == Err::<Option<Vec<ConsolidateStep>>, FileWriterError>(
                        FileWriterError::Writing,
                    ) && final(self)@ == old(self)@
                } else {
                    &&& final(self)@ == (FileWriterView {
                        state: FileWriterState::Consolidating,
                        ..old(self)@
                    })
                    &&& r matches Ok(steps)
                    &&& match steps {
                        None => old(self)@.writing.contains(true),
                        Some(steps) => !old(self)@.writing.contains(true) && is_plan(
                            old(self)@,
                            steps@,
                        ),
                    }
                },
            },
    {
        match self.state {
            FileWriterState::Consolidating => {
                return Err(FileWriterError::StillConsolidating);
            },
            FileWriterState::WritingChunks(n) => {
                if n > 0 {
                    return Err(FileWriterError::Writing);
                }
                self.state = FileWriterState::Consolidating;
            },
        }
        let mut steps: Vec<ConsolidateStep> = Vec::new();
        let mut i: usize = 0;
        while i < self.writing_chunk.len()
            invariant
                i <= self.writing_chunk@.len(),
                self.wf(),
                self@ == (FileWriterView { state: FileWriterState::Consolidating, ..old(self)@ }),
                old(self)@.state == FileWriterState::WritingChunks(0),
                steps@.len() == i,
                forall|j: int| 0 <= j < i ==> !self.writing_chunk@[j],
                forall|j: int|
                    0 <= j < i ==> (#[trigger] steps@[j]).offset == j * self@.chunk_size
                        && steps@[j].chunk_path@ == chunk_path_of(old(self)@, j as nat),
            decreases self.writing_chunk@.len() - i,
        {
            if self.writing_chunk[i] {
                assert(old(self)@.writing[i as int]);
                return Ok(None);
            }
            proof {
                lemma_step_offset(self.file_size as nat, self.chunk_size as nat, i as nat);
            }
            let chunk_path = self.chunk_path(i);
            assert(chunk_path@ == chunk_path_of(old(self)@, i as nat));
            steps.push(ConsolidateStep { chunk_path, offset: i * self.chunk_size });
            i += 1;
        }
        Ok(Some(steps))
    }

    /// Notes that the chunks have been put together.
    pub fn finish_consolidate(&mut self)
        requires
            old(self).wf(),
        ensures
            final(self).wf(),
            final(self)@ == (FileWriterView {
                state: FileWriterState::WritingChunks(0),
                ..old(self)@
            }),
    {
        self.state = FileWriterState::WritingChunks(0);
    }

    /// What the writer is doing.
    pub fn state(&self) -> (r: FileWriterState)
        ensures
            r == self@.state,
    {
        self.state
    }

    /// The path of the whole file.
    pub fn file_path(&self) -> (r: &String)
        ensures
            r@ == self@.file_path,
    {
        &self.file_path
    }
}

/// The steps copy every chunk, in order, to where it belongs.
pub open spec fn is_plan(v: FileWriterView, steps: Seq<ConsolidateStep>) -> bool {
    &&& steps.len() == chunk_count(v.file_size, v.chunk_size)
    &&& forall|j: int|
        0 <= j < steps.len() ==> (#[trigger] steps[j]).offset == j * v.chunk_size
            && steps[j].chunk_path@ == chunk_path_of(v, j as nat)
}

proof fn lemma_last_offset(file_size: nat, chunk_size: nat)
    requires
        chunk_size > 0,
    ensures
        file_size / chunk_size * chunk_size <= file_size,
{
    vstd::arithmetic::div_mod::lemma_fundamental_div_mod(file_size as int, chunk_size as int);
    vstd::arithmetic::mul::lemma_mul_is_commutative(
        (file_size / chunk_size) as int,
        chunk_size as int,
    );
}

/// Every offset within the file belongs to one of its chunks.
proof fn lemma_chunk_pos(file_size: nat, chunk_size: nat, offset: nat)
    requires
        chunk_size > 0,
        offset < file_size,
    ensures
        offset / chunk_size < chunk_count(file_size, chunk_size),
{
    let q = offset / chunk_size;
    vstd::arithmetic::div_mod::lemma_fundamental_div_mod(offset as int, chunk_size as int);
    let n = (file_size + chunk_size - 1) as nat;
    assert(q * chunk_size + chunk_size <= n) by {
        vstd::arithmetic::mul::lemma_mul_is_commutative(q as int, chunk_size as int);
    }
    assert((q + 1) * chunk_size <= n) by (nonlinear_arith)
        requires
            q * chunk_size + chunk_size <= n,
    ;
    assert(q + 1 <= n / chunk_size) by (nonlinear_arith)
        requires
            (q + 1) * chunk_size <= n,
            chunk_size > 0,
    ;
}

/// Every chunk starts within the file.
proof fn lemma_step_offset(file_size: nat, chunk_size: nat, i: nat)
    requires
        chunk_size > 0,
        i < chunk_count(file_size, chunk_size),
    ensures
        i * chunk_size < file_size,
{
    let n = (file_size + chunk_size - 1) as nat;
    assert((i + 1) * chunk_size <= n) by (nonlinear_arith)
        requires
            i + 1 <= n / chunk_size,
            chunk_size > 0,
    ;
    assert(i * chunk_size + chunk_size <= n) by (nonlinear_arith)
        requires
            (i + 1) * chunk_size <= n,
    ;
}

// ---------------------------------------------------------------------------
// Chunks make up the file

/// The part of a file that a chunk holds.
pub open spec fn piece(content: Seq<u8>, chunk_size: nat, i: nat) -> Seq<u8> {
    let end = (i + 1) * chunk_size;
    content.subrange(
        (i * chunk_size) as int,
        if end <= content.len() {
            end as int
        } else {
            content.len() as int
        },
    )
}

/// A file after data has been written at an offset within it or at its end.
pub open spec fn written(file: Seq<u8>, offset: int, data: Seq<u8>) -> Seq<u8> {
    file.take(offset) + data + if offset + data.len() < file.len() {
        file.skip(offset + data.len())
    } else {
        Seq::empty()
    }
}

/// The whole file after the first `n` steps, where chunk `i` holds `chunks[i]`.
pub open spec fn consolidated(
    steps: Seq<ConsolidateStep>,
    chunks: Seq<Seq<u8>>,
    n: nat,
) -> Seq<u8>
    decreases n,
{
    if n == 0 {
        Seq::empty()
    } else {
        written(
            consolidated(steps, chunks, (n - 1) as nat),
            steps[n - 1].offset as int,
            chunks[n - 1],
        )
    }
}

/// Every part of a file is accepted at its offset while chunks are written.
pub proof fn law_pieces_accepted(v: FileWriterView, content: Seq<u8>, i: nat)
    requires
        v.chunk_size > 0,
        content.len() == v.file_size,
        v.state is WritingChunks,
        i < chunk_count(v.file_size, v.chunk_size),
    ensures
        chunk_error(v, piece(content, v.chunk_size, i).len(), i * v.chunk_size) is None,
{
    let cs = v.chunk_size;
    let offset = i * cs;
    lemma_step_offset(v.file_size, cs, i);
    vstd::arithmetic::div_mod::lemma_mod_multiples_basic(i as int, cs as int);
    if (i + 1) * cs > v.file_size {
        assert((i + 1) * cs == i * cs + cs) by (nonlinear_arith);
        assert(v.file_size / cs == i) by (nonlinear_arith)
            requires
                i * cs <= v.file_size,
                v.file_size < i * cs + cs,
                cs > 0,
        ;
    } else {
        assert((i + 1) * cs - i * cs == cs) by (nonlinear_arith);
    }
}

proof fn lemma_consolidated(
    v: FileWriterView,
    content: Seq<u8>,
    steps: Seq<ConsolidateStep>,
    chunks: Seq<Seq<u8>>,
    n: nat,
)
    requires
        v.chunk_size > 0,
        content.len() == v.file_size,
        is_plan(v, steps),
        chunks.len() == steps.len(),
        forall|i: int|
            0 <= i < chunks.len() ==> #[trigger] chunks[i] == piece(
                content,
                v.chunk_size,
                i as nat,
            ),
        n <= steps.len(),
    ensures
        consolidated(steps, chunks, n) == content.take(
            if n * v.chunk_size <= content.len() {
                (n * v.chunk_size) as int
            } else {
                content.len() as int
            },
        ),
    decreases n,
{
    let cs = v.chunk_size;
    if n == 0 {
        assert(n * cs == 0) by (nonlinear_arith)
            requires
                n == 0,
        ;
        assert(content.take(0) =~= Seq::empty());
    } else {
        let i = (n - 1) as nat;
        assert(n * cs == (i + 1) * cs);
        lemma_consolidated(v, content, steps, chunks, i);
        lemma_step_offset(v.file_size, cs, i);
        assert((i + 1) * cs == i * cs + cs) by (nonlinear_arith);
        let before = consolidated(steps, chunks, i);
        assert(steps[i as int].offset == i * cs);
        assert(chunks[i as int] == piece(content, cs, i));
        assert(before == content.take((i * cs) as int));
        assert(before.take((i * cs) as int) =~= before);
        assert(consolidated(steps, chunks, n) =~= content.take(
            if n * cs <= content.len() {
                (n * cs) as int
            } else {
                content.len() as int
            },
        ));
    }
}

/// Putting the chunks together gives the file that they are parts of.
pub proof fn law_consolidated_is_content(
    v: FileWriterView,
    content: Seq<u8>,
    steps: Seq<ConsolidateStep>,
    chunks: Seq<Seq<u8>>,
)
    requires
        v.chunk_size > 0,
        content.len() == v.file_size,
        is_plan(v, steps),
        chunks.len() == steps.len(),
        forall|i: int|
            0 <= i < chunks.len() ==> #[trigger] chunks[i] == piece(
                content,
                v.chunk_size,
                i as nat,
            ),
    ensures
        consolidated(steps, chunks, steps.len()) == content,
{
    let cs = v.chunk_size;
    let n = steps.len();
    lemma_consolidated(v, content, steps, chunks, n);
    let m = (content.len() + cs - 1) as nat;
    assert(n * cs >= content.len()) by (nonlinear_arith)
        requires
            n == m / cs,
            m == content.len() + cs - 1,
            cs > 0,
    ;
    assert(content.take(content.len() as int) =~= content);
}

} // verus!
