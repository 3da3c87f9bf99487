//! Puts verified chunks back into the order of the file.

use std::collections::HashMap;
use vstd::prelude::*;
#[allow(unused_imports)]
use crate::fileio::{
    chunks_in, file_chunk, joined, law_chunks_make_the_file, lemma_joined_fits,
};
use crate::pipeline::DecryptedChunk;

verus! {

broadcast use vstd::std_specs::hash::group_hash_axioms;

/// File bytes between two progress reports.
pub const WRITE_PROGRESS_STEP: u64 = 500 * 1024 * 1024;

/// What the writing thread has to do, in order.
pub enum WriteAction {
    /// Append these bytes to the file.
    Write(Vec<u8>),
    /// Report that this many file bytes have been written.
    Progress(u64),
}

/// A [`WriteAction`] in mathematical terms.
#[verifier::ext_equal]
pub enum WriteView {
    Write(Seq<u8>),
    Progress(u64),
}

impl View for WriteAction {
    type V = WriteView;

    open spec fn view(&self) -> WriteView {
        match self {
            WriteAction::Write(data) => WriteView::Write(data@),
            WriteAction::Progress(n) => WriteView::Progress(*n),
        }
    }
}

/// A list of actions in mathematical terms.
pub open spec fn writes_view(actions: Seq<WriteAction>) -> Seq<WriteView> {
    actions.map_values(|a: WriteAction| a@)
}

/// A counter would overflow: the chunks are not those of a file.
#[derive(Debug, Clone, Copy, PartialEq, Eq, Structural)]
pub struct WriteOverflow;

/// A [`ReorderBuffer`] in mathematical terms.
#[verifier::ext_equal]
pub struct ReorderView {
    /// Chunks that have come but not been written.
    pub pending: Map<u32, Seq<u8>>,
    /// The chunk that is written next, which is the number of those written.
    pub next: nat,
    pub bytes: nat,
    pub next_print: nat,
    pub expected: nat,
}

impl ReorderView {
    /// Nothing has come.
    pub open spec fn start(expected: nat) -> ReorderView {
        ReorderView {
            pending: Map::empty(),
            next: 0,
            bytes: 0,
            next_print: WRITE_PROGRESS_STEP as nat,
            expected,
        }
    }

    /// The next chunk has come.
    pub open spec fn can_write(self) -> bool {
        self.next <= u32::MAX && self.pending.contains_key(self.next as u32)
    }

    /// The file bytes written together with the next chunk.
    pub open spec fn bytes_then(self) -> nat {
        self.bytes + self.pending[self.next as u32].len()
    }

    /// Writing the next chunk would overflow a counter.
    pub open spec fn overflows(self) -> bool {
        ||| self.next + 1 > u32::MAX
        ||| self.bytes_then() > u64::MAX
        ||| self.bytes_then() >= self.next_print && self.next_print + WRITE_PROGRESS_STEP
            > u64::MAX
    }

    /// The buffer with the next chunk written.
    pub open spec fn write_next(self) -> ReorderView {
        ReorderView {
            pending: self.pending.remove(self.next as u32),
            next: self.next + 1,
            bytes: self.bytes_then(),
            next_print: if self.bytes_then() >= self.next_print {
                self.next_print + WRITE_PROGRESS_STEP as nat
            } else {
                self.next_print
            },
            ..self
        }
    }

    /// What writing the next chunk asks for.
    pub open spec fn write_actions(self) -> Seq<WriteView> {
        seq![WriteView::Write(self.pending[self.next as u32])] + (if self.bytes_then()
            >= self.next_print {
            seq![WriteView::Progress(self.bytes_then() as u64)]
        } else {
            Seq::empty()
        })
    }

    /// Every expected chunk has been written.
    pub open spec fn done(self) -> bool {
        self.next >= self.expected
    }
}

/// A [`DecryptedChunk`] in mathematical terms.
#[verifier::ext_equal]
pub struct ChunkView {
    pub chunk_id: u32,
    pub data: Seq<u8>,
}

/// A chunk in mathematical terms.
pub open spec fn chunk_view(chunk: DecryptedChunk) -> ChunkView {
    ChunkView { chunk_id: chunk.chunk_id, data: chunk.data@ }
}

/// A buffer, the actions that it has asked for so far, and whether a counter
/// has overflowed.
#[verifier::ext_equal]
pub struct WriteRun {
    pub w: ReorderView,
    pub out: Seq<WriteView>,
    pub overflow: bool,
}

impl WriteRun {
    /// A buffer at work, with the actions that stand in the list already.
    pub open spec fn from(w: ReorderView, out: Seq<WriteAction>) -> WriteRun {
        WriteRun { w, out: writes_view(out), overflow: false }
    }

    /// Writes chunks for as long as the next one is there.
    pub open spec fn flush(self) -> WriteRun
        decreases u32::MAX + 1 - self.w.next,
    {
        if self.overflow || !self.w.can_write() {
            self
        } else if self.w.overflows() {
            WriteRun { overflow: true, ..self }
        } else {
            (WriteRun {
                w: self.w.write_next(),
                out: self.out + self.w.write_actions(),
                overflow: false,
            }).flush()
        }
    }

    /// The run with one more chunk that waits.
    pub open spec fn with_chunk(self, chunk: ChunkView) -> WriteRun {
        WriteRun {
            w: ReorderView {
                pending: self.w.pending.insert(chunk.chunk_id, chunk.data),
                ..self.w
            },
            ..self
        }
    }

    /// Takes in a chunk.
    pub open spec fn accept(self, chunk: ChunkView) -> WriteRun {
        if self.overflow {
            self
        } else {
            self.with_chunk(chunk).flush()
        }
    }

    /// The run has ended with these results.
    pub open spec fn ends_as(
        self,
        w: ReorderView,
        out: Seq<WriteAction>,
        r: Result<(), WriteOverflow>,
    ) -> bool {
        &&& w == self.w
        &&& writes_view(out) == self.out
        &&& r is Err <==> self.overflow
    }
}

/// Chunks that came early wait here, so that the file is written from front to
/// back without seeking.
pub struct ReorderBuffer {
    pending: HashMap<u32, Vec<u8>>,
    next_chunk: u32,
    bytes: u64,
    next_print: u64,
    expected_chunks: u32,
}

impl View for ReorderBuffer {
    type V = ReorderView;

    closed spec fn view(&self) -> ReorderView {
        ReorderView {
            pending: self.pending@.map_values(|data: Vec<u8>| data@),
            next: self.next_chunk as nat,
            bytes: self.bytes as nat,
            next_print: self.next_print as nat,
            expected: self.expected_chunks as nat,
        }
    }
}

impl ReorderBuffer {
    /// A buffer for a file of `expected_chunks` chunks.
    pub fn new(expected_chunks: u32) -> (r: Self)
        ensures
            r@ == ReorderView::start(expected_chunks as nat),
    {
        let r = ReorderBuffer {
            pending: HashMap::new(),
            next_chunk: 0,
            bytes: 0,
            next_print: WRITE_PROGRESS_STEP,
            expected_chunks,
        };
        proof {
            assert(r@.pending =~= Map::empty());
        }
        r
    }

    /// Takes in a chunk and writes what can be written now.
    pub fn accept(&mut self, chunk: DecryptedChunk, out: &mut Vec<WriteAction>) -> (r: Result<
        (),
        WriteOverflow,
    >)
        ensures
            WriteRun::from(old(self)@, old(out)@).accept(chunk_view(chunk)).ends_as(
                final(self)@,
                final(out)@,
                r,
            ),
    {
        let DecryptedChunk { chunk_id, data } = chunk;
        let ghost goal = WriteRun::from(self@, out@).accept(chunk_view(chunk));
        self.pending.insert(chunk_id, data);
        proof {
            assert(self@.pending =~= old(self)@.pending.insert(chunk_id, chunk.data@));
        }
        loop
            invariant
                goal == WriteRun::from(old(self)@, old(out)@).accept(chunk_view(chunk)),
                goal == WriteRun::from(self@, out@).flush(),
            decreases u32::MAX - self@.next,
        {
            let ghost before = self@;
            let ghost taken = out@;
            let next: u32 = self.next_chunk;
            let size: u64 = match self.pending.get(&next) {
                Some(data) => data.len() as u64,
                None => {
                    return Ok(());
                },
            };
            if next == u32::MAX || self.bytes > u64::MAX - size {
                return Err(WriteOverflow);
            }
            let bytes: u64 = self.bytes + size;
            let report: bool = bytes >= self.next_print;
            if report && self.next_print > u64::MAX - WRITE_PROGRESS_STEP {
                return Err(WriteOverflow);
            }
            let Some(data) = self.pending.remove(&next) else {
                return Ok(());
            };
            out.push(WriteAction::Write(data));
            self.bytes = bytes;
            self.next_chunk = next + 1;
            if report {
                out.push(WriteAction::Progress(bytes));
                self.next_print = self.next_print + WRITE_PROGRESS_STEP;
            }
            proof {
                assert(self@.pending =~= before.write_next().pending);
                assert(self@ =~= before.write_next());
                assert(writes_view(out@) =~= writes_view(taken) + before.write_actions());
            }
        }
    }

    /// Whether every expected chunk has been written.
    pub fn is_done(&self) -> (r: bool)
        ensures
            r == self@.done(),
    {
        self.next_chunk >= self.expected_chunks
    }

    /// The number of file bytes written.
    pub fn bytes(&self) -> (n: u64)
        ensures
            n == self@.bytes,
    {
        self.bytes
    }

    /// The number of chunks written.
    pub fn chunks_written(&self) -> (n: u32)
        ensures
            n == self@.next,
    {
        self.next_chunk
    }
}

// ---------------------------------------------------------------------------
// The file comes out in order
// ---------------------------------------------------------------------------

impl WriteRun {
    /// The run after chunks have come in, one after the other.
    pub open spec fn accept_all(self, chunks: Seq<ChunkView>) -> WriteRun
        decreases chunks.len(),
    {
        if chunks.len() == 0 {
            self
        } else {
            self.accept_all(chunks.drop_last()).accept(chunks.last())
        }
    }

    /// A buffer before its first chunk.
    pub open spec fn start(expected: nat) -> WriteRun {
        WriteRun { w: ReorderView::start(expected), out: Seq::empty(), overflow: false }
    }
}

/// The bytes that a list of actions writes.
pub open spec fn written(actions: Seq<WriteView>) -> Seq<u8>
    decreases actions.len(),
{
    if actions.len() == 0 {
        Seq::empty()
    } else {
        written(actions.drop_last()) + match actions.last() {
            WriteView::Write(data) => data,
            WriteView::Progress(_) => Seq::empty(),
        }
    }
}

/// The chunk with this id is among those that have come.
pub open spec fn has_come(chunks: Seq<ChunkView>, id: nat) -> bool {
    exists|i: int| 0 <= i < chunks.len() && (#[trigger] chunks[i]).chunk_id == id
}

/// Every chunk holds what its id says.
pub open spec fn genuine(chunks: Seq<ChunkView>, pieces: spec_fn(nat) -> Seq<u8>) -> bool {
    forall|i: int|
        0 <= i < chunks.len() ==> (#[trigger] chunks[i]).data == pieces(
            chunks[i].chunk_id as nat,
        )
}

/// What has been written are the pieces before the next one, and what has come
/// of the others waits.
pub open spec fn in_step(run: WriteRun, chunks: Seq<ChunkView>, pieces: spec_fn(nat) -> Seq<u8>) -> bool {
    &&& forall|id: u32| #[trigger]
        run.w.pending.contains_key(id) ==> has_come(chunks, id as nat) && run.w.pending[id]
            == pieces(id as nat)
    &&& forall|id: nat| id < run.w.next ==> #[trigger] has_come(chunks, id)
    &&& forall|id: u32|
        id >= run.w.next && #[trigger] has_come(chunks, id as nat) ==> run.w.pending.contains_key(
            id,
        )
    &&& run.w.next <= u32::MAX
    &&& written(run.out) == joined(pieces, run.w.next)
    &&& run.w.bytes == joined(pieces, run.w.next).len()
}

proof fn lemma_written_concat(a: Seq<WriteView>, b: Seq<WriteView>)
    ensures
        written(a + b) == written(a) + written(b),
    decreases b.len(),
{
    if b.len() == 0 {
        assert(a + b =~= a);
        assert(written(a + b) =~= written(a) + written(b));
    } else {
        assert((a + b).drop_last() =~= a + b.drop_last());
        lemma_written_concat(a, b.drop_last());
        assert(written(a + b) =~= written(a) + written(b));
    }
}

proof fn lemma_written_next(w: ReorderView)
    ensures
        written(w.write_actions()) == w.pending[w.next as u32],
{
    let data = w.pending[w.next as u32];
    let first = seq![WriteView::Write(data)];
    let report = seq![WriteView::Progress(w.bytes_then() as u64)];
    reveal_with_fuel(written, 2);
    assert(first.drop_last() =~= Seq::empty());
    assert(report.drop_last() =~= Seq::empty());
    assert(written(first) =~= data);
    assert(written(report) =~= Seq::empty());
    lemma_written_concat(first, report);
    assert(first + Seq::<WriteView>::empty() =~= first);
    assert(written(w.write_actions()) =~= data);
}

proof fn lemma_flush_in_step(run: WriteRun, chunks: Seq<ChunkView>, pieces: spec_fn(nat) -> Seq<u8>)
    requires
        in_step(run, chunks, pieces),
        !run.overflow,
    ensures
        in_step(run.flush(), chunks, pieces),
        !run.flush().overflow ==> !run.flush().w.can_write(),
        run.flush().w.expected == run.w.expected,
    decreases u32::MAX + 1 - run.w.next,
{
    if run.w.can_write() && !run.w.overflows() {
        let next = WriteRun {
            w: run.w.write_next(),
            out: run.out + run.w.write_actions(),
            overflow: false,
        };
        let id = run.w.next as u32;
        assert(run.w.pending.contains_key(id));
        lemma_written_concat(run.out, run.w.write_actions());
        lemma_written_next(run.w);
        assert(joined(pieces, next.w.next) == joined(pieces, run.w.next) + pieces(run.w.next));
        assert forall|other: nat| other < next.w.next implies #[trigger] has_come(
            chunks,
            other,
        ) by {}
        assert(in_step(next, chunks, pieces));
        lemma_flush_in_step(next, chunks, pieces);
    }
}

proof fn lemma_come_in(
    run: WriteRun,
    init: Seq<ChunkView>,
    chunks: Seq<ChunkView>,
    pieces: spec_fn(nat) -> Seq<u8>,
)
    requires
        chunks.len() > 0,
        init == chunks.drop_last(),
        genuine(chunks, pieces),
        in_step(run, init, pieces),
    ensures
        in_step(run.with_chunk(chunks.last()), chunks, pieces),
{
    let last = chunks.last();
    let with = run.with_chunk(last);
    assert(chunks[chunks.len() - 1] == last);
    assert forall|id: nat| #[trigger] has_come(init, id) implies has_come(chunks, id) by {
        let i = choose|i: int| 0 <= i < init.len() && (#[trigger] init[i]).chunk_id == id;
        assert(chunks[i].chunk_id == id);
    }
    assert forall|id: nat| #[trigger] has_come(chunks, id) implies has_come(init, id) || id
        == last.chunk_id by {
        let i = choose|i: int| 0 <= i < chunks.len() && (#[trigger] chunks[i]).chunk_id == id;
        if i < init.len() {
            assert(init[i].chunk_id == id);
        }
    }
    assert(has_come(chunks, last.chunk_id as nat));
    assert forall|id: nat| id < with.w.next implies #[trigger] has_come(chunks, id) by {
        assert(has_come(init, id));
    }
}

proof fn lemma_accept_all_in_step(
    expected: nat,
    chunks: Seq<ChunkView>,
    pieces: spec_fn(nat) -> Seq<u8>,
)
    requires
        genuine(chunks, pieces),
    ensures
        ({
            let run = WriteRun::start(expected).accept_all(chunks);
            &&& !run.overflow ==> in_step(run, chunks, pieces)
            &&& !run.overflow ==> !run.w.can_write()
            &&& run.w.expected == expected
        }),
    decreases chunks.len(),
{
    let start = WriteRun::start(expected);
    if chunks.len() > 0 {
        let init = chunks.drop_last();
        let last = chunks.last();
        assert(forall|i: int| 0 <= i < init.len() ==> #[trigger] init[i] == chunks[i]);
        assert(chunks[chunks.len() - 1] == last);
        lemma_accept_all_in_step(expected, init, pieces);
        let run = start.accept_all(init);
        if !run.overflow {
            lemma_come_in(run, init, chunks, pieces);
            lemma_flush_in_step(run.with_chunk(last), chunks, pieces);
        }
    }
}

/// In whatever order, and however often, genuine chunks come, what is written
/// are the pieces of the file from the front, each once, up to the first that
/// has not come yet.
pub proof fn law_pieces_are_written_in_order(
    expected: nat,
    chunks: Seq<ChunkView>,
    pieces: spec_fn(nat) -> Seq<u8>,
)
    requires
        genuine(chunks, pieces),
        !WriteRun::start(expected).accept_all(chunks).overflow,
    ensures
        ({
            let run = WriteRun::start(expected).accept_all(chunks);
            &&& written(run.out) == joined(pieces, run.w.next)
            &&& run.w.bytes == written(run.out).len()
            &&& forall|id: nat| id < run.w.next ==> #[trigger] has_come(chunks, id)
            &&& !has_come(chunks, run.w.next)
        }),
{
    let run = WriteRun::start(expected).accept_all(chunks);
    lemma_accept_all_in_step(expected, chunks, pieces);
    assert(in_step(run, chunks, pieces));
    if has_come(chunks, run.w.next) {
        assert(has_come(chunks, (run.w.next as u32) as nat));
        assert(run.w.pending.contains_key(run.w.next as u32));
    }
}

proof fn lemma_flush_fits(run: WriteRun, chunks: Seq<ChunkView>, file: Seq<u8>)
    requires
        in_step(run, chunks, |i: nat| file_chunk(file, i)),
        !run.overflow,
        chunks_in(file.len()) <= u32::MAX,
        forall|i: int|
            0 <= i < chunks.len() ==> (#[trigger] chunks[i]).chunk_id < chunks_in(file.len()),
        run.w.next_print <= run.w.bytes + WRITE_PROGRESS_STEP,
    ensures
        !run.flush().overflow,
        run.flush().w.next_print <= run.flush().w.bytes + WRITE_PROGRESS_STEP,
    decreases u32::MAX + 1 - run.w.next,
{
    let pieces = |i: nat| file_chunk(file, i);
    if run.w.can_write() {
        let next = WriteRun {
            w: run.w.write_next(),
            out: run.out + run.w.write_actions(),
            overflow: false,
        };
        let id = run.w.next as u32;
        assert(run.w.pending.contains_key(id));
        assert(has_come(chunks, id as nat));
        assert(id < chunks_in(file.len()));
        assert(joined(pieces, next.w.next) == joined(pieces, run.w.next) + pieces(run.w.next));
        lemma_joined_fits(file, next.w.next);
        assert(run.w.bytes_then() <= file.len());
        lemma_written_concat(run.out, run.w.write_actions());
        lemma_written_next(run.w);
        assert forall|other: nat| other < next.w.next implies #[trigger] has_come(
            chunks,
            other,
        ) by {}
        assert(in_step(next, chunks, pieces));
        lemma_flush_fits(next, chunks, file);
    }
}

proof fn lemma_accept_all_fits(expected: nat, chunks: Seq<ChunkView>, file: Seq<u8>)
    requires
        genuine(chunks, |i: nat| file_chunk(file, i)),
        chunks_in(file.len()) <= u32::MAX,
        forall|i: int|
            0 <= i < chunks.len() ==> (#[trigger] chunks[i]).chunk_id < chunks_in(file.len()),
    ensures
        ({
            let run = WriteRun::start(expected).accept_all(chunks);
            &&& !run.overflow
            &&& run.w.next_print <= run.w.bytes + WRITE_PROGRESS_STEP
        }),
    decreases chunks.len(),
{
    let pieces = |i: nat| file_chunk(file, i);
    if chunks.len() > 0 {
        let init = chunks.drop_last();
        let last = chunks.last();
        assert(forall|i: int| 0 <= i < init.len() ==> #[trigger] init[i] == chunks[i]);
        assert(chunks[chunks.len() - 1] == last);
        lemma_accept_all_fits(expected, init, file);
        lemma_accept_all_in_step(expected, init, pieces);
        let run = WriteRun::start(expected).accept_all(init);
        lemma_come_in(run, init, chunks, pieces);
        lemma_flush_fits(run.with_chunk(last), chunks, file);
    }
}

/// Once all chunks of a file of less than 2^32 chunks have come, in whatever
/// order and however often, the work is done, and the bytes written are the
/// file.
pub proof fn law_the_file_is_written(file: Seq<u8>, chunks: Seq<ChunkView>)
    requires
        genuine(chunks, |i: nat| file_chunk(file, i)),
        forall|id: nat| id < chunks_in(file.len()) ==> #[trigger] has_come(chunks, id),
        forall|i: int|
            0 <= i < chunks.len() ==> (#[trigger] chunks[i]).chunk_id < chunks_in(file.len()),
        chunks_in(file.len()) <= u32::MAX,
    ensures
        ({
            let run = WriteRun::start(chunks_in(file.len())).accept_all(chunks);
            &&& !run.overflow
            &&& run.w.done()
            &&& written(run.out) == file
        }),
{
    let n = chunks_in(file.len());
    let pieces = |i: nat| file_chunk(file, i);
    let run = WriteRun::start(n).accept_all(chunks);
    lemma_accept_all_fits(n, chunks, file);
    law_pieces_are_written_in_order(n, chunks, pieces);
    lemma_accept_all_in_step(n, chunks, pieces);
    law_chunks_make_the_file(file);
    if run.w.next < n {
        assert(has_come(chunks, run.w.next));
    }
    if run.w.next > n {
        assert(has_come(chunks, n));
        let i = choose|i: int| 0 <= i < chunks.len() && (#[trigger] chunks[i]).chunk_id == n;
        assert(chunks[i].chunk_id < n);
    }
}

// ---------------------------------------------------------------------------
// The end of the work
// ---------------------------------------------------------------------------

/// The buffer says that it is done exactly when it has written as many chunks as
/// the file has.
pub proof fn law_done_counts_chunks(w: ReorderView)
    ensures
        w.done() <==> w.next >= w.expected,
{
}

/// The work is not over too early: if the buffer says that it is done, every
/// chunk of the file has come, and all of them have been written, one behind the
/// other.  And it is not over too late: once all of them have come, it is done.
pub proof fn law_done_means_all_written(
    expected: nat,
    chunks: Seq<ChunkView>,
    pieces: spec_fn(nat) -> Seq<u8>,
)
    requires
        genuine(chunks, pieces),
        !WriteRun::start(expected).accept_all(chunks).overflow,
    ensures
        ({
            let run = WriteRun::start(expected).accept_all(chunks);
            &&& run.w.done() <==> forall|id: nat| id < expected ==> #[trigger] has_come(chunks, id)
            &&& run.w.done() ==> joined(pieces, expected).is_prefix_of(written(run.out))
            &&& !run.w.done() ==> !has_come(chunks, run.w.next) && run.w.next < expected
        }),
{
    let run = WriteRun::start(expected).accept_all(chunks);
    law_pieces_are_written_in_order(expected, chunks, pieces);
    lemma_accept_all_in_step(expected, chunks, pieces);
    law_done_counts_chunks(run.w);
    if run.w.done() {
        lemma_joined_prefix_of(pieces, expected, run.w.next);
    }
    if forall|id: nat| id < expected ==> #[trigger] has_come(chunks, id) {
        assert(run.w.next < expected ==> has_come(chunks, run.w.next));
    }
}

proof fn lemma_joined_prefix_of(pieces: spec_fn(nat) -> Seq<u8>, small: nat, large: nat)
    requires
        small <= large,
    ensures
        joined(pieces, small).is_prefix_of(joined(pieces, large)),
    decreases large,
{
    if small < large {
        lemma_joined_prefix_of(pieces, small, (large - 1) as nat);
        assert(joined(pieces, large) =~= joined(pieces, (large - 1) as nat) + pieces(
            (large - 1) as nat,
        ));
    }
}

// ---------------------------------------------------------------------------
// What each operation does
// ---------------------------------------------------------------------------

/// Nothing has come and nothing has been written before the first chunk.
pub proof fn law_writing_starts_empty(expected: nat, id: u32)
    ensures
        ({
            let w = ReorderView::start(expected);
            &&& !w.pending.contains_key(id)
            &&& w.next == 0 && w.bytes == 0
            &&& w.next_print == 500 * 1024 * 1024
            &&& w.expected == expected
        }),
        WriteRun::start(expected) == (WriteRun {
            w: ReorderView::start(expected),
            out: Seq::empty(),
            overflow: false,
        }),
{
}

/// A chunk that comes in waits under its id, in place of one that waited there,
/// and then all that can be written is written; after an overflow nothing
/// happens any more.
pub proof fn law_chunks_wait_for_their_turn(run: WriteRun, chunk: ChunkView, other: u32)
    ensures
        ({
            let with = run.with_chunk(chunk);
            &&& with.w.pending.contains_key(chunk.chunk_id)
            &&& with.w.pending[chunk.chunk_id] == chunk.data
            &&& other != chunk.chunk_id ==> {
                &&& with.w.pending.contains_key(other) == run.w.pending.contains_key(other)
                &&& with.w.pending.contains_key(other) ==> with.w.pending[other]
                    == run.w.pending[other]
            }
            &&& with == (WriteRun {
                w: ReorderView { pending: with.w.pending, ..run.w },
                ..run
            })
            &&& !run.overflow ==> run.accept(chunk) == with.flush()
            &&& run.overflow ==> run.accept(chunk) == run
        }),
{
}

/// What is written: as long as the chunk with the next id is there, it is written
/// and the one behind it is looked for.  The writing ends where that chunk has not
/// come, or where a counter would overflow, and then nothing more changes.
pub proof fn law_writing_goes_on_while_it_can(run: WriteRun)
    requires
        !run.overflow,
        run.w.next <= u32::MAX,
    ensures
        ({
            let id = run.w.next as u32;
            let come = run.w.pending.contains_key(id);
            let bytes = run.w.bytes + run.w.pending[id].len();
            let overflow = {
                ||| run.w.next == u32::MAX
                ||| bytes > u64::MAX
                ||| bytes >= run.w.next_print && run.w.next_print + 500 * 1024 * 1024 > u64::MAX
            };
            &&& !come ==> run.flush() == run
            &&& come && overflow ==> run.flush() == (WriteRun { overflow: true, ..run })
            &&& come && !overflow ==> run.flush() == (WriteRun {
                w: run.w.write_next(),
                out: run.out + run.w.write_actions(),
                overflow: false,
            }).flush()
        }),
{
}

/// What writing a chunk changes: it does not wait any more, it and its bytes are
/// counted, and the next id is looked for.  Its bytes are written as they came,
/// and a report of all bytes written follows if they have reached the next mark,
/// which is then moved on.
pub proof fn law_written_chunk_is_counted(w: ReorderView, other: u32)
    requires
        w.next <= u32::MAX,
        w.pending.contains_key(w.next as u32),
    ensures
        ({
            let data = w.pending[w.next as u32];
            let after = w.write_next();
            let marks = w.bytes + data.len() >= w.next_print;
            &&& after.next == w.next + 1
            &&& after.bytes == w.bytes + data.len()
            &&& after.next_print == w.next_print + if marks { 500 * 1024 * 1024int } else { 0 }
            &&& after.expected == w.expected
            &&& after.pending.contains_key(other) <==> w.pending.contains_key(other) && other
                != w.next
            &&& after.pending.contains_key(other) ==> after.pending[other] == w.pending[other]
            &&& w.write_actions().len() == if marks { 2int } else { 1 }
            &&& w.write_actions()[0] == WriteView::Write(data)
            &&& marks ==> w.write_actions()[1] == WriteView::Progress(
                (w.bytes + data.len()) as u64,
            )
        }),
{
}

/// The mathematical forms keep every action, and the results of a run are all of
/// the actions, in order, the buffer, and whether a counter has overflowed.
pub proof fn law_writes_are_seen_whole(
    run: WriteRun,
    w: ReorderView,
    out: Seq<WriteAction>,
    r: Result<(), WriteOverflow>,
    chunk: DecryptedChunk,
)
    ensures
        run.ends_as(w, out, r) <==> {
            &&& w == run.w
            &&& r is Err == run.overflow
            &&& out.len() == run.out.len()
            &&& forall|i: int|
                0 <= i < out.len() ==> (match #[trigger] out[i] {
                    WriteAction::Write(d) => run.out[i] == WriteView::Write(d@),
                    WriteAction::Progress(n) => run.out[i] == WriteView::Progress(n),
                })
        },
        WriteRun::from(w, out).w == w,
        !WriteRun::from(w, out).overflow,
        WriteRun::from(w, out).ends_as(w, out, Ok(())),
        chunk_view(chunk).chunk_id == chunk.chunk_id,
        chunk_view(chunk).data == chunk.data@,
{
    if run.ends_as(w, out, r) {
        assert forall|i: int| 0 <= i < out.len() implies (match #[trigger] out[i] {
            WriteAction::Write(d) => run.out[i] == WriteView::Write(d@),
            WriteAction::Progress(n) => run.out[i] == WriteView::Progress(n),
        }) by {
            assert(writes_view(out)[i] == out[i]@);
        }
    }
    if out.len() == run.out.len() && forall|i: int|
        0 <= i < out.len() ==> (match #[trigger] out[i] {
            WriteAction::Write(d) => run.out[i] == WriteView::Write(d@),
            WriteAction::Progress(n) => run.out[i] == WriteView::Progress(n),
        }) {
        assert forall|i: int| 0 <= i < out.len() implies writes_view(out)[i] == run.out[i] by {
            assert(writes_view(out)[i] == out[i]@);
        }
        assert(writes_view(out) =~= run.out);
    }
}

/// The bytes that a list of actions writes are those of its writes, all of them
/// and in order; reports write nothing.
pub proof fn law_written_bytes_are_those_of_the_writes(
    actions: Seq<WriteView>,
    data: Seq<u8>,
    n: u64,
)
    ensures
        written(Seq::empty()) == Seq::<u8>::empty(),
        written(actions.push(WriteView::Write(data))) == written(actions) + data,
        written(actions.push(WriteView::Progress(n))) == written(actions),
{
    assert(actions.push(WriteView::Write(data)).drop_last() =~= actions);
    assert(actions.push(WriteView::Progress(n)).drop_last() =~= actions);
    assert(written(actions.push(WriteView::Progress(n))) =~= written(actions));
}

} // verus!
