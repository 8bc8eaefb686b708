//! The carving engine: a state machine that takes what the byte source read
//! and hands out the files that are complete.

use vstd::prelude::*;
use crate::carve::{
    carved, decide, lemma_chunking_is_invisible, lemma_empty_is_settled,
    lemma_retained_is_settled, lemma_scan_step_bounds, pass_flushes, remainder, scan_step,
    settled, Carved, Decision, Step,
};
use crate::scanner::FileType;

verus! {

/// Where the engine stands.
#[derive(Debug, Clone, Copy, PartialEq, Eq, Structural)]
pub enum Phase {
    /// Waiting for the byte source.
    Reading,
    /// Taking complete files out of the working buffer.
    Scanning,
    /// The byte source is exhausted; one last pass over the working buffer.
    Draining,
    /// Nothing more will be read or emitted.
    Done,
}

/// What the byte source answered to one read.
#[derive(Debug, PartialEq, Eq)]
pub enum ReadEvent {
    /// The bytes that were read. No bytes at all mean the end of the stream.
    Chunk(Vec<u8>),
    /// The stream has ended.
    EndOfStream,
    /// The read failed.
    Failed,
}

/// What the byte source answered to one read, as a mathematical value.
pub enum Answer {
    Bytes(Seq<u8>),
    End,
    Failure,
}

impl View for ReadEvent {
    type V = Answer;

    open spec fn view(&self) -> Answer {
        match *self {
            ReadEvent::Chunk(bytes) => Answer::Bytes(bytes@),
            ReadEvent::EndOfStream => Answer::End,
            ReadEvent::Failed => Answer::Failure,
        }
    }
}

/// A recovered file: its bytes, its format, and its number among the files
/// that the engine has emitted.
#[derive(Debug, PartialEq, Eq)]
pub struct ExtractedFile {
    pub data: Vec<u8>,
    pub file_type: FileType,
    pub sequence: usize,
}

/// A recovered file as a mathematical value.
pub struct Extracted {
    pub data: Seq<u8>,
    pub file_type: FileType,
    pub sequence: nat,
}

impl View for ExtractedFile {
    type V = Extracted;

    open spec fn view(&self) -> Extracted {
        Extracted { data: self.data@, file_type: self.file_type, sequence: self.sequence as nat }
    }
}

/// The engine as a mathematical value: the working buffer, the number of
/// files emitted so far, and the phase.
pub struct EngineState {
    pub buffered: Seq<u8>,
    pub recovered: nat,
    pub phase: Phase,
}

/// The state in which every engine begins.
pub open spec fn initial_state() -> EngineState {
    EngineState { buffered: Seq::empty(), recovered: 0, phase: Phase::Reading }
}

/// The state that follows `state` when the byte source answers `answer`.
///
/// Only an engine that is reading takes an answer. Bytes join the working
/// buffer and scanning begins; the end of the stream, or a read of no bytes,
/// begins the draining; a failed read ends the scan and drops what was
/// buffered.
pub open spec fn after_read(state: EngineState, answer: Answer) -> EngineState {
    if state.phase != Phase::Reading {
        state
    } else {
        match answer {
            Answer::Bytes(bytes) => if bytes.len() == 0 {
                EngineState { phase: Phase::Draining, ..state }
            } else {
                EngineState { buffered: state.buffered + bytes, phase: Phase::Scanning, ..state }
            },
            Answer::End => EngineState { phase: Phase::Draining, ..state },
            Answer::Failure => EngineState {
                buffered: Seq::empty(),
                phase: Phase::Done,
                ..state
            },
        }
    }
}

/// The state that follows `state` after one scanning step, and the file that
/// the step emits.
///
/// While scanning or draining, the step follows `scan_step`: an emitted file
/// gets the next number and leaves the buffer with everything before it, and
/// the phase stays. A step that retains ends the pass: while scanning, the
/// retained bytes wait for the next read; while draining, they are dropped and
/// the engine is done. In the other phases a step changes nothing.
///
/// The counter cannot pass `usize::MAX`. A file for which no number is left is
/// not emitted: the engine drops what is buffered and is done, so that no two
/// files ever get the same number.
pub open spec fn after_step(state: EngineState) -> (EngineState, Option<Extracted>) {
    match state.phase {
        Phase::Reading | Phase::Done => (state, None),
        Phase::Scanning | Phase::Draining => match scan_step(state.buffered) {
            Step::Emit { start, end, file_type } => if state.recovered < usize::MAX {
                (
                    EngineState {
                        buffered: state.buffered.skip(end),
                        recovered: state.recovered + 1,
                        phase: state.phase,
                    },
                    Some(
                        Extracted {
                            data: state.buffered.subrange(start, end),
                            file_type,
                            sequence: state.recovered,
                        },
                    ),
                )
            } else {
                (EngineState { buffered: Seq::empty(), phase: Phase::Done, ..state }, None)
            },
            Step::Retain { from } => if state.phase == Phase::Scanning {
                (
                    EngineState {
                        buffered: state.buffered.skip(from),
                        phase: Phase::Reading,
                        ..state
                    },
                    None,
                )
            } else {
                (EngineState { buffered: Seq::empty(), phase: Phase::Done, ..state }, None)
            },
        },
    }
}

/// The files of `files`, numbered in their order from `first` on.
pub open spec fn numbered(files: Seq<Carved>, first: nat) -> Seq<Extracted> {
    Seq::new(
        files.len(),
        |i: int|
            Extracted {
                data: files[i].data,
                file_type: files[i].file_type,
                sequence: first + i as nat,
            },
    )
}

/// What a list of recovered files stands for.
pub open spec fn views(files: Seq<ExtractedFile>) -> Seq<Extracted> {
    Seq::new(files.len(), |i: int| files[i]@)
}

/// The engine is in the middle of a pass.
pub open spec fn in_pass(state: EngineState) -> bool {
    state.phase == Phase::Scanning || state.phase == Phase::Draining
}

/// What is emitted by a step, as a list of no file or one.
pub open spec fn emitted(file: Option<Extracted>) -> Seq<Extracted> {
    match file {
        Some(f) => seq![f],
        None => Seq::empty(),
    }
}

/// The state that follows `state` after a whole scanning pass, and the files
/// that the pass emits in their order: the steps of `after_step`, one after
/// the other, until the engine reads again or is done. Outside a pass nothing
/// happens.
pub open spec fn after_pass(state: EngineState) -> (EngineState, Seq<Extracted>)
    decreases
            (if in_pass(state) {
                state.buffered.len() + 1
            } else {
                0
            }),
    via after_pass_decreases
{
    if in_pass(state) {
        let step = after_step(state);
        let rest = after_pass(step.0);
        (rest.0, emitted(step.1) + rest.1)
    } else {
        (state, Seq::empty())
    }
}

#[via_fn]
proof fn after_pass_decreases(state: EngineState) {
    lemma_scan_step_bounds(state.buffered);
}

/// The counter has a number left for every file that a pass over the buffer
/// of `state` carves.
pub open spec fn has_room(state: EngineState) -> bool {
    state.recovered + carved(state.buffered).len() <= usize::MAX
}

/// Where the counter has room, a pass emits the files that `carved` gives for
/// the working buffer, numbered on from the count before. While scanning, what
/// `remainder` gives stays buffered for the next read; while draining, nothing
/// stays and the engine is done.
pub proof fn lemma_pass_with_room(state: EngineState)
    requires
        in_pass(state),
        has_room(state),
    ensures
        after_pass(state).0 == (EngineState {
            buffered: if state.phase == Phase::Scanning {
                remainder(state.buffered)
            } else {
                Seq::empty()
            },
            recovered: state.recovered + carved(state.buffered).len(),
            phase: if state.phase == Phase::Scanning {
                Phase::Reading
            } else {
                Phase::Done
            },
        }),
        after_pass(state).1 == numbered(carved(state.buffered), state.recovered),
    decreases state.buffered.len(),
{
    lemma_scan_step_bounds(state.buffered);
    let step = after_step(state);
    let rest = after_pass(step.0);
    assert(after_pass(state) == (rest.0, emitted(step.1) + rest.1));
    match scan_step(state.buffered) {
        Step::Emit { start, end, file_type } => {
            let tail = carved(state.buffered.skip(end));
            assert(carved(state.buffered) == seq![
                Carved { data: state.buffered.subrange(start, end), file_type },
            ] + tail);
            assert(remainder(state.buffered) == remainder(state.buffered.skip(end)));
            assert(state.recovered < usize::MAX);
            lemma_pass_with_room(step.0);
            assert(emitted(step.1) + numbered(tail, state.recovered + 1) =~= numbered(
                carved(state.buffered),
                state.recovered,
            ));
        },
        Step::Retain { from } => {
            assert(carved(state.buffered) == Seq::<Carved>::empty());
            assert(remainder(state.buffered) == state.buffered.skip(from));
            assert(!in_pass(step.0));
            assert(rest == (step.0, Seq::<Extracted>::empty()));
            assert(emitted(step.1) + Seq::<Extracted>::empty() =~= numbered(
                carved(state.buffered),
                state.recovered,
            ));
        },
    }
}

/// The state that follows `state`, and the files that are emitted, when the
/// byte source answers `answer` and the engine then makes its pass.
pub open spec fn fed(state: EngineState, answer: Answer) -> (EngineState, Seq<Extracted>) {
    after_pass(after_read(state, answer))
}

/// The state that follows `state`, and all the files that are emitted in
/// their order, when the byte source gives `answers` one after the other and
/// the engine makes its pass after each.
pub open spec fn run(state: EngineState, answers: Seq<Answer>) -> (EngineState, Seq<Extracted>)
    decreases answers.len(),
{
    if answers.len() == 0 {
        (state, Seq::empty())
    } else {
        let before = run(state, answers.drop_last());
        let last = fed(before.0, answers.last());
        (last.0, before.1 + last.1)
    }
}

/// What a list of read events stands for.
pub open spec fn answers(events: Seq<ReadEvent>) -> Seq<Answer> {
    Seq::new(events.len(), |i: int| events[i]@)
}

/// What holds of the working buffer between the steps: while the engine waits
/// for a read or drains, the buffer is settled, so it holds no complete file;
/// when the engine is done, the buffer is empty.
pub open spec fn consistent(state: EngineState) -> bool {
    match state.phase {
        Phase::Reading | Phase::Draining => settled(state.buffered),
        Phase::Scanning => true,
        Phase::Done => state.buffered.len() == 0,
    }
}

/// An answer of the byte source leaves the engine consistent.
pub proof fn lemma_read_keeps_consistent(state: EngineState, answer: Answer)
    requires
        consistent(state),
    ensures
        consistent(after_read(state, answer)),
{
    lemma_empty_is_settled();
}

/// A scanning step leaves the engine consistent.
pub proof fn lemma_step_keeps_consistent(state: EngineState)
    requires
        consistent(state),
    ensures
        consistent(after_step(state).0),
{
    lemma_empty_is_settled();
    lemma_retained_is_settled(state.buffered);
}

/// A scanning pass leaves the engine consistent, and either reading or done.
pub proof fn lemma_pass_keeps_consistent(state: EngineState)
    requires
        consistent(state),
    ensures
        consistent(after_pass(state).0),
        in_pass(state) ==> !in_pass(after_pass(state).0),
    decreases
            (if in_pass(state) {
                state.buffered.len() + 1
            } else {
                0
            }),
{
    if in_pass(state) {
        lemma_scan_step_bounds(state.buffered);
        lemma_step_keeps_consistent(state);
        lemma_pass_keeps_consistent(after_step(state).0);
    }
}

/// The files of a pass carry consecutive numbers, on from the count before
/// the pass, and the count after the pass has grown by their number. The count
/// stays within the counter's range.
pub proof fn lemma_pass_numbers_files(state: EngineState)
    ensures
        after_pass(state).0.recovered == state.recovered + after_pass(state).1.len(),
        forall|i: int|
            0 <= i < after_pass(state).1.len() ==> (#[trigger] after_pass(state).1[i]).sequence
                == state.recovered + i,
        state.recovered <= usize::MAX ==> after_pass(state).0.recovered <= usize::MAX,
    decreases
            (if in_pass(state) {
                state.buffered.len() + 1
            } else {
                0
            }),
{
    if in_pass(state) {
        lemma_scan_step_bounds(state.buffered);
        lemma_pass_numbers_files(after_step(state).0);
    }
}

/// A pass over a settled buffer emits nothing: while scanning, the buffer
/// stays as it is for the next read; while draining, it is dropped and the
/// engine is done.
pub proof fn lemma_pass_of_settled(state: EngineState)
    requires
        in_pass(state),
        settled(state.buffered),
    ensures
        after_pass(state) == (
            EngineState {
                buffered: if state.phase == Phase::Scanning {
                    state.buffered
                } else {
                    Seq::empty()
                },
                recovered: state.recovered,
                phase: if state.phase == Phase::Scanning {
                    Phase::Reading
                } else {
                    Phase::Done
                },
            },
            Seq::<Extracted>::empty(),
        ),
{
    let step = after_step(state);
    assert(state.buffered.skip(0) =~= state.buffered);
    assert(!in_pass(step.0));
    assert(after_pass(step.0) == (step.0, Seq::<Extracted>::empty()));
    assert(emitted(step.1) + Seq::<Extracted>::empty() =~= Seq::<Extracted>::empty());
}

/// At the end of the stream nothing more is emitted: whatever the working
/// buffer still holds, it holds no complete file, and the engine drops it and
/// is done. A JPEG file whose end marker never came is dropped in this way.
pub proof fn lemma_end_of_stream_emits_nothing(state: EngineState)
    requires
        consistent(state),
        state.phase == Phase::Reading,
    ensures
        fed(state, Answer::End) == (
            EngineState { buffered: Seq::empty(), recovered: state.recovered, phase: Phase::Done },
            Seq::<Extracted>::empty(),
        ),
        fed(state, Answer::Bytes(Seq::empty())) == fed(state, Answer::End),
{
    lemma_pass_of_settled(after_read(state, Answer::End));
}

/// An empty stream yields no file, and the count of recovered files is 0.
pub proof fn lemma_empty_stream()
    ensures
        fed(initial_state(), Answer::End) == (
            EngineState { buffered: Seq::empty(), recovered: 0, phase: Phase::Done },
            Seq::<Extracted>::empty(),
        ),
{
    lemma_empty_is_settled();
    lemma_end_of_stream_emits_nothing(initial_state());
}

/// A failed read ends the scan at once: nothing is emitted, the buffered
/// bytes are dropped, and the count stays.
pub proof fn lemma_failed_read_stops(state: EngineState)
    requires
        state.phase == Phase::Reading,
    ensures
        fed(state, Answer::Failure) == (
            EngineState { buffered: Seq::empty(), recovered: state.recovered, phase: Phase::Done },
            Seq::<Extracted>::empty(),
        ),
{
}

/// Once the engine is done, no answer changes it or makes it emit a file.
pub proof fn lemma_done_is_final(state: EngineState, answer: Answer)
    requires
        state.phase == Phase::Done,
    ensures
        fed(state, answer) == (state, Seq::<Extracted>::empty()),
{
}

/// The files of a run carry consecutive numbers, on from the count with which
/// the run began, and the count after the run has grown by their number.
pub proof fn lemma_run_numbers_files(state: EngineState, answers: Seq<Answer>)
    ensures
        run(state, answers).0.recovered == state.recovered + run(state, answers).1.len(),
        forall|i: int|
            0 <= i < run(state, answers).1.len() ==> (#[trigger] run(state, answers).1[i]).sequence
                == state.recovered + i,
    decreases answers.len(),
{
    if answers.len() > 0 {
        lemma_run_numbers_files(state, answers.drop_last());
        let before = run(state, answers.drop_last());
        lemma_pass_numbers_files(after_read(before.0, answers.last()));
    }
}

/// Scanning the same stream again gives the same result: where two series of
/// reads answer alike, byte for byte and in the same chunks, the two runs emit
/// the same files with the same bytes, formats and numbers, in the same order,
/// and end in the same state.
pub proof fn lemma_rescan_is_identical(first: Seq<ReadEvent>, second: Seq<ReadEvent>)
    requires
        first.len() == second.len(),
        forall|i: int| 0 <= i < first.len() ==> first[i]@ == second[i]@,
    ensures
        run(initial_state(), answers(first)) == run(initial_state(), answers(second)),
{
    assert(answers(first) =~= answers(second));
}

/// Where the bytes of a read arrive in two reads instead of one, the engine
/// emits the same files and ends in the same state. This holds unless the pass
/// after the first of the two reads flushes an RW2 file at the buffer's end,
/// and as long as the counter has room.
pub proof fn lemma_split_read(state: EngineState, first: Seq<u8>, second: Seq<u8>)
    requires
        state.phase == Phase::Reading,
        first.len() > 0,
        second.len() > 0,
        !pass_flushes(state.buffered + first),
        has_room(after_read(state, Answer::Bytes(first + second))),
    ensures
        fed(fed(state, Answer::Bytes(first)).0, Answer::Bytes(second)).0 == fed(
            state,
            Answer::Bytes(first + second),
        ).0,
        fed(state, Answer::Bytes(first)).1 + fed(
            fed(state, Answer::Bytes(first)).0,
            Answer::Bytes(second),
        ).1 == fed(state, Answer::Bytes(first + second)).1,
{
    let buffer = state.buffered + first;
    lemma_chunking_is_invisible(buffer, second);
    assert(state.buffered + (first + second) =~= buffer + second);
    let one = carved(buffer);
    let two = carved(remainder(buffer) + second);
    lemma_pass_with_room(after_read(state, Answer::Bytes(first + second)));
    lemma_pass_with_room(after_read(state, Answer::Bytes(first)));
    let between = fed(state, Answer::Bytes(first)).0;
    lemma_pass_with_room(after_read(between, Answer::Bytes(second)));
    assert(numbered(one, state.recovered) + numbered(two, state.recovered + one.len())
        =~= numbered(one + two, state.recovered));
}

/// The carving engine. It owns the working buffer and the counter.
pub struct CarvingEngine {
    buffer: Vec<u8>,
    counter: usize,
    phase: Phase,
}

impl View for CarvingEngine {
    type V = EngineState;

    closed spec fn view(&self) -> EngineState {
        EngineState { buffered: self.buffer@, recovered: self.counter as nat, phase: self.phase }
    }
}

impl CarvingEngine {
    #[verifier::type_invariant]
    spec fn inv(self) -> bool {
        consistent(self@)
    }

    /// An engine with an empty working buffer that has emitted nothing and
    /// waits for the first read.
    pub fn new() -> (engine: Self)
        ensures
            engine@ == initial_state(),
            consistent(engine@),
    {
        proof {
            lemma_empty_is_settled();
        }
        CarvingEngine { buffer: Vec::new(), counter: 0, phase: Phase::Reading }
    }

    /// The phase in which the engine stands. Whatever the phase, the engine
    /// is consistent.
    pub fn phase(&self) -> (phase: Phase)
        ensures
            phase == self@.phase,
            consistent(self@),
    {
        proof {
            use_type_invariant(self);
        }
        self.phase
    }

    /// Takes what the byte source answered to a read. The state that follows
    /// is `after_read` of the state before and the event.
    pub fn on_read(&mut self, event: ReadEvent)
        ensures
            final(self)@ == after_read(old(self)@, event@),
            consistent(final(self)@),
    {
        proof {
            use_type_invariant(&*self);
            lemma_read_keeps_consistent(self@, event@);
            lemma_empty_is_settled();
        }
        match self.phase {
            Phase::Reading => {},
            _ => {
                return ;
            },
        }
        match event {
            ReadEvent::Chunk(bytes) => {
                if bytes.len() == 0 {
                    self.phase = Phase::Draining;
                } else {
                    let mut bytes = bytes;
                    let mut buffer = self.take_buffer();
                    buffer.append(&mut bytes);
                    self.phase = Phase::Scanning;
                    self.buffer = buffer;
                }
            },
            ReadEvent::EndOfStream => {
                self.phase = Phase::Draining;
            },
            ReadEvent::Failed => {
                self.buffer = Vec::new();
                self.phase = Phase::Done;
            },
        }
    }

    /// One scanning step. The state that follows and the file that is
    /// emitted are `after_step` of the state before. A draining engine emits
    /// nothing and is done after its step.
    pub fn advance(&mut self) -> (file: Option<ExtractedFile>)
        ensures
            final(self)@ == after_step(old(self)@).0,
            match file {
                Some(f) => after_step(old(self)@).1 == Some(f@),
                None => after_step(old(self)@).1 is None,
            },
            old(self)@.phase == Phase::Draining ==> file is None && final(self)@.phase
                == Phase::Done,
            consistent(final(self)@),
    {
        proof {
            use_type_invariant(&*self);
            lemma_step_keeps_consistent(self@);
            lemma_empty_is_settled();
            lemma_retained_is_settled(self.buffer@);
        }
        match self.phase {
            Phase::Reading | Phase::Done => {
                return None;
            },
            _ => {},
        }
        match decide(self.buffer.as_slice()) {
            Decision::Emit { start, end, file_type } => {
                if self.counter == usize::MAX {
                    self.buffer = Vec::new();
                    self.phase = Phase::Done;
                    return None;
                }
                let mut buffer = self.take_buffer();
                let rest = buffer.split_off(end);
                let data = buffer.split_off(start);
                proof {
                    assert(rest@ =~= old(self).buffer@.skip(end as int));
                    assert(data@ =~= old(self).buffer@.subrange(start as int, end as int));
                }
                let file = ExtractedFile { data, file_type, sequence: self.counter };
                self.buffer = rest;
                self.counter = self.counter + 1;
                Some(file)
            },
            Decision::Retain { from } => {
                match self.phase {
                    Phase::Scanning => {
                        let mut buffer = self.take_buffer();
                        let kept = buffer.split_off(from);
                        proof {
                            assert(kept@ =~= old(self).buffer@.skip(from as int));
                        }
                        self.phase = Phase::Reading;
                        self.buffer = kept;
                    },
                    _ => {
                        self.buffer = Vec::new();
                        self.phase = Phase::Done;
                    },
                }
                None
            },
        }
    }

    /// A whole scanning pass: steps until the engine reads again or is done.
    /// The state that follows and the files that are emitted, in their
    /// order, are `after_pass` of the state before. A draining engine emits
    /// nothing.
    pub fn scan(&mut self) -> (files: Vec<ExtractedFile>)
        ensures
            final(self)@ == after_pass(old(self)@).0,
            views(files@) == after_pass(old(self)@).1,
            old(self)@.phase == Phase::Draining ==> files@.len() == 0,
            consistent(final(self)@),
            !in_pass(final(self)@),
    {
        let ghost before = self@;
        proof {
            use_type_invariant(&*self);
            lemma_pass_keeps_consistent(before);
            if before.phase == Phase::Draining {
                lemma_pass_of_settled(before);
            }
        }
        let mut files: Vec<ExtractedFile> = Vec::new();
        let mut active: bool = match self.phase {
            Phase::Scanning | Phase::Draining => true,
            _ => false,
        };
        while active
            invariant
                active == in_pass(self@),
                after_pass(before).0 == after_pass(self@).0,
                after_pass(before).1 == views(files@) + after_pass(self@).1,
            decreases
                    (if active {
                        self@.buffered.len() + 1
                    } else {
                        0
                    }),
        {
            proof {
                lemma_scan_step_bounds(self@.buffered);
            }
            let file = self.advance();
            match file {
                Some(f) => {
                    proof {
                        assert(views(files@.push(f)) =~= views(files@) + seq![f@]);
                        assert((views(files@) + seq![f@]) + after_pass(self@).1 =~= views(files@)
                            + (seq![f@] + after_pass(self@).1));
                    }
                    files.push(f);
                },
                None => {
                    proof {
                        assert(Seq::<Extracted>::empty() + after_pass(self@).1 =~= after_pass(
                            self@,
                        ).1);
                    }
                },
            }
            active = match self.phase {
                Phase::Scanning | Phase::Draining => true,
                _ => false,
            };
        }
        proof {
            assert(views(files@) + Seq::<Extracted>::empty() =~= views(files@));
        }
        files
    }

    /// Takes what the byte source answered to a read and makes the pass that
    /// follows. The state that follows and the files that are emitted, in
    /// their order, are `fed` of the state before and the event.
    pub fn feed(&mut self, event: ReadEvent) -> (files: Vec<ExtractedFile>)
        ensures
            final(self)@ == fed(old(self)@, event@).0,
            views(files@) == fed(old(self)@, event@).1,
            consistent(final(self)@),
            !in_pass(final(self)@),
    {
        self.on_read(event);
        self.scan()
    }

    /// Moves the working buffer out of the engine and leaves an empty one.
    fn take_buffer(&mut self) -> (buffer: Vec<u8>)
        ensures
            buffer@ == old(self).buffer@,
            final(self).buffer@ == Seq::<u8>::empty(),
            final(self).counter == old(self).counter,
            final(self).phase == old(self).phase,
    {
        proof {
            use_type_invariant(&*self);
            lemma_empty_is_settled();
        }
        let mut buffer: Vec<u8> = Vec::new();
        core::mem::swap(&mut self.buffer, &mut buffer);
        buffer
    }

    /// The number of files emitted so far.
    pub fn recovered(&self) -> (count: usize)
        ensures
            count == self@.recovered,
    {
        self.counter
    }

    /// The number of bytes in the working buffer.
    pub fn buffered_len(&self) -> (len: usize)
        ensures
            len == self@.buffered.len(),
    {
        self.buffer.len()
    }
}

} // verus!
