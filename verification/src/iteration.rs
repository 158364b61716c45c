//! The piecewise reading of a log yields what the log says.
//!
//! A reader asks for its files' bytes in small portions and may get smaller ones, and
//! the files may grow meanwhile. The laws below follow it through files with given
//! contents as of open: whatever the portions, and whatever is appended later, the
//! items that it yields are the records of the log in order, and it ends as the log
//! ends.

use vstd::prelude::*;
use vstd::utf8::{decode_utf8, valid_utf8};

use crate::error::{IoError, IoErrorKind, ReadError};
use crate::format::{frame_len, judge, Verdict, LEN_SIZE, MAX_RECORD_SIZE};
use crate::reader::{brought, decodes, wanted, ReaderView, StepView, Waiting};
use crate::replay::{lemma_judge_prefix, nothing, preceded, read_from, Damage, Ending, Reading};
use crate::utf8::bytes_held;

verus! {

/// What is left to read for a reader of files that had these contents as of open.
pub open spec fn left(v: ReaderView, segments: Seq<Seq<u8>>) -> Reading {
    if v.fused {
        nothing()
    } else if v.waiting == Waiting::File {
        read_from(segments, v.index + 1, 0)
    } else {
        read_from(segments, v.index, v.offset as int)
    }
}

/// Whether a file can be as long as each of these.
pub open spec fn countable(segments: Seq<Seq<u8>>) -> bool {
    forall|i: int| 0 <= i < segments.len() ==> (#[trigger] segments[i]).len() <= u64::MAX
}

/// The lengths of files with these contents.
pub open spec fn lengths(segments: Seq<Seq<u8>>) -> Seq<u64> {
    Seq::new(segments.len(), |i: int| segments[i].len() as u64)
}

/// Whether the reader was made for files with these contents, and has read them so
/// far.
pub open spec fn follows(v: ReaderView, segments: Seq<Seq<u8>>) -> bool {
    &&& v.wf()
    &&& countable(segments)
    &&& v.limits == lengths(segments)
    &&& !v.fused && v.files.len() > 0 ==> v.gathered == segments[v.index].subrange(
        v.offset as int,
        v.offset + v.gathered.len(),
    )
}

/// Whether a file with the contents `was` may have the contents `is` later, when
/// others only append to it.
pub open spec fn grew(was: Seq<u8>, is: Seq<u8>) -> bool {
    &&& was.len() <= is.len()
    &&& is.take(was.len() as int) == was
}

/// Whether `chunk` is what one read may bring when the open file has these contents:
/// bytes from where it has been read to, some of them, and no more than asked for.
pub open spec fn is_portion(v: ReaderView, contents: Seq<u8>, chunk: Seq<u8>) -> bool {
    let at = v.offset + v.gathered.len();
    &&& 0 < chunk.len() <= v.asked()
    &&& at + chunk.len() <= contents.len()
    &&& chunk == contents.subrange(at, at + chunk.len())
}

/// Whether `chunk` is what one read may bring when the files had these contents as of
/// open and may have grown since.
pub open spec fn honest(v: ReaderView, segments: Seq<Seq<u8>>, chunk: Seq<u8>) -> bool {
    exists|now: Seq<u8>| grew(segments[v.index], now) && #[trigger] is_portion(v, now, chunk)
}

/// The error that reports this damage in a log of these files.
pub open spec fn damage_error(
    files: Seq<String>,
    index: int,
    offset: int,
    damage: Damage,
) -> ReadError {
    match damage {
        Damage::Truncated => ReadError::TruncatedTail {
            path: files[index],
            offset: offset as u64,
        },
        Damage::InvalidLength { len } => ReadError::InvalidLength {
            path: files[index],
            offset: offset as u64,
            len: len as u32,
        },
        Damage::Mismatch { expected, actual } => ReadError::ChecksumMismatch {
            path: files[index],
            offset: offset as u64,
            expected,
            actual,
        },
    }
}

/// Whether `error` reports the damage in which a log of these files ends.
pub open spec fn reports(error: ReadError, files: Seq<String>, ending: Ending) -> bool {
    ending matches Ending::Damaged { index, offset, damage } && error == damage_error(
        files,
        index,
        offset,
        damage,
    )
}

/// Whether a step from `before` to `after` says what the log says next: an item is
/// the next record, an error reports the damage that ends the log, the end comes when
/// nothing is left, and a request for bytes or a file leaves as much to read as
/// before.
pub open spec fn says_next(
    before: ReaderView,
    after: ReaderView,
    step: StepView<Seq<u8>>,
    segments: Seq<Seq<u8>>,
) -> bool {
    match step {
        StepView::Read { want } => {
            &&& after.waiting == Waiting::Bytes
            &&& want == after.asked()
            &&& want > 0
            &&& left(after, segments) == left(before, segments)
        },
        StepView::Open { path } => {
            &&& after.waiting == Waiting::File
            &&& path == after.files[after.index + 1]
            &&& left(after, segments) == left(before, segments)
        },
        StepView::Item { item } => left(before, segments) == preceded(
            seq![item],
            left(after, segments),
        ),
        StepView::Failed { error } => {
            &&& left(before, segments).records.len() == 0
            &&& reports(error, before.files, left(before, segments).ending)
            &&& after.fused
        },
        StepView::End => {
            &&& left(before, segments) == nothing()
            &&& left(after, segments) == nothing()
        },
    }
}

/// A reader that asks for bytes asks for some that the file has, and never for more
/// than the largest record at once, whatever the length prefix claims.
pub proof fn law_reader_asks_within_bounds(v: ReaderView)
    requires
        v.wf(),
        v.waiting == Waiting::Bytes,
    ensures
        0 < v.asked() <= MAX_RECORD_SIZE,
        v.offset + v.gathered.len() + v.asked() <= v.limits[v.index],
{
}

/// A new reader follows whatever its files hold, and has all of it to read.
pub proof fn law_new_reader_has_it_all(files: Seq<String>, segments: Seq<Seq<u8>>)
    requires
        files.len() == segments.len(),
        countable(segments),
    ensures
        follows(ReaderView::at_start(files, lengths(segments)), segments),
        left(ReaderView::at_start(files, lengths(segments)), segments) == read_from(
            segments,
            0,
            0,
        ),
{
    if files.len() > 0 {
        assert(segments[0].subrange(0, 0) =~= Seq::<u8>::empty());
    }
}

/// What is appended to a file after open is not seen: a read brings what it would
/// have brought if the file had not grown.
pub proof fn law_growth_is_not_seen(
    v: ReaderView,
    segments: Seq<Seq<u8>>,
    now: Seq<u8>,
    chunk: Seq<u8>,
)
    requires
        follows(v, segments),
        v.waiting == Waiting::Bytes,
        grew(segments[v.index], now),
        is_portion(v, now, chunk),
    ensures
        is_portion(v, segments[v.index], chunk),
{
    let was = segments[v.index];
    let at = v.offset + v.gathered.len();
    law_reader_asks_within_bounds(v);
    assert(now.subrange(at, at + chunk.len()) =~= now.take(was.len() as int).subrange(
        at,
        at + chunk.len(),
    ));
}

/// Asking for the next item changes nothing about what is left.
pub proof fn law_next_says_next(v: ReaderView, segments: Seq<Seq<u8>>)
    requires
        follows(v, segments),
        v.waiting == Waiting::Call,
    ensures
        follows(v.next().0, segments),
        says_next(v, v.next().0, v.next().1, segments),
{
    let w = v.next().0;
    if !(v.fused || v.files.len() == 0) {
        assert(w.gathered =~= segments[w.index].subrange(w.offset as int, w.offset as int));
    }
}

/// Opening the next file leads on to its first frame.
pub proof fn law_opened_says_next(v: ReaderView, segments: Seq<Seq<u8>>)
    requires
        follows(v, segments),
        v.waiting == Waiting::File,
    ensures
        follows(v.opened(Ok(())).0, segments),
        says_next(v, v.opened(Ok(())).0, v.opened(Ok(())).1, segments),
{
    let w = v.opened(Ok(())).0;
    assert(w.gathered =~= segments[w.index].subrange(0, 0));
}

/// The bytes of the frame so far, as the rest of the file starts with them.
proof fn lemma_gathered_is_prefix(v: ReaderView, segments: Seq<Seq<u8>>, chunk: Seq<u8>)
    requires
        follows(v, segments),
        v.waiting == Waiting::Bytes,
        is_portion(v, segments[v.index], chunk),
    ensures
        ({
            let gathered = v.gathered + chunk;
            let rest = segments[v.index].skip(v.offset as int);
            &&& gathered.len() <= rest.len()
            &&& gathered == rest.take(gathered.len() as int)
            &&& gathered == segments[v.index].subrange(
                v.offset as int,
                v.offset + gathered.len(),
            )
        }),
{
    let gathered = v.gathered + chunk;
    let bytes = segments[v.index];
    let at = v.offset + v.gathered.len();
    assert(bytes.subrange(v.offset as int, at + chunk.len()) =~= bytes.subrange(
        v.offset as int,
        at,
    ) + bytes.subrange(at, at + chunk.len()));
    assert(gathered =~= bytes.skip(v.offset as int).take(gathered.len() as int));
}

/// A frame that its last portion completes ends where that portion ends.
proof fn lemma_complete_is_exact(gathered: Seq<u8>, chunk: Seq<u8>)
    requires
        judge(gathered) is Incomplete,
        chunk.len() <= wanted(gathered),
        judge(gathered + chunk) is Record,
    ensures
        (gathered + chunk).len() == frame_len(judge(gathered + chunk)->payload.len()),
{
    let all = gathered + chunk;
    if gathered.len() >= LEN_SIZE {
        assert(all[0] == gathered[0] && all[1] == gathered[1] && all[2] == gathered[2] && all[3]
            == gathered[3]);
    }
}

/// Whatever portion of the file a read brings, and whatever has been appended to the
/// file since open, the reader goes on as the log does.
pub proof fn law_received_says_next(
    v: ReaderView,
    segments: Seq<Seq<u8>>,
    outcome: Result<Vec<u8>, IoError>,
)
    requires
        follows(v, segments),
        v.waiting == Waiting::Bytes,
        outcome is Ok,
        honest(v, segments, brought(outcome)),
    ensures
        follows(v.received(outcome).0, segments),
        says_next(v, v.received(outcome).0, v.received(outcome).1, segments),
        v.received(outcome).1 is Read ==> v.received(outcome).0.gathered.len()
            > v.gathered.len(),
{
    let chunk = brought(outcome);
    let now = choose|now: Seq<u8>|
        grew(segments[v.index], now) && #[trigger] is_portion(v, now, chunk);
    law_growth_is_not_seen(v, segments, now, chunk);
    let (w, step) = v.received(outcome);
    let rest = segments[v.index].skip(v.offset as int);
    let gathered = v.gathered + chunk;
    lemma_gathered_is_prefix(v, segments, chunk);
    if judge(gathered) is Incomplete {
        if step is Failed {
            assert(rest =~= gathered);
        }
    } else {
        lemma_judge_prefix(gathered, rest);
        if judge(gathered) is Record {
            lemma_complete_is_exact(v.gathered, chunk);
            assert(w.gathered =~= segments[w.index].subrange(w.offset as int, w.offset as int));
        }
    }
}

/// An interrupted read is asked for again, with nothing lost.
pub proof fn law_interrupted_read_is_retried(v: ReaderView, e: IoError)
    requires
        v.waiting == Waiting::Bytes,
        e.kind == IoErrorKind::Interrupted,
    ensures
        v.received(Err(e)) == (v, StepView::<Seq<u8>>::Read { want: v.asked() }),
{
}

/// Whether `after` and `step` are what comes of some call on a reader at `before`.
pub open spec fn comes_of(before: ReaderView, after: ReaderView, step: StepView<Seq<u8>>) -> bool {
    ||| (after, step) == before.next()
    ||| exists|outcome: Result<(), IoError>| (after, step) == #[trigger] before.opened(outcome)
    ||| exists|outcome: Result<Vec<u8>, IoError>|
        (after, step) == #[trigger] before.received(outcome)
}

/// The end is final: once there is no next item, there never is one again, whatever
/// happens to the files.
pub proof fn law_end_is_final(before: ReaderView, after: ReaderView, step: StepView<Seq<u8>>)
    requires
        comes_of(before, after, step),
        step is End,
    ensures
        after.next() == (after, StepView::<Seq<u8>>::End),
{
}

/// The end of the texts is final too. It is the end of the records, or comes of the
/// error that ends these; a record that is not UTF-8 does not end them.
pub proof fn law_end_of_texts_is_final(
    before: ReaderView,
    after: ReaderView,
    step: StepView<Seq<u8>>,
    text: StepView<Seq<char>>,
    again: StepView<Seq<char>>,
)
    requires
        comes_of(before, after, step),
        decodes(after, step, text),
        text is End || step is Failed,
        decodes(after.next().0, after.next().1, again),
    ensures
        after.next().0 == after,
        again is End,
{
}

/// An error comes once: after it, and for ever, there is no next item.
pub proof fn law_error_ends_the_iteration(v: ReaderView, error: ReadError)
    ensures
        v.failed(error).0.next() == (v.failed(error).0, StepView::<Seq<u8>>::End),
{
}

/// A read that fails ends the iteration in that failure, unless it was interrupted.
pub proof fn law_failed_read_is_reported(v: ReaderView, e: IoError)
    requires
        e.kind != IoErrorKind::Interrupted,
    ensures
        v.received(Err(e)) == v.failed(ReadError::Io(e)),
{
}

/// A file that cannot be opened ends the iteration in that failure, whatever it is.
pub proof fn law_failed_open_is_reported(v: ReaderView, e: IoError)
    ensures
        v.opened(Err(e)) == v.failed(ReadError::Io(e)),
{
}

/// Whether the reader may go from `before` to `after`, with `step` to say, when its
/// files had these contents as of open and are appended to at most, every file can be
/// opened, and reads bring what the files hold or are interrupted.
pub open spec fn may_step(
    before: ReaderView,
    after: ReaderView,
    step: StepView<Seq<u8>>,
    segments: Seq<Seq<u8>>,
) -> bool {
    match before.waiting {
        Waiting::Call => (after, step) == before.next(),
        Waiting::File => (after, step) == before.opened(Ok(())),
        Waiting::Bytes => exists|outcome: Result<Vec<u8>, IoError>|
            (after, step) == #[trigger] before.received(outcome) && match outcome {
                Ok(chunk) => honest(before, segments, chunk@),
                Err(e) => e.kind == IoErrorKind::Interrupted,
            },
    }
}

/// Whether the frame of `record` is at `offset` in segment `index`.
pub open spec fn is_at(
    segments: Seq<Seq<u8>>,
    index: int,
    offset: int,
    record: Seq<u8>,
) -> bool {
    &&& 0 <= index < segments.len()
    &&& 0 <= offset < segments[index].len()
    &&& judge(segments[index].skip(offset)) == (Verdict::Record { payload: record })
}

/// Where a reader that has yielded an item says that its frame began is where it is.
pub proof fn law_item_is_where_it_began(
    before: ReaderView,
    after: ReaderView,
    item: Seq<u8>,
    segments: Seq<Seq<u8>>,
)
    requires
        follows(before, segments),
        may_step(before, after, StepView::Item { item }, segments),
    ensures
        is_at(segments, after.index, after.frame_start as int, item),
{
    let step = StepView::Item { item };
    assert(before.waiting == Waiting::Bytes);
    let outcome = choose|outcome: Result<Vec<u8>, IoError>|
        (after, step) == #[trigger] before.received(outcome) && match outcome {
            Ok(chunk) => honest(before, segments, chunk@),
            Err(e) => e.kind == IoErrorKind::Interrupted,
        };
    let chunk = brought(outcome);
    let now = choose|now: Seq<u8>|
        grew(segments[before.index], now) && #[trigger] is_portion(before, now, chunk);
    law_growth_is_not_seen(before, segments, now, chunk);
    lemma_gathered_is_prefix(before, segments, chunk);
    lemma_judge_prefix(before.gathered + chunk, segments[before.index].skip(before.offset as int));
}

/// Whether `states` is a course that a reader of `files`, with these contents as of
/// open, may take from the start, saying `steps` on the way.
pub open spec fn is_run(
    files: Seq<String>,
    segments: Seq<Seq<u8>>,
    states: Seq<ReaderView>,
    steps: Seq<StepView<Seq<u8>>>,
) -> bool {
    &&& files.len() == segments.len()
    &&& countable(segments)
    &&& states.len() == steps.len() + 1
    &&& states[0] == ReaderView::at_start(files, lengths(segments))
    &&& forall|i: int|
        0 <= i < steps.len() ==> may_step(states[i], states[i + 1], #[trigger] steps[i], segments)
}

/// The items among `steps`.
pub open spec fn items(steps: Seq<StepView<Seq<u8>>>) -> Seq<Seq<u8>>
    decreases steps.len(),
{
    if steps.len() == 0 {
        Seq::empty()
    } else {
        match steps.last() {
            StepView::Item { item } => items(steps.drop_last()).push(item),
            _ => items(steps.drop_last()),
        }
    }
}

/// All but the last step of a run are a run, and lead to that step.
proof fn lemma_run_before(
    files: Seq<String>,
    segments: Seq<Seq<u8>>,
    states: Seq<ReaderView>,
    steps: Seq<StepView<Seq<u8>>>,
)
    requires
        is_run(files, segments, states, steps),
        steps.len() > 0,
    ensures
        is_run(files, segments, states.drop_last(), steps.drop_last()),
        states.drop_last().last() == states[steps.len() - 1],
        states.last() == states[steps.len() as int],
        steps.last() == steps[steps.len() - 1],
        may_step(
            states[steps.len() - 1],
            states[steps.len() as int],
            steps[steps.len() - 1],
            segments,
        ),
{
    let done = steps.drop_last();
    assert forall|i: int| 0 <= i < done.len() implies may_step(
        states.drop_last()[i],
        states.drop_last()[i + 1],
        #[trigger] done[i],
        segments,
    ) by {
        assert(done[i] == steps[i]);
    }
    let n = steps.len() - 1;
    assert(may_step(states[n], states[n + 1], steps[n], segments));
}

/// A step that the reader may take says what the log says next.
pub proof fn law_step_says_next(
    before: ReaderView,
    after: ReaderView,
    step: StepView<Seq<u8>>,
    segments: Seq<Seq<u8>>,
)
    requires
        follows(before, segments),
        may_step(before, after, step, segments),
    ensures
        follows(after, segments),
        after.files == before.files,
        says_next(before, after, step, segments),
{
    match before.waiting {
        Waiting::Call => law_next_says_next(before, segments),
        Waiting::File => law_opened_says_next(before, segments),
        Waiting::Bytes => {
            let outcome = choose|outcome: Result<Vec<u8>, IoError>|
                (after, step) == #[trigger] before.received(outcome) && match outcome {
                    Ok(chunk) => honest(before, segments, chunk@),
                    Err(e) => e.kind == IoErrorKind::Interrupted,
                };
            match outcome {
                Ok(_) => law_received_says_next(before, segments, outcome),
                Err(_) => law_reader_asks_within_bounds(before),
            }
        },
    }
}

/// As long as no error has come, what has been yielded and what is left make up the
/// whole log.
pub proof fn law_run_loses_nothing(
    files: Seq<String>,
    segments: Seq<Seq<u8>>,
    states: Seq<ReaderView>,
    steps: Seq<StepView<Seq<u8>>>,
)
    requires
        is_run(files, segments, states, steps),
        forall|i: int| 0 <= i < steps.len() ==> !(#[trigger] steps[i] is Failed),
    ensures
        follows(states.last(), segments),
        states.last().files == files,
        read_from(segments, 0, 0) == preceded(items(steps), left(states.last(), segments)),
    decreases steps.len(),
{
    let whole = read_from(segments, 0, 0);
    if steps.len() == 0 {
        law_new_reader_has_it_all(files, segments);
        assert(preceded(items(steps), whole) =~= whole);
    } else {
        let n = steps.len() - 1;
        let done = steps.drop_last();
        let after = states[n + 1];
        lemma_run_before(files, segments, states, steps);
        assert forall|i: int| 0 <= i < done.len() implies !(#[trigger] done[i] is Failed) by {
            assert(done[i] == steps[i]);
        }
        law_run_loses_nothing(files, segments, states.drop_last(), done);
        law_step_says_next(states[n], after, steps[n], segments);
        match steps[n] {
            StepView::Item { item } => {
                assert(preceded(items(done), preceded(seq![item], left(after, segments)))
                    =~= preceded(items(steps), left(after, segments)));
            },
            _ => {},
        }
    }
}

/// A reader that is called until it has nothing more to say has yielded the log: its
/// items are the records of the log, in order, none left out; the end comes after a
/// log that ends cleanly, and an error reports the damage in which it ends.
pub proof fn law_run_yields_the_log(
    files: Seq<String>,
    segments: Seq<Seq<u8>>,
    states: Seq<ReaderView>,
    steps: Seq<StepView<Seq<u8>>>,
)
    requires
        is_run(files, segments, states, steps),
        steps.len() > 0,
        forall|i: int| 0 <= i < steps.len() - 1 ==> !(#[trigger] steps[i] is Failed),
        steps.last() is End || steps.last() is Failed,
    ensures
        items(steps) == read_from(segments, 0, 0).records,
        steps.last() is End <==> read_from(segments, 0, 0).ending is Clean,
        steps.last() matches StepView::Failed { error } ==> reports(
            error,
            files,
            read_from(segments, 0, 0).ending,
        ),
{
    let n = steps.len() - 1;
    let done = steps.drop_last();
    lemma_run_before(files, segments, states, steps);
    assert forall|i: int| 0 <= i < done.len() implies !(#[trigger] done[i] is Failed) by {
        assert(done[i] == steps[i]);
    }
    law_run_loses_nothing(files, segments, states.drop_last(), done);
    law_step_says_next(states[n], states[n + 1], steps[n], segments);
    assert(read_from(segments, 0, 0).records =~= items(steps));
}

/// Whether the reader of texts may go from `before` to `after`, with `text` to say.
pub open spec fn may_step_in_text(
    before: ReaderView,
    after: ReaderView,
    text: StepView<Seq<char>>,
    segments: Seq<Seq<u8>>,
) -> bool {
    exists|step: StepView<Seq<u8>>| #[trigger]
        may_step(before, after, step, segments) && decodes(after, step, text)
}

/// Whether `states` is a course that a reader of `files`, with these contents as of
/// open, may take from the start, saying `texts` on the way.
pub open spec fn is_text_run(
    files: Seq<String>,
    segments: Seq<Seq<u8>>,
    states: Seq<ReaderView>,
    texts: Seq<StepView<Seq<char>>>,
) -> bool {
    &&& files.len() == segments.len()
    &&& countable(segments)
    &&& states.len() == texts.len() + 1
    &&& states[0] == ReaderView::at_start(files, lengths(segments))
    &&& forall|i: int|
        0 <= i < texts.len() ==> may_step_in_text(
            states[i],
            states[i + 1],
            #[trigger] texts[i],
            segments,
        )
}

/// Reading texts is reading records and decoding them one by one: beside the run over
/// texts there is one over records, through the same states, of which each text is the
/// decoded step.
pub proof fn law_texts_are_records_decoded(
    files: Seq<String>,
    segments: Seq<Seq<u8>>,
    states: Seq<ReaderView>,
    texts: Seq<StepView<Seq<char>>>,
) -> (steps: Seq<StepView<Seq<u8>>>)
    requires
        is_text_run(files, segments, states, texts),
    ensures
        is_run(files, segments, states, steps),
        steps.len() == texts.len(),
        forall|i: int|
            0 <= i < texts.len() ==> decodes(states[i + 1], #[trigger] steps[i], texts[i]),
{
    let steps = Seq::new(
        texts.len(),
        |i: int|
            choose|step: StepView<Seq<u8>>| #[trigger]
                may_step(states[i], states[i + 1], step, segments) && decodes(
                    states[i + 1],
                    step,
                    texts[i],
                ),
    );
    assert forall|i: int| 0 <= i < texts.len() implies may_step(
        states[i],
        states[i + 1],
        #[trigger] steps[i],
        segments,
    ) && decodes(states[i + 1], steps[i], texts[i]) by {
        assert(may_step_in_text(states[i], states[i + 1], texts[i], segments));
    }
    steps
}

/// What is yielded among `steps`: the items, the errors and the end.
pub open spec fn yields<V>(steps: Seq<StepView<V>>) -> Seq<StepView<V>>
    decreases steps.len(),
{
    if steps.len() == 0 {
        Seq::empty()
    } else if steps.last() is Read || steps.last() is Open {
        yields(steps.drop_last())
    } else {
        yields(steps.drop_last()).push(steps.last())
    }
}

/// What a reader of `files`, which say `whole` as of open, is to yield the `k`-th time
/// that it is asked, counted from zero: the records first, after them the error that
/// reports the damage in which the log ends, if it does, and the end for ever.
pub open spec fn said(files: Seq<String>, whole: Reading, k: int) -> StepView<Seq<u8>> {
    if k < whole.records.len() {
        StepView::Item { item: whole.records[k] }
    } else {
        match whole.ending {
            Ending::Damaged { index, offset, damage } if k == whole.records.len() => {
                StepView::Failed { error: damage_error(files, index, offset, damage) }
            },
            _ => StepView::End,
        }
    }
}

/// What is left of a log when so many things have been yielded.
pub open spec fn after_yields(whole: Reading, count: int) -> Reading {
    if count <= whole.records.len() {
        Reading { records: whole.records.skip(count), ending: whole.ending }
    } else {
        nothing()
    }
}

/// A step that says what the log says next yields what is to be yielded.
proof fn lemma_next_is_said(
    files: Seq<String>,
    whole: Reading,
    count: int,
    step: StepView<Seq<u8>>,
    rest: Reading,
)
    requires
        count >= 0,
        ({
            let before = after_yields(whole, count);
            match step {
                StepView::Item { item } => before == preceded(seq![item], rest),
                StepView::Failed { error } => before.records.len() == 0 && reports(
                    error,
                    files,
                    before.ending,
                ) && rest == nothing(),
                StepView::End => before == nothing() && rest == nothing(),
                _ => rest == before,
            }
        }),
    ensures
        rest == after_yields(
            whole,
            if step is Read || step is Open {
                count
            } else {
                count + 1
            },
        ),
        step is Read || step is Open || step == said(files, whole, count),
{
    let before = after_yields(whole, count);
    if let StepView::Item { item } = step {
        assert(before.records[0] == item);
        assert(rest.records =~= before.records.skip(1));
        assert(before.records.skip(1) =~= whole.records.skip(count + 1));
    }
}

/// Whatever portions a reader gets, and however often it is asked, each time it yields
/// what is to be yielded.
pub proof fn law_run_says_the_log(
    files: Seq<String>,
    segments: Seq<Seq<u8>>,
    states: Seq<ReaderView>,
    steps: Seq<StepView<Seq<u8>>>,
)
    requires
        is_run(files, segments, states, steps),
    ensures
        follows(states.last(), segments),
        states.last().files == files,
        left(states.last(), segments) == after_yields(
            read_from(segments, 0, 0),
            yields(steps).len() as int,
        ),
        forall|k: int|
            0 <= k < yields(steps).len() ==> #[trigger] yields(steps)[k] == said(
                files,
                read_from(segments, 0, 0),
                k,
            ),
    decreases steps.len(),
{
    let whole = read_from(segments, 0, 0);
    if steps.len() == 0 {
        law_new_reader_has_it_all(files, segments);
        assert(whole.records.skip(0) =~= whole.records);
    } else {
        let n = steps.len() - 1;
        let done = steps.drop_last();
        lemma_run_before(files, segments, states, steps);
        law_run_says_the_log(files, segments, states.drop_last(), done);
        law_step_says_next(states[n], states[n + 1], steps[n], segments);
        lemma_next_is_said(
            files,
            whole,
            yields(done).len() as int,
            steps[n],
            left(states[n + 1], segments),
        );
    }
}

/// Whether `text` is what the reader of texts yields where the reader of records
/// yields `step`: the text of a record, or, where it is not UTF-8, the error that says
/// so, names the file and the offset of its frame, and holds its bytes; and the same
/// error or end.
pub open spec fn reads_as(
    files: Seq<String>,
    segments: Seq<Seq<u8>>,
    step: StepView<Seq<u8>>,
    text: StepView<Seq<char>>,
) -> bool {
    match step {
        StepView::Item { item } => if valid_utf8(item) {
            text == (StepView::Item { item: decode_utf8(item) })
        } else {
            text matches StepView::Failed {
                error: ReadError::InvalidUtf8 { path, offset, source },
            } && bytes_held(source) == item && exists|index: int|
                path == files[index] && #[trigger] is_at(segments, index, offset as int, item)
        },
        StepView::Failed { error } => text == (StepView::<Seq<char>>::Failed { error }),
        _ => text is End,
    }
}

/// What is yielded among texts is what is yielded among the steps that they decode.
proof fn lemma_yields_decode(
    files: Seq<String>,
    segments: Seq<Seq<u8>>,
    states: Seq<ReaderView>,
    steps: Seq<StepView<Seq<u8>>>,
    texts: Seq<StepView<Seq<char>>>,
)
    requires
        is_run(files, segments, states, steps),
        steps.len() == texts.len(),
        forall|i: int|
            0 <= i < texts.len() ==> decodes(states[i + 1], #[trigger] steps[i], texts[i]),
    ensures
        yields(texts).len() == yields(steps).len(),
        forall|k: int|
            0 <= k < yields(texts).len() ==> reads_as(
                files,
                segments,
                yields(steps)[k],
                #[trigger] yields(texts)[k],
            ),
    decreases steps.len(),
{
    if steps.len() > 0 {
        let n = steps.len() - 1;
        let done = steps.drop_last();
        lemma_run_before(files, segments, states, steps);
        assert forall|i: int| 0 <= i < n implies decodes(
            states.drop_last()[i + 1],
            #[trigger] done[i],
            texts.drop_last()[i],
        ) by {
            assert(done[i] == steps[i]);
        }
        lemma_yields_decode(files, segments, states.drop_last(), done, texts.drop_last());
        law_run_says_the_log(files, segments, states.drop_last(), done);
        assert(decodes(states[n + 1], steps[n], texts[n]));
        law_step_says_next(states[n], states[n + 1], steps[n], segments);
        if let StepView::Item { item } = steps[n] {
            law_item_is_where_it_began(states[n], states[n + 1], item, segments);
        }
    }
}

/// Whatever portions a reader of texts gets, and however often it is asked, each time
/// it yields what is to be yielded, decoded.
pub proof fn law_text_run_says_the_log(
    files: Seq<String>,
    segments: Seq<Seq<u8>>,
    states: Seq<ReaderView>,
    texts: Seq<StepView<Seq<char>>>,
)
    requires
        is_text_run(files, segments, states, texts),
    ensures
        forall|k: int|
            0 <= k < yields(texts).len() ==> reads_as(
                files,
                segments,
                said(files, read_from(segments, 0, 0), k),
                #[trigger] yields(texts)[k],
            ),
{
    let steps = law_texts_are_records_decoded(files, segments, states, texts);
    lemma_yields_decode(files, segments, states, steps, texts);
    law_run_says_the_log(files, segments, states, steps);
    assert forall|k: int| 0 <= k < yields(texts).len() implies reads_as(
        files,
        segments,
        said(files, read_from(segments, 0, 0), k),
        #[trigger] yields(texts)[k],
    ) by {
        assert(yields(steps)[k] == said(files, read_from(segments, 0, 0), k));
    }
}

/// A reader of texts and a reader of records of the same files, opened alike, go
/// together: what the one yields the `k`-th time is what the other yields the `k`-th
/// time, decoded.
pub proof fn law_texts_and_records_go_together(
    files: Seq<String>,
    segments: Seq<Seq<u8>>,
    states: Seq<ReaderView>,
    steps: Seq<StepView<Seq<u8>>>,
    text_states: Seq<ReaderView>,
    texts: Seq<StepView<Seq<char>>>,
    k: int,
)
    requires
        is_run(files, segments, states, steps),
        is_text_run(files, segments, text_states, texts),
        0 <= k < yields(steps).len(),
        k < yields(texts).len(),
    ensures
        reads_as(files, segments, yields(steps)[k], yields(texts)[k]),
{
    law_run_says_the_log(files, segments, states, steps);
    law_text_run_says_the_log(files, segments, text_states, texts);
    let due = said(files, read_from(segments, 0, 0), k);
    assert(yields(steps)[k] == due);
    assert(reads_as(files, segments, due, yields(texts)[k]));
}

} // verus!
