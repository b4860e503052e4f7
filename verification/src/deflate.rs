//! A DEFLATE stream, inflated piece by piece into a window.
//!
//! The decompressor itself is miniz_oxide's. It writes into a window of at
//! least 32 KiB, which it also reads back to resolve references to earlier
//! output. [`Stream`] moves through the window as through a ring: the
//! decompressor writes from the head to the end of the window at most, a
//! head that has reached the end goes back to the start, and what was
//! written since the last report is handed out as one slice of the window.

use vstd::prelude::*;

use crate::utils::is_tail;
use miniz_oxide::inflate::TINFLStatus;

verus! {

/// The smallest window: the longest distance that DEFLATE can refer back.
pub const WINDOW_SIZE: usize = 32_768;

/// The flag that tells the decompressor that the input it is given may not
/// be all there is.
pub const FLAG_HAS_MORE_INPUT: u32 = 2;

#[verifier::external_type_specification]
#[verifier::external_body]
pub struct ExDecompressorOxide(miniz_oxide::inflate::core::DecompressorOxide);

/// `DecompressorOxide::new` of miniz_oxide: a decompressor at the start of a
/// stream. Nothing is claimed of it.
pub assume_specification[ miniz_oxide::inflate::core::DecompressorOxide::new ]() -> (decomp: miniz_oxide::inflate::core::DecompressorOxide)
;

/// `DecompressorOxide::init` of miniz_oxide: puts a decompressor back to the
/// start of a stream. Nothing is claimed of it.
pub assume_specification[ miniz_oxide::inflate::core::DecompressorOxide::init ](decomp: &mut miniz_oxide::inflate::core::DecompressorOxide)
;

/// What `miniz_oxide::inflate::core::decompress` makes of its arguments: of
/// a decompressor, input, a window, the head in the window and flags. It is
/// the run, the window as the run leaves it, and the decompressor as the run
/// leaves it. What these are is the decompressor's business; that they are
/// the same whenever the arguments are is all that is said of them here.
pub uninterp spec fn inflated(
    decoder: miniz_oxide::inflate::core::DecompressorOxide,
    input: Seq<u8>,
    window: Seq<u8>,
    out_pos: usize,
    flags: u32,
) -> (Round, Seq<u8>, miniz_oxide::inflate::core::DecompressorOxide);

/// How a run of the decompressor ended.
#[derive(Debug, Clone, Copy, PartialEq, Eq)]
pub enum Status {
    FailedCannotMakeProgress,
    BadParam,
    Adler32Mismatch,
    Failed,
    Done,
    NeedsMoreInput,
    HasMoreOutput,
}

/// What one run of the decompressor did.
#[derive(Debug, Clone, Copy, PartialEq, Eq)]
pub struct Round {
    pub status: Status,
    /// The number of input bytes that the run took.
    pub in_consumed: usize,
    /// The number of bytes that the run wrote, from the head on.
    pub out_produced: usize,
}

/// Why a stream cannot be inflated any further.
#[derive(Debug, Clone, Copy, PartialEq, Eq)]
pub enum InflateError {
    FailedCannotMakeProgress,
    BadParam,
    Adler32Mismatch,
    Failed,
    /// The stream is longer than this machine can count.
    TooLong,
}

/// Where a stream stands after it was fed.
#[derive(Eq, Debug, Clone, Copy, PartialEq)]
pub enum State<'i, 'o> {
    /// Bytes came out. `output` is a slice of the window and holds until
    /// the stream is fed again.
    HasOutput { unparsed_input: &'i [u8], output: &'o [u8] },
    /// All input was taken and the stream goes on.
    NeedsInput { unparsed_input: &'i [u8] },
    /// The stream has ended; `unparsed_input` is what follows it.
    Stop { unparsed_input: &'i [u8] },
}

/// An error of [`Stream::try_inner_iter`]: the callback's or the stream's.
#[derive(Debug)]
pub enum InnerIterError<E> {
    UserErr(E),
    IterErr(InflateError),
}

/// Which of its three states a fed stream is in, or why it is in none.
#[derive(Debug, Clone, Copy, PartialEq, Eq)]
pub enum Verdict {
    HasOutput,
    NeedsInput,
    Stop,
    Fail(InflateError),
}

/// An inflating stream as a mathematical value.
pub struct StreamView {
    pub window: Seq<u8>,
    /// The head: where the decompressor writes next.
    pub out_pos: nat,
    /// Where the output that was reported last starts.
    pub last_out_pos: nat,
    pub flags: u32,
    /// The number of bytes written since the stream began.
    pub uncomp_size: nat,
    /// The number of bytes read since the stream began.
    pub comp_size: nat,
    /// Output was reported and the stream was not fed since.
    pub had_output: bool,
    /// The decompressor as the last feed left it. A stream that was never
    /// fed has none to speak of: nothing is known of a decompressor that
    /// was just made.
    pub decoder: Option<miniz_oxide::inflate::core::DecompressorOxide>,
}

impl StreamView {
    /// The window is as long as DEFLATE may refer back, and the head and
    /// the start of the last report lie inside it.
    pub open spec fn wf(self) -> bool {
        &&& WINDOW_SIZE <= self.window.len()
        &&& self.out_pos < self.window.len() <= usize::MAX
        &&& self.last_out_pos < self.window.len()
        &&& self.uncomp_size <= usize::MAX
        &&& self.comp_size <= usize::MAX
    }

    /// The bytes to report: from the start of the last report to the head,
    /// or to the end of the window where the head is not ahead.
    pub open spec fn output(self) -> Seq<u8> {
        if self.last_out_pos < self.out_pos {
            self.window.subrange(self.last_out_pos as int, self.out_pos as int)
        } else {
            self.window.subrange(self.last_out_pos as int, self.window.len() as int)
        }
    }

    /// The stream once the output reported last is taken note of: the next
    /// report starts at the head.
    pub open spec fn acknowledged(self) -> StreamView {
        if self.had_output {
            StreamView { had_output: false, last_out_pos: self.out_pos, ..self }
        } else {
            self
        }
    }

    /// A run that is possible on `input_len` bytes of input: it took no more
    /// input than there was, and wrote inside the window.
    pub open spec fn admits(self, input_len: nat, round: Round) -> bool {
        &&& round.in_consumed <= input_len
        &&& self.out_pos + round.out_produced <= self.window.len()
    }

    /// The counters cannot take what `round` adds to them.
    pub open spec fn overflows(self, round: Round) -> bool {
        self.comp_size + round.in_consumed > usize::MAX || self.uncomp_size + round.out_produced
            > usize::MAX
    }

    /// Bytes were written that no output has reported: a run that asks for
    /// more input reports none.
    pub open spec fn has_pending(self) -> bool {
        !self.had_output && self.last_out_pos != self.out_pos
    }

    /// A bound on the number of outputs that the stream can still report:
    /// every output reports bytes that were written, and the stream cannot
    /// write more than this machine can count.
    pub open spec fn outputs_left(self) -> nat {
        (2 * (usize::MAX - self.uncomp_size) + (if self.has_pending() {
            1int
        } else {
            0int
        })) as nat
    }

    /// What a run means for the caller. A run that ends the stream has
    /// output to report if it wrote something or found something written
    /// and not reported; the end is reported by the run after it, which
    /// writes nothing.
    pub open spec fn verdict(self, round: Round) -> Verdict {
        if self.overflows(round) {
            Verdict::Fail(InflateError::TooLong)
        } else {
            match round.status {
                Status::Done => if round.out_produced == 0 && !self.has_pending() {
                    Verdict::Stop
                } else {
                    Verdict::HasOutput
                },
                Status::NeedsMoreInput => Verdict::NeedsInput,
                Status::HasMoreOutput => Verdict::HasOutput,
                Status::FailedCannotMakeProgress => Verdict::Fail(
                    InflateError::FailedCannotMakeProgress,
                ),
                Status::BadParam => Verdict::Fail(InflateError::BadParam),
                Status::Adler32Mismatch => Verdict::Fail(InflateError::Adler32Mismatch),
                Status::Failed => Verdict::Fail(InflateError::Failed),
            }
        }
    }

    /// The stream after a run that left the window as `window`: the
    /// counters grow by what the run took and wrote, the head moves on by
    /// what it wrote and goes back to the start where it has reached the
    /// end of the window.
    pub open spec fn settled(self, window: Seq<u8>, round: Round) -> StreamView {
        if self.overflows(round) {
            StreamView { window, ..self }
        } else {
            StreamView {
                window,
                out_pos: if self.out_pos + round.out_produced == self.window.len() {
                    0
                } else {
                    (self.out_pos + round.out_produced) as nat
                },
                last_out_pos: self.last_out_pos,
                flags: self.flags,
                uncomp_size: (self.uncomp_size + round.out_produced) as nat,
                comp_size: (self.comp_size + round.in_consumed) as nat,
                had_output: self.had_output || self.verdict(round) is HasOutput,
                decoder: self.decoder,
            }
        }
    }
}

/// What feeding a stream once did to it: the run of the decompressor, and
/// the window and the decompressor as the run left them.
pub struct Feed {
    pub round: Round,
    pub window: Seq<u8>,
    pub decoder: miniz_oxide::inflate::core::DecompressorOxide,
}

impl StreamView {
    /// The run of a feed fits the window: the window keeps its length, the
    /// run wrote inside it, a run that asks for more input has left room in
    /// it, and a run that has more output has filled it to its end.
    pub open spec fn fits(self, feed: Feed) -> bool {
        let now = self.acknowledged();
        &&& feed.window.len() == self.window.len()
        &&& now.out_pos + feed.round.out_produced <= self.window.len()
        &&& feed.round.status is NeedsMoreInput ==> now.out_pos + feed.round.out_produced
            < self.window.len()
        &&& feed.round.status is HasMoreOutput ==> now.out_pos + feed.round.out_produced
            == self.window.len()
    }

    /// The feed that the decompressor `decoder` makes of `input`, for this
    /// stream's window, head and flags.
    pub open spec fn feed_of(
        self,
        decoder: miniz_oxide::inflate::core::DecompressorOxide,
        input: Seq<u8>,
    ) -> Feed {
        let now = self.acknowledged();
        let made = inflated(decoder, input, now.window, now.out_pos as usize, now.flags);
        Feed { round: made.0, window: made.1, decoder: made.2 }
    }

    /// The feed is what the decompressor makes of `input`: the stream's own
    /// decompressor, or, for a stream that was never fed, the one that was
    /// made for it.
    pub open spec fn gives(self, input: Seq<u8>, feed: Feed) -> bool {
        match self.decoder {
            Some(decoder) => feed == self.feed_of(decoder, input),
            None => exists|decoder: miniz_oxide::inflate::core::DecompressorOxide|
                feed == #[trigger] self.feed_of(decoder, input),
        }
    }

    /// The feed of a stream that is given `input`: it is what the
    /// decompressor makes of the input, its run took no more input than
    /// there was and all of it where it asks for more, and it fits the
    /// window.
    pub open spec fn can_feed(self, input: Seq<u8>, feed: Feed) -> bool {
        &&& self.gives(input, feed)
        &&& self.fits(feed)
        &&& feed.round.in_consumed <= input.len()
        &&& feed.round.status is NeedsMoreInput ==> feed.round.in_consumed == input.len()
    }

    /// The stream after a feed.
    pub open spec fn fed(self, feed: Feed) -> StreamView {
        StreamView {
            decoder: Some(feed.decoder),
            ..self.acknowledged().settled(feed.window, feed.round)
        }
    }

    /// What a feed means for the caller.
    pub open spec fn feed_verdict(self, feed: Feed) -> Verdict {
        self.acknowledged().verdict(feed.round)
    }
}

/// The number of input bytes that the runs of `feeds` took.
pub open spec fn taken_by(feeds: Seq<Feed>) -> nat
    decreases feeds.len(),
{
    if feeds.len() == 0 {
        0
    } else {
        feeds[0].round.in_consumed as nat + taken_by(feeds.skip(1))
    }
}

/// The number of bytes that the runs of `feeds` wrote.
pub open spec fn written_by(feeds: Seq<Feed>) -> nat
    decreases feeds.len(),
{
    if feeds.len() == 0 {
        0
    } else {
        feeds[0].round.out_produced as nat + written_by(feeds.skip(1))
    }
}

impl StreamView {
    /// The stream after `feeds`, one after the other.
    pub open spec fn fed_all(self, feeds: Seq<Feed>) -> StreamView
        decreases feeds.len(),
    {
        if feeds.len() == 0 {
            self
        } else {
            self.fed(feeds[0]).fed_all(feeds.skip(1))
        }
    }
}

impl StreamView {
    /// What becomes of a stream that is fed `input` again and again, as
    /// long as it has output, for the feeds `feeds`: the stream at the end,
    /// what the last feed meant, and the input that is left over. There is
    /// no result unless the feeds are such that the stream can take one
    /// after the other, all but the last give output, and the last does
    /// not.
    pub open spec fn iterated(self, input: Seq<u8>, feeds: Seq<Feed>) -> Option<
        (StreamView, Verdict, Seq<u8>),
    >
        decreases feeds.len(),
    {
        if feeds.len() == 0 || !self.can_feed(input, feeds[0]) {
            None
        } else if self.feed_verdict(feeds[0]) is HasOutput {
            self.fed(feeds[0]).iterated(input.skip(feeds[0].round.in_consumed as int), feeds.skip(1))
        } else if feeds.len() == 1 {
            Some(
                (
                    self.fed(feeds[0]),
                    self.feed_verdict(feeds[0]),
                    input.skip(feeds[0].round.in_consumed as int),
                ),
            )
        } else {
            None
        }
    }
}

/// A result of feeding a stream until it has no more output is the one
/// that `iterated` asks for.
pub open spec fn iteration_reports(
    r: Result<State<'_, '_>, InflateError>,
    iterated: Option<(StreamView, Verdict, Seq<u8>)>,
    now: StreamView,
) -> bool {
    match iterated {
        Some((stream, verdict, rest)) => stream == now && match r {
            Ok(State::HasOutput { .. }) => false,
            Ok(State::NeedsInput { unparsed_input }) => verdict is NeedsInput && unparsed_input@
                == rest,
            Ok(State::Stop { unparsed_input }) => verdict is Stop && unparsed_input@ == rest,
            Err(e) => verdict == Verdict::Fail(e),
        },
        None => false,
    }
}

/// Feeding a stream once more after some feeds is feeding it all of them.
pub proof fn lemma_fed_all_push(stream: StreamView, feeds: Seq<Feed>, feed: Feed)
    ensures
        stream.fed_all(feeds.push(feed)) == stream.fed_all(feeds).fed(feed),
    decreases feeds.len(),
{
    let all = feeds.push(feed);
    if feeds.len() == 0 {
        assert(all[0] == feed);
        assert(all.skip(1) =~= Seq::<Feed>::empty());
        assert(stream.fed(feed).fed_all(all.skip(1)) == stream.fed(feed));
        assert(stream.fed_all(feeds) == stream);
    } else {
        assert(all[0] == feeds[0]);
        assert(all.skip(1) =~= feeds.skip(1).push(feed));
        lemma_fed_all_push(stream.fed(feeds[0]), feeds.skip(1), feed);
    }
}

/// Feeding a stream that has output, and then going on, is going on from
/// the stream that was fed.
pub proof fn lemma_iterated_step(stream: StreamView, input: Seq<u8>, feed: Feed, more: Seq<Feed>)
    requires
        stream.can_feed(input, feed),
    ensures
        stream.feed_verdict(feed) is HasOutput ==> stream.iterated(input, seq![feed] + more)
            == stream.fed(feed).iterated(input.skip(feed.round.in_consumed as int), more),
        !(stream.feed_verdict(feed) is HasOutput) ==> stream.iterated(input, seq![feed]) == Some(
            (stream.fed(feed), stream.feed_verdict(feed), input.skip(feed.round.in_consumed as int)),
        ),
{
    assert((seq![feed] + more)[0] == feed);
    assert((seq![feed] + more).skip(1) =~= more);
}

/// A stream that was fed before has one feed for each input: its
/// decompressor and the input decide the run, the window and the
/// decompressor that follow.
pub proof fn lemma_one_feed(stream: StreamView, input: Seq<u8>, a: Feed, b: Feed)
    requires
        stream.decoder is Some,
        stream.can_feed(input, a),
        stream.can_feed(input, b),
    ensures
        a == b,
{
}

/// Output is never empty: whatever a stream has to report holds a byte at
/// least.
pub proof fn lemma_output_never_empty(stream: StreamView)
    requires
        stream.wf(),
    ensures
        stream.output().len() > 0,
{
}

/// The counters of a stream count what went in and what came out: after
/// any feeds that the counters can take, whatever their runs said, the
/// stream has read as many bytes more as the runs took, and has written as
/// many bytes more as they wrote. That holds in particular once the stream
/// has stopped.
pub proof fn lemma_size_accounting(stream: StreamView, feeds: Seq<Feed>)
    requires
        stream.comp_size + taken_by(feeds) <= usize::MAX,
        stream.uncomp_size + written_by(feeds) <= usize::MAX,
    ensures
        stream.fed_all(feeds).comp_size == stream.comp_size + taken_by(feeds),
        stream.fed_all(feeds).uncomp_size == stream.uncomp_size + written_by(feeds),
    decreases feeds.len(),
{
    if feeds.len() > 0 {
        lemma_size_accounting(stream.fed(feeds[0]), feeds.skip(1));
    }
}

impl StreamView {
    /// The start of a report that is still owed is not ahead of the head.
    pub open spec fn in_order(self) -> bool {
        !self.had_output ==> self.last_out_pos <= self.out_pos
    }

    /// The number of bytes that were written and that no output has
    /// reported yet.
    pub open spec fn pending(self) -> nat {
        if self.had_output || self.out_pos < self.last_out_pos {
            0
        } else {
            (self.out_pos - self.last_out_pos) as nat
        }
    }

    /// The stream can take `feeds` one after the other: each fits the
    /// window, and none fails.
    pub open spec fn takes(self, feeds: Seq<Feed>) -> bool
        decreases feeds.len(),
    {
        feeds.len() > 0 ==> {
            &&& self.fits(feeds[0])
            &&& !(self.feed_verdict(feeds[0]) is Fail)
            &&& self.fed(feeds[0]).takes(feeds.skip(1))
        }
    }

    /// The number of bytes in the outputs that the stream reports while it
    /// is fed `feeds`.
    pub open spec fn reported_by(self, feeds: Seq<Feed>) -> nat
        decreases feeds.len(),
    {
        if feeds.len() == 0 {
            0
        } else {
            let now = self.fed(feeds[0]);
            let here = if self.feed_verdict(feeds[0]) is HasOutput {
                now.output().len()
            } else {
                0
            };
            here + now.reported_by(feeds.skip(1))
        }
    }
}

/// The outputs that a stream reports add up to what it wrote: after any
/// feeds that the stream can take, the bytes written and not yet reported
/// are the bytes that it has written less those of the outputs. Once the
/// stream has stopped nothing is left to report, so the count of bytes
/// written is the sum of the outputs; for a new stream that is all it has
/// ever written.
pub proof fn lemma_outputs_add_up(stream: StreamView, feeds: Seq<Feed>)
    requires
        stream.wf(),
        stream.in_order(),
        stream.takes(feeds),
    ensures
        stream.fed_all(feeds).wf(),
        stream.fed_all(feeds).in_order(),
        stream.fed_all(feeds).uncomp_size - stream.fed_all(feeds).pending() == stream.uncomp_size
            - stream.pending() + stream.reported_by(feeds),
        feeds.len() > 0 && stream.fed_all(feeds.drop_last()).feed_verdict(feeds.last()) is Stop
            ==> stream.fed_all(feeds).uncomp_size == stream.uncomp_size - stream.pending()
            + stream.reported_by(feeds),
    decreases feeds.len(),
{
    if feeds.len() > 0 {
        let now = stream.fed(feeds[0]);
        let rest = feeds.skip(1);
        lemma_outputs_add_up(now, rest);
        if rest.len() == 0 {
            assert(feeds.drop_last() =~= Seq::<Feed>::empty());
            assert(stream.fed_all(feeds.drop_last()) == stream);
        } else {
            assert(feeds.drop_last().skip(1) =~= rest.drop_last());
            assert(feeds.drop_last()[0] == feeds[0]);
            assert(stream.fed_all(feeds.drop_last()) == now.fed_all(rest.drop_last()));
            assert(feeds.last() == rest.last());
        }
    }
}

/// The result of feeding `input` is the one that `verdict` asks for: with
/// the input that `in_consumed` bytes leave over, and with the output of the
/// stream as it is now.
pub open spec fn reports(
    r: Result<State<'_, '_>, InflateError>,
    input: Seq<u8>,
    in_consumed: usize,
    verdict: Verdict,
    now: StreamView,
) -> bool {
    match r {
        Ok(State::HasOutput { unparsed_input, output }) => {
            &&& verdict is HasOutput
            &&& unparsed_input@ == input.skip(in_consumed as int)
            &&& output@ == now.output()
        },
        Ok(State::NeedsInput { unparsed_input }) => {
            &&& verdict is NeedsInput
            &&& unparsed_input@ == input.skip(in_consumed as int)
        },
        Ok(State::Stop { unparsed_input }) => {
            &&& verdict is Stop
            &&& unparsed_input@ == input.skip(in_consumed as int)
        },
        Err(e) => verdict == Verdict::Fail(e),
    }
}

/// An inflating stream.
pub struct Stream {
    output: Vec<u8>,
    out_pos: usize,
    last_out_pos: usize,
    decomp: miniz_oxide::inflate::core::DecompressorOxide,
    flags: u32,
    uncomp_size: usize,
    comp_size: usize,
    had_output: bool,
    untouched: Ghost<bool>,
}

impl View for Stream {
    type V = StreamView;

    closed spec fn view(&self) -> StreamView {
        StreamView {
            window: self.output@,
            out_pos: self.out_pos as nat,
            last_out_pos: self.last_out_pos as nat,
            flags: self.flags,
            uncomp_size: self.uncomp_size as nat,
            comp_size: self.comp_size as nat,
            had_output: self.had_output,
            decoder: if self.untouched@ {
                None
            } else {
                Some(self.decomp)
            },
        }
    }
}

/// `miniz_oxide::inflate::core::decompress`, with the window and the head in
/// place of the cursor that it takes. The run reads `input` and writes into
/// `out` from `out_pos` on. The window has to be as long as DEFLATE may
/// refer back: in a shorter one a reference may lead outside. Claimed of the
/// call: what it returns and leaves behind is what [`inflated`] names; the
/// window keeps its length; it takes no more input than there is and writes
/// no further than the window's end; where it asks for more input it has
/// taken all input and left room in the window; where it has more output
/// the window is full to its end.
#[verifier::external_body]
fn decompress(
    decomp: &mut miniz_oxide::inflate::core::DecompressorOxide,
    input: &[u8],
    out: &mut Vec<u8>,
    out_pos: usize,
    flags: u32,
) -> (round: Round)
    requires
        out_pos <= old(out)@.len(),
        old(out)@.len() >= WINDOW_SIZE,
    ensures
        (round, final(out)@, *final(decomp)) == inflated(
            *old(decomp),
            input@,
            old(out)@,
            out_pos,
            flags,
        ),
        final(out)@.len() == old(out)@.len(),
        round.in_consumed <= input@.len(),
        out_pos + round.out_produced <= old(out)@.len(),
        round.status is NeedsMoreInput ==> round.in_consumed == input@.len() && out_pos
            + round.out_produced < old(out)@.len(),
        round.status is HasMoreOutput ==> out_pos + round.out_produced == old(out)@.len(),
{
    let mut cursor = std::io::Cursor::new(out.as_mut_slice());
    cursor.set_position(out_pos as u64);
    let (status, in_consumed, out_produced) = miniz_oxide::inflate::core::decompress(decomp, input, &mut cursor, flags);
    let status = match status {
        TINFLStatus::FailedCannotMakeProgress => Status::FailedCannotMakeProgress,
        TINFLStatus::BadParam => Status::BadParam,
        TINFLStatus::Adler32Mismatch => Status::Adler32Mismatch,
        TINFLStatus::Failed => Status::Failed,
        TINFLStatus::Done => Status::Done,
        TINFLStatus::NeedsMoreInput => Status::NeedsMoreInput,
        TINFLStatus::HasMoreOutput => Status::HasMoreOutput,
    };
    Round { status, in_consumed, out_produced }
}

/// Starts a stream with the smallest window and no flags.
pub fn start_deflate_stream() -> (stream: Stream)
    ensures
        stream@ == Stream::spec_with(0, 0),
        stream@.wf(),
{
    Stream::new()
}

impl Stream {
    /// A stream at its start, with a window of `size` bytes or of
    /// `WINDOW_SIZE`, whichever is more, and with the given flags for the
    /// decompressor besides the one that announces more input.
    pub open spec fn spec_with(size: usize, flags: u32) -> StreamView {
        StreamView {
            window: Seq::new(
                (if size > WINDOW_SIZE {
                    size
                } else {
                    WINDOW_SIZE
                }) as nat,
                |i: int| 0u8,
            ),
            out_pos: 0,
            last_out_pos: 0,
            flags: flags | FLAG_HAS_MORE_INPUT,
            uncomp_size: 0,
            comp_size: 0,
            had_output: false,
            decoder: None,
        }
    }

    /// Starts a stream with the smallest window and no flags.
    pub fn new() -> (stream: Stream)
        ensures
            stream@ == Self::spec_with(0, 0),
            stream@.wf(),
    {
        Self::with(0, 0)
    }

    /// Starts a stream with a window of at least `size` bytes and with
    /// `flags` for the decompressor. Without the flag for a window that does
    /// not wrap, the decompressor refuses a window whose size is no power of
    /// two.
    pub fn with(size: usize, flags: u32) -> (stream: Stream)
        ensures
            stream@ == Self::spec_with(size, flags),
            stream@.wf(),
    {
        let flags: u32 = flags | FLAG_HAS_MORE_INPUT;
        let size: usize = if size > WINDOW_SIZE {
            size
        } else {
            WINDOW_SIZE
        };
        let mut output: Vec<u8> = Vec::with_capacity(size);
        output.resize(size, 0);
        let mut decomp = miniz_oxide::inflate::core::DecompressorOxide::new();
        decomp.init();
        let stream = Stream {
            decomp,
            output,
            out_pos: 0,
            last_out_pos: 0,
            flags,
            uncomp_size: 0,
            comp_size: 0,
            had_output: false,
            untouched: Ghost(true),
        };
        proof {
            assert(stream@.window =~= Self::spec_with(size, flags).window);
        }
        stream
    }

    /// Takes note of the output reported last, if there is any.
    fn acknowledge(&mut self)
        requires
            old(self)@.wf(),
        ensures
            final(self)@ == old(self)@.acknowledged(),
            final(self)@.wf(),
            final(self)@.outputs_left() == old(self)@.outputs_left(),
    {
        if self.had_output {
            self.had_output = false;
            self.last_out_pos = self.out_pos;
        }
    }

    /// Brings the stream up to date after a run of the decompressor, and
    /// says what the run means for the caller.
    fn absorb(&mut self, round: Round) -> (verdict: Verdict)
        requires
            old(self)@.wf(),
            old(self)@.out_pos + round.out_produced <= old(self)@.window.len(),
        ensures
            final(self)@ == old(self)@.settled(old(self)@.window, round),
            final(self)@.wf(),
            verdict == old(self)@.verdict(round),
            final(self)@.outputs_left() <= old(self)@.outputs_left(),
            verdict is HasOutput && (round.status is HasMoreOutput ==> round.out_produced > 0)
                ==> final(self)@.outputs_left() < old(self)@.outputs_left(),
    {
        if self.comp_size > usize::MAX - round.in_consumed || self.uncomp_size > usize::MAX
            - round.out_produced {
            return Verdict::Fail(InflateError::TooLong);
        }
        self.comp_size = self.comp_size + round.in_consumed;
        self.uncomp_size = self.uncomp_size + round.out_produced;
        let head: usize = self.out_pos + round.out_produced;
        self.out_pos = if head == self.output.len() {
            0
        } else {
            head
        };
        match round.status {
            Status::Done => {
                if round.out_produced == 0 && (self.had_output || self.last_out_pos == self.out_pos) {
                    Verdict::Stop
                } else {
                    self.had_output = true;
                    Verdict::HasOutput
                }
            },
            Status::NeedsMoreInput => Verdict::NeedsInput,
            Status::HasMoreOutput => {
                self.had_output = true;
                Verdict::HasOutput
            },
            Status::FailedCannotMakeProgress => Verdict::Fail(InflateError::FailedCannotMakeProgress),
            Status::BadParam => Verdict::Fail(InflateError::BadParam),
            Status::Adler32Mismatch => Verdict::Fail(InflateError::Adler32Mismatch),
            Status::Failed => Verdict::Fail(InflateError::Failed),
        }
    }

    /// Brings the stream up to date after a run of the decompressor on
    /// `input`, and reports where the stream stands.
    pub fn settle<'i, 'o>(&'o mut self, input: &'i [u8], round: Round) -> (r: Result<
        State<'i, 'o>,
        InflateError,
    >)
        requires
            old(self)@.wf(),
            old(self)@.admits(input@.len(), round),
        ensures
            final(self)@ == old(self)@.settled(old(self)@.window, round),
            final(self)@.wf(),
            reports(r, input@, round.in_consumed, old(self)@.verdict(round), final(self)@),
            final(self)@.outputs_left() <= old(self)@.outputs_left(),
    {
        let verdict = self.absorb(round);
        let unparsed_input = &input[round.in_consumed..input.len()];
        match verdict {
            Verdict::HasOutput => Ok(State::HasOutput { unparsed_input, output: self.get_output() }),
            Verdict::NeedsInput => Ok(State::NeedsInput { unparsed_input }),
            Verdict::Stop => Ok(State::Stop { unparsed_input }),
            Verdict::Fail(e) => Err(e),
        }
    }

    /// Feeds the stream and says what that means for the caller, how many
    /// bytes of `input` were taken, and which feed it was. Output is left
    /// in the window, to be fetched with [`Stream::get_output`].
    pub(crate) fn feed(&mut self, input: &[u8]) -> (r: (Verdict, usize, Ghost<Feed>))
        requires
            old(self)@.wf(),
        ensures
            final(self)@.wf(),
            old(self)@.can_feed(input@, r.2@),
            final(self)@ == old(self)@.fed(r.2@),
            r.0 == old(self)@.feed_verdict(r.2@),
            r.1 == r.2@.round.in_consumed,
            r.1 <= input@.len(),
            final(self)@.uncomp_size >= old(self)@.uncomp_size,
            final(self)@.outputs_left() <= old(self)@.outputs_left(),
            r.0 is HasOutput ==> final(self)@.outputs_left() < old(self)@.outputs_left(),
    {
        self.acknowledge();
        let ghost pre = self@;
        let ghost before = self.decomp;
        let round = decompress(&mut self.decomp, input, &mut self.output, self.out_pos, self.flags);
        self.untouched = Ghost(false);
        let ghost feed = Feed { round, window: self.output@, decoder: self.decomp };
        proof {
            let mid = self@;
            assert(mid == StreamView { window: mid.window, decoder: Some(self.decomp), ..pre });
            assert(feed == old(self)@.feed_of(before, input@));
            assert(old(self)@.gives(input@, feed));
            assert(old(self)@.can_feed(input@, feed));
            assert(old(self)@.fed(feed) == mid.settled(mid.window, round));
        }
        let verdict = self.absorb(round);
        (verdict, round.in_consumed, Ghost(feed))
    }

    /// Feeds the stream: runs the decompressor on `input` and reports where
    /// the stream stands.
    ///
    /// The feed is the one that the decompressor makes of the input: see
    /// [`StreamView::can_feed`] and [`StreamView::feed_of`]. After it the
    /// stream is as [`StreamView::fed`] says and the result as
    /// [`StreamView::feed_verdict`] says. Output is never empty, and a
    /// stream that asks for input has taken all of it.
    pub fn feed_input<'i, 'o>(&'o mut self, input: &'i [u8]) -> (r: Result<
        State<'i, 'o>,
        InflateError,
    >)
        requires
            old(self)@.wf(),
        ensures
            final(self)@.wf(),
            exists|feed: Feed|
                {
                    &&& #[trigger] old(self)@.can_feed(input@, feed)
                    &&& final(self)@ == old(self)@.fed(feed)
                    &&& reports(
                        r,
                        input@,
                        feed.round.in_consumed,
                        old(self)@.feed_verdict(feed),
                        final(self)@,
                    )
                },
            old(self)@.decoder matches Some(decoder) ==> final(self)@ == old(self)@.fed(
                old(self)@.feed_of(decoder, input@),
            ),
            final(self)@.window.len() == old(self)@.window.len(),
            final(self)@.flags == old(self)@.flags,
            r is Ok ==> final(self)@.comp_size + unparsed_of(r->Ok_0).len() == old(self)@.comp_size
                + input@.len(),
            r is Ok ==> unparsed_of(r->Ok_0) == input@.skip(
                input@.len() - unparsed_of(r->Ok_0).len(),
            ),
            final(self)@.uncomp_size >= old(self)@.uncomp_size,
            final(self)@.outputs_left() <= old(self)@.outputs_left(),
            r matches Ok(State::HasOutput { output, .. }) ==> output@.len() > 0 && output@
                == final(self)@.output() && final(self)@.outputs_left() < old(self)@.outputs_left(),
            r matches Ok(State::NeedsInput { unparsed_input }) ==> unparsed_input@.len() == 0,
            r matches Ok(State::Stop { .. }) ==> final(self)@.uncomp_size == old(self)@.uncomp_size,
    {
        let (verdict, consumed, Ghost(feed)) = self.feed(input);
        let unparsed_input = &input[consumed..input.len()];
        proof {
            assert(unparsed_input@ =~= input@.skip(input@.len() - unparsed_input@.len()));
        }
        match verdict {
            Verdict::HasOutput => Ok(State::HasOutput { unparsed_input, output: self.get_output() }),
            Verdict::NeedsInput => Ok(State::NeedsInput { unparsed_input }),
            Verdict::Stop => Ok(State::Stop { unparsed_input }),
            Verdict::Fail(e) => Err(e),
        }
    }

    /// Feeds the stream and hands each piece of output to `callback`, until
    /// the stream asks for input, ends or fails: see
    /// [`StreamView::iterated`]. The callback is only ever given bytes,
    /// never an empty slice.
    pub fn inner_iter<'i, F: FnMut(&[u8])>(&mut self, input: &'i [u8], mut callback: F) -> (r: Result<
        State<'i, 'static>,
        InflateError,
    >)
        requires
            old(self)@.wf(),
            forall|bytes: &[u8]| bytes@.len() > 0 ==> call_requires(callback, (bytes,)),
        ensures
            final(self)@.wf(),
            exists|feeds: Seq<Feed>|
                iteration_reports(r, #[trigger] old(self)@.iterated(input@, feeds), final(self)@),
            final(self)@.window.len() == old(self)@.window.len(),
            final(self)@.flags == old(self)@.flags,
            r is Ok ==> final(self)@.comp_size + unparsed_of(r->Ok_0).len() == old(self)@.comp_size
                + input@.len(),
            r is Ok ==> is_tail(unparsed_of(r->Ok_0), input@),
            final(self)@.uncomp_size >= old(self)@.uncomp_size,
            r matches Ok(State::NeedsInput { unparsed_input }) ==> unparsed_input@.len() == 0,
    {
        let mut rest: &'i [u8] = input;
        let ghost mut used: Seq<Feed> = Seq::empty();
        proof {
            assert(rest@ =~= input@.skip(0));
            assert forall|more: Seq<Feed>| #[trigger]
                old(self)@.iterated(input@, used + more) == self@.iterated(rest@, more) by {
                assert(used + more =~= more);
            }
        }
        loop
            invariant
                self@.wf(),
                self@.window.len() == old(self)@.window.len(),
                self@.flags == old(self)@.flags,
                forall|bytes: &[u8]| bytes@.len() > 0 ==> call_requires(callback, (bytes,)),
                is_tail(rest@, input@),
                self@.comp_size + rest@.len() == old(self)@.comp_size + input@.len(),
                self@.uncomp_size >= old(self)@.uncomp_size,
                forall|more: Seq<Feed>| #[trigger]
                    old(self)@.iterated(input@, used + more) == self@.iterated(rest@, more),
            decreases self@.outputs_left(),
        {
            let ghost before = self@;
            let ghost given = rest@;
            let (verdict, consumed, Ghost(feed)) = self.feed(rest);
            let left = &rest[consumed..rest.len()];
            proof {
                assert(left@ =~= input@.skip(input@.len() - left@.len()));
                assert(used + seq![feed] =~= used.push(feed));
                lemma_iterated_step(before, given, feed, Seq::empty());
                assert(seq![feed] + Seq::<Feed>::empty() =~= seq![feed]);
                if verdict is HasOutput {
                    assert forall|more: Seq<Feed>| #[trigger]
                        old(self)@.iterated(input@, used.push(feed) + more) == self@.iterated(
                            left@,
                            more,
                        ) by {
                        lemma_iterated_step(before, given, feed, more);
                        assert(used.push(feed) + more =~= used + (seq![feed] + more));
                    }
                    used = used.push(feed);
                } else {
                    assert(old(self)@.iterated(input@, used + seq![feed]) == before.iterated(
                        given,
                        seq![feed],
                    ));
                }
            }
            match verdict {
                Verdict::HasOutput => {
                    rest = left;
                    callback(self.get_output());
                },
                Verdict::NeedsInput => {
                    return Ok(State::NeedsInput { unparsed_input: left });
                },
                Verdict::Stop => {
                    return Ok(State::Stop { unparsed_input: left });
                },
                Verdict::Fail(e) => {
                    return Err(e);
                },
            }
        }
    }

    /// As [`Stream::inner_iter`], with a callback that may fail. Its first
    /// error ends the loop and is returned.
    pub fn try_inner_iter<'i, 'o, E, F: FnMut(&[u8]) -> Result<(), E>>(
        &'o mut self,
        input: &'i [u8],
        mut callback: F,
    ) -> (r: Result<State<'i, 'o>, InnerIterError<E>>)
        requires
            old(self)@.wf(),
            forall|bytes: &[u8]| bytes@.len() > 0 ==> call_requires(callback, (bytes,)),
        ensures
            final(self)@.wf(),
            !(r matches Err(InnerIterError::UserErr(_))) ==> exists|feeds: Seq<Feed>|
                iteration_reports(
                    match r {
                        Ok(state) => Ok(state),
                        Err(InnerIterError::IterErr(e)) => Err(e),
                        Err(InnerIterError::UserErr(_)) => Err(InflateError::Failed),
                    },
                    #[trigger] old(self)@.iterated(input@, feeds),
                    final(self)@,
                ),
            r matches Err(InnerIterError::UserErr(_)) ==> exists|feeds: Seq<Feed>|
                final(self)@ == #[trigger] old(self)@.fed_all(feeds),
            final(self)@.window.len() == old(self)@.window.len(),
            final(self)@.flags == old(self)@.flags,
            r is Ok ==> final(self)@.comp_size + unparsed_of(r->Ok_0).len() == old(self)@.comp_size
                + input@.len(),
            r is Ok ==> is_tail(unparsed_of(r->Ok_0), input@),
            final(self)@.uncomp_size >= old(self)@.uncomp_size,
            r matches Ok(State::NeedsInput { unparsed_input }) ==> unparsed_input@.len() == 0,
    {
        let mut rest: &'i [u8] = input;
        let ghost mut used: Seq<Feed> = Seq::empty();
        proof {
            assert(rest@ =~= input@.skip(0));
            assert forall|more: Seq<Feed>| #[trigger]
                old(self)@.iterated(input@, used + more) == self@.iterated(rest@, more) by {
                assert(used + more =~= more);
            }
        }
        loop
            invariant
                self@.wf(),
                self@.window.len() == old(self)@.window.len(),
                self@.flags == old(self)@.flags,
                forall|bytes: &[u8]| bytes@.len() > 0 ==> call_requires(callback, (bytes,)),
                is_tail(rest@, input@),
                self@.comp_size + rest@.len() == old(self)@.comp_size + input@.len(),
                self@.uncomp_size >= old(self)@.uncomp_size,
                self@ == old(self)@.fed_all(used),
                forall|more: Seq<Feed>| #[trigger]
                    old(self)@.iterated(input@, used + more) == self@.iterated(rest@, more),
            decreases self@.outputs_left(),
        {
            let ghost before = self@;
            let ghost given = rest@;
            let (verdict, consumed, Ghost(feed)) = self.feed(rest);
            let left = &rest[consumed..rest.len()];
            proof {
                assert(left@ =~= input@.skip(input@.len() - left@.len()));
                assert(used + seq![feed] =~= used.push(feed));
                lemma_iterated_step(before, given, feed, Seq::empty());
                assert(seq![feed] + Seq::<Feed>::empty() =~= seq![feed]);
                lemma_fed_all_push(old(self)@, used, feed);
                if verdict is HasOutput {
                    assert forall|more: Seq<Feed>| #[trigger]
                        old(self)@.iterated(input@, used.push(feed) + more) == self@.iterated(
                            left@,
                            more,
                        ) by {
                        lemma_iterated_step(before, given, feed, more);
                        assert(used.push(feed) + more =~= used + (seq![feed] + more));
                    }
                    used = used.push(feed);
                } else {
                    assert(old(self)@.iterated(input@, used + seq![feed]) == before.iterated(
                        given,
                        seq![feed],
                    ));
                }
            }
            match verdict {
                Verdict::HasOutput => {
                    rest = left;
                    match callback(self.get_output()) {
                        Ok(()) => (),
                        Err(e) => {
                            return Err(InnerIterError::UserErr(e));
                        },
                    }
                },
                Verdict::NeedsInput => {
                    return Ok(State::NeedsInput { unparsed_input: left });
                },
                Verdict::Stop => {
                    return Ok(State::Stop { unparsed_input: left });
                },
                Verdict::Fail(e) => {
                    return Err(InnerIterError::from(e));
                },
            }
        }
    }

    /// The output reported last. It is never empty.
    pub fn get_output(&self) -> (output: &[u8])
        requires
            self@.wf(),
        ensures
            output@ == self@.output(),
            output@.len() > 0,
    {
        if self.last_out_pos < self.out_pos {
            &self.output[self.last_out_pos..self.out_pos]
        } else {
            &self.output[self.last_out_pos..self.output.len()]
        }
    }

    /// The number of bytes that came out of the stream since it began.
    pub fn uncompressed_size(&self) -> (size: usize)
        ensures
            size == self@.uncomp_size,
    {
        self.uncomp_size
    }

    /// The number of bytes that went into the stream since it began.
    pub fn compressed_size(&self) -> (size: usize)
        ensures
            size == self@.comp_size,
    {
        self.comp_size
    }
}

impl<E> From<InflateError> for InnerIterError<E> {
    fn from(from: InflateError) -> (r: InnerIterError<E>) {
        InnerIterError::IterErr(from)
    }
}

impl<E> vstd::std_specs::convert::FromSpecImpl<InflateError> for InnerIterError<E> {
    open spec fn obeys_from_spec() -> bool {
        true
    }

    open spec fn from_spec(from: InflateError) -> Self {
        InnerIterError::IterErr(from)
    }
}

/// The input that a state leaves over.
pub open spec fn unparsed_of(state: State<'_, '_>) -> Seq<u8> {
    match state {
        State::HasOutput { unparsed_input, .. } => unparsed_input@,
        State::NeedsInput { unparsed_input } => unparsed_input@,
        State::Stop { unparsed_input } => unparsed_input@,
    }
}

} // verus!
