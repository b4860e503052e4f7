//! Reading one member after another out of a GZIP stream.
//!
//! A [`GZipFile`] reads one member: its header, its bytes, which it
//! inflates, and its footer. A GZIP stream has no directory: where the input
//! ends behind a footer, another member may follow or none. The reader then
//! hands out a reader for the member that may follow, and is itself ready to
//! be told, by an empty input, that the stream is over.
//!
//! What a call of [`GZipFile::read`] does is specified by [`run`], in the
//! way of [`crate::zip::run`].

use vstd::prelude::*;

use crate::deflate;
use crate::deflate::{Feed, StreamView, Verdict};
use crate::input_helper::{Input, InputHandler, InputHandlerView};
use crate::utils::{is_tail, ParseError};
use crate::{outcome_of, told_outcome, Outcome, State, StateView, Told};

pub mod headers;

use self::headers::{
    lemma_footer_len, lemma_member_header_extends, lemma_member_header_len,
    lemma_member_header_truncates, spec_footer, spec_member_header, MemberHeader,
    MemberHeaderView,
};

verus! {

/// What can be wrong with a GZIP stream.
#[derive(Debug, Copy, Clone, Eq, PartialEq, Ord, PartialOrd, Hash)]
pub enum GZipError {
    InvalidMemberHeader,
    InvalidDeflateStream,
    InvalidFooter,
}

/// How far the reading of a member has got.
pub enum Phase {
    /// Nothing was read yet.
    Init,
    /// The header was read; the member's bytes are being inflated.
    HeaderParsed(MemberHeaderView),
    /// The member's bytes have ended after `comp_size` bytes, which gave
    /// `uncomp_size` bytes; the footer is next.
    Inflated { header: MemberHeaderView, comp_size: nat, uncomp_size: nat },
    /// The member has ended.
    End { header: MemberHeaderView, comp_size: nat, uncomp_size: nat },
    /// The caller was told that the stream is over.
    Eof,
    /// The stream was found to be malformed.
    Error,
}

impl Phase {
    /// An upper bound on the number of phases still to come.
    pub open spec fn phases_left(self) -> nat {
        match self {
            Phase::Init => 5,
            Phase::HeaderParsed(_) => 4,
            Phase::Inflated { .. } => 3,
            Phase::End { .. } => 2,
            Phase::Eof => 1,
            Phase::Error => 0,
        }
    }

    /// The name of the member, if its header was read and gives one.
    pub open spec fn filename(self) -> Option<Seq<u8>> {
        match self {
            Phase::HeaderParsed(header) => header.filename,
            Phase::Inflated { header, .. } => header.filename,
            Phase::End { header, .. } => header.filename,
            _ => None,
        }
    }

    /// The reader can be given input.
    pub open spec fn readable(self) -> bool {
        !(self is Eof) && !(self is Error)
    }
}

/// A reader of a GZIP member as a mathematical value.
pub struct GZipFileView {
    pub phase: Phase,
    /// What was kept of the input for the next call.
    pub stored: Seq<u8>,
    pub inflater: StreamView,
}

impl GZipFileView {
    /// The inflater is well formed, and what the reader has kept are bytes
    /// with which it could not go on.
    pub open spec fn wf(self) -> bool {
        self.inflater.wf() && at_rest(self.phase, self.stored)
    }
}

/// A reader in phase `phase` that is shown `stored` and nothing else has to
/// ask for more: these are bytes that a reader may have kept. Only parsers
/// keep bytes, the inflater takes all it is given.
#[verifier::opaque]
pub open spec fn at_rest(phase: Phase, stored: Seq<u8>) -> bool {
    match phase {
        Phase::Init => spec_member_header(stored) matches Err(ParseError::Incomplete(_)),
        Phase::HeaderParsed(_) => stored.len() == 0,
        Phase::Inflated { .. } => stored.len() < 8,
        _ => true,
    }
}

/// What a step has to tell.
pub enum Step {
    /// Nothing: the next step can follow.
    Continue,
    /// The bytes shown were too few.
    NeedsInput,
    /// The inflater has output.
    Output,
    Error(GZipError),
    /// The member has ended and another one has begun, for which this
    /// reader is handed out.
    NextFile(GZipFileView),
    /// The member has ended and so has the input.
    EndOfFile,
}

/// What a step did: how many of the bytes shown it consumed, in which phase
/// it left the reader, and what it has to tell.
pub struct Stepped {
    pub consumed: nat,
    pub phase: Phase,
    pub step: Step,
}

/// The inflater with which every reader starts.
pub open spec fn fresh_inflater() -> StreamView {
    deflate::Stream::spec_with(0, 0)
}

/// A reader that has read nothing.
pub open spec fn fresh_file() -> GZipFileView {
    GZipFileView { phase: Phase::Init, stored: Seq::empty(), inflater: fresh_inflater() }
}

/// The reader for the member that starts with `input`, and the input that
/// it has not read. Where `input` ends inside the member header, the reader
/// keeps all of it and has still to begin.
pub open spec fn spec_peek_stream(input: Seq<u8>) -> Result<(Seq<u8>, GZipFileView), GZipError> {
    match spec_member_header(input) {
        Ok((rest, header)) => Ok(
            (
                rest,
                GZipFileView {
                    phase: Phase::HeaderParsed(header),
                    stored: Seq::empty(),
                    inflater: fresh_inflater(),
                },
            ),
        ),
        Err(ParseError::Incomplete(_)) => Ok(
            (
                Seq::empty(),
                GZipFileView { phase: Phase::Init, stored: input, inflater: fresh_inflater() },
            ),
        ),
        Err(_) => Err(GZipError::InvalidMemberHeader),
    }
}

/// The first step: the member header.
pub open spec fn header_step(input: Seq<u8>) -> Stepped {
    match spec_member_header(input) {
        Ok((rest, header)) => Stepped {
            consumed: (input.len() - rest.len()) as nat,
            phase: Phase::HeaderParsed(header),
            step: Step::Continue,
        },
        Err(ParseError::Incomplete(_)) => Stepped {
            consumed: 0,
            phase: Phase::Init,
            step: Step::NeedsInput,
        },
        Err(_) => Stepped {
            consumed: 0,
            phase: Phase::Error,
            step: Step::Error(GZipError::InvalidMemberHeader),
        },
    }
}

/// The step that feeds the inflater, for each thing that the inflater may
/// say: `consumed` is what it took, `after` is the inflater after the feed.
pub open spec fn inflate_step(
    header: MemberHeaderView,
    verdict: Verdict,
    consumed: nat,
    after: StreamView,
) -> Stepped {
    match verdict {
        Verdict::NeedsInput => Stepped {
            consumed,
            phase: Phase::HeaderParsed(header),
            step: Step::Continue,
        },
        Verdict::HasOutput => Stepped {
            consumed,
            phase: Phase::HeaderParsed(header),
            step: Step::Output,
        },
        Verdict::Stop => Stepped {
            consumed,
            phase: Phase::Inflated {
                header,
                comp_size: after.comp_size,
                uncomp_size: after.uncomp_size,
            },
            step: Step::Continue,
        },
        Verdict::Fail(_) => Stepped {
            consumed: 0,
            phase: Phase::Error,
            step: Step::Error(GZipError::InvalidDeflateStream),
        },
    }
}

/// The last step: the footer, and what follows it. Where input follows,
/// it begins the next member.
pub open spec fn footer_step(
    input: Seq<u8>,
    header: MemberHeaderView,
    comp_size: nat,
    uncomp_size: nat,
) -> Stepped {
    match spec_footer(input) {
        Ok((rest, _)) => if rest.len() == 0 {
            Stepped {
                consumed: input.len(),
                phase: Phase::End { header, comp_size, uncomp_size },
                step: Step::EndOfFile,
            }
        } else {
            match spec_peek_stream(rest) {
                Ok((left, next_file)) => Stepped {
                    consumed: (input.len() - left.len()) as nat,
                    phase: Phase::End { header, comp_size, uncomp_size },
                    step: Step::NextFile(next_file),
                },
                Err(e) => Stepped { consumed: 0, phase: Phase::Error, step: Step::Error(e) },
            }
        },
        Err(ParseError::Incomplete(_)) => Stepped {
            consumed: 0,
            phase: Phase::Inflated { header, comp_size, uncomp_size },
            step: Step::NeedsInput,
        },
        Err(_) => Stepped {
            consumed: 0,
            phase: Phase::Error,
            step: Step::Error(GZipError::InvalidFooter),
        },
    }
}

/// A step together with what it did to the inflater and to the feeds that
/// were to come. A step is not `legit` where it needs a feed and has none,
/// or has one that the inflater cannot take, or where the reader cannot be
/// given input at all.
pub struct StepOut {
    pub stepped: Stepped,
    pub inflater: StreamView,
    pub feeds: Seq<Feed>,
    pub legit: bool,
}

/// The step that a reader in phase `phase` takes on the bytes `input`. Only
/// the step that inflates uses a feed, the first of `feeds`.
#[verifier::opaque]
pub open spec fn step(phase: Phase, input: Seq<u8>, inflater: StreamView, feeds: Seq<Feed>) -> StepOut {
    match phase {
        Phase::Init => StepOut { stepped: header_step(input), inflater, feeds, legit: true },
        Phase::HeaderParsed(header) => if feeds.len() == 0 {
            StepOut {
                stepped: Stepped { consumed: 0, phase, step: Step::NeedsInput },
                inflater,
                feeds,
                legit: false,
            }
        } else {
            StepOut {
                stepped: inflate_step(
                    header,
                    inflater.feed_verdict(feeds[0]),
                    feeds[0].round.in_consumed as nat,
                    inflater.fed(feeds[0]),
                ),
                inflater: inflater.fed(feeds[0]),
                feeds: feeds.skip(1),
                legit: inflater.can_feed(input, feeds[0]),
            }
        },
        Phase::Inflated { header, comp_size, uncomp_size } => StepOut {
            stepped: footer_step(input, header, comp_size, uncomp_size),
            inflater,
            feeds,
            legit: true,
        },
        Phase::End { .. } => StepOut {
            stepped: Stepped { consumed: 0, phase: Phase::Eof, step: Step::EndOfFile },
            inflater,
            feeds,
            legit: true,
        },
        _ => StepOut {
            stepped: Stepped { consumed: 0, phase, step: Step::NeedsInput },
            inflater,
            feeds,
            legit: false,
        },
    }
}

/// A reader in the middle of a call.
pub struct Config {
    pub phase: Phase,
    pub handler: InputHandlerView,
    pub inflater: StreamView,
}

/// A reader at the end of a call, and what the call returns.
pub struct Finished {
    pub file: GZipFileView,
    pub outcome: Outcome<GZipFileView, GZipError>,
}

/// What follows a step: the end of the call, or the next step.
pub enum Advance {
    Done(Finished),
    Next(Config),
}

/// The step can be followed: it consumed nothing, or more than the bytes
/// that were kept from earlier calls; and where it hands input back to the
/// caller, that is the caller's own.
pub open spec fn can_follow(handler: InputHandlerView, stepped: Stepped) -> bool {
    &&& handler.can_consume(stepped.consumed)
    &&& (stepped.step is Output || stepped.step is NextFile) ==> !handler.consumed(
        stepped.consumed,
    ).stitched()
}

/// The end of a call that found the reader as `cfg` leaves it.
pub open spec fn finish(cfg: Config, outcome: Outcome<GZipFileView, GZipError>) -> Advance {
    Advance::Done(
        Finished {
            file: GZipFileView {
                phase: cfg.phase,
                stored: cfg.handler.storage(),
                inflater: cfg.inflater,
            },
            outcome,
        },
    )
}

/// What follows a step that the reader `cfg` took, `inflater` being the
/// inflater after it.
///
/// - After a step with nothing to tell comes the next step, unless no input
///   is left: then the caller is asked for more.
/// - After a step that had too few bytes, the bytes shown are extended by
///   input and the step is taken again, unless no input is left for that:
///   then what was shown is kept and the caller is asked for more.
/// - Where the member has ended and so has the input, the caller is given a
///   reader for the member that may follow. Once it has that, the reader
///   tells it that the stream is over.
/// - Anything else is told to the caller.
pub open spec fn advance(cfg: Config, stepped: Stepped, inflater: StreamView) -> Advance {
    {
        let handler = cfg.handler.consumed(stepped.consumed);
        let next = Config { phase: stepped.phase, handler, inflater };
        match stepped.step {
            Step::Continue => if handler.unparsed().len() == 0 {
                finish(next, Ok(StateView::NeedsInput))
            } else {
                Advance::Next(next)
            },
            Step::NeedsInput => {
                let extended = Config { handler: handler.extended(), ..next };
                if handler.extension_len() == 0 {
                    finish(extended, Ok(StateView::NeedsInput))
                } else {
                    Advance::Next(extended)
                }
            },
            Step::Output => finish(
                next,
                Ok(StateView::HasOutput { unparsed_input: handler.rest(), output: inflater.output() }),
            ),
            Step::NextFile(next_file) => finish(
                next,
                Ok(StateView::NextFile { unparsed_input: handler.rest(), next_file }),
            ),
            Step::EndOfFile => if stepped.phase is Eof {
                finish(next, Ok(StateView::EndOfFile))
            } else {
                finish(next, Ok(StateView::NeedsInputOrEof(fresh_file())))
            },
            Step::Error(e) => finish(next, Err(e)),
        }
    }
}

/// The rest of a call that has got to `cfg`, for the feeds `feeds` of the
/// inflater: the reader at the end of the call and what the call returns.
/// There is no result where a feed is needed that is not there, or where
/// one is there that the inflater cannot take.
pub open spec fn run(cfg: Config, feeds: Seq<Feed>) -> Option<Finished>
    decreases feeds.len(), cfg.phase.phases_left(), cfg.handler.orig_input.len() - cfg.handler.seen(),
    via run_terminates
{
    let out = step(cfg.phase, cfg.handler.unparsed(), cfg.inflater, feeds);
    if !out.legit {
        None
    } else {
        match advance(cfg, out.stepped, out.inflater) {
            Advance::Done(finished) => Some(finished),
            Advance::Next(next) => run(next, out.feeds),
        }
    }
}

/// A step with nothing to tell uses up a feed or leaves the reader in a
/// later phase. A step that had too few bytes consumes none, uses up no
/// feed and leaves the reader in the phase it was in.
pub proof fn lemma_step_progress(phase: Phase, input: Seq<u8>, inflater: StreamView, feeds: Seq<Feed>)
    requires
        step(phase, input, inflater, feeds).legit,
    ensures
        ({
            let out = step(phase, input, inflater, feeds);
            &&& out.feeds.len() <= feeds.len()
            &&& out.stepped.step is Continue ==> out.feeds.len() < feeds.len()
                || out.stepped.phase.phases_left() < phase.phases_left()
            &&& out.stepped.step is NeedsInput ==> out.feeds == feeds && out.stepped.consumed == 0
                && out.stepped.phase == phase
            &&& out.stepped.step is Continue && out.stepped.phase.phases_left()
                == phase.phases_left() ==> out.stepped.consumed == input.len()
            &&& out.stepped.consumed <= input.len()
            &&& out.stepped.phase.phases_left() <= phase.phases_left()
            &&& out.stepped.phase is Error <==> out.stepped.step is Error
            &&& out.stepped.phase is Eof ==> out.stepped.step is EndOfFile
        }),
{
    reveal(step);
    lemma_member_header_len(input);
    lemma_footer_len(input);
    if spec_footer(input) is Ok {
        lemma_member_header_len(input.skip(8));
    }
}

#[via_fn]
proof fn run_terminates(cfg: Config, feeds: Seq<Feed>) {
    let out = step(cfg.phase, cfg.handler.unparsed(), cfg.inflater, feeds);
    if out.legit {
        lemma_step_progress(cfg.phase, cfg.handler.unparsed(), cfg.inflater, feeds);
        match advance(cfg, out.stepped, out.inflater) {
            Advance::Done(_) => {},
            Advance::Next(next) => {
                if out.stepped.step is NeedsInput {
                    assert(next.handler == cfg.handler.extended());
                    assert(cfg.handler.extension_len() > 0);
                }
            },
        }
    }
}

/// A step looks at no feed but its own. Where it is legitimate for the
/// feeds `own`, one at most, and uses them up, then for any feeds `rest`
/// to follow, the call goes on after the step as [`advance`] says, with
/// `rest` for its later steps.
pub proof fn lemma_run_step(cfg: Config, own: Seq<Feed>, rest: Seq<Feed>)
    requires
        own.len() <= 1,
        step(cfg.phase, cfg.handler.unparsed(), cfg.inflater, own).legit,
        step(cfg.phase, cfg.handler.unparsed(), cfg.inflater, own).feeds.len() == 0,
    ensures
        ({
            let out = step(cfg.phase, cfg.handler.unparsed(), cfg.inflater, own);
            run(cfg, own + rest) == match advance(cfg, out.stepped, out.inflater) {
                Advance::Done(finished) => Some(finished),
                Advance::Next(next) => run(next, rest),
            }
        }),
{
    reveal(step);
    let input = cfg.handler.unparsed();
    let out = step(cfg.phase, input, cfg.inflater, own);
    let all = step(cfg.phase, input, cfg.inflater, own + rest);
    if own.len() == 0 {
        assert(own + rest =~= rest);
        assert(out.feeds == own);
        assert(all.feeds == rest);
    } else {
        assert((own + rest)[0] == own[0]);
        assert((own + rest).skip(1) =~= rest);
        if out.feeds == own {
            assert(false);
        }
        assert(all.feeds == rest);
    }
    assert(all.stepped == out.stepped);
    assert(all.inflater == out.inflater);
    assert(all.legit);
}

/// Where a call has got to `cfg` with the feeds `used`, and the next step
/// ends it, the call ends as that step says.
pub proof fn lemma_read_exit(cfg0: Config, used: Seq<Feed>, cfg: Config, own: Seq<Feed>, finished: Finished)
    requires
        forall|rest: Seq<Feed>| #[trigger] run(cfg0, used + rest) == run(cfg, rest),
        own.len() <= 1,
        step(cfg.phase, cfg.handler.unparsed(), cfg.inflater, own).legit,
        step(cfg.phase, cfg.handler.unparsed(), cfg.inflater, own).feeds.len() == 0,
        advance(
            cfg,
            step(cfg.phase, cfg.handler.unparsed(), cfg.inflater, own).stepped,
            step(cfg.phase, cfg.handler.unparsed(), cfg.inflater, own).inflater,
        ) == Advance::Done(finished),
    ensures
        run(cfg0, used + own) == Some(finished),
{
    lemma_run_step(cfg, own, Seq::empty());
    assert(own + Seq::<Feed>::empty() =~= own);
}

/// Where a call has got to `cfg` with the feeds `used`, and the next step
/// leads to `next`, the call has got to `next` with the feeds of that step
/// used as well.
pub proof fn lemma_read_next(cfg0: Config, used: Seq<Feed>, cfg: Config, own: Seq<Feed>, next: Config)
    requires
        forall|rest: Seq<Feed>| #[trigger] run(cfg0, used + rest) == run(cfg, rest),
        own.len() <= 1,
        step(cfg.phase, cfg.handler.unparsed(), cfg.inflater, own).legit,
        step(cfg.phase, cfg.handler.unparsed(), cfg.inflater, own).feeds.len() == 0,
        advance(
            cfg,
            step(cfg.phase, cfg.handler.unparsed(), cfg.inflater, own).stepped,
            step(cfg.phase, cfg.handler.unparsed(), cfg.inflater, own).inflater,
        ) == Advance::Next(next),
    ensures
        forall|rest: Seq<Feed>| #[trigger] run(cfg0, (used + own) + rest) == run(next, rest),
{
    assert forall|rest: Seq<Feed>| #[trigger] run(cfg0, (used + own) + rest) == run(next, rest) by {
        lemma_run_step(cfg, own, rest);
        assert((used + own) + rest =~= used + (own + rest));
    }
}

/// What holds of a reader between the steps of a call. Where the parser is
/// shown stitched bytes, a parser is at work, and the kept bytes among them
/// are bytes with which the reader could not go on.
pub open spec fn in_step(cfg: Config) -> bool {
    &&& cfg.handler.wf()
    &&& cfg.handler.stitched() ==> {
        &&& !(cfg.phase is HeaderParsed)
        &&& at_rest(cfg.phase, cfg.handler.kept)
    }
}

/// The stitching is sound. Every step can be followed: a step that consumes
/// anything gets past the kept bytes. And whatever follows a step, the
/// reader is left as it has to be: between steps as [`in_step`] says, and
/// at the end of the call with bytes kept with which it could not go on.
pub proof fn lemma_step_sound(cfg: Config, feeds: Seq<Feed>)
    requires
        in_step(cfg),
        step(cfg.phase, cfg.handler.unparsed(), cfg.inflater, feeds).legit,
    ensures
        ({
            let out = step(cfg.phase, cfg.handler.unparsed(), cfg.inflater, feeds);
            &&& can_follow(cfg.handler, out.stepped)
            &&& match advance(cfg, out.stepped, out.inflater) {
                Advance::Next(next) => in_step(next),
                Advance::Done(finished) => at_rest(finished.file.phase, finished.file.stored),
            }
        }),
{
    reveal(at_rest);
    reveal(step);
    let handler = cfg.handler;
    let view = handler.unparsed();
    let kept = handler.kept;
    let out = step(cfg.phase, view, cfg.inflater, feeds);
    let stepped = out.stepped;
    let after = handler.consumed(stepped.consumed);
    if handler.stitched() {
        assert(view.len() == kept.len() + handler.copied);
        assert(view.take(kept.len() as int) =~= kept);
    } else {
        assert(handler.storage() =~= Seq::<u8>::empty());
    }
    lemma_member_header_len(view);
    lemma_footer_len(view);
    headers::lemma_member_header_of_nothing();
    if stepped.step is NeedsInput && !handler.stitched() && handler.extension_len() == 0 {
        assert(view =~= Seq::<u8>::empty());
        assert(handler.extended().storage() =~= Seq::<u8>::empty());
    }
    match cfg.phase {
        Phase::Init => {
            if spec_member_header(view) is Ok && handler.stitched() && stepped.consumed
                <= kept.len() {
                lemma_member_header_truncates(view, kept.len() as int);
            }
        },
        Phase::HeaderParsed(header) => {},
        Phase::Inflated { header, comp_size, uncomp_size } => {
            if spec_footer(view) is Ok {
                lemma_member_header_len(view.skip(8));
            }
        },
        _ => {},
    }
    assert(after.stitched() || after.storage() =~= Seq::<u8>::empty());
}

/// A handler that shows the bytes `rest` as the caller's input, none of them
/// consumed.
pub open spec fn input_only(rest: Seq<u8>) -> InputHandlerView {
    InputHandlerView { kept: Seq::empty(), input_consumed: 0, copied: 0, orig_input: rest }
}

/// Two calls end the same: both have no result, or they return the same
/// and leave the same reader. What a reader has kept that has returned an
/// error is not compared.
pub open spec fn same_finish(a: Option<Finished>, b: Option<Finished>) -> bool {
    match (a, b) {
        (Some(a), Some(b)) => {
            &&& a.outcome == b.outcome
            &&& a.file.phase == b.file.phase
            &&& a.file.inflater == b.file.inflater
            &&& a.outcome is Ok ==> a.file.stored == b.file.stored
        },
        (None, None) => true,
        _ => false,
    }
}

/// A call goes on the same from two readers that differ only in how much
/// input lies behind them: it is the bytes still to be parsed that count,
/// and how many of them are stitched.
pub proof fn lemma_run_rebased(a: Config, b: Config, feeds: Seq<Feed>)
    requires
        a.phase == b.phase,
        a.inflater == b.inflater,
        in_step(a),
        in_step(b),
        a.handler.kept == b.handler.kept,
        a.handler.copied == b.handler.copied,
        a.handler.rest() == b.handler.rest(),
    ensures
        run(a, feeds) == run(b, feeds),
    decreases feeds.len(), a.phase.phases_left(), a.handler.orig_input.len() - a.handler.seen(),
{
    reveal(step);
    let rest = a.handler.rest();
    assert(a.handler.storage() =~= a.handler.kept + rest.take(a.handler.copied as int));
    assert(b.handler.storage() =~= b.handler.kept + rest.take(b.handler.copied as int));
    let input = a.handler.unparsed();
    assert(b.handler.unparsed() == input);
    let out = step(a.phase, input, a.inflater, feeds);
    if out.legit {
        lemma_step_progress(a.phase, input, a.inflater, feeds);
        lemma_step_sound(a, feeds);
        lemma_step_sound(b, feeds);
        let n = out.stepped.consumed;
        let after_a = a.handler.consumed(n);
        let after_b = b.handler.consumed(n);
        if can_follow(a.handler, out.stepped) {
            assert(can_follow(b.handler, out.stepped));
            if n > 0 {
                let past = n - a.handler.kept.len();
                assert(input.len() <= a.handler.kept.len() + rest.len());
                assert(after_a.rest() =~= rest.skip(past));
                assert(after_b.rest() =~= rest.skip(past));
            }
            assert(after_a.rest() =~= after_b.rest());
            assert(after_a.storage() =~= after_b.storage());
            assert(after_a.extended().storage() =~= after_b.extended().storage());
            assert(after_a.extended().rest() =~= after_b.extended().rest());
        }
        match advance(a, out.stepped, out.inflater) {
            Advance::Done(_) => {},
            Advance::Next(next_a) => {
                let next_b = Config {
                    phase: next_a.phase,
                    handler: if out.stepped.step is NeedsInput {
                        after_b.extended()
                    } else {
                        after_b
                    },
                    inflater: out.inflater,
                };
                assert(advance(b, out.stepped, out.inflater) == Advance::Next(next_b));
                lemma_run_rebased(next_a, next_b, out.feeds);
            },
        }
    }
}

/// What a call makes of all the bytes that a reader has kept and is given,
/// where the reader has still to read the member header: with a header
/// in them, the call goes on behind it; where they are too few, all are
/// kept and the caller is asked for more; else they are no header.
pub open spec fn header_then(all: Seq<u8>, inflater: StreamView, feeds: Seq<Feed>) -> Option<Finished> {
    match spec_member_header(all) {
        Ok((rest, header)) => if rest.len() == 0 {
            Some(
                Finished {
                    file: GZipFileView {
                        phase: Phase::HeaderParsed(header),
                        stored: Seq::empty(),
                        inflater,
                    },
                    outcome: Ok(StateView::NeedsInput),
                },
            )
        } else {
            run(
                Config { phase: Phase::HeaderParsed(header), handler: input_only(rest), inflater },
                feeds,
            )
        },
        Err(ParseError::Incomplete(_)) => Some(
            Finished {
                file: GZipFileView { phase: Phase::Init, stored: all, inflater },
                outcome: Ok(StateView::NeedsInput),
            },
        ),
        Err(_) => Some(
            Finished {
                file: GZipFileView { phase: Phase::Error, stored: Seq::empty(), inflater },
                outcome: Err(GZipError::InvalidMemberHeader),
            },
        ),
    }
}

/// A call of a reader that has still to read the member header does
/// what [`header_then`] says of all the bytes that the reader has kept and
/// is given, however many of them the parser is shown at a time.
#[verifier::rlimit(60)]
pub proof fn lemma_run_header(cfg: Config, feeds: Seq<Feed>)
    requires
        in_step(cfg),
        cfg.phase is Init,
        cfg.handler.input_consumed == 0,
    ensures
        same_finish(
            run(cfg, feeds),
            header_then(cfg.handler.kept + cfg.handler.orig_input, cfg.inflater, feeds),
        ),
    decreases cfg.handler.orig_input.len() - cfg.handler.seen(),
{
    reveal(step);
    let handler = cfg.handler;
    let all = handler.kept + handler.orig_input;
    let view = handler.unparsed();
    lemma_member_header_len(view);
    lemma_member_header_len(all);
    lemma_step_sound(cfg, feeds);
    let more = if handler.stitched() {
        handler.orig_input.skip(handler.copied as int)
    } else {
        Seq::<u8>::empty()
    };
    if handler.stitched() {
        assert(handler.storage() + more =~= all);
    } else {
        assert(handler.kept =~= Seq::<u8>::empty());
        assert(view =~= all);
    }
    assert(view + more =~= all);
    lemma_member_header_extends(view, more);
    match spec_member_header(view) {
        Ok((rest, header)) => {
            let n = view.len() - rest.len();
            let after = handler.consumed(n as nat);
            assert(after.rest() =~= rest + more);
            assert(after.storage() =~= Seq::<u8>::empty());
            if (rest + more).len() > 0 {
                let next = Config {
                    phase: Phase::HeaderParsed(header),
                    handler: after,
                    inflater: cfg.inflater,
                };
                let only = Config {
                    phase: Phase::HeaderParsed(header),
                    handler: input_only(rest + more),
                    inflater: cfg.inflater,
                };
                assert(input_only(rest + more).rest() =~= rest + more);
                lemma_run_rebased(next, only, feeds);
            }
        },
        Err(ParseError::Incomplete(_)) => {
            if handler.extension_len() == 0 {
                assert(more =~= Seq::<u8>::empty());
                assert(view =~= all);
                if handler.stitched() {
                    assert(handler.extended().storage() =~= all);
                } else {
                    assert(handler.extended().storage() =~= Seq::<u8>::empty());
                    assert(all =~= Seq::<u8>::empty());
                }
            } else {
                let next = Config { handler: handler.extended(), ..cfg };
                assert(next.handler.kept + next.handler.orig_input =~= all);
                lemma_run_header(next, feeds);
            }
        },
        Err(_) => {},
    }
}

/// Reading a GZIP member does not depend on where its header is
/// cut: where a call with the first part of some input has to ask for more
/// because the header is not all there, a call with the second part ends
/// as one call with all of the input ends, for the same feeds of the
/// inflater.
pub proof fn lemma_header_chunk_independence(
    file: GZipFileView,
    first: Seq<u8>,
    second: Seq<u8>,
    feeds: Seq<Feed>,
)
    requires
        file.wf(),
        file.phase is Init,
        first.len() + second.len() <= usize::MAX,
        spec_member_header(file.stored + first) matches Err(ParseError::Incomplete(_)),
    ensures
        same_finish(
            run(start(file, first), feeds),
            Some(
                Finished {
                    file: GZipFileView { stored: file.stored + first, ..file },
                    outcome: Ok(StateView::NeedsInput),
                },
            ),
        ),
        same_finish(
            run(start(GZipFileView { stored: file.stored + first, ..file }, second), feeds),
            run(start(file, first + second), feeds),
        ),
{
    reveal(at_rest);
    let one = start(file, first);
    lemma_run_header(one, feeds);
    let middle = GZipFileView { stored: file.stored + first, ..file };
    let two = start(middle, second);
    lemma_run_header(two, feeds);
    let whole = start(file, first + second);
    lemma_run_header(whole, feeds);
    assert((file.stored + first) + second =~= file.stored + (first + second));
}

/// What becomes of a reader that is given input again and again, as long
/// as it has output: the reader at the end and what the last call returns.
/// Each call has feeds of its own, `feeds` holds them call by call. There
/// is no result unless all calls but the last have output, and the last
/// has not.
pub open spec fn run_with(file: GZipFileView, input: Seq<u8>, feeds: Seq<Seq<Feed>>) -> Option<Finished>
    decreases feeds.len(),
{
    if feeds.len() == 0 {
        None
    } else {
        match run(start(file, input), feeds[0]) {
            None => None,
            Some(finished) => match finished.outcome {
                Ok(StateView::HasOutput { unparsed_input, .. }) => run_with(
                    finished.file,
                    unparsed_input,
                    feeds.skip(1),
                ),
                _ => if feeds.len() == 1 {
                    Some(finished)
                } else {
                    None
                },
            },
        }
    }
}

/// A call that has output, and then going on, is going on from the reader
/// that the call has left, with the input that it has left.
pub proof fn lemma_run_with_step(
    file: GZipFileView,
    input: Seq<u8>,
    own: Seq<Feed>,
    more: Seq<Seq<Feed>>,
    finished: Finished,
)
    requires
        run(start(file, input), own) == Some(finished),
    ensures
        finished.outcome matches Ok(StateView::HasOutput { unparsed_input, .. }) ==> run_with(
            file,
            input,
            seq![own] + more,
        ) == run_with(finished.file, unparsed_input, more),
        !(finished.outcome matches Ok(StateView::HasOutput { .. })) ==> run_with(
            file,
            input,
            seq![own],
        ) == Some(finished),
{
    assert((seq![own] + more)[0] == own);
    assert((seq![own] + more).skip(1) =~= more);
}

/// A reader at the start of a call with the given input.
pub open spec fn start(file: GZipFileView, input: Seq<u8>) -> Config {
    Config {
        phase: file.phase,
        handler: InputHandlerView::taken(file.stored, input),
        inflater: file.inflater,
    }
}

struct HeaderParsed {
    header: MemberHeader,
}

struct Inflated {
    header: MemberHeader,
    comp_size: usize,
    uncomp_size: usize,
}

enum InternalState {
    Init,
    HeaderParsed(HeaderParsed),
    Inflated(Inflated),
    End(Inflated),
    Eof,
    Error,
}

impl InternalState {
    spec fn view(&self) -> Phase {
        match self {
            InternalState::Init => Phase::Init,
            InternalState::HeaderParsed(s) => Phase::HeaderParsed(s.header@),
            InternalState::Inflated(s) => Phase::Inflated {
                header: s.header@,
                comp_size: s.comp_size as nat,
                uncomp_size: s.uncomp_size as nat,
            },
            InternalState::End(s) => Phase::End {
                header: s.header@,
                comp_size: s.comp_size as nat,
                uncomp_size: s.uncomp_size as nat,
            },
            InternalState::Eof => Phase::Eof,
            InternalState::Error => Phase::Error,
        }
    }
}

enum ParseResult {
    Continue,
    NeedsInput,
    Output,
    Error(GZipError),
    NextFile(GZipFile),
    EndOfFile,
}

impl ParseResult {
    spec fn view(&self) -> Step {
        match self {
            ParseResult::Continue => Step::Continue,
            ParseResult::NeedsInput => Step::NeedsInput,
            ParseResult::Output => Step::Output,
            ParseResult::Error(e) => Step::Error(*e),
            ParseResult::NextFile(file) => Step::NextFile(file@),
            ParseResult::EndOfFile => Step::EndOfFile,
        }
    }

    /// A reader that is handed out is well formed and can be given input.
    spec fn wf(&self) -> bool {
        match self {
            ParseResult::NextFile(file) => file@.wf() && file@.phase.readable(),
            _ => true,
        }
    }
}

/// What a step function returns, as a mathematical value.
spec fn stepped_of(r: (usize, InternalState, ParseResult)) -> Stepped {
    Stepped { consumed: r.0 as nat, phase: r.1.view(), step: r.2.view() }
}

/// A reader of one member of a GZIP stream.
pub struct GZipFile {
    state: InternalState,
    unparsed: Vec<u8>,
    inflater: deflate::Stream,
}

impl View for GZipFile {
    type V = GZipFileView;

    closed spec fn view(&self) -> GZipFileView {
        GZipFileView { phase: self.state.view(), stored: self.unparsed@, inflater: self.inflater@ }
    }
}

impl GZipFile {
    /// The bytes that the last call of [`GZipFile::read`] put out.
    pub fn get_output(&self) -> (output: &[u8])
        requires
            self@.wf(),
        ensures
            output@ == self@.inflater.output(),
            output@.len() > 0,
    {
        self.inflater.get_output()
    }

    /// Gives the reader input. The reader goes as far as the input lets it
    /// and says where it stands: see [`State`]. What it does on the way is
    /// specified by [`run`], for the feeds that its inflater took.
    ///
    /// A reader that has returned an error, or has said that the stream is
    /// over, must not be given input again.
    pub fn read<'i, 's>(&'s mut self, input: &'i [u8]) -> (r: Result<
        State<'i, 's, GZipFile>,
        GZipError,
    >)
        requires
            old(self)@.wf(),
            old(self)@.phase.readable(),
        ensures
            final(self)@.wf(),
            exists|feeds: Seq<Feed>| #[trigger]
                run(start(old(self)@, input@), feeds) == Some(
                    Finished { file: final(self)@, outcome: outcome_of(r) },
                ),
            r is Ok ==> !(final(self)@.phase is Error),
            r matches Ok(State::HasOutput { output, unparsed_input }) ==> output@.len() > 0
                && output@ == final(self)@.inflater.output() && final(self)@.inflater.outputs_left() < old(self)@.inflater.outputs_left() && is_tail(unparsed_input@, input@)
                && final(self)@.phase.readable(),
            r matches Ok(State::NextFile { unparsed_input, next_file }) ==> next_file@.wf()
                && next_file@.phase.readable() && is_tail(unparsed_input@, input@),
            r matches Ok(State::NeedsInputOrEof(next_file)) ==> next_file@ == fresh_file()
                && next_file@.wf(),
            r is Ok && !(r matches Ok(State::EndOfFile)) ==> final(self)@.phase.readable(),
    {
        let (told, Ghost(feeds)) = self.read_told(input);
        match told {
            Ok(Told::NeedsInputOrEof(file)) => Ok(State::NeedsInputOrEof(file)),
            Ok(Told::NeedsInput) => Ok(State::NeedsInput),
            Ok(Told::HasOutput { unparsed_input }) => Ok(
                State::HasOutput { unparsed_input, output: self.inflater.get_output() },
            ),
            Ok(Told::NextFile { unparsed_input, next_file }) => Ok(
                State::NextFile { unparsed_input, next_file },
            ),
            Ok(Told::EndOfFile) => Ok(State::EndOfFile),
            Err(e) => Err(e),
        }
    }

    /// Gives the reader input, as [`GZipFile::read`] does, and returns what it
    /// has to tell without the output, which is left in the inflater, and
    /// the feeds that the inflater took.
    pub(crate) fn read_told<'i>(&mut self, input: &'i [u8]) -> (r: (
        Result<Told<'i, GZipFile>, GZipError>,
        Ghost<Seq<Feed>>,
    ))
        requires
            old(self)@.wf(),
            old(self)@.phase.readable(),
        ensures
            final(self)@.wf(),
            run(start(old(self)@, input@), r.1@) == Some(
                Finished {
                    file: final(self)@,
                    outcome: told_outcome(r.0, final(self)@.inflater.output()),
                },
            ),
            r.0 is Ok ==> !(final(self)@.phase is Error),
            final(self)@.inflater.outputs_left() <= old(self)@.inflater.outputs_left(),
            r.0 matches Ok(Told::HasOutput { unparsed_input }) ==> final(self)@.inflater.outputs_left() < old(self)@.inflater.outputs_left() && is_tail(unparsed_input@, input@) && final(
                self)@.phase.readable(),
            r.0 matches Ok(Told::NextFile { unparsed_input, next_file }) ==> next_file@.wf()
                && next_file@.phase.readable() && is_tail(unparsed_input@, input@),
            r.0 matches Ok(Told::NeedsInputOrEof(next_file)) ==> next_file@ == fresh_file()
                && next_file@.wf(),
            r.0 is Ok && !(r.0 matches Ok(Told::EndOfFile)) ==> final(self)@.phase.readable(),
    {
        let mut ihandler = InputHandler::take_storage(&mut self.unparsed, input);
        let ghost cfg0 = start(old(self)@, input@);
        let ghost mut used: Seq<Feed> = Seq::empty();
        proof {
            assert forall|rest: Seq<Feed>| #[trigger] run(cfg0, used + rest) == run(cfg0, rest) by {
                assert(used + rest =~= rest);
            }
            ihandler.lemma_wf();
            assert(ihandler@.kept == old(self)@.stored);
            reveal(at_rest);
        }
        loop
            invariant
                ihandler.wf(),
                ihandler@.orig_input == input@,
                self.inflater@.wf(),
                self.state.view().readable(),
                in_step(
                    Config { phase: self.state.view(), handler: ihandler@, inflater: self.inflater@ },
                ),
                self.inflater@.outputs_left() <= old(self)@.inflater.outputs_left(),
                cfg0 == start(old(self)@, input@),
                forall|rest: Seq<Feed>| #[trigger]
                    run(cfg0, used + rest) == run(
                        Config {
                            phase: self.state.view(),
                            handler: ihandler@,
                            inflater: self.inflater@,
                        },
                        rest,
                    ),
            decreases
                    self.state.view().phases_left(),
                    ihandler@.orig_input.len() - ihandler@.seen(),
                    (if ihandler@.stitched() {
                        1nat
                    } else {
                        0nat
                    }),
        {
            let ghost cfg = Config {
                phase: self.state.view(),
                handler: ihandler@,
                inflater: self.inflater@,
            };
            let mut state = InternalState::Error;
            std::mem::swap(&mut self.state, &mut state);
            let (stepped, Ghost(own)) = self.parse_step(state, ihandler.current());
            let (bytes_consumed, new_state, res) = stepped;
            self.state = new_state;
            let ghost out = step(cfg.phase, cfg.handler.unparsed(), cfg.inflater, own);
            proof {
                ihandler.lemma_wf();
                lemma_step_progress(cfg.phase, cfg.handler.unparsed(), cfg.inflater, own);
                lemma_step_sound(cfg, own);
            }
            let unparsed = ihandler.consumed(bytes_consumed);
            match res {
                ParseResult::Continue => {
                    if unparsed.bytes().len() == 0 {
                        ihandler.return_storage(&mut self.unparsed);
                        proof {
                            lemma_read_exit(
                                cfg0,
                                used,
                                cfg,
                                own,
                                Finished { file: self@, outcome: Ok(StateView::NeedsInput) },
                            );
                        }
                        return (Ok(Told::NeedsInput), Ghost(used + own));
                    }
                    proof {
                        ihandler.lemma_wf();
                        lemma_read_next(
                            cfg0,
                            used,
                            cfg,
                            own,
                            Config {
                                phase: self.state.view(),
                                handler: ihandler@,
                                inflater: self.inflater@,
                            },
                        );
                        used = used + own;
                    }
                },
                ParseResult::NeedsInput => {
                    let extended_len: usize = ihandler.extend_input();
                    // Nothing is left of the input to extend with: the
                    // caller has to provide more.
                    if extended_len == 0 {
                        ihandler.return_storage(&mut self.unparsed);
                        proof {
                            lemma_read_exit(
                                cfg0,
                                used,
                                cfg,
                                own,
                                Finished { file: self@, outcome: Ok(StateView::NeedsInput) },
                            );
                        }
                        return (Ok(Told::NeedsInput), Ghost(used + own));
                    }
                    proof {
                        ihandler.lemma_wf();
                        lemma_read_next(
                            cfg0,
                            used,
                            cfg,
                            own,
                            Config {
                                phase: self.state.view(),
                                handler: ihandler@,
                                inflater: self.inflater@,
                            },
                        );
                        used = used + own;
                    }
                },
                ParseResult::Output => {
                    let unparsed_input = unparsed.assert_take_long();
                    ihandler.return_storage(&mut self.unparsed);
                    proof {
                        lemma_read_exit(
                            cfg0,
                            used,
                            cfg,
                            own,
                            Finished {
                                file: self@,
                                outcome: Ok(
                                    StateView::HasOutput {
                                        unparsed_input: unparsed_input@,
                                        output: self.inflater@.output(),
                                    },
                                ),
                            },
                        );
                    }
                    return (Ok(Told::HasOutput { unparsed_input }), Ghost(used + own));
                },
                ParseResult::NextFile(next_file) => {
                    let unparsed_input = unparsed.assert_take_long();
                    ihandler.return_storage(&mut self.unparsed);
                    proof {
                        lemma_read_exit(
                            cfg0,
                            used,
                            cfg,
                            own,
                            Finished {
                                file: self@,
                                outcome: Ok(
                                    StateView::NextFile {
                                        unparsed_input: unparsed_input@,
                                        next_file: next_file@,
                                    },
                                ),
                            },
                        );
                    }
                    return (Ok(Told::NextFile { unparsed_input, next_file }), Ghost(used + own));
                },
                ParseResult::EndOfFile => {
                    ihandler.return_storage(&mut self.unparsed);
                    if let InternalState::Eof = self.state {
                        proof {
                            lemma_read_exit(
                                cfg0,
                                used,
                                cfg,
                                own,
                                Finished { file: self@, outcome: Ok(StateView::EndOfFile) },
                            );
                        }
                        return (Ok(Told::EndOfFile), Ghost(used + own));
                    } else {
                        let next_file = start_stream();
                        proof {
                            lemma_read_exit(
                                cfg0,
                                used,
                                cfg,
                                own,
                                Finished {
                                    file: self@,
                                    outcome: Ok(StateView::NeedsInputOrEof(next_file@)),
                                },
                            );
                        }
                        return (Ok(Told::NeedsInputOrEof(next_file)), Ghost(used + own));
                    }
                },
                ParseResult::Error(err) => {
                    ihandler.return_storage(&mut self.unparsed);
                    proof {
                        lemma_read_exit(
                            cfg0,
                            used,
                            cfg,
                            own,
                            Finished { file: self@, outcome: Err(err) },
                        );
                    }
                    return (Err(err), Ghost(used + own));
                },
            }
        }
    }

    fn parse_step<'long, 'short>(
        &'short mut self,
        state: InternalState,
        input: Input<'long, 'short>,
    ) -> (r: ((usize, InternalState, ParseResult), Ghost<Seq<Feed>>)) where 'long: 'short
        requires
            old(self).inflater@.wf(),
            state.view().readable(),
        ensures
            final(self).inflater@.wf(),
            final(self).state == old(self).state,
            final(self).unparsed == old(self).unparsed,
            r.1@.len() <= 1,
            step(state.view(), input@, old(self).inflater@, r.1@) == (StepOut {
                stepped: stepped_of(r.0),
                inflater: final(self).inflater@,
                feeds: Seq::empty(),
                legit: true,
            }),
            r.0.0 <= input@.len(),
            r.0.2.wf(),
            final(self).inflater@.outputs_left() <= old(self).inflater@.outputs_left(),
            r.0.2 is Output ==> final(self).inflater@.outputs_left() < old(self).inflater@.outputs_left(),
    {
        reveal(step);
        match state {
            InternalState::Init => (GZipFile::parse_header(input), Ghost(Seq::empty())),
            InternalState::HeaderParsed(state) => self.inflate(input, state),
            InternalState::Inflated(state) => (GZipFile::parse_footer(input, state), Ghost(Seq::empty())),
            InternalState::End(_) => (
                (0, InternalState::Eof, ParseResult::EndOfFile),
                Ghost(Seq::empty()),
            ),
            _ => {
                proof {
                    assert(false);
                }
                ((0, InternalState::Error, ParseResult::EndOfFile), Ghost(Seq::empty()))
            },
        }
    }

    fn parse_header<'long, 'short>(input: Input<'long, 'short>) -> (r: (
        usize,
        InternalState,
        ParseResult,
    ))
        ensures
            stepped_of(r) == header_step(input@),
            r.0 <= input@.len(),
            r.2.wf(),
    {
        let bytes = input.bytes();
        proof {
            lemma_member_header_len(bytes@);
        }
        match MemberHeader::parse(bytes) {
            Ok((unparsed, header)) => {
                let consumed: usize = bytes.len() - unparsed.len();
                (consumed, InternalState::HeaderParsed(HeaderParsed { header }), ParseResult::Continue)
            },
            Err(ParseError::Incomplete(_need)) => (0, InternalState::Init, ParseResult::NeedsInput),
            Err(_) => (
                0,
                InternalState::Error,
                ParseResult::Error(GZipError::InvalidMemberHeader),
            ),
        }
    }

    fn inflate<'long, 'short>(&mut self, input: Input<'long, 'short>, state: HeaderParsed) -> (r: (
        (usize, InternalState, ParseResult),
        Ghost<Seq<Feed>>,
    ))
        requires
            old(self).inflater@.wf(),
        ensures
            final(self).inflater@.wf(),
            final(self).state == old(self).state,
            final(self).unparsed == old(self).unparsed,
            r.1@.len() <= 1,
            step(Phase::HeaderParsed(state.header@), input@, old(self).inflater@, r.1@) == (StepOut {
                stepped: stepped_of(r.0),
                inflater: final(self).inflater@,
                feeds: Seq::empty(),
                legit: true,
            }),
            r.0.0 <= input@.len(),
            r.0.2.wf(),
            final(self).inflater@.outputs_left() <= old(self).inflater@.outputs_left(),
            r.0.2 is Output ==> final(self).inflater@.outputs_left() < old(self).inflater@.outputs_left(),
    {
        reveal(step);
        let (verdict, consumed, Ghost(feed)) = self.inflater.feed(input.bytes());
        proof {
            assert(seq![feed].skip(1) =~= Seq::<Feed>::empty());
        }
        let out = match verdict {
            Verdict::NeedsInput => (consumed, InternalState::HeaderParsed(state), ParseResult::Continue),
            Verdict::HasOutput => (consumed, InternalState::HeaderParsed(state), ParseResult::Output),
            Verdict::Stop => (
                consumed,
                InternalState::Inflated(
                    Inflated {
                        header: state.header,
                        comp_size: self.inflater.compressed_size(),
                        uncomp_size: self.inflater.uncompressed_size(),
                    },
                ),
                ParseResult::Continue,
            ),
            Verdict::Fail(_) => (
                0,
                InternalState::Error,
                ParseResult::Error(GZipError::InvalidDeflateStream),
            ),
        };
        let ghost own = seq![feed];
        (out, Ghost(own))
    }

    fn parse_footer<'long, 'short>(input: Input<'long, 'short>, state: Inflated) -> (r: (
        usize,
        InternalState,
        ParseResult,
    ))
        ensures
            stepped_of(r) == footer_step(
                input@,
                state.header@,
                state.comp_size as nat,
                state.uncomp_size as nat,
            ),
            r.0 <= input@.len(),
            r.2.wf(),
    {
        let bytes = input.bytes();
        proof {
            lemma_footer_len(bytes@);
        }
        match headers::parse_footer(bytes) {
            Ok((unparsed, _footer)) => {
                if unparsed.len() == 0 {
                    let consumed: usize = bytes.len() - unparsed.len();
                    return (consumed, InternalState::End(state), ParseResult::EndOfFile);
                }
                match peek_stream(unparsed) {
                    Ok((unparsed_input, next_file)) => {
                        let consumed: usize = bytes.len() - unparsed_input.len();
                        (consumed, InternalState::End(state), ParseResult::NextFile(next_file))
                    },
                    Err(err) => (0, InternalState::Error, ParseResult::Error(err)),
                }
            },
            Err(ParseError::Incomplete(_need)) => (
                0,
                InternalState::Inflated(state),
                ParseResult::NeedsInput,
            ),
            Err(_) => (0, InternalState::Error, ParseResult::Error(GZipError::InvalidFooter)),
        }
    }

    /// The name of the member, if its header was read and gives one.
    pub fn filename(&self) -> (name: Option<&[u8]>)
        ensures
            match name {
                Some(bytes) => self@.phase.filename() == Some(bytes@),
                None => self@.phase.filename() is None,
            },
    {
        let header = match &self.state {
            InternalState::HeaderParsed(state) => &state.header,
            InternalState::Inflated(state) => &state.header,
            InternalState::End(state) => &state.header,
            _ => {
                return None;
            },
        };
        match &header.filename {
            Some(name) => Some(name.as_slice()),
            None => None,
        }
    }

    /// Gives the reader input and hands each piece of output to `callback`,
    /// until the reader has something else to say: see [`run_with`]. The
    /// callback is only ever given bytes, never an empty slice.
    pub fn read_with<'i, F: FnMut(&[u8])>(&mut self, input: &'i [u8], mut callback: F) -> (r: Result<
        State<'i, 'i, GZipFile>,
        GZipError,
    >)
        requires
            old(self)@.wf(),
            old(self)@.phase.readable(),
            forall|bytes: &[u8]| bytes@.len() > 0 ==> call_requires(callback, (bytes,)),
        ensures
            final(self)@.wf(),
            r is Ok ==> !(r->Ok_0 is HasOutput) && !(final(self)@.phase is Error),
            r matches Ok(State::NextFile { unparsed_input, next_file }) ==> next_file@.wf()
                && next_file@.phase.readable() && is_tail(unparsed_input@, input@),
            r matches Ok(State::NeedsInputOrEof(next_file)) ==> next_file@ == fresh_file()
                && next_file@.wf(),
            r is Ok && !(r matches Ok(State::EndOfFile)) ==> final(self)@.phase.readable(),
            exists|feeds: Seq<Seq<Feed>>| #[trigger]
                run_with(old(self)@, input@, feeds) == Some(
                    Finished { file: final(self)@, outcome: outcome_of(r) },
                ),
    {
        let mut rest: &'i [u8] = input;
        let ghost mut used: Seq<Seq<Feed>> = Seq::empty();
        proof {
            assert(rest@ =~= input@.skip(0));
            assert forall|more: Seq<Seq<Feed>>| #[trigger]
                run_with(old(self)@, input@, used + more) == run_with(self@, rest@, more) by {
                assert(used + more =~= more);
            }
        }
        loop
            invariant
                self@.wf(),
                self@.phase.readable(),
                is_tail(rest@, input@),
                forall|bytes: &[u8]| bytes@.len() > 0 ==> call_requires(callback, (bytes,)),
                forall|more: Seq<Seq<Feed>>| #[trigger]
                    run_with(old(self)@, input@, used + more) == run_with(self@, rest@, more),
            decreases self@.inflater.outputs_left(),
        {
            let ghost before = self@;
            let ghost given = rest@;
            let (told, Ghost(own)) = self.read_told(rest);
            proof {
                let finished = Finished {
                    file: self@,
                    outcome: told_outcome(told, self@.inflater.output()),
                };
                lemma_run_with_step(before, given, own, Seq::empty(), finished);
                assert(seq![own] + Seq::<Seq<Feed>>::empty() =~= seq![own]);
                assert(used + seq![own] =~= used.push(own));
                match told {
                    Ok(Told::HasOutput { unparsed_input }) => {
                        assert(unparsed_input@ =~= input@.skip(input@.len() - unparsed_input@.len()));
                        assert forall|more: Seq<Seq<Feed>>| #[trigger]
                            run_with(old(self)@, input@, used.push(own) + more) == run_with(
                                self@,
                                unparsed_input@,
                                more,
                            ) by {
                            lemma_run_with_step(before, given, own, more, finished);
                            assert(used.push(own) + more =~= used + (seq![own] + more));
                        }
                        used = used.push(own);
                    },
                    Ok(Told::NextFile { unparsed_input, .. }) => {
                        assert(run_with(old(self)@, input@, used + seq![own]) == run_with(
                            before,
                            given,
                            seq![own],
                        ));
                        assert(unparsed_input@ =~= input@.skip(input@.len() - unparsed_input@.len()));
                    },
                    _ => {
                        assert(run_with(old(self)@, input@, used + seq![own]) == run_with(
                            before,
                            given,
                            seq![own],
                        ));
                    },
                }
            }
            match told {
                Ok(Told::HasOutput { unparsed_input }) => {
                    rest = unparsed_input;
                    callback(self.inflater.get_output());
                },
                Ok(Told::NeedsInputOrEof(f)) => {
                    return Ok(State::NeedsInputOrEof(f));
                },
                Ok(Told::NeedsInput) => {
                    return Ok(State::NeedsInput);
                },
                Ok(Told::NextFile { unparsed_input, next_file }) => {
                    return Ok(State::NextFile { unparsed_input, next_file });
                },
                Ok(Told::EndOfFile) => {
                    return Ok(State::EndOfFile);
                },
                Err(e) => {
                    return Err(e);
                },
            }
        }
    }
}

/// Starts to read a member.
pub fn start_stream() -> (file: GZipFile)
    ensures
        file@ == fresh_file(),
        file@.wf(),
{
    reveal(at_rest);
    proof {
        reveal(spec_member_header);
    }
    GZipFile { state: InternalState::Init, unparsed: Vec::new(), inflater: deflate::Stream::new() }
}

/// Starts to read the member that begins with `input`, and returns the
/// reader with the input that it has not read yet. Input that ends inside
/// the member header is kept by the reader.
pub fn peek_stream(input: &[u8]) -> (r: Result<(&[u8], GZipFile), GZipError>)
    ensures
        match r {
            Ok((rest, file)) => spec_peek_stream(input@) == Ok::<(Seq<u8>, GZipFileView), GZipError>(
                (rest@, file@),
            ) && file@.wf() && file@.phase.readable() && rest@.len() <= input@.len(),
            Err(e) => spec_peek_stream(input@) == Err::<(Seq<u8>, GZipFileView), GZipError>(e),
        },
{
    reveal(at_rest);
    proof {
        lemma_member_header_len(input@);
    }
    match MemberHeader::parse(input) {
        Ok((unparsed, header)) => Ok(
            (
                unparsed,
                GZipFile {
                    state: InternalState::HeaderParsed(HeaderParsed { header }),
                    unparsed: Vec::new(),
                    inflater: deflate::Stream::new(),
                },
            ),
        ),
        Err(ParseError::Incomplete(_need)) => {
            let nothing = &input[input.len()..input.len()];
            proof {
                assert(nothing@ =~= Seq::<u8>::empty());
            }
            Ok(
                (
                    nothing,
                    GZipFile {
                        state: InternalState::Init,
                        unparsed: vstd::slice::slice_to_vec(input),
                        inflater: deflate::Stream::new(),
                    },
                ),
            )
        },
        Err(_) => Err(GZipError::InvalidMemberHeader),
    }
}

/// A reader that was given the first four bytes of a member header and
/// nothing else has kept them and waits for more, unless the fourth byte,
/// the flags, has a reserved bit set: then the stream is malformed.
pub proof fn lemma_signature_read(head: Seq<u8>, feeds: Seq<Feed>)
    requires
        head.len() == 4,
        head[0] == 0x1f,
        head[1] == 0x8b,
        head[2] == 0x08,
    ensures
        run(start(fresh_file(), head), feeds) == Some(
            if headers::flags_of(head[3]) is Some {
                Finished {
                    file: GZipFileView { phase: Phase::Init, stored: head, inflater: fresh_inflater() },
                    outcome: Ok(StateView::NeedsInput),
                }
            } else {
                Finished {
                    file: GZipFileView {
                        phase: Phase::Error,
                        stored: Seq::empty(),
                        inflater: fresh_inflater(),
                    },
                    outcome: Err(GZipError::InvalidMemberHeader),
                }
            },
        ),
{
    reveal(step);
    reveal(spec_member_header);
    let cfg = start(fresh_file(), head);
    let next = Config { handler: cfg.handler.extended(), ..cfg };
    assert(cfg.handler.unparsed() =~= head);
    assert(cfg.handler.storage() =~= Seq::<u8>::empty());
    if headers::flags_of(head[3]) is Some {
        assert(next.handler.unparsed() =~= head);
        assert(next.handler.extended().storage() =~= head);
        assert(run(cfg, feeds) == run(next, feeds));
    }
}

} // verus!
