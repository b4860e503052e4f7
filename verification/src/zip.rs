//! Reading one entry after another out of a ZIP archive.
//!
//! A [`ZipFile`] reads one entry: its local file header, its bytes, which it
//! inflates, the data descriptor if there is one, and the start of what
//! follows, from which it learns whether another entry comes or the central
//! directory, which ends the archive. It goes as far as the input lets it
//! and picks up from there when it is given more.
//!
//! What a call of [`ZipFile::read`] does is specified by [`run`]: a reader
//! takes one [`step`] after the other, each on the bytes that
//! [`InputHandlerView::unparsed`] shows it, until a step has something to
//! tell the caller. A run is specified over the [`Feed`]s of the inflater:
//! each has to be the one that the decompressor makes of the bytes it is
//! fed, which [`StreamView::can_feed`] says.

use vstd::prelude::*;

use crate::deflate;
use crate::deflate::{Feed, StreamView, Verdict};
use crate::input_helper::{Input, InputHandler, InputHandlerView};
use crate::utils::{agree_on_common_prefix, is_tail, le32, spec_tag, tag, u64_from_le, ParseError};
use crate::{
    outcome_of, told_outcome, Outcome, ReadHeadersResult, ReadHeadersView, State, StateView, Told,
};

pub mod datetime;
pub mod headers;

use self::headers::{
    lemma_data_descriptor_incomplete, lemma_data_descriptor_len,
    lemma_data_descriptor_truncates, lemma_local_file_header_extends,
    lemma_local_file_header_len, lemma_local_file_header_signature,
    lemma_local_file_header_truncates, spec_central_dir_header,
    spec_data_descriptor, spec_local_file_header, CentralDirHeader, DataDescriptor,
    LocalFileHeader, LocalFileHeaderView, DATA_DESCRIPTOR_TAG, LOCAL_FILE_HEADER_TAG,
};

verus! {

/// What can be wrong with a ZIP archive.
#[derive(Debug, Copy, Clone, Eq, PartialEq)]
pub enum ZipError {
    InvalidDateOrTime,
    InvalidVersionMadeBy,
    InvalidCompressionMethod,
    InvalidHeaderId,
    /// The bytes do not start a local file header. This is a signal between
    /// parsers, not a verdict on the archive.
    NotLocalFileHeader,
    InvalidLocalFileHeader,
    InvalidDeflateStream,
    InvalidDataDescriptor,
    /// The bytes do not start a central directory header. This is a signal
    /// between parsers, not a verdict on the archive.
    NotCentralDirHeader,
    InvalidCentralDirHeader,
}

/// How far the reading of an entry has got.
pub enum Phase {
    /// Nothing was read yet.
    Init,
    /// The header was read; the entry's bytes are being inflated.
    HeaderParsed(LocalFileHeaderView),
    /// The entry's bytes have ended after `comp_size` bytes, which gave
    /// `uncomp_size` bytes; the data descriptor is next.
    Inflated { header: LocalFileHeaderView, comp_size: nat, uncomp_size: nat },
    /// The data descriptor is dealt with; what follows the entry is next.
    DescriptorParsed { header: LocalFileHeaderView, comp_size: nat, uncomp_size: nat },
    /// The entry has ended.
    End { header: LocalFileHeaderView, comp_size: nat, uncomp_size: nat },
    /// The archive was found to be malformed.
    Error,
}

impl Phase {
    /// An upper bound on the number of phases still to come.
    pub open spec fn phases_left(self) -> nat {
        match self {
            Phase::Init => 5,
            Phase::HeaderParsed(_) => 4,
            Phase::Inflated { .. } => 3,
            Phase::DescriptorParsed { .. } => 2,
            Phase::End { .. } => 1,
            Phase::Error => 0,
        }
    }

    /// The name of the entry, once its header was read.
    pub open spec fn filename(self) -> Option<Seq<u8>> {
        match self {
            Phase::Init => None,
            Phase::HeaderParsed(header) => Some(header.filename),
            Phase::Inflated { header, .. } => Some(header.filename),
            Phase::DescriptorParsed { header, .. } => Some(header.filename),
            Phase::End { header, .. } => Some(header.filename),
            Phase::Error => None,
        }
    }
}

/// A reader of a ZIP entry as a mathematical value.
pub struct ZipFileView {
    pub phase: Phase,
    /// What was kept of the input for the next call.
    pub stored: Seq<u8>,
    pub inflater: StreamView,
}

impl ZipFileView {
    /// The inflater is well formed, and what the reader has kept are bytes
    /// with which it could not go on.
    pub open spec fn wf(self) -> bool {
        self.inflater.wf() && at_rest(self.phase, self.stored)
    }
}

/// What a step has to tell.
pub enum Step {
    /// Nothing: the next step can follow.
    Continue,
    /// The bytes shown were too few.
    NeedsInput,
    /// The inflater has output.
    Output,
    Error(ZipError),
    /// The entry has ended and another one has begun, for which this
    /// reader is handed out.
    NextFile(ZipFileView),
    /// The entry has ended and the central directory follows.
    EndOfFile,
}

/// What a step did: how many of the bytes shown it consumed, in which phase
/// it left the reader, and what it has to tell.
pub struct Stepped {
    pub consumed: nat,
    pub phase: Phase,
    pub step: Step,
}

/// The inflater with which every reader starts.
pub open spec fn fresh_inflater() -> StreamView {
    deflate::Stream::spec_with(0, 0)
}

/// A reader that has read nothing.
pub open spec fn fresh_file() -> ZipFileView {
    ZipFileView { phase: Phase::Init, stored: Seq::empty(), inflater: fresh_inflater() }
}

/// The reader for the entry that starts with `input`, and the input that it
/// has not read. Where `input` ends inside the local file header, the reader
/// keeps all of it and has still to begin. Where `input` starts no local
/// file header at all, there is no reader.
pub open spec fn spec_peek_stream(input: Seq<u8>) -> Result<(Seq<u8>, ZipFileView), ZipError> {
    match spec_local_file_header(input) {
        Ok((rest, header)) => Ok(
            (
                rest,
                ZipFileView {
                    phase: Phase::HeaderParsed(header),
                    stored: Seq::empty(),
                    inflater: fresh_inflater(),
                },
            ),
        ),
        Err(ParseError::Incomplete(_)) => Ok(
            (
                Seq::empty(),
                ZipFileView { phase: Phase::Init, stored: input, inflater: fresh_inflater() },
            ),
        ),
        Err(ParseError::Error(ZipError::NotLocalFileHeader)) => Err(ZipError::NotLocalFileHeader),
        Err(_) => Err(ZipError::InvalidLocalFileHeader),
    }
}

/// The first step: the local file header.
pub open spec fn header_step(input: Seq<u8>) -> Stepped {
    match spec_local_file_header(input) {
        Ok((rest, header)) => Stepped {
            consumed: (input.len() - rest.len()) as nat,
            phase: Phase::HeaderParsed(header),
            step: Step::Continue,
        },
        Err(ParseError::Incomplete(_)) => Stepped {
            consumed: 0,
            phase: Phase::Init,
            step: Step::NeedsInput,
        },
        Err(_) => Stepped {
            consumed: 0,
            phase: Phase::Error,
            step: Step::Error(ZipError::InvalidLocalFileHeader),
        },
    }
}

/// The header promises that the entry has no bytes at all, not even the few
/// of an empty DEFLATE stream.
pub open spec fn may_be_empty(header: LocalFileHeaderView) -> bool {
    header.compressed_size == 0 && header.uncompressed_size == 0 && !header.deferred_sizes
}

/// The step that spares the inflater an entry without bytes. Such an entry
/// is known by its header and by the signature of the next local file
/// header right behind it; four bytes are needed to see that. The step is
/// not taken (`None`) where the entry has bytes to inflate.
pub open spec fn empty_stream_step(input: Seq<u8>, header: LocalFileHeaderView) -> Option<Stepped> {
    if !may_be_empty(header) {
        None
    } else if input.len() < 4 {
        Some(Stepped { consumed: 0, phase: Phase::HeaderParsed(header), step: Step::NeedsInput })
    } else if input.take(4) == LOCAL_FILE_HEADER_TAG@ {
        Some(
            Stepped {
                consumed: 0,
                phase: Phase::Inflated { header, comp_size: 0, uncomp_size: 0 },
                step: Step::Continue,
            },
        )
    } else {
        None
    }
}

/// The step that feeds the inflater, for each thing that the inflater may
/// say: `consumed` is what it took, `after` is the inflater after the feed.
pub open spec fn inflate_step(
    header: LocalFileHeaderView,
    verdict: Verdict,
    consumed: nat,
    after: StreamView,
) -> Stepped {
    match verdict {
        Verdict::NeedsInput => Stepped {
            consumed,
            phase: Phase::HeaderParsed(header),
            step: Step::Continue,
        },
        Verdict::HasOutput => Stepped {
            consumed,
            phase: Phase::HeaderParsed(header),
            step: Step::Output,
        },
        Verdict::Stop => Stepped {
            consumed,
            phase: Phase::Inflated {
                header,
                comp_size: after.comp_size,
                uncomp_size: after.uncomp_size,
            },
            step: Step::Continue,
        },
        Verdict::Fail(_) => Stepped {
            consumed: 0,
            phase: Phase::Error,
            step: Step::Error(ZipError::InvalidDeflateStream),
        },
    }
}

/// The sizes that a data descriptor gives are those of the entry. Where the
/// sizes are 32 bits wide they are compared modulo 2^32: that is how some
/// archivers store the sizes of larger entries.
pub open spec fn sizes_match(
    desc: DataDescriptor,
    wide: bool,
    comp_size: nat,
    uncomp_size: nat,
) -> bool {
    if wide {
        uncomp_size == desc.uncompressed_size && comp_size == desc.compressed_size
    } else {
        uncomp_size % 0x1_0000_0000 == desc.uncompressed_size && comp_size % 0x1_0000_0000
            == desc.compressed_size
    }
}

/// The step behind the entry's bytes: the data descriptor. Any bytes parse
/// as one. They are taken for one, and consumed, where they give the sizes
/// of the entry. Where they do not, there has to be a data descriptor if
/// the bytes start with its signature or the header said that the sizes
/// are deferred: then the archive is malformed. Else there is none, and the
/// step consumes nothing.
pub open spec fn descriptor_step(
    input: Seq<u8>,
    header: LocalFileHeaderView,
    comp_size: nat,
    uncomp_size: nat,
) -> Stepped {
    match spec_data_descriptor(input, header.is_zip64) {
        Ok((rest, desc)) => if sizes_match(desc, header.is_zip64, comp_size, uncomp_size) {
            Stepped {
                consumed: (input.len() - rest.len()) as nat,
                phase: Phase::DescriptorParsed { header, comp_size, uncomp_size },
                step: Step::Continue,
            }
        } else if desc.tag || header.deferred_sizes {
            Stepped {
                consumed: 0,
                phase: Phase::Error,
                step: Step::Error(ZipError::InvalidDataDescriptor),
            }
        } else {
            Stepped {
                consumed: 0,
                phase: Phase::DescriptorParsed { header, comp_size, uncomp_size },
                step: Step::Continue,
            }
        },
        Err(ParseError::Incomplete(_)) => Stepped {
            consumed: 0,
            phase: Phase::Inflated { header, comp_size, uncomp_size },
            step: Step::NeedsInput,
        },
        Err(_) => Stepped {
            consumed: 0,
            phase: Phase::Error,
            step: Step::Error(ZipError::InvalidDataDescriptor),
        },
    }
}

/// Bytes behind an entry that are enough for a data descriptor, do not
/// start with its signature and do not hold the sizes of the entry where a
/// data descriptor has them, are left where they are if the header has not
/// deferred the sizes: they parse as a data descriptor, but the reader
/// takes them for none, goes on to what follows the entry and consumes
/// nothing.
pub proof fn lemma_descriptor_tolerance(
    input: Seq<u8>,
    header: LocalFileHeaderView,
    comp_size: nat,
    uncomp_size: nat,
)
    requires
        !header.deferred_sizes,
        input.len() >= (if header.is_zip64 {
            20int
        } else {
            12int
        }),
        input.take(4) != DATA_DESCRIPTOR_TAG@,
        if header.is_zip64 {
            u64_from_le(input.skip(4)) != comp_size || u64_from_le(input.skip(12)) != uncomp_size
        } else {
            le32(input, 4) != comp_size % 0x1_0000_0000 || le32(input, 8) != uncomp_size
                % 0x1_0000_0000
        },
    ensures
        spec_data_descriptor(input, header.is_zip64) is Ok,
        descriptor_step(input, header, comp_size, uncomp_size) == (Stepped {
            consumed: 0,
            phase: Phase::DescriptorParsed { header, comp_size, uncomp_size },
            step: Step::Continue,
        }),
{
    reveal(spec_data_descriptor);
    if agree_on_common_prefix(input, DATA_DESCRIPTOR_TAG@) {
        assert(input.take(4) =~= DATA_DESCRIPTOR_TAG@);
    }
}

/// The bytes are too few to tell the signature of a local file header
/// from another one.
pub open spec fn signature_undecided(input: Seq<u8>) -> bool {
    spec_tag(input, LOCAL_FILE_HEADER_TAG@, ZipError::NotLocalFileHeader) matches Err(
        ParseError::Incomplete(_),
    )
}

/// The last step: what follows the entry. The signature of a local file
/// header begins the next entry, which gets a reader of its own. A whole
/// central directory header ends the archive; it is not consumed.
pub open spec fn end_step(
    input: Seq<u8>,
    header: LocalFileHeaderView,
    comp_size: nat,
    uncomp_size: nat,
) -> Stepped {
    if signature_undecided(input) {
        Stepped {
            consumed: 0,
            phase: Phase::DescriptorParsed { header, comp_size, uncomp_size },
            step: Step::NeedsInput,
        }
    } else {
        end_step_decided(input, header, comp_size, uncomp_size)
    }
}

/// The last step, where the bytes suffice to know a signature.
pub open spec fn end_step_decided(
    input: Seq<u8>,
    header: LocalFileHeaderView,
    comp_size: nat,
    uncomp_size: nat,
) -> Stepped {
    match spec_peek_stream(input) {
        Ok((rest, next_file)) => Stepped {
            consumed: (input.len() - rest.len()) as nat,
            phase: Phase::End { header, comp_size, uncomp_size },
            step: Step::NextFile(next_file),
        },
        Err(ZipError::NotLocalFileHeader) => match spec_central_dir_header(input) {
            Ok(_) => Stepped {
                consumed: 0,
                phase: Phase::End { header, comp_size, uncomp_size },
                step: Step::Continue,
            },
            Err(ParseError::Incomplete(_)) => Stepped {
                consumed: 0,
                phase: Phase::DescriptorParsed { header, comp_size, uncomp_size },
                step: Step::NeedsInput,
            },
            Err(_) => Stepped {
                consumed: 0,
                phase: Phase::Error,
                step: Step::Error(ZipError::InvalidCentralDirHeader),
            },
        },
        Err(e) => Stepped { consumed: 0, phase: Phase::Error, step: Step::Error(e) },
    }
}

/// A reader in phase `phase` that is shown `stored` and nothing else has to
/// ask for more: these are bytes that a reader may have kept.
#[verifier::opaque]
pub open spec fn at_rest(phase: Phase, stored: Seq<u8>) -> bool {
    match phase {
        Phase::Init => spec_local_file_header(stored) matches Err(ParseError::Incomplete(_)),
        Phase::HeaderParsed(header) => stored.len() == 0 || (may_be_empty(header) && stored.len()
            < 4),
        Phase::Inflated { header, .. } => spec_data_descriptor(stored, header.is_zip64) is Err,
        Phase::DescriptorParsed { header, comp_size, uncomp_size } => end_step(
            stored,
            header,
            comp_size,
            uncomp_size,
        ).step is NeedsInput,
        Phase::End { .. } => true,
        Phase::Error => true,
    }
}

/// A step together with what it did to the inflater and to the feeds that
/// were to come. A step is not `legit` where it needs a feed and has none,
/// or has one that the inflater cannot take.
pub struct StepOut {
    pub stepped: Stepped,
    pub inflater: StreamView,
    pub feeds: Seq<Feed>,
    pub legit: bool,
}

/// The step that a reader in phase `phase` takes on the bytes `input`. Only
/// the step that inflates uses a feed, the first of `feeds`.
#[verifier::opaque]
pub open spec fn step(phase: Phase, input: Seq<u8>, inflater: StreamView, feeds: Seq<Feed>) -> StepOut {
    match phase {
        Phase::Init => StepOut { stepped: header_step(input), inflater, feeds, legit: true },
        Phase::HeaderParsed(header) => match empty_stream_step(input, header) {
            Some(stepped) => StepOut { stepped, inflater, feeds, legit: true },
            None => if feeds.len() == 0 {
                StepOut {
                    stepped: Stepped { consumed: 0, phase, step: Step::NeedsInput },
                    inflater,
                    feeds,
                    legit: false,
                }
            } else {
                StepOut {
                    stepped: inflate_step(
                        header,
                        inflater.feed_verdict(feeds[0]),
                        feeds[0].round.in_consumed as nat,
                        inflater.fed(feeds[0]),
                    ),
                    inflater: inflater.fed(feeds[0]),
                    feeds: feeds.skip(1),
                    legit: inflater.can_feed(input, feeds[0]),
                }
            },
        },
        Phase::Inflated { header, comp_size, uncomp_size } => StepOut {
            stepped: descriptor_step(input, header, comp_size, uncomp_size),
            inflater,
            feeds,
            legit: true,
        },
        Phase::DescriptorParsed { header, comp_size, uncomp_size } => StepOut {
            stepped: end_step(input, header, comp_size, uncomp_size),
            inflater,
            feeds,
            legit: true,
        },
        Phase::End { .. } => StepOut {
            stepped: Stepped { consumed: 0, phase, step: Step::EndOfFile },
            inflater,
            feeds,
            legit: true,
        },
        Phase::Error => StepOut {
            stepped: Stepped { consumed: 0, phase, step: Step::NeedsInput },
            inflater,
            feeds,
            legit: false,
        },
    }
}

/// A reader in the middle of a call.
pub struct Config {
    pub phase: Phase,
    pub handler: InputHandlerView,
    pub inflater: StreamView,
}

/// A reader at the end of a call, and what the call returns.
pub struct Finished {
    pub file: ZipFileView,
    pub outcome: Outcome<ZipFileView, ZipError>,
}

/// What follows a step: the end of the call, or the next step.
pub enum Advance {
    Done(Finished),
    Next(Config),
}

/// The step can be followed: it consumed nothing, or more than the bytes
/// that were kept from earlier calls; and where it hands input back to the
/// caller, that is the caller's own.
pub open spec fn can_follow(handler: InputHandlerView, stepped: Stepped) -> bool {
    &&& handler.can_consume(stepped.consumed)
    &&& (stepped.step is Output || stepped.step is NextFile) ==> !handler.consumed(
        stepped.consumed,
    ).stitched()
}

/// The end of a call that found the reader as `cfg` leaves it.
pub open spec fn finish(cfg: Config, outcome: Outcome<ZipFileView, ZipError>) -> Advance {
    Advance::Done(
        Finished {
            file: ZipFileView {
                phase: cfg.phase,
                stored: cfg.handler.storage(),
                inflater: cfg.inflater,
            },
            outcome,
        },
    )
}

/// What follows a step that the reader `cfg` took, `inflater` being the
/// inflater after it.
///
/// - A step of the inflater that cannot be followed is an error: the
///   DEFLATE stream has ended within the few bytes that were kept for it,
///   or has put out bytes without getting past them.
/// - After a step with nothing to tell comes the next step, unless no input
///   is left: then the caller is asked for more.
/// - After a step that had too few bytes, the bytes shown are extended by
///   input and the step is taken again, unless no input is left for that:
///   then what was shown is kept and the caller is asked for more.
/// - Anything else is told to the caller.
pub open spec fn advance(cfg: Config, stepped: Stepped, inflater: StreamView) -> Advance {
    if cfg.phase is HeaderParsed && !can_follow(cfg.handler, stepped) {
        finish(
            Config { phase: Phase::Error, handler: cfg.handler, inflater },
            Err(ZipError::InvalidDeflateStream),
        )
    } else {
        let handler = cfg.handler.consumed(stepped.consumed);
        let next = Config { phase: stepped.phase, handler, inflater };
        match stepped.step {
            Step::Continue => if handler.unparsed().len() == 0 {
                finish(next, Ok(StateView::NeedsInput))
            } else {
                Advance::Next(next)
            },
            Step::NeedsInput => {
                let extended = Config { handler: handler.extended(), ..next };
                if handler.extension_len() == 0 {
                    finish(extended, Ok(StateView::NeedsInput))
                } else {
                    Advance::Next(extended)
                }
            },
            Step::Output => finish(
                next,
                Ok(StateView::HasOutput { unparsed_input: handler.rest(), output: inflater.output() }),
            ),
            Step::NextFile(next_file) => finish(
                next,
                Ok(StateView::NextFile { unparsed_input: handler.rest(), next_file }),
            ),
            Step::EndOfFile => finish(next, Ok(StateView::EndOfFile)),
            Step::Error(e) => finish(next, Err(e)),
        }
    }
}

/// The rest of a call that has got to `cfg`, for the feeds `feeds` of the
/// inflater: the reader at the end of the call and what the call returns.
/// There is no result where a feed is needed that is not there, or where
/// one is there that the inflater cannot take.
pub open spec fn run(cfg: Config, feeds: Seq<Feed>) -> Option<Finished>
    decreases feeds.len(), cfg.phase.phases_left(), cfg.handler.orig_input.len() - cfg.handler.seen(),
    via run_terminates
{
    let out = step(cfg.phase, cfg.handler.unparsed(), cfg.inflater, feeds);
    if !out.legit {
        None
    } else {
        match advance(cfg, out.stepped, out.inflater) {
            Advance::Done(finished) => Some(finished),
            Advance::Next(next) => run(next, out.feeds),
        }
    }
}

/// A step with nothing to tell uses up a feed or leaves the reader in a
/// later phase. A step that had too few bytes consumes none, uses up no
/// feed and leaves the reader in the phase it was in.
pub proof fn lemma_step_progress(phase: Phase, input: Seq<u8>, inflater: StreamView, feeds: Seq<Feed>)
    requires
        step(phase, input, inflater, feeds).legit,
    ensures
        ({
            let out = step(phase, input, inflater, feeds);
            &&& out.feeds.len() <= feeds.len()
            &&& out.stepped.step is Continue ==> out.feeds.len() < feeds.len()
                || out.stepped.phase.phases_left() < phase.phases_left()
            &&& out.stepped.step is NeedsInput ==> out.feeds == feeds && out.stepped.consumed == 0
                && out.stepped.phase == phase
            &&& out.stepped.step is Continue && out.stepped.phase.phases_left()
                == phase.phases_left() ==> out.stepped.consumed == input.len()
            &&& out.stepped.consumed <= input.len()
            &&& out.stepped.phase.phases_left() <= phase.phases_left()
            &&& out.stepped.phase is Error <==> out.stepped.step is Error
        }),
{
    reveal(step);
    lemma_local_file_header_len(input);
    match phase {
        Phase::Inflated { header, .. } => {
            lemma_data_descriptor_len(input, header.is_zip64);
        },
        _ => {},
    }
}

/// A step looks at no feed but its own. Where it is legitimate for the
/// feeds `own`, one at most, and uses them up, then for any feeds `rest`
/// to follow, the call goes on after the step as [`advance`] says, with
/// `rest` for its later steps.
pub proof fn lemma_run_step(cfg: Config, own: Seq<Feed>, rest: Seq<Feed>)
    requires
        own.len() <= 1,
        step(cfg.phase, cfg.handler.unparsed(), cfg.inflater, own).legit,
        step(cfg.phase, cfg.handler.unparsed(), cfg.inflater, own).feeds.len() == 0,
    ensures
        ({
            let out = step(cfg.phase, cfg.handler.unparsed(), cfg.inflater, own);
            run(cfg, own + rest) == match advance(cfg, out.stepped, out.inflater) {
                Advance::Done(finished) => Some(finished),
                Advance::Next(next) => run(next, rest),
            }
        }),
{
    reveal(step);
    let input = cfg.handler.unparsed();
    let out = step(cfg.phase, input, cfg.inflater, own);
    let all = step(cfg.phase, input, cfg.inflater, own + rest);
    if own.len() == 0 {
        assert(own + rest =~= rest);
        assert(out.feeds == own);
        assert(all.feeds == rest);
    } else {
        assert((own + rest)[0] == own[0]);
        assert((own + rest).skip(1) =~= rest);
        if out.feeds == own {
            assert(false);
        }
        assert(all.feeds == rest);
    }
    assert(all.stepped == out.stepped);
    assert(all.inflater == out.inflater);
    assert(all.legit);
}

#[via_fn]
proof fn run_terminates(cfg: Config, feeds: Seq<Feed>) {
    let out = step(cfg.phase, cfg.handler.unparsed(), cfg.inflater, feeds);
    if out.legit {
        lemma_step_progress(cfg.phase, cfg.handler.unparsed(), cfg.inflater, feeds);
        match advance(cfg, out.stepped, out.inflater) {
            Advance::Done(_) => {},
            Advance::Next(next) => {
                if out.stepped.step is NeedsInput {
                    assert(next.handler == cfg.handler.extended());
                    assert(cfg.handler.extension_len() > 0);
                }
            },
        }
    }
}

/// What holds of a reader between the steps of a call. Where the parser is
/// shown stitched bytes, the kept bytes among them are such that the reader
/// has to get past them: bytes with which it could not go on, or bytes that
/// were kept for a data descriptor and were none, shown with more behind
/// them.
pub open spec fn in_step(cfg: Config) -> bool {
    &&& cfg.handler.wf()
    &&& cfg.handler.stitched() ==> {
        ||| at_rest(cfg.phase, cfg.handler.kept)
        ||| cfg.phase is DescriptorParsed && cfg.handler.copied > 0 && cfg.handler.kept.len() < 30
    }
}

/// The stitching is sound. A step of a parser can always be followed: a
/// parser that consumes anything gets past the kept bytes. And whatever
/// follows a step, the reader is left as it has to be: between steps as
/// [`in_step`] says, and at the end of the call with bytes kept with which
/// it could not go on.
pub proof fn lemma_step_sound(cfg: Config, feeds: Seq<Feed>)
    requires
        in_step(cfg),
        step(cfg.phase, cfg.handler.unparsed(), cfg.inflater, feeds).legit,
    ensures
        ({
            let out = step(cfg.phase, cfg.handler.unparsed(), cfg.inflater, feeds);
            &&& !(cfg.phase is HeaderParsed) ==> can_follow(cfg.handler, out.stepped)
            &&& match advance(cfg, out.stepped, out.inflater) {
                Advance::Next(next) => in_step(next),
                Advance::Done(finished) => at_rest(finished.file.phase, finished.file.stored),
            }
        }),
{
    reveal(at_rest);
    reveal(step);
    let handler = cfg.handler;
    let view = handler.unparsed();
    let kept = handler.kept;
    let out = step(cfg.phase, view, cfg.inflater, feeds);
    let stepped = out.stepped;
    let after = handler.consumed(stepped.consumed);
    if handler.stitched() {
        assert(view.len() == kept.len() + handler.copied);
        assert(view.take(kept.len() as int) =~= kept);
        if handler.copied == 0 {
            assert(view =~= kept);
        }
    } else {
        assert(handler.storage() =~= Seq::<u8>::empty());
    }
    lemma_local_file_header_len(view);
    lemma_local_file_header_signature(view);
    lemma_local_file_header_signature(Seq::<u8>::empty());
    lemma_data_descriptor_incomplete(Seq::<u8>::empty(), true);
    lemma_data_descriptor_incomplete(Seq::<u8>::empty(), false);
    if can_follow(handler, stepped) {
        assert(after.stitched() || after.storage() =~= Seq::<u8>::empty());
    }
    if stepped.step is NeedsInput && !handler.stitched() && handler.extension_len() == 0 {
        assert(view =~= Seq::<u8>::empty());
        assert(handler.extended().storage() =~= Seq::<u8>::empty());
    }
    match cfg.phase {
        Phase::Init => {
            if spec_local_file_header(view) is Ok && handler.stitched() && stepped.consumed
                <= kept.len() {
                lemma_local_file_header_truncates(view, kept.len() as int);
            }
        },
        Phase::HeaderParsed(header) => {
            lemma_data_descriptor_incomplete(kept, header.is_zip64);
        },
        Phase::Inflated { header, comp_size, uncomp_size } => {
            lemma_data_descriptor_len(view, header.is_zip64);
            lemma_data_descriptor_incomplete(kept, header.is_zip64);
            if spec_data_descriptor(view, header.is_zip64) is Ok && handler.stitched()
                && 0 < stepped.consumed <= kept.len() {
                lemma_data_descriptor_truncates(view, header.is_zip64, kept.len() as int);
            }
        },
        Phase::DescriptorParsed { header, comp_size, uncomp_size } => {
            lemma_local_file_header_signature(kept);
            if !signature_undecided(view) && spec_local_file_header(view) is Ok
                && handler.stitched() && stepped.consumed <= kept.len() {
                lemma_local_file_header_truncates(view, kept.len() as int);
                lemma_local_file_header_len(kept);
            }
        },
        Phase::End { .. } => {},
        Phase::Error => {},
    }
}

/// What becomes of a reader that is given input again and again, as long
/// as it has output: the reader at the end and what the last call returns.
/// Each call has feeds of its own, `feeds` holds them call by call. There
/// is no result unless all calls but the last have output, and the last
/// has not.
pub open spec fn run_with(file: ZipFileView, input: Seq<u8>, feeds: Seq<Seq<Feed>>) -> Option<Finished>
    decreases feeds.len(),
{
    if feeds.len() == 0 {
        None
    } else {
        match run(start(file, input), feeds[0]) {
            None => None,
            Some(finished) => match finished.outcome {
                Ok(StateView::HasOutput { unparsed_input, .. }) => run_with(
                    finished.file,
                    unparsed_input,
                    feeds.skip(1),
                ),
                _ => if feeds.len() == 1 {
                    Some(finished)
                } else {
                    None
                },
            },
        }
    }
}

/// A call that has output, and then going on, is going on from the reader
/// that the call has left, with the input that it has left.
pub proof fn lemma_run_with_step(
    file: ZipFileView,
    input: Seq<u8>,
    own: Seq<Feed>,
    more: Seq<Seq<Feed>>,
    finished: Finished,
)
    requires
        run(start(file, input), own) == Some(finished),
    ensures
        finished.outcome matches Ok(StateView::HasOutput { unparsed_input, .. }) ==> run_with(
            file,
            input,
            seq![own] + more,
        ) == run_with(finished.file, unparsed_input, more),
        !(finished.outcome matches Ok(StateView::HasOutput { .. })) ==> run_with(
            file,
            input,
            seq![own],
        ) == Some(finished),
{
    assert((seq![own] + more)[0] == own);
    assert((seq![own] + more).skip(1) =~= more);
}

/// A reader at the start of a call with the given input.
pub open spec fn start(file: ZipFileView, input: Seq<u8>) -> Config {
    Config {
        phase: file.phase,
        handler: InputHandlerView::taken(file.stored, input),
        inflater: file.inflater,
    }
}

/// A reader at the end of a call that reads headers only, and what the call
/// returns.
pub struct HeadersRead {
    pub file: ZipFileView,
    pub outcome: Result<ReadHeadersView, ZipError>,
}

/// A call that reads the local file header and no further, for a reader
/// that has not begun: the step [`header_step`] is taken, on more bytes as
/// long as it has too few and there is input to show.
pub open spec fn run_headers(handler: InputHandlerView, inflater: StreamView) -> HeadersRead
    decreases handler.orig_input.len() - handler.seen(),
{
    let stepped = header_step(handler.unparsed());
    let after = handler.consumed(stepped.consumed);
    {
        match stepped.step {
            Step::NeedsInput => if after.extension_len() == 0 {
                HeadersRead {
                    file: ZipFileView {
                        phase: stepped.phase,
                        stored: after.extended().storage(),
                        inflater,
                    },
                    outcome: Ok(ReadHeadersView::NeedsInput),
                }
            } else {
                run_headers(after.extended(), inflater)
            },
            Step::Error(e) => HeadersRead {
                file: ZipFileView { phase: stepped.phase, stored: after.storage(), inflater },
                outcome: Err(e),
            },
            _ => HeadersRead {
                file: ZipFileView { phase: stepped.phase, stored: after.storage(), inflater },
                outcome: Ok(ReadHeadersView::Done { unparsed: after.rest() }),
            },
        }
    }
}

/// What a call that reads headers only does to a reader and returns. A
/// reader that has begun is left as it is and hands the input back.
pub open spec fn read_headers_of(file: ZipFileView, input: Seq<u8>) -> HeadersRead {
    if file.phase is Init {
        run_headers(InputHandlerView::taken(file.stored, input), file.inflater)
    } else {
        HeadersRead { file, outcome: Ok(ReadHeadersView::Done { unparsed: input }) }
    }
}

/// What reading the headers makes of all the bytes that a reader has kept
/// and is given: the header, if they hold one; a reader that has kept them
/// all, if they are too few; an error else.
pub open spec fn headers_of(all: Seq<u8>, inflater: StreamView) -> HeadersRead {
    match spec_local_file_header(all) {
        Ok((rest, header)) => HeadersRead {
            file: ZipFileView { phase: Phase::HeaderParsed(header), stored: Seq::empty(), inflater },
            outcome: Ok(ReadHeadersView::Done { unparsed: rest }),
        },
        Err(ParseError::Incomplete(_)) => HeadersRead {
            file: ZipFileView { phase: Phase::Init, stored: all, inflater },
            outcome: Ok(ReadHeadersView::NeedsInput),
        },
        Err(_) => HeadersRead {
            file: ZipFileView { phase: Phase::Error, stored: Seq::empty(), inflater },
            outcome: Err(ZipError::InvalidLocalFileHeader),
        },
    }
}

/// Two calls end the same: they return the same and leave the same reader.
/// What a reader has kept that has returned an error is not compared: it
/// is of no use to anybody.
pub open spec fn same_reading(a: HeadersRead, b: HeadersRead) -> bool {
    &&& a.outcome == b.outcome
    &&& a.file.phase == b.file.phase
    &&& a.file.inflater == b.file.inflater
    &&& a.outcome is Ok ==> a.file.stored == b.file.stored
}

/// A call that reads headers does what [`headers_of`] says of all the
/// bytes that the reader has kept and is given, however many of them the
/// parser is shown at a time: provided that the kept bytes alone are too
/// few for a header, as they are when a reader has asked for more.
pub proof fn lemma_run_headers(handler: InputHandlerView, inflater: StreamView)
    requires
        handler.wf(),
        handler.input_consumed == 0,
        handler.kept.len() == 0 || spec_local_file_header(handler.kept) matches Err(
            ParseError::Incomplete(_),
        ),
    ensures
        same_reading(
            run_headers(handler, inflater),
            headers_of(handler.kept + handler.orig_input, inflater),
        ),
    decreases handler.orig_input.len() - handler.seen(),
{
    let all = handler.kept + handler.orig_input;
    let view = handler.unparsed();
    lemma_local_file_header_len(view);
    lemma_local_file_header_len(all);
    let more = if handler.stitched() {
        handler.orig_input.skip(handler.copied as int)
    } else {
        Seq::<u8>::empty()
    };
    if handler.stitched() {
        assert(handler.storage() + more =~= all);
        assert(handler.storage().len() == handler.kept.len() + handler.copied);
        assert(view.take(handler.kept.len() as int) =~= handler.kept);
    } else {
        assert(handler.kept =~= Seq::<u8>::empty());
        assert(view =~= all);
    }
    assert(view + more =~= all);
    lemma_local_file_header_extends(view, more);
    match spec_local_file_header(view) {
        Ok((rest, header)) => {
            let n = view.len() - rest.len();
            if handler.stitched() && n <= handler.kept.len() {
                lemma_local_file_header_truncates(view, handler.kept.len() as int);
                assert(false);
            }
            let after = handler.consumed(n as nat);
            assert(after.rest() =~= rest + more);
            assert(after.storage() =~= Seq::<u8>::empty());
        },
        Err(ParseError::Incomplete(_)) => {
            if handler.extension_len() == 0 {
                assert(more =~= Seq::<u8>::empty());
                assert(view =~= all);
                if handler.stitched() {
                    assert(handler.extended().storage() =~= all);
                } else {
                    assert(handler.extended().storage() =~= Seq::<u8>::empty());
                    assert(all =~= Seq::<u8>::empty());
                }
            } else {
                let next = handler.extended();
                assert(next.kept + next.orig_input =~= all);
                lemma_run_headers(next, inflater);
            }
        },
        Err(_) => {},
    }
}

/// A handler that shows the bytes `rest` as the caller's input, none of them
/// consumed.
pub open spec fn input_only(rest: Seq<u8>) -> InputHandlerView {
    InputHandlerView { kept: Seq::empty(), input_consumed: 0, copied: 0, orig_input: rest }
}

/// Two calls end the same: both have no result, or they return the same
/// and leave the same reader. What a reader has kept that has returned an
/// error is not compared.
pub open spec fn same_finish(a: Option<Finished>, b: Option<Finished>) -> bool {
    match (a, b) {
        (Some(a), Some(b)) => {
            &&& a.outcome == b.outcome
            &&& a.file.phase == b.file.phase
            &&& a.file.inflater == b.file.inflater
            &&& a.outcome is Ok ==> a.file.stored == b.file.stored
        },
        (None, None) => true,
        _ => false,
    }
}

/// A call goes on the same from two readers that differ only in how much
/// input lies behind them: it is the bytes still to be parsed that count,
/// and how many of them are stitched.
pub proof fn lemma_run_rebased(a: Config, b: Config, feeds: Seq<Feed>)
    requires
        a.phase == b.phase,
        a.inflater == b.inflater,
        in_step(a),
        in_step(b),
        a.handler.kept == b.handler.kept,
        a.handler.copied == b.handler.copied,
        a.handler.rest() == b.handler.rest(),
    ensures
        run(a, feeds) == run(b, feeds),
    decreases feeds.len(), a.phase.phases_left(), a.handler.orig_input.len() - a.handler.seen(),
{
    reveal(step);
    let rest = a.handler.rest();
    assert(a.handler.storage() =~= a.handler.kept + rest.take(a.handler.copied as int));
    assert(b.handler.storage() =~= b.handler.kept + rest.take(b.handler.copied as int));
    let input = a.handler.unparsed();
    assert(b.handler.unparsed() == input);
    let out = step(a.phase, input, a.inflater, feeds);
    if out.legit {
        lemma_step_progress(a.phase, input, a.inflater, feeds);
        lemma_step_sound(a, feeds);
        lemma_step_sound(b, feeds);
        let n = out.stepped.consumed;
        let after_a = a.handler.consumed(n);
        let after_b = b.handler.consumed(n);
        if can_follow(a.handler, out.stepped) {
            assert(can_follow(b.handler, out.stepped));
            if n > 0 {
                let past = n - a.handler.kept.len();
                assert(input.len() <= a.handler.kept.len() + rest.len());
                assert(after_a.rest() =~= rest.skip(past));
                assert(after_b.rest() =~= rest.skip(past));
            }
            assert(after_a.rest() =~= after_b.rest());
            assert(after_a.storage() =~= after_b.storage());
            assert(after_a.extended().storage() =~= after_b.extended().storage());
            assert(after_a.extended().rest() =~= after_b.extended().rest());
        }
        match advance(a, out.stepped, out.inflater) {
            Advance::Done(_) => {},
            Advance::Next(next_a) => {
                let next_b = Config {
                    phase: next_a.phase,
                    handler: if out.stepped.step is NeedsInput {
                        after_b.extended()
                    } else {
                        after_b
                    },
                    inflater: out.inflater,
                };
                assert(advance(b, out.stepped, out.inflater) == Advance::Next(next_b));
                lemma_run_rebased(next_a, next_b, out.feeds);
            },
        }
    }
}

/// What a call makes of all the bytes that a reader has kept and is given,
/// where the reader has still to read the local file header: with a header
/// in them, the call goes on behind it; where they are too few, all are
/// kept and the caller is asked for more; else they are no header.
pub open spec fn header_then(all: Seq<u8>, inflater: StreamView, feeds: Seq<Feed>) -> Option<Finished> {
    match spec_local_file_header(all) {
        Ok((rest, header)) => if rest.len() == 0 {
            Some(
                Finished {
                    file: ZipFileView {
                        phase: Phase::HeaderParsed(header),
                        stored: Seq::empty(),
                        inflater,
                    },
                    outcome: Ok(StateView::NeedsInput),
                },
            )
        } else {
            run(
                Config { phase: Phase::HeaderParsed(header), handler: input_only(rest), inflater },
                feeds,
            )
        },
        Err(ParseError::Incomplete(_)) => Some(
            Finished {
                file: ZipFileView { phase: Phase::Init, stored: all, inflater },
                outcome: Ok(StateView::NeedsInput),
            },
        ),
        Err(_) => Some(
            Finished {
                file: ZipFileView { phase: Phase::Error, stored: Seq::empty(), inflater },
                outcome: Err(ZipError::InvalidLocalFileHeader),
            },
        ),
    }
}

/// A call of a reader that has still to read the local file header does
/// what [`header_then`] says of all the bytes that the reader has kept and
/// is given, however many of them the parser is shown at a time.
#[verifier::rlimit(60)]
pub proof fn lemma_run_header(cfg: Config, feeds: Seq<Feed>)
    requires
        in_step(cfg),
        cfg.phase is Init,
        cfg.handler.input_consumed == 0,
    ensures
        same_finish(
            run(cfg, feeds),
            header_then(cfg.handler.kept + cfg.handler.orig_input, cfg.inflater, feeds),
        ),
    decreases cfg.handler.orig_input.len() - cfg.handler.seen(),
{
    reveal(step);
    let handler = cfg.handler;
    let all = handler.kept + handler.orig_input;
    let view = handler.unparsed();
    lemma_local_file_header_len(view);
    lemma_local_file_header_len(all);
    lemma_step_sound(cfg, feeds);
    let more = if handler.stitched() {
        handler.orig_input.skip(handler.copied as int)
    } else {
        Seq::<u8>::empty()
    };
    if handler.stitched() {
        assert(handler.storage() + more =~= all);
    } else {
        assert(handler.kept =~= Seq::<u8>::empty());
        assert(view =~= all);
    }
    assert(view + more =~= all);
    lemma_local_file_header_extends(view, more);
    match spec_local_file_header(view) {
        Ok((rest, header)) => {
            let n = view.len() - rest.len();
            let after = handler.consumed(n as nat);
            assert(after.rest() =~= rest + more);
            assert(after.storage() =~= Seq::<u8>::empty());
            if (rest + more).len() > 0 {
                let next = Config {
                    phase: Phase::HeaderParsed(header),
                    handler: after,
                    inflater: cfg.inflater,
                };
                let only = Config {
                    phase: Phase::HeaderParsed(header),
                    handler: input_only(rest + more),
                    inflater: cfg.inflater,
                };
                assert(input_only(rest + more).rest() =~= rest + more);
                lemma_run_rebased(next, only, feeds);
            }
        },
        Err(ParseError::Incomplete(_)) => {
            if handler.extension_len() == 0 {
                assert(more =~= Seq::<u8>::empty());
                assert(view =~= all);
                if handler.stitched() {
                    assert(handler.extended().storage() =~= all);
                } else {
                    assert(handler.extended().storage() =~= Seq::<u8>::empty());
                    assert(all =~= Seq::<u8>::empty());
                }
            } else {
                let next = Config { handler: handler.extended(), ..cfg };
                assert(next.handler.kept + next.handler.orig_input =~= all);
                lemma_run_header(next, feeds);
            }
        },
        Err(_) => {},
    }
}

/// Reading a ZIP entry does not depend on where its local file header is
/// cut: where a call with the first part of some input has to ask for more
/// because the header is not all there, a call with the second part ends
/// as one call with all of the input ends, for the same feeds of the
/// inflater.
pub proof fn lemma_header_chunk_independence(
    file: ZipFileView,
    first: Seq<u8>,
    second: Seq<u8>,
    feeds: Seq<Feed>,
)
    requires
        file.wf(),
        file.phase is Init,
        first.len() + second.len() <= usize::MAX,
        spec_local_file_header(file.stored + first) matches Err(ParseError::Incomplete(_)),
    ensures
        same_finish(
            run(start(file, first), feeds),
            Some(
                Finished {
                    file: ZipFileView { stored: file.stored + first, ..file },
                    outcome: Ok(StateView::NeedsInput),
                },
            ),
        ),
        same_finish(
            run(start(ZipFileView { stored: file.stored + first, ..file }, second), feeds),
            run(start(file, first + second), feeds),
        ),
{
    reveal(at_rest);
    let one = start(file, first);
    lemma_run_header(one, feeds);
    let middle = ZipFileView { stored: file.stored + first, ..file };
    let two = start(middle, second);
    lemma_run_header(two, feeds);
    let whole = start(file, first + second);
    lemma_run_header(whole, feeds);
    assert((file.stored + first) + second =~= file.stored + (first + second));
}

/// Reading the local file header does not depend on where the input is cut:
/// where a call with the first part of some input asks for more, a call with
/// the second part ends as one call with all of the input ends.
pub proof fn lemma_headers_chunk_independence(file: ZipFileView, first: Seq<u8>, second: Seq<u8>)
    requires
        file.phase is Init,
        file.stored.len() == 0 || spec_local_file_header(file.stored) matches Err(
            ParseError::Incomplete(_),
        ),
        first.len() + second.len() <= usize::MAX,
        read_headers_of(file, first).outcome == Ok::<ReadHeadersView, ZipError>(
            ReadHeadersView::NeedsInput,
        ),
    ensures
        same_reading(
            read_headers_of(read_headers_of(file, first).file, second),
            read_headers_of(file, first + second),
        ),
{
    reveal(at_rest);
    let one = InputHandlerView::taken(file.stored, first);
    lemma_run_headers(one, file.inflater);
    let middle = read_headers_of(file, first).file;
    assert(one.kept + one.orig_input == file.stored + first);
    assert(middle.stored == file.stored + first);
    let two = InputHandlerView::taken(middle.stored, second);
    lemma_run_headers(two, middle.inflater);
    let whole = InputHandlerView::taken(file.stored, first + second);
    lemma_run_headers(whole, file.inflater);
    assert((file.stored + first) + second =~= file.stored + (first + second));
}

/// Where a call has got to `cfg` with the feeds `used`, and the next step
/// ends it, the call ends as that step says.
pub proof fn lemma_read_exit(cfg0: Config, used: Seq<Feed>, cfg: Config, own: Seq<Feed>, finished: Finished)
    requires
        forall|rest: Seq<Feed>| #[trigger] run(cfg0, used + rest) == run(cfg, rest),
        own.len() <= 1,
        step(cfg.phase, cfg.handler.unparsed(), cfg.inflater, own).legit,
        step(cfg.phase, cfg.handler.unparsed(), cfg.inflater, own).feeds.len() == 0,
        advance(
            cfg,
            step(cfg.phase, cfg.handler.unparsed(), cfg.inflater, own).stepped,
            step(cfg.phase, cfg.handler.unparsed(), cfg.inflater, own).inflater,
        ) == Advance::Done(finished),
    ensures
        run(cfg0, used + own) == Some(finished),
{
    lemma_run_step(cfg, own, Seq::empty());
    assert(own + Seq::<Feed>::empty() =~= own);
}

/// Where a call has got to `cfg` with the feeds `used`, and the next step
/// leads to `next`, the call has got to `next` with the feeds of that step
/// used as well.
pub proof fn lemma_read_next(cfg0: Config, used: Seq<Feed>, cfg: Config, own: Seq<Feed>, next: Config)
    requires
        forall|rest: Seq<Feed>| #[trigger] run(cfg0, used + rest) == run(cfg, rest),
        own.len() <= 1,
        step(cfg.phase, cfg.handler.unparsed(), cfg.inflater, own).legit,
        step(cfg.phase, cfg.handler.unparsed(), cfg.inflater, own).feeds.len() == 0,
        advance(
            cfg,
            step(cfg.phase, cfg.handler.unparsed(), cfg.inflater, own).stepped,
            step(cfg.phase, cfg.handler.unparsed(), cfg.inflater, own).inflater,
        ) == Advance::Next(next),
    ensures
        forall|rest: Seq<Feed>| #[trigger] run(cfg0, (used + own) + rest) == run(next, rest),
{
    assert forall|rest: Seq<Feed>| #[trigger] run(cfg0, (used + own) + rest) == run(next, rest) by {
        lemma_run_step(cfg, own, rest);
        assert((used + own) + rest =~= used + (own + rest));
    }
}

struct HeaderParsed {
    header: LocalFileHeader,
}

struct Inflated {
    header: LocalFileHeader,
    comp_size: usize,
    uncomp_size: usize,
}

struct DescriptorParsed {
    header: LocalFileHeader,
    comp_size: usize,
    uncomp_size: usize,
}

enum InternalState {
    Init,
    HeaderParsed(HeaderParsed),
    Inflated(Inflated),
    DescriptorParsed(DescriptorParsed),
    End(DescriptorParsed),
    Error,
}

impl InternalState {
    spec fn view(&self) -> Phase {
        match self {
            InternalState::Init => Phase::Init,
            InternalState::HeaderParsed(s) => Phase::HeaderParsed(s.header@),
            InternalState::Inflated(s) => Phase::Inflated {
                header: s.header@,
                comp_size: s.comp_size as nat,
                uncomp_size: s.uncomp_size as nat,
            },
            InternalState::DescriptorParsed(s) => Phase::DescriptorParsed {
                header: s.header@,
                comp_size: s.comp_size as nat,
                uncomp_size: s.uncomp_size as nat,
            },
            InternalState::End(s) => Phase::End {
                header: s.header@,
                comp_size: s.comp_size as nat,
                uncomp_size: s.uncomp_size as nat,
            },
            InternalState::Error => Phase::Error,
        }
    }
}

enum ParseResult {
    Continue,
    NeedsInput,
    Output,
    Error(ZipError),
    NextFile(ZipFile),
    EndOfFile,
}

impl ParseResult {
    spec fn view(&self) -> Step {
        match self {
            ParseResult::Continue => Step::Continue,
            ParseResult::NeedsInput => Step::NeedsInput,
            ParseResult::Output => Step::Output,
            ParseResult::Error(e) => Step::Error(*e),
            ParseResult::NextFile(file) => Step::NextFile(file@),
            ParseResult::EndOfFile => Step::EndOfFile,
        }
    }

    /// A reader that is handed out is well formed.
    spec fn wf(&self) -> bool {
        match self {
            ParseResult::NextFile(file) => file@.wf() && !(file@.phase is Error),
            _ => true,
        }
    }
}

/// What a step function returns, as a mathematical value.
spec fn stepped_of(r: (usize, InternalState, ParseResult)) -> Stepped {
    Stepped { consumed: r.0 as nat, phase: r.1.view(), step: r.2.view() }
}

/// A reader of one entry of a ZIP archive.
pub struct ZipFile {
    state: InternalState,
    inflater: deflate::Stream,
    unparsed: Vec<u8>,
}

impl View for ZipFile {
    type V = ZipFileView;

    closed spec fn view(&self) -> ZipFileView {
        ZipFileView { phase: self.state.view(), stored: self.unparsed@, inflater: self.inflater@ }
    }
}

impl ZipFile {
    /// The bytes that the last call of [`ZipFile::read`] put out.
    pub fn get_output(&self) -> (output: &[u8])
        requires
            self@.wf(),
        ensures
            output@ == self@.inflater.output(),
            output@.len() > 0,
    {
        self.inflater.get_output()
    }

    fn parse_header<'long, 'short>(input: Input<'long, 'short>) -> (r: (
        usize,
        InternalState,
        ParseResult,
    ))
        ensures
            stepped_of(r) == header_step(input@),
            r.0 <= input@.len(),
            r.2.wf(),
    {
        let bytes = input.bytes();
        proof {
            lemma_local_file_header_len(bytes@);
        }
        match LocalFileHeader::parse(bytes) {
            Ok((unparsed, header)) => {
                let bytes_parsed: usize = bytes.len() - unparsed.len();
                (
                    bytes_parsed,
                    InternalState::HeaderParsed(HeaderParsed { header }),
                    ParseResult::Continue,
                )
            },
            Err(ParseError::Incomplete(_need)) => (0, InternalState::Init, ParseResult::NeedsInput),
            Err(_) => (
                0,
                InternalState::Error,
                ParseResult::Error(ZipError::InvalidLocalFileHeader),
            ),
        }
    }

    fn detect_empty_stream(input: &[u8], state: HeaderParsed) -> (r: Result<
        HeaderParsed,
        (usize, InternalState, ParseResult),
    >)
        ensures
            match r {
                Ok(same) => same == state && empty_stream_step(input@, state.header@) is None,
                Err(out) => empty_stream_step(input@, state.header@) == Some(stepped_of(out))
                    && out.0 == 0 && out.2.wf(),
            },
    {
        if state.header.compressed_size == 0 && state.header.uncompressed_size == 0
            && !state.header.deferred_sizes {
            if input.len() < 4 {
                return Err((0, InternalState::HeaderParsed(state), ParseResult::NeedsInput));
            }
            // The next file header starts right here, so the DEFLATE stream
            // was 0 bytes long.
            let signature = LOCAL_FILE_HEADER_TAG;
            if input[0] == signature[0] && input[1] == signature[1] && input[2] == signature[2]
                && input[3] == signature[3] {
                proof {
                    assert(input@.take(4) =~= LOCAL_FILE_HEADER_TAG@);
                }
                return Err(
                    (
                        0,
                        InternalState::Inflated(
                            Inflated { header: state.header, uncomp_size: 0, comp_size: 0 },
                        ),
                        ParseResult::Continue,
                    ),
                );
            }
            proof {
                let head = input@.take(4);
                assert(head[0] == input@[0] && head[1] == input@[1] && head[2] == input@[2]
                    && head[3] == input@[3]);
            }
        }
        Ok(state)
    }

    fn inflate<'l, 's>(&'s mut self, input: Input<'l, 's>, state: HeaderParsed) -> (r: (
        (usize, InternalState, ParseResult),
        Ghost<Seq<Feed>>,
    )) where 'l: 's
        requires
            old(self).inflater@.wf(),
        ensures
            final(self).inflater@.wf(),
            final(self).state == old(self).state,
            final(self).unparsed == old(self).unparsed,
            r.1@.len() <= 1,
            step(Phase::HeaderParsed(state.header@), input@, old(self).inflater@, r.1@) == (StepOut {
                stepped: stepped_of(r.0),
                inflater: final(self).inflater@,
                feeds: Seq::empty(),
                legit: true,
            }),
            r.0.0 <= input@.len(),
            r.0.2.wf(),
            final(self).inflater@.outputs_left() <= old(self).inflater@.outputs_left(),
            r.0.2 is Output ==> final(self).inflater@.outputs_left() < old(self).inflater@.outputs_left(),
    {
        reveal(step);
        let bytes = input.bytes();
        let state = match ZipFile::detect_empty_stream(bytes, state) {
            Ok(state) => state,
            Err(result) => {
                return (result, Ghost(Seq::empty()));
            },
        };
        let HeaderParsed { header } = state;
        let (verdict, consumed, Ghost(feed)) = self.inflater.feed(bytes);
        proof {
            assert(seq![feed].skip(1) =~= Seq::<Feed>::empty());
        }
        let out = match verdict {
            Verdict::NeedsInput => (
                consumed,
                InternalState::HeaderParsed(HeaderParsed { header }),
                ParseResult::Continue,
            ),
            Verdict::HasOutput => (
                consumed,
                InternalState::HeaderParsed(HeaderParsed { header }),
                ParseResult::Output,
            ),
            Verdict::Stop => (
                consumed,
                InternalState::Inflated(
                    Inflated {
                        header,
                        comp_size: self.inflater.compressed_size(),
                        uncomp_size: self.inflater.uncompressed_size(),
                    },
                ),
                ParseResult::Continue,
            ),
            Verdict::Fail(_) => (
                0,
                InternalState::Error,
                ParseResult::Error(ZipError::InvalidDeflateStream),
            ),
        };
        let ghost own = seq![feed];
        (out, Ghost(own))
    }

    fn parse_descriptor(input: Input<'_, '_>, state: Inflated) -> (r: (
        usize,
        InternalState,
        ParseResult,
    ))
        ensures
            stepped_of(r) == descriptor_step(
                input@,
                state.header@,
                state.comp_size as nat,
                state.uncomp_size as nat,
            ),
            r.0 <= input@.len(),
            r.2.wf(),
    {
        let bytes = input.bytes();
        proof {
            lemma_data_descriptor_len(bytes@, state.header.is_zip64);
        }
        let desc_res = if state.header.is_zip64 {
            // Any bytes parse; where there is no data descriptor the values
            // are garbage.
            DataDescriptor::parse_zip64(bytes)
        } else {
            DataDescriptor::parse_zip(bytes)
        };
        match desc_res {
            Ok((unparsed, desc)) => {
                let desc_must_exist: bool = desc.tag || state.header.deferred_sizes;
                let actual_uncomp_size: u64;
                let actual_comp_size: u64;
                if state.header.is_zip64 {
                    // The sizes are the real ones.
                    actual_uncomp_size = state.uncomp_size as u64;
                    actual_comp_size = state.comp_size as u64;
                } else {
                    // Some archivers store a size modulo 2^32 if it is over
                    // 4 GiB.
                    actual_uncomp_size = (state.uncomp_size as u64) % 0x1_0000_0000u64;
                    actual_comp_size = (state.comp_size as u64) % 0x1_0000_0000u64;
                }
                let data_matches: bool = actual_uncomp_size == desc.uncompressed_size
                    && actual_comp_size == desc.compressed_size;
                let consumed: usize = bytes.len() - unparsed.len();
                let dparsed = DescriptorParsed {
                    header: state.header,
                    comp_size: state.comp_size,
                    uncomp_size: state.uncomp_size,
                };
                if data_matches {
                    (consumed, InternalState::DescriptorParsed(dparsed), ParseResult::Continue)
                } else if desc_must_exist {
                    (
                        0,
                        InternalState::Error,
                        ParseResult::Error(ZipError::InvalidDataDescriptor),
                    )
                } else {
                    // The bytes were garbage, but no data descriptor had to
                    // be there.
                    (0, InternalState::DescriptorParsed(dparsed), ParseResult::Continue)
                }
            },
            Err(ParseError::Incomplete(_)) => (
                0,
                InternalState::Inflated(state),
                ParseResult::NeedsInput,
            ),
            Err(_) => (0, InternalState::Error, ParseResult::Error(ZipError::InvalidDataDescriptor)),
        }
    }

    fn end<'long, 'short>(input: Input<'long, 'short>, state: DescriptorParsed) -> (r: (
        usize,
        InternalState,
        ParseResult,
    ))
        ensures
            stepped_of(r) == end_step(
                input@,
                state.header@,
                state.comp_size as nat,
                state.uncomp_size as nat,
            ),
            r.0 <= input@.len(),
            r.2.wf(),
    {
        let bytes = input.bytes();
        proof {
            lemma_local_file_header_len(bytes@);
        }
        let signature = LOCAL_FILE_HEADER_TAG;
        match tag(bytes, signature.as_slice(), ZipError::NotLocalFileHeader) {
            Err(ParseError::Incomplete(_)) => {
                return (0, InternalState::DescriptorParsed(state), ParseResult::NeedsInput);
            },
            _ => {},
        }
        match peek_stream(bytes) {
            Ok((unparsed, next_file)) => {
                let bytes_parsed: usize = bytes.len() - unparsed.len();
                return (bytes_parsed, InternalState::End(state), ParseResult::NextFile(next_file));
            },
            Err(ZipError::NotLocalFileHeader) => (),
            Err(e) => {
                return (0, InternalState::Error, ParseResult::Error(e));
            },
        };
        match CentralDirHeader::parse(bytes) {
            Ok(_header) => (0, InternalState::End(state), ParseResult::Continue),
            Err(ParseError::Incomplete(_)) => (
                0,
                InternalState::DescriptorParsed(state),
                ParseResult::NeedsInput,
            ),
            Err(_) => (
                0,
                InternalState::Error,
                ParseResult::Error(ZipError::InvalidCentralDirHeader),
            ),
        }
    }

    fn parse_step<'long, 'short>(
        &'short mut self,
        state: InternalState,
        input: Input<'long, 'short>,
    ) -> (r: ((usize, InternalState, ParseResult), Ghost<Seq<Feed>>)) where 'long: 'short
        requires
            old(self).inflater@.wf(),
            !(state.view() is Error),
        ensures
            final(self).inflater@.wf(),
            final(self).state == old(self).state,
            final(self).unparsed == old(self).unparsed,
            r.1@.len() <= 1,
            step(state.view(), input@, old(self).inflater@, r.1@) == (StepOut {
                stepped: stepped_of(r.0),
                inflater: final(self).inflater@,
                feeds: Seq::empty(),
                legit: true,
            }),
            r.0.0 <= input@.len(),
            r.0.2.wf(),
            final(self).inflater@.outputs_left() <= old(self).inflater@.outputs_left(),
            r.0.2 is Output ==> final(self).inflater@.outputs_left() < old(self).inflater@.outputs_left(),
    {
        reveal(step);
        match state {
            InternalState::Init => (ZipFile::parse_header(input), Ghost(Seq::empty())),
            InternalState::HeaderParsed(state) => self.inflate(input, state),
            InternalState::Inflated(state) => (
                ZipFile::parse_descriptor(input, state),
                Ghost(Seq::empty()),
            ),
            InternalState::DescriptorParsed(state) => (ZipFile::end(input, state), Ghost(Seq::empty())),
            InternalState::End(state) => (
                (0, InternalState::End(state), ParseResult::EndOfFile),
                Ghost(Seq::empty()),
            ),
            InternalState::Error => {
                proof {
                    assert(false);
                }
                ((0, InternalState::Error, ParseResult::EndOfFile), Ghost(Seq::empty()))
            },
        }
    }

    /// Gives the reader input. The reader goes as far as the input lets it
    /// and says where it stands: see [`State`]. What it does on the way is
    /// specified by [`run`], for the feeds that its inflater took.
    ///
    /// A reader that has returned an error must not be given input again.
    pub fn read<'i, 's>(&'s mut self, input: &'i [u8]) -> (r: Result<State<'i, 's, ZipFile>, ZipError>) where
        'i: 's,

        requires
            old(self)@.wf(),
            !(old(self)@.phase is Error),
        ensures
            final(self)@.wf(),
            exists|feeds: Seq<Feed>| #[trigger]
                run(start(old(self)@, input@), feeds) == Some(
                    Finished { file: final(self)@, outcome: outcome_of(r) },
                ),
            r is Ok ==> !(final(self)@.phase is Error),
            r matches Ok(State::HasOutput { output, .. }) ==> output@.len() > 0 && output@
                == final(self)@.inflater.output() && final(self)@.inflater.outputs_left() < old(self)@.inflater.outputs_left(),
            r matches Ok(State::HasOutput { unparsed_input, .. }) ==> is_tail(
                unparsed_input@,
                input@,
            ),
            r matches Ok(State::NextFile { unparsed_input, next_file }) ==> next_file@.wf() && !(
            next_file@.phase is Error) && is_tail(unparsed_input@, input@),
            !(r matches Ok(State::NeedsInputOrEof(_))),
    {
        let (told, Ghost(feeds)) = self.read_told(input);
        match told {
            Ok(Told::NeedsInputOrEof(file)) => Ok(State::NeedsInputOrEof(file)),
            Ok(Told::NeedsInput) => Ok(State::NeedsInput),
            Ok(Told::HasOutput { unparsed_input }) => Ok(
                State::HasOutput { unparsed_input, output: self.inflater.get_output() },
            ),
            Ok(Told::NextFile { unparsed_input, next_file }) => Ok(
                State::NextFile { unparsed_input, next_file },
            ),
            Ok(Told::EndOfFile) => Ok(State::EndOfFile),
            Err(e) => Err(e),
        }
    }

    /// Gives the reader input, as [`ZipFile::read`] does, and returns what it
    /// has to tell without the output, which is left in the inflater, and
    /// the feeds that the inflater took.
    pub(crate) fn read_told<'i>(&mut self, input: &'i [u8]) -> (r: (
        Result<Told<'i, ZipFile>, ZipError>,
        Ghost<Seq<Feed>>,
    ))
        requires
            old(self)@.wf(),
            !(old(self)@.phase is Error),
        ensures
            final(self)@.wf(),
            run(start(old(self)@, input@), r.1@) == Some(
                Finished {
                    file: final(self)@,
                    outcome: told_outcome(r.0, final(self)@.inflater.output()),
                },
            ),
            r.0 is Ok ==> !(final(self)@.phase is Error),
            final(self)@.inflater.outputs_left() <= old(self)@.inflater.outputs_left(),
            r.0 matches Ok(Told::HasOutput { unparsed_input }) ==> final(self)@.inflater.outputs_left() < old(self)@.inflater.outputs_left() && is_tail(unparsed_input@, input@),
            r.0 matches Ok(Told::NextFile { unparsed_input, next_file }) ==> next_file@.wf() && !(
            next_file@.phase is Error) && is_tail(unparsed_input@, input@),
            !(r.0 matches Ok(Told::NeedsInputOrEof(_))),
    {
        let mut ihandler = InputHandler::take_storage(&mut self.unparsed, input);
        let ghost cfg0 = start(old(self)@, input@);
        let ghost mut used: Seq<Feed> = Seq::empty();
        proof {
            assert forall|rest: Seq<Feed>| #[trigger] run(cfg0, used + rest) == run(cfg0, rest) by {
                assert(used + rest =~= rest);
            }
            ihandler.lemma_wf();
            assert(ihandler@.kept == old(self)@.stored);
        }
        loop
            invariant
                ihandler.wf(),
                ihandler@.orig_input == input@,
                self.inflater@.wf(),
                !(self.state.view() is Error),
                self.inflater@.outputs_left() <= old(self)@.inflater.outputs_left(),
                cfg0 == start(old(self)@, input@),
                in_step(
                    Config { phase: self.state.view(), handler: ihandler@, inflater: self.inflater@ },
                ),
                forall|rest: Seq<Feed>| #[trigger]
                    run(cfg0, used + rest) == run(
                        Config {
                            phase: self.state.view(),
                            handler: ihandler@,
                            inflater: self.inflater@,
                        },
                        rest,
                    ),
            decreases
                    self.state.view().phases_left(),
                    ihandler@.orig_input.len() - ihandler@.seen(),
                    (if ihandler@.stitched() {
                        1nat
                    } else {
                        0nat
                    }),
        {
            let ghost cfg = Config {
                phase: self.state.view(),
                handler: ihandler@,
                inflater: self.inflater@,
            };
            let mut state = InternalState::Error;
            std::mem::swap(&mut self.state, &mut state);
            let (stepped, Ghost(own)) = self.parse_step(state, ihandler.current());
            let (bytes_consumed, new_state, res) = stepped;
            self.state = new_state;
            let ghost out = step(cfg.phase, cfg.handler.unparsed(), cfg.inflater, own);
            proof {
                ihandler.lemma_wf();
                lemma_step_progress(cfg.phase, cfg.handler.unparsed(), cfg.inflater, own);
                lemma_step_sound(cfg, own);
            }
            let hands_back: bool = match &res {
                ParseResult::Output => true,
                ParseResult::NextFile(_) => true,
                _ => false,
            };
            let follows: bool = (bytes_consumed == 0 || ihandler.orig_stored() < bytes_consumed) && !(
            hands_back && bytes_consumed == 0 && ihandler.is_stitched());
            if !follows {
                // Only the inflater can stop inside the bytes that were
                // kept, or put out bytes without getting past them. They
                // were kept for an entry that was to have none.
                self.state = InternalState::Error;
                ihandler.return_storage(&mut self.unparsed);
                proof {
                    lemma_read_exit(
                        cfg0,
                        used,
                        cfg,
                        own,
                        Finished { file: self@, outcome: Err(ZipError::InvalidDeflateStream) },
                    );
                }
                return (Err(ZipError::InvalidDeflateStream), Ghost(used + own));
            }
            let unparsed = ihandler.consumed(bytes_consumed);
            match res {
                ParseResult::Continue => {
                    if unparsed.bytes().len() == 0 {
                        ihandler.return_storage(&mut self.unparsed);
                        proof {
                            lemma_read_exit(
                                cfg0,
                                used,
                                cfg,
                                own,
                                Finished { file: self@, outcome: Ok(StateView::NeedsInput) },
                            );
                        }
                        return (Ok(Told::NeedsInput), Ghost(used + own));
                    }
                    proof {
                        ihandler.lemma_wf();
                        lemma_read_next(
                            cfg0,
                            used,
                            cfg,
                            own,
                            Config {
                                phase: self.state.view(),
                                handler: ihandler@,
                                inflater: self.inflater@,
                            },
                        );
                        used = used + own;
                    }
                },
                ParseResult::NeedsInput => {
                    let extended_len: usize = ihandler.extend_input();
                    // Nothing is left of the input to extend with: the
                    // caller has to provide more.
                    if extended_len == 0 {
                        ihandler.return_storage(&mut self.unparsed);
                        proof {
                            lemma_read_exit(
                                cfg0,
                                used,
                                cfg,
                                own,
                                Finished { file: self@, outcome: Ok(StateView::NeedsInput) },
                            );
                        }
                        return (Ok(Told::NeedsInput), Ghost(used + own));
                    }
                    proof {
                        ihandler.lemma_wf();
                        lemma_read_next(
                            cfg0,
                            used,
                            cfg,
                            own,
                            Config {
                                phase: self.state.view(),
                                handler: ihandler@,
                                inflater: self.inflater@,
                            },
                        );
                        used = used + own;
                    }
                },
                ParseResult::Output => {
                    let unparsed_input = unparsed.assert_take_long();
                    ihandler.return_storage(&mut self.unparsed);
                    proof {
                        lemma_read_exit(
                            cfg0,
                            used,
                            cfg,
                            own,
                            Finished {
                                file: self@,
                                outcome: Ok(
                                    StateView::HasOutput {
                                        unparsed_input: unparsed_input@,
                                        output: self.inflater@.output(),
                                    },
                                ),
                            },
                        );
                    }
                    return (Ok(Told::HasOutput { unparsed_input }), Ghost(used + own));
                },
                ParseResult::NextFile(next_file) => {
                    let unparsed_input = unparsed.assert_take_long();
                    ihandler.return_storage(&mut self.unparsed);
                    proof {
                        lemma_read_exit(
                            cfg0,
                            used,
                            cfg,
                            own,
                            Finished {
                                file: self@,
                                outcome: Ok(
                                    StateView::NextFile {
                                        unparsed_input: unparsed_input@,
                                        next_file: next_file@,
                                    },
                                ),
                            },
                        );
                    }
                    return (Ok(Told::NextFile { unparsed_input, next_file }), Ghost(used + own));
                },
                ParseResult::EndOfFile => {
                    ihandler.return_storage(&mut self.unparsed);
                    proof {
                        lemma_read_exit(
                            cfg0,
                            used,
                            cfg,
                            own,
                            Finished { file: self@, outcome: Ok(StateView::EndOfFile) },
                        );
                    }
                    return (Ok(Told::EndOfFile), Ghost(used + own));
                },
                ParseResult::Error(err) => {
                    ihandler.return_storage(&mut self.unparsed);
                    proof {
                        lemma_read_exit(
                            cfg0,
                            used,
                            cfg,
                            own,
                            Finished { file: self@, outcome: Err(err) },
                        );
                    }
                    return (Err(err), Ghost(used + own));
                },
            }
        }
    }

    /// Gives the reader input, as [`ZipFile::read`] does, but lets it go no
    /// further than the local file header: see [`read_headers_of`]. A
    /// reader that has not begun makes of the bytes that it has kept and
    /// `input` together what [`headers_of`] says: it has read the header,
    /// if it is all there, and hands back what follows it; it has kept all
    /// the bytes and asks for more, if they are too few; or it has found
    /// them wrong.
    pub fn read_headers<'i>(&mut self, input: &'i [u8]) -> (r: Result<ReadHeadersResult<'i>, ZipError>)
        requires
            old(self)@.wf(),
            !(old(self)@.phase is Error),
        ensures
            final(self)@.wf(),
            read_headers_of(old(self)@, input@) == (HeadersRead {
                file: final(self)@,
                outcome: match r {
                    Ok(result) => Ok(result@),
                    Err(e) => Err(e),
                },
            }),
            old(self)@.phase is Init ==> same_reading(
                HeadersRead {
                    file: final(self)@,
                    outcome: match r {
                        Ok(result) => Ok(result@),
                        Err(e) => Err(e),
                    },
                },
                headers_of(old(self)@.stored + input@, old(self)@.inflater),
            ),
    {
        reveal(at_rest);
        reveal(step);
        proof {
            if old(self)@.phase is Init {
                vstd::slice::axiom_spec_len(input);
                lemma_run_headers(
                    InputHandlerView::taken(old(self)@.stored, input@),
                    old(self)@.inflater,
                );
            }
        }
        if let InternalState::Init = self.state {
        } else {
            return Ok(ReadHeadersResult::Done { unparsed: input });
        }
        let mut ihandler = InputHandler::take_storage(&mut self.unparsed, input);
        proof {
            ihandler.lemma_wf();
            assert(ihandler@.kept == old(self)@.stored);
        }
        loop
            invariant
                ihandler.wf(),
                ihandler@.orig_input == input@,
                self.inflater@ == old(self)@.inflater,
                self.inflater@.wf(),
                self.state.view() is Init,
                in_step(Config { phase: Phase::Init, handler: ihandler@, inflater: self.inflater@ }),
                read_headers_of(old(self)@, input@) == run_headers(ihandler@, self.inflater@),
                same_reading(
                    read_headers_of(old(self)@, input@),
                    headers_of(old(self)@.stored + input@, old(self)@.inflater),
                ),
            decreases ihandler@.orig_input.len() - ihandler@.seen(),
        {
            let ghost cfg = Config {
                phase: Phase::Init,
                handler: ihandler@,
                inflater: self.inflater@,
            };
            let (bytes_consumed, new_state, res) = ZipFile::parse_header(ihandler.current());
            proof {
                reveal(step);
                reveal(at_rest);
                ihandler.lemma_wf();
                lemma_local_file_header_len(ihandler@.unparsed());
                lemma_step_sound(cfg, Seq::empty());
            }
            self.state = new_state;
            let unparsed = ihandler.consumed(bytes_consumed);
            match res {
                ParseResult::Continue => {
                    let unparsed = unparsed.assert_take_long();
                    ihandler.return_storage(&mut self.unparsed);
                    return Ok(ReadHeadersResult::Done { unparsed });
                },
                ParseResult::NeedsInput => {
                    let ext_len: usize = ihandler.extend_input();
                    if ext_len == 0 {
                        ihandler.return_storage(&mut self.unparsed);
                        return Ok(ReadHeadersResult::NeedsInput);
                    }
                },
                ParseResult::Error(err) => {
                    ihandler.return_storage(&mut self.unparsed);
                    return Err(err);
                },
                _ => {
                    proof {
                        assert(false);
                    }
                    return Err(ZipError::InvalidLocalFileHeader);
                },
            };
        }
    }

    /// Gives the reader input and hands each piece of output to `callback`,
    /// until the reader has something else to say: see [`run_with`]. The
    /// callback is only ever given bytes, never an empty slice.
    pub fn read_with<'i, F: FnMut(&[u8])>(&mut self, input: &'i [u8], mut callback: F) -> (r: Result<
        State<'i, 'i, ZipFile>,
        ZipError,
    >)
        requires
            old(self)@.wf(),
            !(old(self)@.phase is Error),
            forall|bytes: &[u8]| bytes@.len() > 0 ==> call_requires(callback, (bytes,)),
        ensures
            final(self)@.wf(),
            r is Ok ==> !(r->Ok_0 is HasOutput) && !(r->Ok_0 is NeedsInputOrEof) && !(final(self)@.phase is Error),
            r matches Ok(State::NextFile { unparsed_input, next_file }) ==> next_file@.wf()
                && is_tail(unparsed_input@, input@),
            exists|feeds: Seq<Seq<Feed>>| #[trigger]
                run_with(old(self)@, input@, feeds) == Some(
                    Finished { file: final(self)@, outcome: outcome_of(r) },
                ),
    {
        let mut rest: &'i [u8] = input;
        let ghost mut used: Seq<Seq<Feed>> = Seq::empty();
        proof {
            assert(rest@ =~= input@.skip(0));
            assert forall|more: Seq<Seq<Feed>>| #[trigger]
                run_with(old(self)@, input@, used + more) == run_with(self@, rest@, more) by {
                assert(used + more =~= more);
            }
        }
        loop
            invariant
                self@.wf(),
                !(self@.phase is Error),
                is_tail(rest@, input@),
                forall|bytes: &[u8]| bytes@.len() > 0 ==> call_requires(callback, (bytes,)),
                forall|more: Seq<Seq<Feed>>| #[trigger]
                    run_with(old(self)@, input@, used + more) == run_with(self@, rest@, more),
            decreases self@.inflater.outputs_left(),
        {
            let ghost before = self@;
            let ghost given = rest@;
            let (told, Ghost(own)) = self.read_told(rest);
            proof {
                let finished = Finished {
                    file: self@,
                    outcome: told_outcome(told, self@.inflater.output()),
                };
                lemma_run_with_step(before, given, own, Seq::empty(), finished);
                assert(seq![own] + Seq::<Seq<Feed>>::empty() =~= seq![own]);
                assert(used + seq![own] =~= used.push(own));
                match told {
                    Ok(Told::HasOutput { unparsed_input }) => {
                        assert(unparsed_input@ =~= input@.skip(input@.len() - unparsed_input@.len()));
                        assert forall|more: Seq<Seq<Feed>>| #[trigger]
                            run_with(old(self)@, input@, used.push(own) + more) == run_with(
                                self@,
                                unparsed_input@,
                                more,
                            ) by {
                            lemma_run_with_step(before, given, own, more, finished);
                            assert(used.push(own) + more =~= used + (seq![own] + more));
                        }
                        used = used.push(own);
                    },
                    Ok(Told::NextFile { unparsed_input, .. }) => {
                        assert(run_with(old(self)@, input@, used + seq![own]) == run_with(
                            before,
                            given,
                            seq![own],
                        ));
                        assert(unparsed_input@ =~= input@.skip(input@.len() - unparsed_input@.len()));
                    },
                    _ => {
                        assert(run_with(old(self)@, input@, used + seq![own]) == run_with(
                            before,
                            given,
                            seq![own],
                        ));
                    },
                }
            }
            match told {
                Ok(Told::HasOutput { unparsed_input }) => {
                    rest = unparsed_input;
                    callback(self.inflater.get_output());
                },
                Ok(Told::NeedsInputOrEof(f)) => {
                    return Ok(State::NeedsInputOrEof(f));
                },
                Ok(Told::NeedsInput) => {
                    return Ok(State::NeedsInput);
                },
                Ok(Told::NextFile { unparsed_input, next_file }) => {
                    return Ok(State::NextFile { unparsed_input, next_file });
                },
                Ok(Told::EndOfFile) => {
                    return Ok(State::EndOfFile);
                },
                Err(e) => {
                    return Err(e);
                },
            }
        }
    }

    /// The name of the entry, once its header was read.
    pub fn filename(&self) -> (name: Option<&[u8]>)
        requires
            !(self@.phase is Error),
        ensures
            match name {
                Some(bytes) => self@.phase.filename() == Some(bytes@),
                None => self@.phase.filename() is None,
            },
    {
        match &self.state {
            InternalState::Init => None,
            InternalState::HeaderParsed(state) => Some(state.header.filename.as_slice()),
            InternalState::Inflated(state) => Some(state.header.filename.as_slice()),
            InternalState::DescriptorParsed(state) => Some(state.header.filename.as_slice()),
            InternalState::End(state) => Some(state.header.filename.as_slice()),
            InternalState::Error => {
                proof {
                    assert(false);
                }
                None
            },
        }
    }
}

/// Starts to read an entry.
pub fn start_stream() -> (file: ZipFile)
    ensures
        file@ == fresh_file(),
        file@.wf(),
{
    reveal(at_rest);
    proof {
        lemma_local_file_header_signature(Seq::<u8>::empty());
    }
    ZipFile { state: InternalState::Init, unparsed: Vec::new(), inflater: deflate::Stream::new() }
}

/// Starts to read the entry that begins with `input`, and returns the
/// reader with the input that it has not read yet. Input that ends inside
/// the local file header is kept by the reader.
pub fn peek_stream(input: &[u8]) -> (r: Result<(&[u8], ZipFile), ZipError>)
    ensures
        match r {
            Ok((rest, file)) => spec_peek_stream(input@) == Ok::<(Seq<u8>, ZipFileView), ZipError>(
                (rest@, file@),
            ) && file@.wf() && !(file@.phase is Error) && rest@.len() <= input@.len(),
            Err(e) => spec_peek_stream(input@) == Err::<(Seq<u8>, ZipFileView), ZipError>(e),
        },
{
    reveal(at_rest);
    proof {
        lemma_local_file_header_len(input@);
    }
    match LocalFileHeader::parse(input) {
        Ok((unparsed, header)) => Ok(
            (
                unparsed,
                ZipFile {
                    state: InternalState::HeaderParsed(HeaderParsed { header }),
                    unparsed: Vec::new(),
                    inflater: deflate::Stream::new(),
                },
            ),
        ),
        Err(ParseError::Incomplete(_need)) => {
            let nothing = &input[input.len()..input.len()];
            proof {
                assert(nothing@ =~= Seq::<u8>::empty());
            }
            Ok(
                (
                    nothing,
                    ZipFile {
                        state: InternalState::Init,
                        unparsed: vstd::slice::slice_to_vec(input),
                        inflater: deflate::Stream::new(),
                    },
                ),
            )
        },
        Err(ParseError::Error(ZipError::NotLocalFileHeader)) => Err(ZipError::NotLocalFileHeader),
        Err(_) => Err(ZipError::InvalidLocalFileHeader),
    }
}

/// A reader that was given the signature of a local file header and
/// nothing else has kept the signature and waits for more.
pub proof fn lemma_signature_read(feeds: Seq<Feed>)
    ensures
        run(start(fresh_file(), LOCAL_FILE_HEADER_TAG@), feeds) == Some(
            Finished {
                file: ZipFileView {
                    phase: Phase::Init,
                    stored: LOCAL_FILE_HEADER_TAG@,
                    inflater: fresh_inflater(),
                },
                outcome: Ok(StateView::NeedsInput),
            },
        ),
{
    reveal(step);
    reveal(spec_local_file_header);
    let cfg = start(fresh_file(), LOCAL_FILE_HEADER_TAG@);
    let next = Config { handler: cfg.handler.extended(), ..cfg };
    assert(cfg.handler.unparsed() =~= LOCAL_FILE_HEADER_TAG@);
    assert(next.handler.unparsed() =~= LOCAL_FILE_HEADER_TAG@);
    assert(next.handler.extended().storage() =~= LOCAL_FILE_HEADER_TAG@);
    assert(run(cfg, feeds) == run(next, feeds));
}

} // verus!
