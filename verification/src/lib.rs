//! Streaming decompression of ZIP and GZIP archives.
//!
//! Compressed bytes may arrive in chunks of any size. Each reader keeps what
//! it needs between calls, hands out decompressed bytes as they become
//! available and never loses its place in the stream.
//!
//! - [`zip`] and [`gzip`] hold the readers of the two formats, and under
//!   them the parsers of their headers.
//! - [`File`], in this module, is a reader that finds out the format by the
//!   first four bytes.
//! - [`deflate`] holds the inflater, around miniz_oxide's decompressor.
//! - [`input_helper`] makes input whole again that was cut inside a header.
//! - [`utils`] holds the readers of bytes and numbers that the parsers are
//!   made of.
//!
//! Every function is specified and proved to do what its specification
//! says. What a reader does is specified as a machine that takes one step
//! after the other. What the decompressor makes of its input has a name,
//! [`deflate::inflated`]: the readers are specified over it, and do with
//! each run of the decompressor what its report asks for.

use vstd::prelude::*;

use crate::deflate::Feed;
use crate::gzip::headers::{DEFLATE_TAG, MEMBER_TAG};
use crate::gzip::{GZipError, GZipFile, GZipFileView};
use crate::utils::is_tail;
use crate::zip::headers::LOCAL_FILE_HEADER_TAG;
use crate::zip::{ZipError, ZipFile, ZipFileView};

pub mod deflate;
pub mod gzip;
pub mod input_helper;
pub mod utils;
pub mod zip;

verus! {

/// Where a reader stands after it was given input. `File` is the reader's
/// own type: a ZIP entry, a GZIP member, or either.
pub enum State<'i, 's, File> where 'i: 's {
    /// A GZIP member has ended and so has the input. Another member may
    /// follow: give more input to the reader that is handed out here. Or
    /// the stream is over: tell the old reader so with an empty input.
    NeedsInputOrEof(gzip::GZipFile),
    /// All input was taken and more is needed.
    NeedsInput,
    /// Decompressed bytes are there. `output` holds until the reader is
    /// given input again; `unparsed_input` is to be given to it next.
    HasOutput { unparsed_input: &'i [u8], output: &'s [u8] },
    /// This file has ended and another one begins. `unparsed_input` is to
    /// be given to `next_file`.
    NextFile { unparsed_input: &'i [u8], next_file: File },
    /// This file has ended and no other follows.
    EndOfFile,
}

/// A [`State`] as a mathematical value.
pub enum StateView<F> {
    NeedsInputOrEof(gzip::GZipFileView),
    NeedsInput,
    HasOutput { unparsed_input: Seq<u8>, output: Seq<u8> },
    NextFile { unparsed_input: Seq<u8>, next_file: F },
    EndOfFile,
}

impl<'i, 's, File: View> View for State<'i, 's, File> {
    type V = StateView<File::V>;

    open spec fn view(&self) -> StateView<File::V> {
        match *self {
            State::NeedsInputOrEof(file) => StateView::NeedsInputOrEof(file@),
            State::NeedsInput => StateView::NeedsInput,
            State::HasOutput { unparsed_input, output } => StateView::HasOutput {
                unparsed_input: unparsed_input@,
                output: output@,
            },
            State::NextFile { unparsed_input, next_file } => StateView::NextFile {
                unparsed_input: unparsed_input@,
                next_file: next_file@,
            },
            State::EndOfFile => StateView::EndOfFile,
        }
    }
}

impl<'i, 's, F> State<'i, 's, F> {
    /// The same state, for a caller who knows that it holds no output and
    /// so borrows nothing from the reader.
    pub fn assert_no_output(self) -> (r: State<'i, 'i, F>)
        requires
            !(self is HasOutput),
        ensures
            r == self,
    {
        match self {
            State::NeedsInputOrEof(f) => State::NeedsInputOrEof(f),
            State::NeedsInput => State::NeedsInput,
            State::HasOutput { unparsed_input, output } => {
                proof {
                    assert(false);
                }
                State::NeedsInput
            },
            State::NextFile { unparsed_input, next_file } => State::NextFile {
                unparsed_input,
                next_file,
            },
            State::EndOfFile => State::EndOfFile,
        }
    }
}

/// What a reader has to tell its caller, before the output is fetched from
/// the inflater: a [`State`] that borrows nothing from the reader.
pub enum Told<'i, File> {
    NeedsInputOrEof(gzip::GZipFile),
    NeedsInput,
    HasOutput { unparsed_input: &'i [u8] },
    NextFile { unparsed_input: &'i [u8], next_file: File },
    EndOfFile,
}

impl<'i, File: View> Told<'i, File> {
    /// The state that the caller is given, `output` being the output of the
    /// inflater.
    pub open spec fn state(self, output: Seq<u8>) -> StateView<File::V> {
        match self {
            Told::NeedsInputOrEof(file) => StateView::NeedsInputOrEof(file@),
            Told::NeedsInput => StateView::NeedsInput,
            Told::HasOutput { unparsed_input } => StateView::HasOutput {
                unparsed_input: unparsed_input@,
                output,
            },
            Told::NextFile { unparsed_input, next_file } => StateView::NextFile {
                unparsed_input: unparsed_input@,
                next_file: next_file@,
            },
            Told::EndOfFile => StateView::EndOfFile,
        }
    }
}

/// What a reader's result is before the output is fetched, as a
/// mathematical value.
pub open spec fn told_outcome<'i, F: View, E>(
    r: Result<Told<'i, F>, E>,
    output: Seq<u8>,
) -> Outcome<F::V, E> {
    match r {
        Ok(told) => Ok(told.state(output)),
        Err(e) => Err(e),
    }
}

/// What a reader's result is in specifications: the state, or the error.
pub type Outcome<F, E> = Result<StateView<F>, E>;

/// A reader's result as a mathematical value.
pub open spec fn outcome_of<'i, 's, F: View, E>(r: Result<State<'i, 's, F>, E>) -> Outcome<F::V, E> {
    match r {
        Ok(state) => Ok(state@),
        Err(e) => Err(e),
    }
}

/// Whether the headers of a file were read.
pub enum ReadHeadersResult<'i> {
    /// All input was taken and more is needed.
    NeedsInput,
    /// The headers were read; `unparsed` is the input that follows them.
    Done { unparsed: &'i [u8] },
}

/// A [`ReadHeadersResult`] as a mathematical value.
pub enum ReadHeadersView {
    NeedsInput,
    Done { unparsed: Seq<u8> },
}

impl<'i> View for ReadHeadersResult<'i> {
    type V = ReadHeadersView;

    open spec fn view(&self) -> ReadHeadersView {
        match *self {
            ReadHeadersResult::NeedsInput => ReadHeadersView::NeedsInput,
            ReadHeadersResult::Done { unparsed } => ReadHeadersView::Done { unparsed: unparsed@ },
        }
    }
}

/// What can be wrong with an archive: what its format says, or that it is
/// of no format known.
#[derive(Debug, Copy, Clone, Eq, PartialEq)]
pub enum Error {
    Zip(ZipError),
    GZip(GZipError),
    UnknownFileFormat,
}

impl From<ZipError> for Error {
    fn from(err: ZipError) -> (r: Error) {
        Error::Zip(err)
    }
}

impl vstd::std_specs::convert::FromSpecImpl<ZipError> for Error {
    open spec fn obeys_from_spec() -> bool {
        true
    }

    open spec fn from_spec(err: ZipError) -> Error {
        Error::Zip(err)
    }
}

impl From<GZipError> for Error {
    fn from(err: GZipError) -> (r: Error) {
        Error::GZip(err)
    }
}

impl vstd::std_specs::convert::FromSpecImpl<GZipError> for Error {
    open spec fn obeys_from_spec() -> bool {
        true
    }

    open spec fn from_spec(err: GZipError) -> Error {
        Error::GZip(err)
    }
}

/// The number of bytes by which the format of an archive is known.
pub const NEEDED_BYTES: usize = 4;

/// A reader of a ZIP entry or of a GZIP member, or of the start of an
/// archive whose format is still to be found out.
pub enum File {
    Zip(ZipFile),
    GZip(GZipFile),
    /// The bytes seen so far, fewer than it takes to know the format.
    Init(Vec<u8>),
}

/// A [`File`] as a mathematical value.
pub enum FileView {
    Zip(ZipFileView),
    GZip(GZipFileView),
    Init(Seq<u8>),
}

impl View for File {
    type V = FileView;

    open spec fn view(&self) -> FileView {
        match self {
            File::Zip(file) => FileView::Zip(file@),
            File::GZip(file) => FileView::GZip(file@),
            File::Init(bytes) => FileView::Init(bytes@),
        }
    }
}

impl From<ZipFile> for File {
    fn from(f: ZipFile) -> (r: File) {
        File::Zip(f)
    }
}

impl vstd::std_specs::convert::FromSpecImpl<ZipFile> for File {
    open spec fn obeys_from_spec() -> bool {
        true
    }

    open spec fn from_spec(f: ZipFile) -> File {
        File::Zip(f)
    }
}

impl From<GZipFile> for File {
    fn from(f: GZipFile) -> (r: File) {
        File::GZip(f)
    }
}

impl vstd::std_specs::convert::FromSpecImpl<GZipFile> for File {
    open spec fn obeys_from_spec() -> bool {
        true
    }

    open spec fn from_spec(f: GZipFile) -> File {
        File::GZip(f)
    }
}

impl FileView {
    pub open spec fn wf(self) -> bool {
        match self {
            FileView::Zip(file) => file.wf(),
            FileView::GZip(file) => file.wf(),
            FileView::Init(_) => true,
        }
    }

    /// The reader can be given input: it has returned no error, has not
    /// said that a GZIP stream is over, and if it has still to find out the
    /// format, it has seen too few bytes for that.
    pub open spec fn readable(self) -> bool {
        match self {
            FileView::Zip(file) => file.wf() && !(file.phase is Error),
            FileView::GZip(file) => file.wf() && file.phase.readable(),
            FileView::Init(bytes) => bytes.len() < NEEDED_BYTES,
        }
    }

    /// The name of the file, once it is known.
    pub open spec fn name(self) -> Option<Seq<u8>> {
        match self {
            FileView::Zip(file) => file.phase.filename(),
            FileView::GZip(file) => file.phase.filename(),
            FileView::Init(_) => None,
        }
    }
}

/// What the first bytes of an archive say of its format.
pub enum Format {
    /// They are too few.
    NeedsMoreData,
    /// They are those of no format known.
    Unknown,
    /// They are the signature of a ZIP local file header.
    Zip,
    /// They are the start of a GZIP member header: its signature, the code
    /// for deflate, and any fourth byte.
    GZip,
}

/// The format of an archive that starts with `bytes`.
pub open spec fn format_of(bytes: Seq<u8>) -> Format {
    if bytes.len() < NEEDED_BYTES {
        Format::NeedsMoreData
    } else if bytes.take(4) == LOCAL_FILE_HEADER_TAG@ {
        Format::Zip
    } else if bytes.take(3) == MEMBER_TAG@ + DEFLATE_TAG@ {
        Format::GZip
    } else {
        Format::Unknown
    }
}

/// The state of a ZIP reader, as the state of a reader of any format.
pub open spec fn zip_state(state: StateView<ZipFileView>) -> StateView<FileView> {
    match state {
        StateView::NeedsInputOrEof(file) => StateView::NeedsInputOrEof(file),
        StateView::NeedsInput => StateView::NeedsInput,
        StateView::HasOutput { unparsed_input, output } => StateView::HasOutput {
            unparsed_input,
            output,
        },
        StateView::NextFile { unparsed_input, next_file } => StateView::NextFile {
            unparsed_input,
            next_file: FileView::Zip(next_file),
        },
        StateView::EndOfFile => StateView::EndOfFile,
    }
}

/// The state of a GZIP reader, as the state of a reader of any format.
pub open spec fn gzip_state(state: StateView<GZipFileView>) -> StateView<FileView> {
    match state {
        StateView::NeedsInputOrEof(file) => StateView::NeedsInputOrEof(file),
        StateView::NeedsInput => StateView::NeedsInput,
        StateView::HasOutput { unparsed_input, output } => StateView::HasOutput {
            unparsed_input,
            output,
        },
        StateView::NextFile { unparsed_input, next_file } => StateView::NextFile {
            unparsed_input,
            next_file: FileView::GZip(next_file),
        },
        StateView::EndOfFile => StateView::EndOfFile,
    }
}

/// A reader at the end of a call, and what the call returns.
pub struct Finished {
    pub file: FileView,
    pub outcome: Outcome<FileView, Error>,
}

/// The end of a ZIP reader's call, as that of a reader of any format.
pub open spec fn zip_finished(finished: Option<zip::Finished>) -> Option<Finished> {
    match finished {
        Some(f) => Some(
            Finished {
                file: FileView::Zip(f.file),
                outcome: match f.outcome {
                    Ok(state) => Ok(zip_state(state)),
                    Err(e) => Err(Error::Zip(e)),
                },
            },
        ),
        None => None,
    }
}

/// The end of a GZIP reader's call, as that of a reader of any format.
pub open spec fn gzip_finished(finished: Option<gzip::Finished>) -> Option<Finished> {
    match finished {
        Some(f) => Some(
            Finished {
                file: FileView::GZip(f.file),
                outcome: match f.outcome {
                    Ok(state) => Ok(gzip_state(state)),
                    Err(e) => Err(Error::GZip(e)),
                },
            },
        ),
        None => None,
    }
}

/// The ZIP reader that the first four bytes of a ZIP archive leave: it has
/// kept them.
pub open spec fn zip_detected() -> ZipFileView {
    ZipFileView {
        phase: zip::Phase::Init,
        stored: LOCAL_FILE_HEADER_TAG@,
        inflater: zip::fresh_inflater(),
    }
}

/// The GZIP reader that the first four bytes of a GZIP stream leave: it
/// has kept them.
pub open spec fn gzip_detected(head: Seq<u8>) -> GZipFileView {
    GZipFileView { phase: gzip::Phase::Init, stored: head, inflater: gzip::fresh_inflater() }
}

/// The GZIP reader that the first four bytes of a GZIP stream leave where
/// the fourth, the flags, has a reserved bit set: it has found the member
/// header malformed, and kept nothing.
pub open spec fn gzip_rejected() -> GZipFileView {
    GZipFileView {
        phase: gzip::Phase::Error,
        stored: Seq::empty(),
        inflater: gzip::fresh_inflater(),
    }
}

/// What finding out the format makes of a reader and of its input.
pub struct Detected {
    /// The reader: one of the format found, or the same as before.
    pub file: FileView,
    /// The input that is still to be read.
    pub rest: Seq<u8>,
    /// What the call returns, if finding out the format has ended it.
    pub outcome: Option<Outcome<FileView, Error>>,
}

/// The number of bytes that a reader which has seen `seen` bytes takes
/// from `input` to find out the format: as many as it still needs, or all
/// there are.
pub open spec fn taken_from(seen: Seq<u8>, input: Seq<u8>) -> int {
    if seen.len() + input.len() < NEEDED_BYTES {
        input.len() as int
    } else {
        NEEDED_BYTES - seen.len()
    }
}

/// The bytes by which the format is found out: those seen before and
/// those taken from the input.
pub open spec fn head_of(seen: Seq<u8>, input: Seq<u8>) -> Seq<u8> {
    seen + input.take(taken_from(seen, input))
}

/// How a reader finds out the format. One that knows it has nothing to do.
/// One that does not takes bytes from the input until it has four. By
/// them it knows the format and becomes a reader of that format, which is
/// given the four bytes. Fewer than four bytes end the call: more are
/// needed. Four bytes that start no archive are an error, and the reader
/// stays as it is. Four bytes that start a GZIP member with a reserved flag
/// are an error of the GZIP reader that was given them.
pub open spec fn detected(file: FileView, input: Seq<u8>) -> Detected {
    match file {
        FileView::Init(seen) => {
            let head = head_of(seen, input);
            let rest = input.skip(taken_from(seen, input));
            match format_of(head) {
                Format::NeedsMoreData => Detected {
                    file: FileView::Init(head),
                    rest,
                    outcome: Some(Ok(StateView::NeedsInput)),
                },
                Format::Unknown => Detected {
                    file: FileView::Init(head),
                    rest,
                    outcome: Some(Err(Error::UnknownFileFormat)),
                },
                Format::Zip => Detected { file: FileView::Zip(zip_detected()), rest, outcome: None },
                Format::GZip => if gzip::headers::flags_of(head[3]) is Some {
                    Detected { file: FileView::GZip(gzip_detected(head)), rest, outcome: None }
                } else {
                    Detected {
                        file: FileView::GZip(gzip_rejected()),
                        rest,
                        outcome: Some(Err(Error::GZip(GZipError::InvalidMemberHeader))),
                    }
                },
            }
        },
        _ => Detected { file, rest: input, outcome: None },
    }
}

/// What a call does to a reader and returns, for the feeds of the inflater:
/// the reader finds out the format if it has still to, and then does what a
/// reader of that format does.
#[verifier::opaque]
pub open spec fn run(file: FileView, input: Seq<u8>, feeds: Seq<Feed>) -> Option<Finished> {
    let found = detected(file, input);
    match found.outcome {
        Some(outcome) => Some(Finished { file: found.file, outcome }),
        None => match found.file {
            FileView::Zip(file) => zip_finished(zip::run(zip::start(file, found.rest), feeds)),
            FileView::GZip(file) => gzip_finished(gzip::run(gzip::start(file, found.rest), feeds)),
            FileView::Init(_) => None,
        },
    }
}

/// What becomes of a reader that is given input again and again, as long
/// as it has output: the reader at the end and what the last call returns.
/// Each call has feeds of its own, `feeds` holds them call by call. There
/// is no result unless all calls but the last have output, and the last
/// has not.
pub open spec fn run_with(file: FileView, input: Seq<u8>, feeds: Seq<Seq<Feed>>) -> Option<Finished>
    decreases feeds.len(),
{
    if feeds.len() == 0 {
        None
    } else {
        match run(file, input, feeds[0]) {
            None => None,
            Some(finished) => match finished.outcome {
                Ok(StateView::HasOutput { unparsed_input, .. }) => run_with(
                    finished.file,
                    unparsed_input,
                    feeds.skip(1),
                ),
                _ => if feeds.len() == 1 {
                    Some(finished)
                } else {
                    None
                },
            },
        }
    }
}

/// A call that has output, and then going on, is going on from the reader
/// that the call has left, with the input that it has left.
pub proof fn lemma_run_with_step(
    file: FileView,
    input: Seq<u8>,
    own: Seq<Feed>,
    more: Seq<Seq<Feed>>,
    finished: Finished,
)
    requires
        run(file, input, own) == Some(finished),
    ensures
        finished.outcome matches Ok(StateView::HasOutput { unparsed_input, .. }) ==> run_with(
            file,
            input,
            seq![own] + more,
        ) == run_with(finished.file, unparsed_input, more),
        !(finished.outcome matches Ok(StateView::HasOutput { .. })) ==> run_with(
            file,
            input,
            seq![own],
        ) == Some(finished),
{
    assert((seq![own] + more)[0] == own);
    assert((seq![own] + more).skip(1) =~= more);
}

/// Finding out the format does not depend on where the first bytes of an
/// archive are cut: where a call with the first part of some input asks for
/// more because four bytes are not there yet, a call with the second part
/// ends as one call with all of the input ends.
pub proof fn lemma_format_chunk_independence(
    seen: Seq<u8>,
    first: Seq<u8>,
    second: Seq<u8>,
    feeds: Seq<Feed>,
)
    requires
        seen.len() + first.len() < NEEDED_BYTES,
    ensures
        run(FileView::Init(seen), first, feeds) == Some(
            Finished { file: FileView::Init(seen + first), outcome: Ok(StateView::NeedsInput) },
        ),
        run(FileView::Init(seen + first), second, feeds) == run(
            FileView::Init(seen),
            first + second,
            feeds,
        ),
{
    reveal(run);
    assert(first.take(first.len() as int) =~= first);
    let taken_late = taken_from(seen + first, second);
    let taken_whole = taken_from(seen, first + second);
    assert(taken_whole == first.len() + taken_late);
    assert(head_of(seen + first, second) =~= head_of(seen, first + second));
    assert(second.skip(taken_late) =~= (first + second).skip(taken_whole));
}

/// The output that a reader has for its caller.
pub open spec fn output_of(file: FileView) -> Seq<u8> {
    match file {
        FileView::Zip(file) => file.inflater.output(),
        FileView::GZip(file) => file.inflater.output(),
        FileView::Init(_) => Seq::empty(),
    }
}

enum AutodetectResult {
    NeedsMoreData,
    UnknownFormat,
    Failed(GZipFile, GZipError),
    Detected(File),
}

impl<'i, 's> From<State<'i, 's, ZipFile>> for State<'i, 's, File> {
    fn from(from: State<'i, 's, ZipFile>) -> (r: State<'i, 's, File>) {
        match from {
            State::NeedsInputOrEof(file) => State::NeedsInputOrEof(file),
            State::NeedsInput => State::NeedsInput,
            State::HasOutput { unparsed_input, output } => State::HasOutput { unparsed_input, output },
            State::NextFile { unparsed_input, next_file } => State::NextFile {
                unparsed_input,
                next_file: File::Zip(next_file),
            },
            State::EndOfFile => State::EndOfFile,
        }
    }
}

impl<'i, 's> vstd::std_specs::convert::FromSpecImpl<State<'i, 's, ZipFile>> for State<'i, 's, File> {
    open spec fn obeys_from_spec() -> bool {
        true
    }

    open spec fn from_spec(from: State<'i, 's, ZipFile>) -> State<'i, 's, File> {
        match from {
            State::NeedsInputOrEof(file) => State::NeedsInputOrEof(file),
            State::NeedsInput => State::NeedsInput,
            State::HasOutput { unparsed_input, output } => State::HasOutput { unparsed_input, output },
            State::NextFile { unparsed_input, next_file } => State::NextFile {
                unparsed_input,
                next_file: File::Zip(next_file),
            },
            State::EndOfFile => State::EndOfFile,
        }
    }
}

impl<'i, 's> From<State<'i, 's, GZipFile>> for State<'i, 's, File> {
    fn from(from: State<'i, 's, GZipFile>) -> (r: State<'i, 's, File>) {
        match from {
            State::NeedsInputOrEof(file) => State::NeedsInputOrEof(file),
            State::NeedsInput => State::NeedsInput,
            State::HasOutput { unparsed_input, output } => State::HasOutput { unparsed_input, output },
            State::NextFile { unparsed_input, next_file } => State::NextFile {
                unparsed_input,
                next_file: File::GZip(next_file),
            },
            State::EndOfFile => State::EndOfFile,
        }
    }
}

impl<'i, 's> vstd::std_specs::convert::FromSpecImpl<State<'i, 's, GZipFile>> for State<'i, 's, File> {
    open spec fn obeys_from_spec() -> bool {
        true
    }

    open spec fn from_spec(from: State<'i, 's, GZipFile>) -> State<'i, 's, File> {
        match from {
            State::NeedsInputOrEof(file) => State::NeedsInputOrEof(file),
            State::NeedsInput => State::NeedsInput,
            State::HasOutput { unparsed_input, output } => State::HasOutput { unparsed_input, output },
            State::NextFile { unparsed_input, next_file } => State::NextFile {
                unparsed_input,
                next_file: File::GZip(next_file),
            },
            State::EndOfFile => State::EndOfFile,
        }
    }
}

/// What a ZIP reader has to tell, as told by a reader of any format.
fn told_from_zip<'i>(from: Told<'i, ZipFile>) -> (r: Told<'i, File>)
    ensures
        forall|output: Seq<u8>| #[trigger] r.state(output) == zip_state(from.state(output)),
{
    match from {
        Told::NeedsInputOrEof(file) => Told::NeedsInputOrEof(file),
        Told::NeedsInput => Told::NeedsInput,
        Told::HasOutput { unparsed_input } => Told::HasOutput { unparsed_input },
        Told::NextFile { unparsed_input, next_file } => Told::NextFile {
            unparsed_input,
            next_file: File::Zip(next_file),
        },
        Told::EndOfFile => Told::EndOfFile,
    }
}

/// What a GZIP reader has to tell, as told by a reader of any format.
fn told_from_gzip<'i>(from: Told<'i, GZipFile>) -> (r: Told<'i, File>)
    ensures
        forall|output: Seq<u8>| #[trigger] r.state(output) == gzip_state(from.state(output)),
{
    match from {
        Told::NeedsInputOrEof(file) => Told::NeedsInputOrEof(file),
        Told::NeedsInput => Told::NeedsInput,
        Told::HasOutput { unparsed_input } => Told::HasOutput { unparsed_input },
        Told::NextFile { unparsed_input, next_file } => Told::NextFile {
            unparsed_input,
            next_file: File::GZip(next_file),
        },
        Told::EndOfFile => Told::EndOfFile,
    }
}

impl File {
    /// The name of the file, once it is known. A ZIP reader that has
    /// returned an error knows none and is not to be asked.
    pub fn name(&self) -> (name: Option<&[u8]>)
        requires
            !(self@ matches FileView::Zip(file) && file.phase is Error),
        ensures
            match name {
                Some(bytes) => self@.name() == Some(bytes@),
                None => self@.name() is None,
            },
    {
        match self {
            File::Zip(zip) => zip.filename(),
            File::GZip(gzip) => gzip.filename(),
            File::Init(_) => None,
        }
    }

    /// Takes bytes from the start of `input` until four bytes are there,
    /// and finds out by them the format of the archive. Once it is known,
    /// a reader of that format is made and given the four bytes. Returns
    /// what was found and the input that was not taken.
    fn autodetect_format<'i>(unparsed: &mut Vec<u8>, input: &'i [u8]) -> (r: (
        AutodetectResult,
        &'i [u8],
    ))
        requires
            old(unparsed)@.len() < NEEDED_BYTES,
        ensures
            final(unparsed)@ == head_of(old(unparsed)@, input@),
            r.1@ == input@.skip(taken_from(old(unparsed)@, input@)),
            r.0 is NeedsMoreData <==> format_of(final(unparsed)@) is NeedsMoreData,
            r.0 is UnknownFormat <==> format_of(final(unparsed)@) is Unknown,
            r.0 matches AutodetectResult::Failed(file, e) ==> format_of(final(unparsed)@) is GZip
                && gzip::headers::flags_of(final(unparsed)@[3]) is None && e
                == GZipError::InvalidMemberHeader && file@ == gzip_rejected() && file@.wf(),
            r.0 matches AutodetectResult::Detected(File::Zip(file)) ==> format_of(final(unparsed)@)
                is Zip && file@ == zip_detected() && file@.wf(),
            r.0 matches AutodetectResult::Detected(File::GZip(file)) ==> format_of(
                final(unparsed)@,
            ) is GZip && gzip::headers::flags_of(final(unparsed)@[3]) is Some && file@
                == gzip_detected(final(unparsed)@) && file@.wf(),
            !(r.0 matches AutodetectResult::Detected(File::Init(_))),
    {
        let rest: &'i [u8];
        if input.len() < NEEDED_BYTES - unparsed.len() {
            unparsed.extend_from_slice(input);
            proof {
                assert(input@.take(input@.len() as int) =~= input@);
            }
            return (AutodetectResult::NeedsMoreData, &input[input.len()..input.len()]);
        } else {
            // The number of bytes from the start of the input that it takes
            // to know the format.
            let bytes_to_consume: usize = NEEDED_BYTES - unparsed.len();
            unparsed.extend_from_slice(&input[0..bytes_to_consume]);
            rest = &input[bytes_to_consume..input.len()];
        }
        // The bytes by which the format is known are now in `unparsed`.
        // A reader of that format is given them first.
        let zip_signature = LOCAL_FILE_HEADER_TAG;
        let gzip_signature = MEMBER_TAG;
        let deflate = DEFLATE_TAG;
        proof {
            let head = unparsed@;
            assert(head.take(4) =~= head);
            assert(head.take(3) == MEMBER_TAG@ + DEFLATE_TAG@ <==> head[0] == 0x1f && head[1] == 0x8b
                && head[2] == 0x08) by {
                let three = head.take(3);
                let tags = MEMBER_TAG@ + DEFLATE_TAG@;
                assert(three[0] == head[0] && three[1] == head[1] && three[2] == head[2]);
                assert(tags[0] == 0x1f && tags[1] == 0x8b && tags[2] == 0x08);
                if head[0] == 0x1f && head[1] == 0x8b && head[2] == 0x08 {
                    assert(three =~= tags);
                }
            }
            assert(head == LOCAL_FILE_HEADER_TAG@ <==> head[0] == 0x50 && head[1] == 0x4b && head[2]
                == 0x03 && head[3] == 0x04) by {
                if head[0] == 0x50 && head[1] == 0x4b && head[2] == 0x03 && head[3] == 0x04 {
                    assert(head =~= LOCAL_FILE_HEADER_TAG@);
                }
            }
        }
        if unparsed[0] == zip_signature[0] && unparsed[1] == zip_signature[1] && unparsed[2]
            == zip_signature[2] && unparsed[3] == zip_signature[3] {
            let mut stream = zip::start_stream();
            let ghost fresh = stream@;
            let replayed = stream.read(unparsed.as_slice());
            proof {
                let feeds = choose|feeds: Seq<Feed>| #[trigger]
                    zip::run(zip::start(fresh, unparsed@), feeds) == Some(
                        zip::Finished { file: stream@, outcome: outcome_of(replayed) },
                    );
                zip::lemma_signature_read(feeds);
            }
            (AutodetectResult::Detected(File::Zip(stream)), rest)
        } else if unparsed[0] == gzip_signature[0] && unparsed[1] == gzip_signature[1] && unparsed[2]
            == deflate[0] {
            let mut stream = gzip::start_stream();
            let ghost fresh = stream@;
            let replayed = stream.read(unparsed.as_slice());
            let failed: Option<GZipError> = match &replayed {
                Ok(_) => None,
                Err(e) => Some(*e),
            };
            proof {
                let feeds = choose|feeds: Seq<Feed>| #[trigger]
                    gzip::run(gzip::start(fresh, unparsed@), feeds) == Some(
                        gzip::Finished { file: stream@, outcome: outcome_of(replayed) },
                    );
                gzip::lemma_signature_read(unparsed@, feeds);
            }
            match failed {
                None => (AutodetectResult::Detected(File::GZip(stream)), rest),
                Some(e) => (AutodetectResult::Failed(stream, e), rest),
            }
        } else {
            (AutodetectResult::UnknownFormat, rest)
        }
    }

    /// The bytes that the last call of [`File::read`] put out. There are
    /// none before the format is known.
    pub fn get_output(&self) -> (output: &[u8])
        requires
            self@.wf(),
            !(self@ is Init),
        ensures
            output@.len() > 0,
            match self@ {
                FileView::Zip(file) => output@ == file.inflater.output(),
                FileView::GZip(file) => output@ == file.inflater.output(),
                FileView::Init(_) => false,
            },
    {
        match self {
            File::Zip(file) => file.get_output(),
            File::GZip(file) => file.get_output(),
            File::Init(_) => {
                proof {
                    assert(false);
                }
                &[]
            },
        }
    }

    /// Finds out the format, if that is still to do: see [`detected`].
    /// Returns what the call is to return, if it is over, and the input
    /// that is still to be read.
    fn detect<'i>(&mut self, input: &'i [u8]) -> (r: (Option<Result<Told<'i, File>, Error>>, &'i [u8]))
        requires
            old(self)@.readable(),
        ensures
            final(self)@ == detected(old(self)@, input@).file,
            final(self)@.wf(),
            r.1@ == detected(old(self)@, input@).rest,
            is_tail(r.1@, input@),
            match r.0 {
                Some(result) => detected(old(self)@, input@).outcome == Some(
                    told_outcome(result, Seq::empty()),
                ) && !(result matches Ok(Told::HasOutput { .. })) && (result is Ok ==> final(
                    self)@.readable()),
                None => detected(old(self)@, input@).outcome is None && final(self)@.readable() && !(
                final(self)@ is Init),
            },
    {
        proof {
            assert(input@ =~= input@.skip(0));
        }
        if let File::Init(unparsed) = self {
            let (found, rest) = File::autodetect_format(unparsed, input);
            proof {
                assert(rest@ =~= input@.skip(input@.len() - rest@.len()));
            }
            match found {
                AutodetectResult::NeedsMoreData => (Some(Ok(Told::NeedsInput)), rest),
                AutodetectResult::UnknownFormat => (Some(Err(Error::UnknownFileFormat)), rest),
                AutodetectResult::Failed(file, e) => {
                    *self = File::GZip(file);
                    (Some(Err(Error::GZip(e))), rest)
                },
                AutodetectResult::Detected(file) => {
                    *self = file;
                    (None, rest)
                },
            }
        } else {
            (None, input)
        }
    }

    /// Gives the reader input, as [`File::read`] does, and returns what it
    /// has to tell without the output, which is left in the inflater, and
    /// the feeds that the inflater took.
    pub(crate) fn read_told<'i>(&mut self, input: &'i [u8]) -> (r: (
        Result<Told<'i, File>, Error>,
        Ghost<Seq<Feed>>,
    ))
        requires
            old(self)@.readable(),
        ensures
            final(self)@.wf(),
            run(old(self)@, input@, r.1@) == Some(
                Finished { file: final(self)@, outcome: told_outcome(r.0, output_of(final(self)@)) },
            ),
            r.0 matches Ok(Told::HasOutput { unparsed_input }) ==> is_tail(unparsed_input@, input@)
                && final(self)@.readable() && !(final(self)@ is Init) && outputs_left_of(
                final(self)@,
            ) < outputs_left_of(old(self)@),
            r.0 matches Ok(Told::NextFile { unparsed_input, next_file }) ==> next_file@.readable()
                && is_tail(unparsed_input@, input@),
            r.0 matches Ok(Told::NeedsInputOrEof(next_file)) ==> next_file@ == gzip::fresh_file()
                && next_file@.wf(),
            r.0 is Ok && !(r.0 matches Ok(Told::EndOfFile)) ==> final(self)@.readable(),
    {
        reveal(run);
        let (ended, rest) = self.detect(input);
        match ended {
            Some(result) => {
                return (result, Ghost(Seq::empty()));
            },
            None => {},
        }
        match self {
            File::Zip(file) => {
                let (told, Ghost(feeds)) = file.read_told(rest);
                match told {
                    Ok(told) => {
                        proof {
                            lemma_tail_of_tail(told.state(Seq::empty()), rest@, input@);
                        }
                        (Ok(told_from_zip(told)), Ghost(feeds))
                    },
                    Err(e) => (Err(Error::Zip(e)), Ghost(feeds)),
                }
            },
            File::GZip(file) => {
                let (told, Ghost(feeds)) = file.read_told(rest);
                match told {
                    Ok(told) => {
                        proof {
                            lemma_tail_of_tail(told.state(Seq::empty()), rest@, input@);
                        }
                        (Ok(told_from_gzip(told)), Ghost(feeds))
                    },
                    Err(e) => (Err(Error::GZip(e)), Ghost(feeds)),
                }
            },
            File::Init(_) => {
                proof {
                    assert(false);
                }
                (Err(Error::UnknownFileFormat), Ghost(Seq::empty()))
            },
        }
    }

    /// Gives the reader input. The reader goes as far as the input lets it
    /// and says where it stands: see [`State`] and [`run`].
    pub fn read<'i, 's>(&'s mut self, input: &'i [u8]) -> (r: Result<State<'i, 's, File>, Error>)
        requires
            old(self)@.readable(),
        ensures
            final(self)@.wf(),
            exists|feeds: Seq<Feed>| #[trigger]
                run(old(self)@, input@, feeds) == Some(
                    Finished { file: final(self)@, outcome: outcome_of(r) },
                ),
            r matches Ok(State::HasOutput { output, unparsed_input }) ==> output@.len() > 0
                && output@ == output_of(final(self)@) && is_tail(unparsed_input@, input@) && final(
                self)@.readable() && outputs_left_of(final(self)@) < outputs_left_of(old(self)@),
            r matches Ok(State::NextFile { unparsed_input, next_file }) ==> next_file@.readable()
                && is_tail(unparsed_input@, input@),
            r matches Ok(State::NeedsInputOrEof(next_file)) ==> next_file@ == gzip::fresh_file()
                && next_file@.wf(),
            r is Ok && !(r matches Ok(State::EndOfFile)) ==> final(self)@.readable(),
    {
        let (told, Ghost(feeds)) = self.read_told(input);
        match told {
            Ok(Told::NeedsInputOrEof(file)) => Ok(State::NeedsInputOrEof(file)),
            Ok(Told::NeedsInput) => Ok(State::NeedsInput),
            Ok(Told::HasOutput { unparsed_input }) => Ok(
                State::HasOutput { unparsed_input, output: self.get_output() },
            ),
            Ok(Told::NextFile { unparsed_input, next_file }) => Ok(
                State::NextFile { unparsed_input, next_file },
            ),
            Ok(Told::EndOfFile) => Ok(State::EndOfFile),
            Err(e) => Err(e),
        }
    }
}

/// A reader at the end of a call that reads headers only, and what the call
/// returns.
pub struct HeadersRead {
    pub file: FileView,
    pub outcome: Result<ReadHeadersView, Error>,
}

/// What a call that reads headers only does to a reader and returns: the
/// reader finds out the format if it has still to, and then does what a
/// reader of a ZIP entry does. Nothing is said of a reader of a GZIP member.
pub open spec fn read_headers_of(file: FileView, input: Seq<u8>) -> HeadersRead {
    let found = detected(file, input);
    match found.outcome {
        Some(Ok(_)) => HeadersRead { file: found.file, outcome: Ok(ReadHeadersView::NeedsInput) },
        Some(Err(e)) => HeadersRead { file: found.file, outcome: Err(e) },
        None => match found.file {
            FileView::Zip(file) => {
                let read = zip::read_headers_of(file, found.rest);
                HeadersRead {
                    file: FileView::Zip(read.file),
                    outcome: match read.outcome {
                        Ok(result) => Ok(result),
                        Err(e) => Err(Error::Zip(e)),
                    },
                }
            },
            _ => HeadersRead { file: found.file, outcome: Err(Error::UnknownFileFormat) },
        },
    }
}

impl File {
    /// Gives the reader input, as [`File::read`] does, but lets it go no
    /// further than the headers of the file: see [`read_headers_of`]. This
    /// is for ZIP archives only: the call must not lead to a reader of a
    /// GZIP member.
    pub fn read_headers<'i>(&mut self, input: &'i [u8]) -> (r: Result<ReadHeadersResult<'i>, Error>)
        requires
            old(self)@.readable(),
            !(detected(old(self)@, input@).file is GZip),
        ensures
            final(self)@.wf(),
            read_headers_of(old(self)@, input@) == (HeadersRead {
                file: final(self)@,
                outcome: match r {
                    Ok(result) => Ok(result@),
                    Err(e) => Err(e),
                },
            }),
    {
        let (ended, rest) = self.detect(input);
        match ended {
            Some(Ok(_)) => {
                return Ok(ReadHeadersResult::NeedsInput);
            },
            Some(Err(e)) => {
                return Err(e);
            },
            None => {},
        }
        match self {
            File::Zip(file) => match file.read_headers(rest) {
                Ok(result) => Ok(result),
                Err(e) => Err(Error::Zip(e)),
            },
            _ => {
                proof {
                    assert(false);
                }
                Err(Error::UnknownFileFormat)
            },
        }
    }

    /// Gives the reader input and hands each piece of output to `callback`,
    /// until the reader has something else to say: see [`run_with`]. The
    /// callback is only ever given bytes, never an empty slice.
    pub fn read_internal_iter<'i, F: FnMut(&[u8])>(&mut self, input: &'i [u8], mut callback: F) -> (r:
        Result<State<'i, 'i, File>, Error>)
        requires
            old(self)@.readable(),
            forall|bytes: &[u8]| bytes@.len() > 0 ==> call_requires(callback, (bytes,)),
        ensures
            final(self)@.wf(),
            r is Ok ==> !(r->Ok_0 is HasOutput),
            r matches Ok(State::NextFile { unparsed_input, next_file }) ==> next_file@.readable()
                && is_tail(unparsed_input@, input@),
            r matches Ok(State::NeedsInputOrEof(next_file)) ==> next_file@ == gzip::fresh_file()
                && next_file@.wf(),
            r is Ok && !(r matches Ok(State::EndOfFile)) ==> final(self)@.readable(),
            exists|feeds: Seq<Seq<Feed>>| #[trigger]
                run_with(old(self)@, input@, feeds) == Some(
                    Finished { file: final(self)@, outcome: outcome_of(r) },
                ),
    {
        let mut rest: &'i [u8] = input;
        let ghost mut used: Seq<Seq<Feed>> = Seq::empty();
        proof {
            assert(rest@ =~= input@.skip(0));
            assert forall|more: Seq<Seq<Feed>>| #[trigger]
                run_with(old(self)@, input@, used + more) == run_with(self@, rest@, more) by {
                assert(used + more =~= more);
            }
        }
        loop
            invariant
                self@.readable(),
                is_tail(rest@, input@),
                forall|bytes: &[u8]| bytes@.len() > 0 ==> call_requires(callback, (bytes,)),
                forall|more: Seq<Seq<Feed>>| #[trigger]
                    run_with(old(self)@, input@, used + more) == run_with(self@, rest@, more),
            decreases outputs_left_of(self@),
        {
            let ghost before = self@;
            let ghost given = rest@;
            let (told, Ghost(own)) = self.read_told(rest);
            proof {
                let finished = Finished {
                    file: self@,
                    outcome: told_outcome(told, output_of(self@)),
                };
                lemma_run_with_step(before, given, own, Seq::empty(), finished);
                assert(seq![own] + Seq::<Seq<Feed>>::empty() =~= seq![own]);
                assert(used + seq![own] =~= used.push(own));
                match told {
                    Ok(Told::HasOutput { unparsed_input }) => {
                        assert(unparsed_input@ =~= input@.skip(input@.len() - unparsed_input@.len()));
                        assert forall|more: Seq<Seq<Feed>>| #[trigger]
                            run_with(old(self)@, input@, used.push(own) + more) == run_with(
                                self@,
                                unparsed_input@,
                                more,
                            ) by {
                            lemma_run_with_step(before, given, own, more, finished);
                            assert(used.push(own) + more =~= used + (seq![own] + more));
                        }
                        used = used.push(own);
                    },
                    Ok(Told::NextFile { unparsed_input, .. }) => {
                        assert(run_with(old(self)@, input@, used + seq![own]) == run_with(
                            before,
                            given,
                            seq![own],
                        ));
                        assert(unparsed_input@ =~= input@.skip(input@.len() - unparsed_input@.len()));
                    },
                    _ => {
                        assert(run_with(old(self)@, input@, used + seq![own]) == run_with(
                            before,
                            given,
                            seq![own],
                        ));
                    },
                }
            }
            match told {
                Ok(Told::HasOutput { unparsed_input }) => {
                    rest = unparsed_input;
                    callback(self.get_output());
                },
                Ok(Told::NeedsInputOrEof(f)) => {
                    return Ok(State::NeedsInputOrEof(f));
                },
                Ok(Told::NeedsInput) => {
                    return Ok(State::NeedsInput);
                },
                Ok(Told::NextFile { unparsed_input, next_file }) => {
                    return Ok(State::NextFile { unparsed_input, next_file });
                },
                Ok(Told::EndOfFile) => {
                    return Ok(State::EndOfFile);
                },
                Err(e) => {
                    return Err(e);
                },
            }
        }
    }
}

/// A bound on the number of outputs that a reader can still report: that
/// of its inflater, or of the inflater that it will start with.
pub open spec fn outputs_left_of(file: FileView) -> nat {
    match file {
        FileView::Zip(file) => file.inflater.outputs_left(),
        FileView::GZip(file) => file.inflater.outputs_left(),
        FileView::Init(_) => zip::fresh_inflater().outputs_left(),
    }
}

/// What is left of a tail is left of the whole.
pub proof fn lemma_tail_of_tail<F>(state: StateView<F>, given: Seq<u8>, whole: Seq<u8>)
    requires
        is_tail(given, whole),
    ensures
        state matches StateView::HasOutput { unparsed_input, .. } ==> (is_tail(unparsed_input, given)
            ==> is_tail(unparsed_input, whole)),
        state matches StateView::NextFile { unparsed_input, .. } ==> (is_tail(unparsed_input, given)
            ==> is_tail(unparsed_input, whole)),
{
    match state {
        StateView::HasOutput { unparsed_input, .. } => {
            if is_tail(unparsed_input, given) {
                assert(unparsed_input =~= whole.skip(whole.len() - unparsed_input.len()));
            }
        },
        StateView::NextFile { unparsed_input, .. } => {
            if is_tail(unparsed_input, given) {
                assert(unparsed_input =~= whole.skip(whole.len() - unparsed_input.len()));
            }
        },
        _ => {},
    }
}

/// Starts to read an archive whose format is to be found out: ZIP or GZIP.
pub fn start_stream() -> (file: File)
    ensures
        file@ == FileView::Init(Seq::empty()),
        file@.readable(),
{
    File::Init(Vec::new())
}

} // verus!
