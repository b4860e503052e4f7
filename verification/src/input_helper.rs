//! Input that may be split anywhere, made whole for the header parsers.
//!
//! A header parser wants its header in one piece. Where a header is cut in
//! two by the end of the caller's input, the reader keeps the first part
//! until the next call. [`InputHandler`] then stitches: it puts the start of
//! the new input behind what was kept, and shows the parser that buffer
//! ([`Input::Short`]). As soon as the parser has got past what was kept, the
//! buffer is dropped and the parser is shown the caller's input again
//! ([`Input::Long`]), so that whatever a reader returns to its caller points
//! into the caller's input and lives as long as it.

use vstd::prelude::*;

verus! {

/// The most that one call of [`InputHandler::extend_input`] copies.
pub const EXTENSION: usize = 80;

/// Bytes to parse: the caller's own or the stitched ones.
#[derive(Debug, Clone, Copy, Eq, PartialEq)]
pub enum Input<'long, 'short> {
    /// A part of the caller's input.
    Long(&'long [u8]),
    /// The buffer that holds kept bytes and the start of the new input.
    Short(&'short [u8]),
}

impl<'long, 'short> Input<'long, 'short> {
    /// The bytes, whichever buffer they are in.
    pub open spec fn view(self) -> Seq<u8> {
        match self {
            Input::Long(long) => long@,
            Input::Short(short) => short@,
        }
    }

    /// The bytes, whichever buffer they are in.
    pub fn bytes(self) -> (r: &'short [u8]) where 'long: 'short
        ensures
            r@ == self@,
    {
        match self {
            Input::Long(long) => long,
            Input::Short(short) => short,
        }
    }

    /// The caller's input, from a value that is known to hold it.
    pub fn assert_take_long(self) -> (r: &'long [u8])
        requires
            self is Long,
        ensures
            r@ == self@,
    {
        match self {
            Input::Long(long) => long,
            Input::Short(_) => {
                proof {
                    assert(false);
                }
                &[]
            },
        }
    }
}

/// An input handler as a mathematical value.
pub struct InputHandlerView {
    /// The bytes that were kept from earlier calls and are still to be
    /// parsed.
    pub kept: Seq<u8>,
    /// How many bytes of the input the parsers have got past.
    pub input_consumed: nat,
    /// How many bytes of the input, from there on, were copied behind the
    /// kept bytes.
    pub copied: nat,
    /// The caller's input.
    pub orig_input: Seq<u8>,
}

impl InputHandlerView {
    /// How many bytes of the input were consumed or copied.
    pub open spec fn seen(self) -> nat {
        self.input_consumed + self.copied
    }

    /// No position lies outside the input.
    pub open spec fn wf(self) -> bool {
        self.seen() <= self.orig_input.len() <= usize::MAX
    }

    /// The stitching buffer: the kept bytes, then the copy of input.
    pub open spec fn storage(self) -> Seq<u8> {
        self.kept + self.orig_input.subrange(self.input_consumed as int, self.seen() as int)
    }

    /// The input that the parsers have not got past.
    pub open spec fn rest(self) -> Seq<u8> {
        self.orig_input.skip(self.input_consumed as int)
    }

    /// The parser is shown the stitching buffer, not the caller's input.
    pub open spec fn stitched(self) -> bool {
        self.kept.len() + self.copied > 0
    }

    /// What the parser is shown: the buffer while it holds anything, else the
    /// rest of the input.
    pub open spec fn unparsed(self) -> Seq<u8> {
        if self.stitched() {
            self.storage()
        } else {
            self.rest()
        }
    }

    /// A parser may consume `bytes` bytes of what it is shown: none, or more
    /// than were kept.
    pub open spec fn can_consume(self, bytes: nat) -> bool {
        &&& bytes <= self.unparsed().len()
        &&& bytes == 0 || self.kept.len() < bytes
    }

    /// The handler after the parser has consumed `bytes` bytes: unchanged
    /// where that is none; else the buffer is given up, and the input counts
    /// as consumed as far as the parser got into it.
    pub open spec fn consumed(self, bytes: nat) -> InputHandlerView {
        if bytes == 0 {
            self
        } else {
            InputHandlerView {
                kept: Seq::empty(),
                input_consumed: (self.input_consumed + bytes - self.kept.len()) as nat,
                copied: 0,
                orig_input: self.orig_input,
            }
        }
    }

    /// The number of bytes that an extension copies: what is left of the
    /// input, but no more than `EXTENSION`.
    pub open spec fn extension_len(self) -> nat {
        if self.orig_input.len() - self.seen() > EXTENSION {
            EXTENSION as nat
        } else if self.orig_input.len() - self.seen() > 0 {
            (self.orig_input.len() - self.seen()) as nat
        } else {
            0
        }
    }

    /// The handler after an extension.
    pub open spec fn extended(self) -> InputHandlerView {
        InputHandlerView { copied: self.copied + self.extension_len(), ..self }
    }

    /// The handler for a reader that kept `stored` and is given `input`.
    pub open spec fn taken(stored: Seq<u8>, input: Seq<u8>) -> InputHandlerView {
        let start = InputHandlerView { kept: stored, input_consumed: 0, copied: 0, orig_input: input };
        if stored.len() > 0 {
            start.extended()
        } else {
            start
        }
    }
}

/// Shows the parsers of one call their input, stitched where needed.
pub struct InputHandler<'l> {
    orig_stored: usize,
    input_consumed: usize,
    storage: Vec<u8>,
    orig_input: &'l [u8],
}

impl<'l> View for InputHandler<'l> {
    type V = InputHandlerView;

    closed spec fn view(&self) -> InputHandlerView {
        InputHandlerView {
            kept: self.storage@.take(self.orig_stored as int),
            input_consumed: self.input_consumed as nat,
            copied: (self.storage@.len() - self.orig_stored) as nat,
            orig_input: self.orig_input@,
        }
    }
}

impl<'l> InputHandler<'l> {
    /// The buffer holds what the view says, and the view is well formed.
    pub closed spec fn wf(&self) -> bool {
        &&& self.orig_stored <= self.storage@.len()
        &&& self.storage@ == self@.storage()
        &&& self@.wf()
    }

    /// A well-formed handler has a well-formed view.
    pub proof fn lemma_wf(&self)
        requires
            self.wf(),
        ensures
            self@.wf(),
            self@.storage().len() == self@.kept.len() + self@.copied,
    {
    }

    /// Takes over what the reader kept, leaving the reader's buffer empty,
    /// and stitches the start of `orig_input` to it if there is anything.
    pub fn take_storage(reader_storage: &mut Vec<u8>, orig_input: &'l [u8]) -> (ihandler:
        InputHandler<'l>)
        ensures
            final(reader_storage)@.len() == 0,
            ihandler@ == InputHandlerView::taken(old(reader_storage)@, orig_input@),
            ihandler.wf(),
    {
        let mut storage: Vec<u8> = Vec::new();
        std::mem::swap(reader_storage, &mut storage);
        let orig_stored: usize = storage.len();
        let mut ihandler = InputHandler { orig_stored, input_consumed: 0, storage, orig_input };
        proof {
            vstd::slice::axiom_spec_len(orig_input);
            assert(ihandler@.kept =~= old(reader_storage)@);
            assert(ihandler.storage@ =~= ihandler@.storage());
        }
        if orig_stored > 0 {
            // Too little input was there to go on during the last call, and
            // it was kept. The new input continues it.
            ihandler.extend_input();
        }
        ihandler
    }

    /// Hands the buffer back to the reader, for the next call.
    pub fn return_storage(self, reader_storage: &mut Vec<u8>)
        requires
            self.wf(),
        ensures
            final(reader_storage)@ == self@.storage(),
    {
        let mut this = self;
        std::mem::swap(reader_storage, &mut this.storage);
    }

    /// What the parser is shown at the start: the buffer if it holds
    /// anything, else the whole input.
    pub fn get_unparsed<'s>(&'s self) -> (r: Input<'l, 's>)
        requires
            self.wf(),
        ensures
            r is Short <==> self@.stitched(),
            r is Short ==> r@ == self@.storage(),
            r is Long ==> r@ == self@.orig_input,
    {
        if self.storage.len() > 0 {
            Input::Short(self.storage.as_slice())
        } else {
            Input::Long(self.orig_input)
        }
    }

    /// What the parser is shown now: the buffer if it holds anything, else
    /// the rest of the input.
    pub fn current<'s>(&'s self) -> (r: Input<'l, 's>)
        requires
            self.wf(),
        ensures
            r is Short <==> self@.stitched(),
            r@ == self@.unparsed(),
    {
        if self.storage.len() > 0 {
            Input::Short(self.storage.as_slice())
        } else {
            Input::Long(&self.orig_input[self.input_consumed..self.orig_input.len()])
        }
    }

    /// The number of stored bytes that were kept from earlier calls.
    pub fn orig_stored(&self) -> (n: usize)
        requires
            self.wf(),
        ensures
            n == self@.kept.len(),
    {
        self.orig_stored
    }

    /// The parser is shown the stitching buffer.
    pub fn is_stitched(&self) -> (b: bool)
        requires
            self.wf(),
        ensures
            b == self@.stitched(),
    {
        self.storage.len() > 0
    }

    /// Records that the parser has consumed `bytes` bytes of what it was
    /// shown, and returns what it is shown next. A parser that consumed
    /// anything has got past the kept bytes: the buffer has done its work,
    /// and the parser is shown the caller's input from then on.
    pub fn consumed<'s>(&'s mut self, bytes: usize) -> (r: Input<'l, 's>)
        requires
            old(self).wf(),
            old(self)@.can_consume(bytes as nat),
        ensures
            final(self)@ == old(self)@.consumed(bytes as nat),
            final(self).wf(),
            r@ == final(self)@.unparsed(),
            r is Short <==> final(self)@.stitched(),
            bytes > 0 ==> r is Long,
    {
        if bytes == 0 {
            if self.storage.len() > 0 {
                return Input::Short(self.storage.as_slice());
            } else {
                return Input::Long(&self.orig_input[self.input_consumed..self.orig_input.len()]);
            }
        }
        self.input_consumed = self.input_consumed + (bytes - self.orig_stored);
        self.storage.truncate(0);
        self.orig_stored = 0;
        proof {
            let v = self@;
            assert(v.kept =~= Seq::<u8>::empty());
            assert(self.storage@ =~= v.storage());
        }
        Input::Long(&self.orig_input[self.input_consumed..self.orig_input.len()])
    }

    /// Copies the next bytes of the input, `EXTENSION` at most, to the end
    /// of the buffer, and returns their number. Zero means that no input
    /// is left to copy: more is needed.
    pub fn extend_input(&mut self) -> (gain: usize)
        requires
            old(self).wf(),
        ensures
            final(self)@ == old(self)@.extended(),
            final(self).wf(),
            gain == old(self)@.extension_len(),
    {
        // What lies before this position was consumed or is in the buffer.
        let input_stored_consumed: usize = self.storage.len() - self.orig_stored
            + self.input_consumed;
        let upper_bound: usize = if self.orig_input.len() - input_stored_consumed > EXTENSION {
            input_stored_consumed + EXTENSION
        } else {
            self.orig_input.len()
        };
        let extension = &self.orig_input[input_stored_consumed..upper_bound];
        let ghost before = self@;
        self.storage.extend_from_slice(extension);
        proof {
            let v = self@;
            assert(v.kept =~= before.kept);
            assert(self.storage@ =~= v.storage());
        }
        extension.len()
    }
}

} // verus!
