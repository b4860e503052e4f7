//! Byte-level readers shared by the header parsers.
//!
//! Every reader is a function from a byte slice to either the value read
//! together with the bytes that follow it, or a [`ParseError`]. The readers
//! are *streaming*: a slice that ends too early is reported as
//! [`ParseError::Incomplete`], so that the caller can come back with more.

use vstd::prelude::*;

verus! {

/// How many bytes a reader asked for when the input ended too early.
#[derive(Debug, Clone, Copy, PartialEq, Eq)]
pub enum Needed {
    /// The amount is not known.
    Unknown,
    /// The reader that ran short wants this many bytes in all.
    Size(usize),
}

/// Why a parser did not return a value.
#[derive(Debug, Clone, Copy, PartialEq, Eq)]
pub enum ParseError<E> {
    /// The input is a proper prefix of something that may still parse.
    Incomplete(Needed),
    /// The input is not what this parser reads; another parser may be tried.
    Error(E),
    /// The input is malformed; no other parser should be tried.
    Failure(E),
}

/// What a parser makes of a byte sequence, in specifications: the bytes left
/// over and the value, or the error.
pub type Outcome<T, E> = Result<(Seq<u8>, T), ParseError<E>>;

/// An executable result agrees with a specified outcome: the same error, or
/// the same remaining bytes and a value with the specified view.
pub open spec fn agrees<O: View, E>(r: Result<(&[u8], O), ParseError<E>>, expected: Outcome<O::V, E>) -> bool {
    match r {
        Ok((rest, value)) => expected == Ok::<(Seq<u8>, O::V), ParseError<E>>((rest@, value@)),
        Err(e) => expected == Err::<(Seq<u8>, O::V), ParseError<E>>(e),
    }
}

/// As [`agrees`], for values that are compared as they are.
pub open spec fn agrees_plain<O, E>(r: Result<(&[u8], O), ParseError<E>>, expected: Outcome<O, E>) -> bool {
    match r {
        Ok((rest, value)) => expected == Ok::<(Seq<u8>, O), ParseError<E>>((rest@, value)),
        Err(e) => expected == Err::<(Seq<u8>, O), ParseError<E>>(e),
    }
}

/// `tail` is what is left of `whole` when some bytes are taken from its
/// start.
pub open spec fn is_tail(tail: Seq<u8>, whole: Seq<u8>) -> bool {
    tail.len() <= whole.len() && tail == whole.skip(whole.len() - tail.len())
}

/// The 16-bit number whose little-endian bytes are `b0`, `b1`.
pub open spec fn u16_from_le(b0: u8, b1: u8) -> u16 {
    (b0 as int + 0x100 * (b1 as int)) as u16
}

/// The 32-bit number whose little-endian bytes are `b0` to `b3`.
pub open spec fn u32_from_le(b0: u8, b1: u8, b2: u8, b3: u8) -> u32 {
    (b0 as int + 0x100 * (b1 as int) + 0x1_0000 * (b2 as int) + 0x100_0000 * (b3 as int)) as u32
}

/// The 64-bit number whose little-endian bytes are the first eight of `s`.
pub open spec fn u64_from_le(s: Seq<u8>) -> u64
    recommends
        s.len() >= 8,
{
    (u32_from_le(s[0], s[1], s[2], s[3]) as int + 0x1_0000_0000 * (u32_from_le(
        s[4],
        s[5],
        s[6],
        s[7],
    ) as int)) as u64
}

/// The little-endian `u16` at offset `at` of `s`.
pub open spec fn le16(s: Seq<u8>, at: int) -> u16 {
    u16_from_le(s[at], s[at + 1])
}

/// The little-endian `u32` at offset `at` of `s`.
pub open spec fn le32(s: Seq<u8>, at: int) -> u32 {
    u32_from_le(s[at], s[at + 1], s[at + 2], s[at + 3])
}

/// The first `n` bytes, if there are that many.
pub open spec fn spec_take<E>(s: Seq<u8>, n: nat) -> Outcome<Seq<u8>, E> {
    if s.len() < n {
        Err(ParseError::Incomplete(Needed::Size(n as usize)))
    } else {
        Ok((s.skip(n as int), s.take(n as int)))
    }
}

/// One byte.
pub open spec fn spec_le_u8<E>(s: Seq<u8>) -> Outcome<u8, E> {
    if s.len() < 1 {
        Err(ParseError::Incomplete(Needed::Size(1)))
    } else {
        Ok((s.skip(1), s[0]))
    }
}

/// Two bytes as a little-endian number.
pub open spec fn spec_le_u16<E>(s: Seq<u8>) -> Outcome<u16, E> {
    if s.len() < 2 {
        Err(ParseError::Incomplete(Needed::Size(2)))
    } else {
        Ok((s.skip(2), u16_from_le(s[0], s[1])))
    }
}

/// Two bytes as a little-endian number, where a short input is an error
/// rather than a request for more.
pub open spec fn spec_le_u16_complete<E>(s: Seq<u8>, err: E) -> Outcome<u16, E> {
    if s.len() < 2 {
        Err(ParseError::Error(err))
    } else {
        Ok((s.skip(2), u16_from_le(s[0], s[1])))
    }
}

/// Four bytes as a little-endian number.
pub open spec fn spec_le_u32<E>(s: Seq<u8>) -> Outcome<u32, E> {
    if s.len() < 4 {
        Err(ParseError::Incomplete(Needed::Size(4)))
    } else {
        Ok((s.skip(4), u32_from_le(s[0], s[1], s[2], s[3])))
    }
}

/// Eight bytes as a little-endian number.
pub open spec fn spec_le_u64<E>(s: Seq<u8>) -> Outcome<u64, E> {
    if s.len() < 8 {
        Err(ParseError::Incomplete(Needed::Size(8)))
    } else {
        Ok((s.skip(8), u64_from_le(s)))
    }
}

/// `s` and `t` hold the same bytes as far as both go.
pub open spec fn agree_on_common_prefix(s: Seq<u8>, t: Seq<u8>) -> bool {
    forall|i: int| 0 <= i < s.len() && 0 <= i < t.len() ==> s[i] == t[i]
}

/// A fixed byte string `t` at the start of `s`. A mismatch is reported as
/// soon as a byte differs, even where `s` is shorter than `t`.
pub open spec fn spec_tag<E>(s: Seq<u8>, t: Seq<u8>, err: E) -> Outcome<Seq<u8>, E> {
    if !agree_on_common_prefix(s, t) {
        Err(ParseError::Error(err))
    } else if s.len() < t.len() {
        Err(ParseError::Incomplete(Needed::Size(t.len() as usize)))
    } else {
        Ok((s.skip(t.len() as int), s.take(t.len() as int)))
    }
}

/// The position of the first zero byte of `s`.
pub open spec fn first_zero(s: Seq<u8>) -> Option<nat>
    decreases s.len(),
{
    if s.len() == 0 {
        None
    } else if s[0] == 0 {
        Some(0)
    } else {
        match first_zero(s.skip(1)) {
            Some(i) => Some(i + 1),
            None => None,
        }
    }
}

/// The bytes before the first zero byte; the zero byte itself is consumed
/// and not part of the value.
pub open spec fn spec_zero_terminated<E>(s: Seq<u8>) -> Outcome<Seq<u8>, E> {
    match first_zero(s) {
        Some(i) => Ok((s.skip(i as int + 1), s.take(i as int))),
        None => Err(ParseError::Incomplete(Needed::Size(1))),
    }
}

/// `first_zero` finds position `i` exactly when `s[i]` is zero and nothing
/// before it is; it finds nothing exactly when no byte of the first `i` is
/// zero and `i` is the length of `s`.
pub proof fn lemma_first_zero(s: Seq<u8>, i: nat)
    requires
        i <= s.len(),
        forall|j: int| 0 <= j < i ==> s[j] != 0,
    ensures
        i < s.len() && s[i as int] == 0 ==> first_zero(s) == Some(i),
        i == s.len() ==> first_zero(s) == None::<nat>,
    decreases i,
{
    if i > 0 {
        let t = s.skip(1);
        assert forall|j: int| 0 <= j < i - 1 implies t[j] != 0 by {
            assert(t[j] == s[j + 1]);
        }
        lemma_first_zero(t, (i - 1) as nat);
        if i < s.len() {
            assert(t[i - 1] == s[i as int]);
        }
    }
}

/// Where a zero byte is found, the bytes behind it are left.
pub proof fn lemma_zero_terminated_len<E>(s: Seq<u8>)
    ensures
        match spec_zero_terminated::<E>(s) {
            Ok((rest, bytes)) => rest.len() + bytes.len() + 1 == s.len() && is_tail(rest, s),
            Err(_) => true,
        },
{
    lemma_first_zero_in_range(s);
    match first_zero(s) {
        Some(i) => {
            assert(s.skip(i as int + 1) =~= s.skip(s.len() - (s.len() - i - 1)));
        },
        None => {},
    }
}

/// The first zero byte lies inside the sequence.
pub proof fn lemma_first_zero_in_range(s: Seq<u8>)
    ensures
        first_zero(s) is Some ==> first_zero(s)->Some_0 < s.len(),
    decreases s.len(),
{
    if s.len() > 0 && s[0] != 0 {
        lemma_first_zero_in_range(s.skip(1));
    }
}

/// The first zero byte stays the first whatever follows.
pub proof fn lemma_first_zero_extends(s: Seq<u8>, t: Seq<u8>)
    requires
        first_zero(s) is Some,
    ensures
        first_zero(s + t) == first_zero(s),
    decreases s.len(),
{
    assert((s + t)[0] == s[0]);
    if s[0] != 0 {
        assert((s + t).skip(1) =~= s.skip(1) + t);
        lemma_first_zero_extends(s.skip(1), t);
    }
}

/// The first zero byte stays the first where the bytes behind it are cut
/// off.
pub proof fn lemma_first_zero_truncates(s: Seq<u8>, len: int)
    requires
        first_zero(s) is Some,
        first_zero(s)->Some_0 < len <= s.len(),
    ensures
        first_zero(s.take(len)) == first_zero(s),
    decreases s.len(),
{
    assert(s.take(len)[0] == s[0]);
    if s[0] != 0 {
        assert(s.take(len).skip(1) =~= s.skip(1).take(len - 1));
        lemma_first_zero_truncates(s.skip(1), len - 1);
    }
}

/// Bytes up to a zero byte are read the same whatever follows.
pub proof fn lemma_zero_terminated_extends<E>(s: Seq<u8>, t: Seq<u8>)
    requires
        spec_zero_terminated::<E>(s) is Ok,
    ensures
        spec_zero_terminated::<E>(s + t) == Ok::<(Seq<u8>, Seq<u8>), ParseError<E>>(
            (
                spec_zero_terminated::<E>(s)->Ok_0.0 + t,
                spec_zero_terminated::<E>(s)->Ok_0.1,
            ),
        ),
{
    lemma_first_zero_extends(s, t);
    lemma_first_zero_in_range(s);
    let i = first_zero(s)->Some_0 as int;
    assert((s + t).skip(i + 1) =~= s.skip(i + 1) + t);
    assert((s + t).take(i) =~= s.take(i));
}

/// Bytes up to a zero byte are read the same with nothing behind them.
pub proof fn lemma_zero_terminated_truncates<E>(s: Seq<u8>, len: int)
    requires
        spec_zero_terminated::<E>(s) is Ok,
        s.len() - spec_zero_terminated::<E>(s)->Ok_0.0.len() <= len <= s.len(),
    ensures
        spec_zero_terminated::<E>(s.take(len)) == Ok::<(Seq<u8>, Seq<u8>), ParseError<E>>(
            (
                spec_zero_terminated::<E>(s)->Ok_0.0.take(
                    len - (s.len() - spec_zero_terminated::<E>(s)->Ok_0.0.len()),
                ),
                spec_zero_terminated::<E>(s)->Ok_0.1,
            ),
        ),
{
    lemma_first_zero_in_range(s);
    let i = first_zero(s)->Some_0 as int;
    lemma_first_zero_truncates(s, len);
    assert(s.take(len).skip(i + 1) =~= s.skip(i + 1).take(len - (i + 1)));
    assert(s.take(len).take(i) =~= s.take(i));
}

/// Reads the first `n` bytes.
pub fn take<'a, E>(input: &'a [u8], n: usize) -> (r: Result<(&'a [u8], &'a [u8]), ParseError<E>>)
    ensures
        agrees(r, spec_take(input@, n as nat)),
{
    if input.len() < n {
        Err(ParseError::Incomplete(Needed::Size(n)))
    } else {
        Ok((&input[n..input.len()], &input[0..n]))
    }
}

/// Reads one byte.
pub fn le_u8<'a, E>(input: &'a [u8]) -> (r: Result<(&'a [u8], u8), ParseError<E>>)
    ensures
        agrees(r, spec_le_u8(input@)),
{
    if input.len() < 1 {
        Err(ParseError::Incomplete(Needed::Size(1)))
    } else {
        Ok((&input[1..input.len()], input[0]))
    }
}

/// Combines two bytes, least significant first.
pub fn u16_of_bytes(b0: u8, b1: u8) -> (v: u16)
    ensures
        v == u16_from_le(b0, b1),
{
    b0 as u16 + 0x100 * (b1 as u16)
}

/// Combines four bytes, least significant first.
pub fn u32_of_bytes(b0: u8, b1: u8, b2: u8, b3: u8) -> (v: u32)
    ensures
        v == u32_from_le(b0, b1, b2, b3),
{
    b0 as u32 + 0x100 * (b1 as u32) + 0x1_0000 * (b2 as u32) + 0x100_0000 * (b3 as u32)
}

/// Reads a little-endian `u16`.
pub fn le_u16<'a, E>(input: &'a [u8]) -> (r: Result<(&'a [u8], u16), ParseError<E>>)
    ensures
        agrees(r, spec_le_u16(input@)),
{
    if input.len() < 2 {
        Err(ParseError::Incomplete(Needed::Size(2)))
    } else {
        Ok((&input[2..input.len()], u16_of_bytes(input[0], input[1])))
    }
}

/// Reads a little-endian `u16`; a short input is the error `err`.
pub fn le_u16_complete<'a, E>(input: &'a [u8], err: E) -> (r: Result<(&'a [u8], u16), ParseError<E>>)
    ensures
        agrees(r, spec_le_u16_complete(input@, err)),
{
    if input.len() < 2 {
        Err(ParseError::Error(err))
    } else {
        Ok((&input[2..input.len()], u16_of_bytes(input[0], input[1])))
    }
}

/// Reads a little-endian `u32`.
pub fn le_u32<'a, E>(input: &'a [u8]) -> (r: Result<(&'a [u8], u32), ParseError<E>>)
    ensures
        agrees(r, spec_le_u32(input@)),
{
    if input.len() < 4 {
        Err(ParseError::Incomplete(Needed::Size(4)))
    } else {
        Ok((&input[4..input.len()], u32_of_bytes(input[0], input[1], input[2], input[3])))
    }
}

/// Reads a little-endian `u64`.
pub fn le_u64<'a, E>(input: &'a [u8]) -> (r: Result<(&'a [u8], u64), ParseError<E>>)
    ensures
        agrees(r, spec_le_u64(input@)),
{
    if input.len() < 8 {
        Err(ParseError::Incomplete(Needed::Size(8)))
    } else {
        let low: u32 = u32_of_bytes(input[0], input[1], input[2], input[3]);
        let high: u32 = u32_of_bytes(input[4], input[5], input[6], input[7]);
        Ok((&input[8..input.len()], low as u64 + 0x1_0000_0000 * (high as u64)))
    }
}

/// Reads the fixed byte string `t`; a mismatch is the error `err`.
pub fn tag<'a, E>(input: &'a [u8], t: &[u8], err: E) -> (r: Result<(&'a [u8], &'a [u8]), ParseError<E>>)
    ensures
        agrees(r, spec_tag(input@, t@, err)),
{
    let mut i: usize = 0;
    while i < input.len() && i < t.len()
        invariant
            i <= input@.len(),
            i <= t@.len(),
            forall|j: int| 0 <= j < i ==> input@[j] == t@[j],
        decreases input@.len() - i,
    {
        if input[i] != t[i] {
            return Err(ParseError::Error(err));
        }
        i = i + 1;
    }
    if input.len() < t.len() {
        Err(ParseError::Incomplete(Needed::Size(t.len())))
    } else {
        Ok((&input[t.len()..input.len()], &input[0..t.len()]))
    }
}

/// Reads up to the first zero byte and consumes it.
pub fn zero_terminated<'a, E>(input: &'a [u8]) -> (r: Result<(&'a [u8], &'a [u8]), ParseError<E>>)
    ensures
        agrees(r, spec_zero_terminated(input@)),
{
    let mut i: usize = 0;
    while i < input.len()
        invariant
            i <= input@.len(),
            forall|j: int| 0 <= j < i ==> input@[j] != 0,
        decreases input@.len() - i,
    {
        if input[i] == 0 {
            proof {
                lemma_first_zero(input@, i as nat);
            }
            return Ok((&input[i + 1..input.len()], &input[0..i]));
        }
        i = i + 1;
    }
    proof {
        lemma_first_zero(input@, i as nat);
    }
    Err(ParseError::Incomplete(Needed::Size(1)))
}

} // verus!
