//! The header and the footer of a GZIP member.

use vstd::prelude::*;
use vstd::slice::slice_to_vec;

use super::GZipError;
use crate::utils::{
    agree_on_common_prefix, agrees, agrees_plain, is_tail, le16, le32, le_u16, le_u32, le_u8,
    lemma_zero_terminated_extends, lemma_zero_terminated_len, lemma_zero_terminated_truncates,
    spec_le_u16, spec_take, spec_zero_terminated, tag, take, zero_terminated, Needed, Outcome,
    ParseError,
};

verus! {

/// The two bytes that start every member.
pub const MEMBER_TAG: [u8; 2] = [0x1f, 0x8b];

/// The code of the one compression method in use, deflate.
pub const DEFLATE_TAG: [u8; 1] = [0x08];

/// The length of a member header without its optional parts.
pub const MEMBER_HEADER_FIXED_LEN: usize = 10;

/// The length of a member's footer.
pub const FOOTER_LEN: usize = 8;

/// The header of a member.
#[derive(Debug, Clone, Eq, PartialEq)]
pub struct MemberHeader {
    /// Seconds since 1970-01-01T00:00:00, or 0.
    pub mtime: u32,
    pub os: u8,
    pub filename: Option<Vec<u8>>,
    pub fcomment: Option<Vec<u8>>,
}

/// The header of a member as a mathematical value.
pub struct MemberHeaderView {
    pub mtime: u32,
    pub os: u8,
    pub filename: Option<Seq<u8>>,
    pub fcomment: Option<Seq<u8>>,
}

/// Optional bytes as a mathematical value.
pub open spec fn option_view(bytes: Option<Vec<u8>>) -> Option<Seq<u8>> {
    match bytes {
        Some(b) => Some(b@),
        None => None,
    }
}

impl View for MemberHeader {
    type V = MemberHeaderView;

    open spec fn view(&self) -> MemberHeaderView {
        MemberHeaderView {
            mtime: self.mtime,
            os: self.os,
            filename: option_view(self.filename),
            fcomment: option_view(self.fcomment),
        }
    }
}

/// Which optional parts a member header has, as its flag byte says: bit 0
/// marks text, bit 1 a header checksum, bit 2 an extra block, bit 3 a file
/// name, bit 4 a comment.
#[derive(Debug, Clone, Copy, Eq, PartialEq)]
pub struct MemberFlags {
    pub text: bool,
    pub crc: bool,
    pub extra: bool,
    pub name: bool,
    pub comment: bool,
}

/// The flags in a flag byte. Bits 5 to 7 are reserved: a byte with one of
/// them set holds no flags.
pub open spec fn flags_of(byte: u8) -> Option<MemberFlags> {
    if byte >= 32 {
        None
    } else {
        Some(
            MemberFlags {
                text: byte % 2 == 1,
                crc: (byte / 2) % 2 == 1,
                extra: (byte / 4) % 2 == 1,
                name: (byte / 8) % 2 == 1,
                comment: (byte / 16) % 2 == 1,
            },
        )
    }
}

/// The flag byte of a member header.
pub open spec fn spec_bitflags(s: Seq<u8>) -> Outcome<MemberFlags, GZipError> {
    if s.len() < 1 {
        Err(ParseError::Incomplete(Needed::Size(1)))
    } else {
        match flags_of(s[0]) {
            Some(flags) => Ok((s.skip(1), flags)),
            None => Err(ParseError::Failure(GZipError::InvalidMemberHeader)),
        }
    }
}

/// The extra block of a member header: its length in two bytes and as many
/// bytes.
pub open spec fn spec_extra_data(s: Seq<u8>) -> Outcome<Seq<u8>, GZipError> {
    match spec_le_u16::<GZipError>(s) {
        Ok((rest, len)) => spec_take(rest, len as nat),
        Err(e) => Err(e),
    }
}

/// The part of a member header that follows its ten fixed bytes: the extra
/// block, the file name and the comment, each ending in a zero byte, and a
/// checksum of two bytes, as far as the flags announce them.
#[verifier::opaque]
pub open spec fn spec_member_tail(s: Seq<u8>, flags: MemberFlags) -> Outcome<
    (Option<Seq<u8>>, Option<Seq<u8>>),
    GZipError,
> {
    let after_extra: Outcome<(), GZipError> = if flags.extra {
        match spec_extra_data(s) {
            Ok((rest, _)) => Ok((rest, ())),
            Err(e) => Err(e),
        }
    } else {
        Ok((s, ()))
    };
    match after_extra {
        Err(e) => Err(e),
        Ok((behind_extra, _)) => {
            let name: Outcome<Option<Seq<u8>>, GZipError> = if flags.name {
                match spec_zero_terminated::<GZipError>(behind_extra) {
                    Ok((rest, bytes)) => Ok((rest, Some(bytes))),
                    Err(e) => Err(e),
                }
            } else {
                Ok((behind_extra, None))
            };
            match name {
                Err(e) => Err(e),
                Ok((behind_name, filename)) => {
                    let comment: Outcome<Option<Seq<u8>>, GZipError> = if flags.comment {
                        match spec_zero_terminated::<GZipError>(behind_name) {
                            Ok((rest, bytes)) => Ok((rest, Some(bytes))),
                            Err(e) => Err(e),
                        }
                    } else {
                        Ok((behind_name, None))
                    };
                    match comment {
                        Err(e) => Err(e),
                        Ok((behind_comment, fcomment)) => if flags.crc {
                            match spec_le_u16::<GZipError>(behind_comment) {
                                Ok((rest, _)) => Ok((rest, (filename, fcomment))),
                                Err(e) => Err(e),
                            }
                        } else {
                            Ok((behind_comment, (filename, fcomment)))
                        },
                    }
                },
            }
        },
    }
}

/// A member header: ten fixed bytes and the optional parts.
///
/// | offset | bytes | field |
/// |---|---|---|
/// | 0 | 2 | signature `1f 8b` |
/// | 2 | 1 | compression method, `08` |
/// | 3 | 1 | flags |
/// | 4 | 4 | time of last modification |
/// | 8 | 1 | extra flags |
/// | 9 | 1 | operating system |
///
/// A wrong signature or compression method is an error, reported as soon as
/// a byte differs; a reserved flag is a failure. Anything else that stops
/// the parser is a lack of input.
#[verifier::opaque]
pub open spec fn spec_member_header(s: Seq<u8>) -> Outcome<MemberHeaderView, GZipError> {
    if !agree_on_common_prefix(s, MEMBER_TAG@ + DEFLATE_TAG@) {
        Err(ParseError::Error(GZipError::InvalidMemberHeader))
    } else if s.len() < 2 {
        Err(ParseError::Incomplete(Needed::Size(2)))
    } else if s.len() < 4 {
        Err(ParseError::Incomplete(Needed::Size(1)))
    } else if flags_of(s[3]) is None {
        Err(ParseError::Failure(GZipError::InvalidMemberHeader))
    } else if s.len() < 8 {
        Err(ParseError::Incomplete(Needed::Size(4)))
    } else if s.len() < 10 {
        Err(ParseError::Incomplete(Needed::Size(1)))
    } else {
        match spec_member_tail(s.skip(10), flags_of(s[3])->Some_0) {
            Err(e) => Err(e),
            Ok((rest, (filename, fcomment))) => Ok(
                (rest, MemberHeaderView { mtime: le32(s, 4), os: s[9], filename, fcomment }),
            ),
        }
    }
}

/// The footer of a member: the CRC-32 of the uncompressed bytes and their
/// number modulo 2^32.
pub open spec fn spec_footer(s: Seq<u8>) -> Outcome<(u32, u32), GZipError> {
    if s.len() < 8 {
        Err(ParseError::Incomplete(Needed::Size(4)))
    } else {
        Ok((s.skip(8), (le32(s, 0), le32(s, 4))))
    }
}

/// Reads the flag byte.
pub fn parse_bitflags(i: &[u8]) -> (r: Result<(&[u8], MemberFlags), ParseError<GZipError>>)
    ensures
        agrees_plain(r, spec_bitflags(i@)),
{
    let (rest, byte) = match le_u8::<GZipError>(i) {
        Ok(x) => x,
        Err(e) => {
            return Err(e);
        },
    };
    if byte >= 32 {
        return Err(ParseError::Failure(GZipError::InvalidMemberHeader));
    }
    Ok(
        (
            rest,
            MemberFlags {
                text: byte % 2 == 1,
                crc: (byte / 2) % 2 == 1,
                extra: (byte / 4) % 2 == 1,
                name: (byte / 8) % 2 == 1,
                comment: (byte / 16) % 2 == 1,
            },
        ),
    )
}

/// Reads the extra block.
pub fn extra_data(i: &[u8]) -> (r: Result<(&[u8], &[u8]), ParseError<GZipError>>)
    ensures
        agrees(r, spec_extra_data(i@)),
{
    let (i, len) = match le_u16::<GZipError>(i) {
        Ok(x) => x,
        Err(e) => {
            return Err(e);
        },
    };
    take(i, len as usize)
}

impl MemberHeader {
    /// Reads a member header.
    pub fn parse(i: &[u8]) -> (r: Result<(&[u8], MemberHeader), ParseError<GZipError>>)
        ensures
            agrees(r, spec_member_header(i@)),
    {
        reveal(spec_member_header);
        reveal(spec_member_tail);
        let ghost s = i@;
        let signature = MEMBER_TAG;
        let method = DEFLATE_TAG;
        let (i, _) = match tag(i, signature.as_slice(), GZipError::InvalidMemberHeader) {
            Ok(x) => x,
            Err(e) => {
                return Err(e);
            },
        };
        let (i, _) = match tag(i, method.as_slice(), GZipError::InvalidMemberHeader) {
            Ok(x) => x,
            Err(e) => {
                return Err(e);
            },
        };
        let (i, flags) = match parse_bitflags(i) {
            Ok(x) => x,
            Err(e) => {
                return Err(e);
            },
        };
        proof {
            assert(i@ =~= s.skip(4));
        }
        let (i, mtime) = match le_u32::<GZipError>(i) {
            Ok(x) => x,
            Err(e) => {
                return Err(e);
            },
        };
        let (i, _xtra_flags) = match le_u8::<GZipError>(i) {
            Ok(x) => x,
            Err(e) => {
                return Err(e);
            },
        };
        let (i, os) = match le_u8::<GZipError>(i) {
            Ok(x) => x,
            Err(e) => {
                return Err(e);
            },
        };
        proof {
            assert(i@ =~= s.skip(10));
        }
        let i = if flags.extra {
            match extra_data(i) {
                Ok((rest, _)) => rest,
                Err(e) => {
                    return Err(e);
                },
            }
        } else {
            i
        };
        let (i, filename) = if flags.name {
            match zero_terminated::<GZipError>(i) {
                Ok((rest, bytes)) => (rest, Some(slice_to_vec(bytes))),
                Err(e) => {
                    return Err(e);
                },
            }
        } else {
            (i, None)
        };
        let (i, fcomment) = if flags.comment {
            match zero_terminated::<GZipError>(i) {
                Ok((rest, bytes)) => (rest, Some(slice_to_vec(bytes))),
                Err(e) => {
                    return Err(e);
                },
            }
        } else {
            (i, None)
        };
        let i = if flags.crc {
            match le_u16::<GZipError>(i) {
                Ok((rest, _)) => rest,
                Err(e) => {
                    return Err(e);
                },
            }
        } else {
            i
        };
        Ok((i, MemberHeader { mtime, os, filename, fcomment }))
    }
}

/// Reads a member's footer and returns (CRC-32, size modulo 2^32).
pub fn parse_footer(i: &[u8]) -> (r: Result<(&[u8], (u32, u32)), ParseError<GZipError>>)
    ensures
        agrees_plain(r, spec_footer(i@)),
{
    let ghost s = i@;
    let (i, crc32) = match le_u32::<GZipError>(i) {
        Ok(x) => x,
        Err(e) => {
            return Err(e);
        },
    };
    let (i, isize) = match le_u32::<GZipError>(i) {
        Ok(x) => x,
        Err(e) => {
            return Err(e);
        },
    };
    proof {
        assert(i@ =~= s.skip(8));
    }
    Ok((i, (crc32, isize)))
}

/// A member header that parses takes at least 10 bytes, and leaves the
/// bytes that follow it.
pub proof fn lemma_member_header_len(s: Seq<u8>)
    ensures
        match spec_member_header(s) {
            Ok((rest, _)) => rest.len() + 10 <= s.len() && rest == s.skip(s.len() - rest.len()),
            Err(_) => true,
        },
{
    reveal(spec_member_header);
    reveal(spec_member_tail);
    let t = s.skip(10);
    if s.len() >= 10 && flags_of(s[3]) is Some {
        let flags = flags_of(s[3])->Some_0;
        lemma_member_tail_len(t, flags);
        match spec_member_tail(t, flags) {
            Ok((rest, _)) => {
                assert(rest =~= s.skip(s.len() - rest.len()));
            },
            Err(_) => {},
        }
    }
}

/// The optional parts of a member header leave the bytes that follow them.
pub proof fn lemma_member_tail_len(s: Seq<u8>, flags: MemberFlags)
    ensures
        match spec_member_tail(s, flags) {
            Ok((rest, _)) => is_tail(rest, s),
            Err(_) => true,
        },
{
    reveal(spec_member_tail);
    let behind_extra = if flags.extra {
        match spec_extra_data(s) {
            Ok((rest, _)) => rest,
            Err(_) => s,
        }
    } else {
        s
    };
    assert(is_tail(behind_extra, s)) by {
        if flags.extra && spec_extra_data(s) is Ok {
            assert(behind_extra =~= s.skip(s.len() - behind_extra.len()));
        } else {
            assert(s =~= s.skip(0));
        }
    }
    let behind_name = if flags.name {
        match spec_zero_terminated::<GZipError>(behind_extra) {
            Ok((rest, _)) => rest,
            Err(_) => behind_extra,
        }
    } else {
        behind_extra
    };
    lemma_zero_terminated_len::<GZipError>(behind_extra);
    assert(is_tail(behind_name, s)) by {
        assert(behind_name =~= s.skip(s.len() - behind_name.len()));
    }
    let behind_comment = if flags.comment {
        match spec_zero_terminated::<GZipError>(behind_name) {
            Ok((rest, _)) => rest,
            Err(_) => behind_name,
        }
    } else {
        behind_name
    };
    lemma_zero_terminated_len::<GZipError>(behind_name);
    assert(is_tail(behind_comment, s)) by {
        assert(behind_comment =~= s.skip(s.len() - behind_comment.len()));
    }
    if flags.crc && behind_comment.len() >= 2 {
        assert(behind_comment.skip(2) =~= s.skip(s.len() - (behind_comment.len() - 2)));
    }
}

/// A footer takes 8 bytes, and leaves the bytes that follow it. Nothing but
/// a lack of input keeps bytes from being one.
pub proof fn lemma_footer_len(s: Seq<u8>)
    ensures
        match spec_footer(s) {
            Ok((rest, _)) => rest.len() + 8 == s.len() && rest == s.skip(8),
            Err(e) => e is Incomplete,
        },
{
}

/// The optional parts of a member header parse the same whatever follows
/// them.
pub proof fn lemma_member_tail_extends(s: Seq<u8>, t: Seq<u8>, flags: MemberFlags)
    requires
        spec_member_tail(s, flags) is Ok,
    ensures
        spec_member_tail(s + t, flags) == Ok::<
            (Seq<u8>, (Option<Seq<u8>>, Option<Seq<u8>>)),
            ParseError<GZipError>,
        >((spec_member_tail(s, flags)->Ok_0.0 + t, spec_member_tail(s, flags)->Ok_0.1)),
{
    reveal(spec_member_tail);
    let behind_extra = if flags.extra {
        spec_extra_data(s)->Ok_0.0
    } else {
        s
    };
    if flags.extra {
        let len = le16(s, 0);
        assert((s + t)[0] == s[0] && (s + t)[1] == s[1]);
        assert((s + t).skip(2).skip(len as int) =~= s.skip(2).skip(len as int) + t);
        assert((s + t).skip(2).take(len as int) =~= s.skip(2).take(len as int));
    }
    let behind_name = if flags.name {
        spec_zero_terminated::<GZipError>(behind_extra)->Ok_0.0
    } else {
        behind_extra
    };
    if flags.name {
        lemma_zero_terminated_extends::<GZipError>(behind_extra, t);
    }
    let behind_comment = if flags.comment {
        spec_zero_terminated::<GZipError>(behind_name)->Ok_0.0
    } else {
        behind_name
    };
    if flags.comment {
        lemma_zero_terminated_extends::<GZipError>(behind_name, t);
    }
    if flags.crc {
        assert((behind_comment + t).skip(2) =~= behind_comment.skip(2) + t);
    }
}

/// The optional parts of a member header parse the same with nothing
/// behind them.
pub proof fn lemma_member_tail_truncates(s: Seq<u8>, flags: MemberFlags, len: int)
    requires
        spec_member_tail(s, flags) is Ok,
        s.len() - spec_member_tail(s, flags)->Ok_0.0.len() <= len <= s.len(),
    ensures
        spec_member_tail(s.take(len), flags) == Ok::<
            (Seq<u8>, (Option<Seq<u8>>, Option<Seq<u8>>)),
            ParseError<GZipError>,
        >(
            (
                spec_member_tail(s, flags)->Ok_0.0.take(
                    len - (s.len() - spec_member_tail(s, flags)->Ok_0.0.len()),
                ),
                spec_member_tail(s, flags)->Ok_0.1,
            ),
        ),
{
    reveal(spec_member_tail);
    lemma_member_tail_len(s, flags);
    let behind_extra = if flags.extra {
        spec_extra_data(s)->Ok_0.0
    } else {
        s
    };
    let behind_name = if flags.name {
        spec_zero_terminated::<GZipError>(behind_extra)->Ok_0.0
    } else {
        behind_extra
    };
    let behind_comment = if flags.comment {
        spec_zero_terminated::<GZipError>(behind_name)->Ok_0.0
    } else {
        behind_name
    };
    let rest = spec_member_tail(s, flags)->Ok_0.0;
    lemma_zero_terminated_len::<GZipError>(behind_extra);
    lemma_zero_terminated_len::<GZipError>(behind_name);
    assert(rest.len() <= behind_comment.len() <= behind_name.len() <= behind_extra.len()
        <= s.len());
    let len_extra = len - (s.len() - behind_extra.len());
    let len_name = len - (s.len() - behind_name.len());
    let len_comment = len - (s.len() - behind_comment.len());
    if flags.extra {
        let n = le16(s, 0);
        assert(s.take(len)[0] == s[0] && s.take(len)[1] == s[1]);
        assert(s.take(len).skip(2).skip(n as int) =~= behind_extra.take(len_extra));
        assert(s.take(len).skip(2).take(n as int) =~= s.skip(2).take(n as int));
    } else {
        assert(s.take(len) =~= behind_extra.take(len_extra));
    }
    if flags.name {
        lemma_zero_terminated_truncates::<GZipError>(behind_extra, len_extra);
    }
    if flags.comment {
        lemma_zero_terminated_truncates::<GZipError>(behind_name, len_name);
    }
    if flags.crc {
        assert(behind_comment.take(len_comment).skip(2) =~= behind_comment.skip(2).take(
            len_comment - 2,
        ));
    }
}

/// A member header parses the same whatever follows it, and what is wrong
/// with one stays wrong whatever follows.
pub proof fn lemma_member_header_extends(s: Seq<u8>, t: Seq<u8>)
    ensures
        match spec_member_header(s) {
            Ok((rest, header)) => spec_member_header(s + t) == Ok::<
                (Seq<u8>, MemberHeaderView),
                ParseError<GZipError>,
            >((rest + t, header)),
            Err(ParseError::Incomplete(_)) => true,
            Err(e) => spec_member_header(s + t) == Err::<
                (Seq<u8>, MemberHeaderView),
                ParseError<GZipError>,
            >(e),
        },
{
    reveal(spec_member_header);
    reveal(spec_member_tail);
    let u = s + t;
    let signature = MEMBER_TAG@ + DEFLATE_TAG@;
    assert forall|i: int| 0 <= i < s.len() implies u[i] == s[i] by {}
    if !agree_on_common_prefix(s, signature) {
        let i = choose|i: int| 0 <= i < s.len() && 0 <= i < signature.len() && s[i] != signature[i];
        assert(u[i] != signature[i]);
    } else if s.len() >= 3 {
        assert(agree_on_common_prefix(u, signature));
        if s.len() >= 10 && flags_of(s[3]) is Some {
            if spec_member_tail(s.skip(10), flags_of(s[3])->Some_0) is Ok {
                lemma_member_tail_extends(s.skip(10), t, flags_of(s[3])->Some_0);
                assert(u.skip(10) =~= s.skip(10) + t);
            }
        }
    }
}

/// A member header parses the same with nothing behind it.
pub proof fn lemma_member_header_truncates(s: Seq<u8>, len: int)
    requires
        spec_member_header(s) is Ok,
        s.len() - spec_member_header(s)->Ok_0.0.len() <= len <= s.len(),
    ensures
        spec_member_header(s.take(len)) is Ok,
{
    reveal(spec_member_header);
    lemma_member_header_len(s);
    let u = s.take(len);
    let signature = MEMBER_TAG@ + DEFLATE_TAG@;
    assert(agree_on_common_prefix(u, signature));
    let flags = flags_of(s[3])->Some_0;
    lemma_member_tail_truncates(s.skip(10), flags, len - 10);
    assert(u.skip(10) =~= s.skip(10).take(len - 10));
}

/// No bytes at all are too few for a member header.
pub proof fn lemma_member_header_of_nothing()
    ensures
        spec_member_header(Seq::<u8>::empty()) matches Err(ParseError::Incomplete(_)),
{
    reveal(spec_member_header);
}

} // verus!
