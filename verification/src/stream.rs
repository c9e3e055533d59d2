//! Reading of streams at offsets: range requests, their replies, and the
//! read-ahead window. Requests are sent and files are read elsewhere; what to
//! ask for and what to make of a reply is decided here.

use vstd::prelude::*;
use crate::bytes::copy_range;
use crate::errors;
use crate::errors::MediaParserError;
use crate::text;
use crate::text::{chars_of, decimal_text, joined};

verus! {

/// The largest number of headers that a caller may add to requests.
pub const MAX_HTTP_HEADERS: usize = 64;

/// HTTP status code for partial content (Range request success).
pub const HTTP_PARTIAL_CONTENT: u16 = 206;

/// HTTP status code for an unsatisfiable Range request.
pub const HTTP_RANGE_NOT_SATISFIABLE: u16 = 416;

/// Small random reads share a bounded read-ahead window.
pub const HTTP_READ_AHEAD_BYTES: usize = 32768;

// --------------------
// Numbers in headers
// --------------------

/// The number that decimal digits spell.
pub open spec fn digits_value(s: Seq<char>) -> int
    decreases s.len(),
{
    if s.len() == 0 {
        0
    } else {
        digits_value(s.drop_last()) * 10 + (s.last() as u32 - 0x30)
    }
}

/// Whether a character is a decimal digit.
pub open spec fn is_digit(c: char) -> bool {
    0x30 <= c as u32 <= 0x39
}

/// The 64-bit number that a text spells in decimal digits, of which there must
/// be one, after an optional plus sign.
pub open spec fn number_of(s: Seq<char>) -> Option<u64> {
    let digits = unsigned(s);
    if digits.len() == 0 || !all_digits(digits) || digits_value(digits) > u64::MAX {
        None
    } else {
        Some(digits_value(digits) as u64)
    }
}

/// A text without a plus sign in front.
pub open spec fn unsigned(s: Seq<char>) -> Seq<char> {
    if s.len() > 0 && s[0] == '+' {
        s.skip(1)
    } else {
        s
    }
}

/// Whether a text is made of decimal digits.
pub open spec fn all_digits(s: Seq<char>) -> bool {
    forall|i: int| 0 <= i < s.len() ==> is_digit(#[trigger] s[i])
}

/// Reads the number that characters spell, see `number_of`.
fn parse_number(chars: &[char]) -> (r: Option<u64>)
    ensures
        r == number_of(chars@),
{
    let len: usize = chars.len();
    let start: usize = if len > 0 && chars[0] == '+' {
        1
    } else {
        0
    };
    let ghost digits = unsigned(chars@);
    if start == len {
        return None;
    }
    let mut value: u64 = 0;
    let mut overflow: bool = false;
    let mut i: usize = start;
    assert(digits.take(0) =~= Seq::empty());
    while i < len
        invariant
            start <= i <= len,
            len == chars@.len(),
            start <= 1,
            start == (if chars@.len() > 0 && chars@[0] == '+' {
                1int
            } else {
                0int
            }),
            digits == unsigned(chars@),
            digits.len() == len - start,
            forall|k: int| 0 <= k < i - start ==> is_digit(#[trigger] digits[k]),
            overflow ==> digits_value(digits.take(i - start)) > u64::MAX,
            !overflow ==> value == digits_value(digits.take(i - start)),
        decreases len - i,
    {
        let c: char = chars[i];
        let ghost k = i - start;
        assert(digits[k] == c);
        let code: u32 = c as u32;
        if code < 0x30 || code > 0x39 {
            assert(!is_digit(digits[k]));
            return None;
        }
        proof {
            assert(digits.take(k + 1).drop_last() =~= digits.take(k));
            assert(digits.take(k + 1).last() == c);
        }
        if !overflow {
            match value.checked_mul(10) {
                Some(tens) => match tens.checked_add((code - 0x30) as u64) {
                    Some(sum) => {
                        value = sum;
                    },
                    None => {
                        overflow = true;
                    },
                },
                None => {
                    overflow = true;
                },
            }
        }
        i = i + 1;
    }
    assert(digits.take(digits.len() as int) =~= digits);
    if overflow {
        None
    } else {
        Some(value)
    }
}

/// Reads the number that a text spells, see `number_of`.
pub fn parse_u64(s: &str) -> (r: Option<u64>)
    ensures
        r == number_of(s@),
{
    let chars: Vec<char> = chars_of(s);
    parse_number(chars.as_slice())
}

// --------------------
// Content-Range
// --------------------

/// What a `Content-Range` header tells.
#[derive(Debug, Clone, Copy, PartialEq, Eq)]
pub enum ContentRange {
    /// A part of the stream, and the size of the stream where it is known.
    Bytes { start: u64, end: u64, total: Option<u64> },
    /// No part: the range asked for lies outside the stream.
    Unsatisfied { total: u64 },
}

/// Where a character first stands in a text, from `k` on.
pub open spec fn first_at(s: Seq<char>, c: char, k: int) -> Option<int>
    decreases s.len() - k,
{
    if k < 0 || k >= s.len() {
        None
    } else if s[k] == c {
        Some(k)
    } else {
        first_at(s, c, k + 1)
    }
}

/// What a `Content-Range` value tells: the unit `bytes`, a range or `*`, a
/// slash, and the size of the stream or `*`.
pub open spec fn content_range(value: Seq<char>) -> Option<ContentRange> {
    if !text::begins_with(value, "bytes "@) {
        None
    } else {
        let rest = value.skip(6);
        match first_at(rest, '/', 0) {
            Some(slash) => {
                let range = rest.take(slash);
                let size = rest.skip(slash + 1);
                if size != seq!['*'] && number_of(size) is None {
                    None
                } else if range == seq!['*'] {
                    if size == seq!['*'] {
                        None
                    } else {
                        Some(ContentRange::Unsatisfied { total: number_of(size)->0 })
                    }
                } else {
                    match first_at(range, '-', 0) {
                        Some(dash) => match (
                            number_of(range.take(dash)),
                            number_of(range.skip(dash + 1)),
                        ) {
                            (Some(start), Some(end)) => if end >= start {
                                Some(
                                    ContentRange::Bytes {
                                        start,
                                        end,
                                        total: if size == seq!['*'] {
                                            None
                                        } else {
                                            number_of(size)
                                        },
                                    },
                                )
                            } else {
                                None
                            },
                            _ => None,
                        },
                        None => None,
                    }
                }
            },
            None => None,
        }
    }
}

fn find_char(chars: &[char], c: char) -> (r: Option<usize>)
    ensures
        match r {
            Some(i) => first_at(chars@, c, 0) == Some(i as int) && i < chars@.len(),
            None => first_at(chars@, c, 0) is None,
        },
{
    let mut i: usize = 0;
    while i < chars.len()
        invariant
            i <= chars@.len(),
            first_at(chars@, c, 0) == first_at(chars@, c, i as int),
        decreases chars@.len() - i,
    {
        if chars[i] == c {
            return Some(i);
        }
        i = i + 1;
    }
    None
}

fn is_star(chars: &[char]) -> (r: bool)
    ensures
        r == (chars@ == seq!['*']),
{
    let star: bool = chars.len() == 1 && chars[0] == '*';
    proof {
        if star {
            assert(chars@ =~= seq!['*']);
        }
    }
    star
}

/// Reads a `Content-Range` value, see `content_range`.
pub fn parse_content_range(value: &str) -> (r: Option<ContentRange>)
    ensures
        r == content_range(value@),
{
    if !text::starts_with(value, "bytes ") {
        return None;
    }
    proof {
        reveal_strlit("bytes ");
    }
    let chars: Vec<char> = chars_of(value);
    let rest: &[char] = &chars.as_slice()[6..chars.len()];
    assert(rest@ =~= value@.skip(6));
    let slash: usize = match find_char(rest, '/') {
        Some(slash) => slash,
        None => {
            return None;
        },
    };
    let range: &[char] = &rest[0..slash];
    let size: &[char] = &rest[slash + 1..rest.len()];
    assert(range@ =~= rest@.take(slash as int));
    assert(size@ =~= rest@.skip(slash + 1));
    let total: Option<u64> = if is_star(size) {
        None
    } else {
        match parse_number(size) {
            Some(total) => Some(total),
            None => {
                return None;
            },
        }
    };
    if is_star(range) {
        return match total {
            Some(total) => Some(ContentRange::Unsatisfied { total }),
            None => None,
        };
    }
    let dash: usize = match find_char(range, '-') {
        Some(dash) => dash,
        None => {
            return None;
        },
    };
    let first: &[char] = &range[0..dash];
    let last: &[char] = &range[dash + 1..range.len()];
    assert(first@ =~= range@.take(dash as int));
    assert(last@ =~= range@.skip(dash + 1));
    match (parse_number(first), parse_number(last)) {
        (Some(start), Some(end)) => if end >= start {
            Some(ContentRange::Bytes { start, end, total })
        } else {
            None
        },
        _ => None,
    }
}

// --------------------
// Replies
// --------------------

/// What the headers of a reply to a range request tell.
#[derive(Debug, Clone)]
pub struct ReplyHead {
    pub status: u16,
    /// The value of `Content-Range`, where it is text.
    pub content_range: Option<String>,
    /// The value of `Content-Length`, where it is text.
    pub content_length: Option<String>,
}

/// What the body of a reply to a range request holds.
#[derive(Debug, Clone, Copy, PartialEq, Eq, Structural)]
pub enum ReplyBody {
    /// Exactly a number of bytes from where the range starts.
    Exactly(usize),
    /// The stream from its start.
    Whole,
    /// Nothing: the range starts behind the end of the stream.
    Nothing,
}

/// A failed request, with the reason.
pub open spec fn failed<T>(reason: Seq<char>) -> Result<T, errors::ErrorView> {
    Err(errors::ErrorView::HttpRequest(reason))
}

/// The range of a reply.
pub open spec fn reply_range(head: ReplyHead) -> Option<ContentRange> {
    match head.content_range {
        Some(value) => content_range(value@),
        None => None,
    }
}

/// A range in words: its first and its last byte.
pub open spec fn range_words(start: u64, end: u64) -> Seq<char> {
    text::decimal(start as nat) + seq!['-'] + text::decimal(end as nat)
}

/// What a reply to a request for the bytes `start..=end` is worth: the size of
/// the stream where it tells it, and what its body holds or why it cannot be
/// used. A size told along with an unusable reply still counts.
pub open spec fn reply_of(start: u64, end: u64, head: ReplyHead) -> (
    Option<u64>,
    Result<ReplyBody, errors::ErrorView>,
) {
    if head.status == HTTP_PARTIAL_CONTENT {
        match reply_range(head) {
            None => (None, failed("missing or invalid Content-Range response"@)),
            Some(ContentRange::Unsatisfied { total }) => (
                None,
                failed("invalid Content-Range for a partial response"@),
            ),
            Some(ContentRange::Bytes { start: first, end: last, total }) => if first != start || last
                > end {
                (
                    None,
                    failed(
                        "Content-Range bytes "@ + range_words(first, last)
                            + " does not match requested range "@ + range_words(start, end),
                    ),
                )
            } else if total is Some && last >= total->0 {
                (None, failed("Content-Range exceeds the reported stream size"@))
            } else if last - first + 1 > usize::MAX {
                (total, failed("partial response body length exceeds usize"@))
            } else {
                (total, Ok(ReplyBody::Exactly((last - first + 1) as usize)))
            },
        }
    } else if head.status == HTTP_RANGE_NOT_SATISFIABLE {
        match reply_range(head) {
            None => (None, failed("missing or invalid Content-Range response"@)),
            Some(ContentRange::Bytes { start: first, end: last, total }) => (
                None,
                failed("invalid Content-Range for an unsatisfiable response"@),
            ),
            Some(ContentRange::Unsatisfied { total }) => (
                Some(total),
                if start >= total {
                    Ok(ReplyBody::Nothing)
                } else {
                    Err(errors::ErrorView::HttpStatus(HTTP_RANGE_NOT_SATISFIABLE))
                },
            ),
        }
    } else if head.status == 200 {
        if start != 0 {
            (
                None,
                failed("server ignored the requested byte range "@ + range_words(start, end)),
            )
        } else {
            (length_of(head), Ok(ReplyBody::Whole))
        }
    } else {
        (None, Err(errors::ErrorView::HttpStatus(head.status)))
    }
}

/// The length that a reply tells.
pub open spec fn length_of(head: ReplyHead) -> Option<u64> {
    match head.content_length {
        Some(value) => number_of(value@),
        None => None,
    }
}

/// What a use of a reply gives.
pub open spec fn body_view(r: Result<ReplyBody, MediaParserError>) -> Result<
    ReplyBody,
    errors::ErrorView,
> {
    match r {
        Ok(body) => Ok(body),
        Err(e) => Err(e@),
    }
}

fn words_of_range(start: u64, end: u64) -> (r: String)
    ensures
        r@ == range_words(start, end),
{
    let mut out: String = decimal_text(start);
    out.push('-');
    joined(out.as_str(), decimal_text(end).as_str())
}

/// The `Range` header that asks for the bytes `start..=end`, which must be a
/// range.
pub fn range_header(start: u64, end: u64) -> (r: Result<String, MediaParserError>)
    ensures
        if end < start {
            r matches Err(e) && e@ == errors::ErrorView::InvalidFormat(
                "Invalid range: end ("@ + text::decimal(end as nat) + ") < start ("@
                    + text::decimal(start as nat) + seq![')'],
            )
        } else {
            r matches Ok(value) && value@ == "bytes="@ + range_words(start, end)
        },
{
    if end < start {
        let first: String = joined("Invalid range: end (", decimal_text(end).as_str());
        let second: String = joined(first.as_str(), ") < start (");
        let mut third: String = joined(second.as_str(), decimal_text(start).as_str());
        third.push(')');
        assert(third@ =~= "Invalid range: end ("@ + text::decimal(end as nat) + ") < start ("@
            + text::decimal(start as nat) + seq![')']);
        return Err(MediaParserError::InvalidFormat(third));
    }
    Ok(joined("bytes=", words_of_range(start, end).as_str()))
}

/// Tells what a reply to a request for the bytes `start..=end` is worth, see
/// `reply_of`.
pub fn judge_reply(start: u64, end: u64, head: &ReplyHead) -> (r: (
    Option<u64>,
    Result<ReplyBody, MediaParserError>,
))
    ensures
        (r.0, body_view(r.1)) == reply_of(start, end, *head),
{
    let range: Option<ContentRange> = match &head.content_range {
        Some(value) => parse_content_range(value.as_str()),
        None => None,
    };
    if head.status == HTTP_PARTIAL_CONTENT {
        match range {
            None => (
                None,
                Err(MediaParserError::request("missing or invalid Content-Range response")),
            ),
            Some(ContentRange::Unsatisfied { total: _ }) => (
                None,
                Err(MediaParserError::request("invalid Content-Range for a partial response")),
            ),
            Some(ContentRange::Bytes { start: first, end: last, total }) => {
                if first != start || last > end {
                    let got: String = joined(
                        "Content-Range bytes ",
                        words_of_range(first, last).as_str(),
                    );
                    let middle: String = joined(got.as_str(), " does not match requested range ");
                    return (
                        None,
                        Err(
                            MediaParserError::HttpRequest(
                                joined(middle.as_str(), words_of_range(start, end).as_str()),
                            ),
                        ),
                    );
                }
                if let Some(size) = total {
                    if last >= size {
                        return (
                            None,
                            Err(
                                MediaParserError::request(
                                    "Content-Range exceeds the reported stream size",
                                ),
                            ),
                        );
                    }
                }
                assert(content_range_ordered(*head));
                let span: u64 = last - first;
                if span >= usize::MAX as u64 {
                    return (
                        total,
                        Err(
                            MediaParserError::request("partial response body length exceeds usize"),
                        ),
                    );
                }
                (total, Ok(ReplyBody::Exactly((span + 1) as usize)))
            },
        }
    } else if head.status == HTTP_RANGE_NOT_SATISFIABLE {
        match range {
            None => (
                None,
                Err(MediaParserError::request("missing or invalid Content-Range response")),
            ),
            Some(ContentRange::Bytes { start: _, end: _, total: _ }) => (
                None,
                Err(
                    MediaParserError::request(
                        "invalid Content-Range for an unsatisfiable response",
                    ),
                ),
            ),
            Some(ContentRange::Unsatisfied { total }) => (
                Some(total),
                if start >= total {
                    Ok(ReplyBody::Nothing)
                } else {
                    Err(MediaParserError::HttpStatus(HTTP_RANGE_NOT_SATISFIABLE))
                },
            ),
        }
    } else if head.status == 200 {
        if start != 0 {
            (
                None,
                Err(
                    MediaParserError::HttpRequest(
                        joined(
                            "server ignored the requested byte range ",
                            words_of_range(start, end).as_str(),
                        ),
                    ),
                ),
            )
        } else {
            let length: Option<u64> = match &head.content_length {
                Some(value) => parse_u64(value.as_str()),
                None => None,
            };
            (length, Ok(ReplyBody::Whole))
        }
    } else {
        (None, Err(MediaParserError::HttpStatus(head.status)))
    }
}

/// A range that was read ends no earlier than it starts.
spec fn content_range_ordered(head: ReplyHead) -> bool {
    reply_range(head) matches Some(ContentRange::Bytes { start, end, total }) ==> start <= end
}

/// An accepted partial reply lies inside the range asked for, starts where it
/// starts, and ends before the stream does.
pub proof fn law_accepted_reply_fits_the_request(start: u64, end: u64, head: ReplyHead)
    requires
        head.status == HTTP_PARTIAL_CONTENT,
        reply_of(start, end, head).1 is Ok,
    ensures
        reply_of(start, end, head).1->Ok_0 matches ReplyBody::Exactly(n) && 0 < n <= end - start + 1
            && (reply_of(start, end, head).0 matches Some(size) ==> start + n <= size),
{
}

/// The size of a stream, from the reply to a `HEAD` request.
pub fn size_from_head(success: bool, head: &ReplyHead) -> (r: Result<u64, MediaParserError>)
    ensures
        if !success {
            r matches Err(e) && e@ == errors::ErrorView::HttpStatus(head.status)
        } else {
            match length_of(*head) {
                Some(size) => r == Ok::<u64, MediaParserError>(size),
                None => r matches Err(e) && e@ == errors::ErrorView::ContentLengthMissing,
            }
        },
{
    if !success {
        return Err(MediaParserError::HttpStatus(head.status));
    }
    let length: Option<u64> = match &head.content_length {
        Some(value) => parse_u64(value.as_str()),
        None => None,
    };
    match length {
        Some(size) => Ok(size),
        None => Err(MediaParserError::ContentLengthMissing),
    }
}

// --------------------
// Bodies
// --------------------

/// The smaller of two integers.
pub open spec fn lesser(a: int, b: int) -> int {
    if a < b {
        a
    } else {
        b
    }
}

/// Copies bytes from `src` to the start of `dst`, as many as fit, and returns
/// the count.
pub fn copy_into(dst: &mut Vec<u8>, src: &[u8]) -> (r: usize)
    ensures
        r == lesser(old(dst)@.len() as int, src@.len() as int),
        final(dst)@ == src@.take(r as int) + old(dst)@.skip(r as int),
{
    let n: usize = copy_at(dst, 0, src);
    assert(dst@ =~= src@.take(n as int) + old(dst)@.skip(n as int));
    n
}

/// Copies bytes from `src` into `dst` from `at` on, as many as fit, and
/// returns the count.
fn copy_at(dst: &mut Vec<u8>, at: usize, src: &[u8]) -> (r: usize)
    requires
        at <= old(dst)@.len(),
    ensures
        r == lesser(old(dst)@.len() - at, src@.len() as int),
        final(dst)@ == old(dst)@.take(at as int) + src@.take(r as int) + old(dst)@.skip(at + r),
{
    let total: usize = dst.len();
    let room: usize = total - at;
    let n: usize = if src.len() < room {
        src.len()
    } else {
        room
    };
    let ghost given = dst@;
    let mut i: usize = 0;
    while i < n
        invariant
            i <= n,
            n <= src@.len(),
            at + n <= total,
            total == given.len(),
            dst@.len() == given.len(),
            given == old(dst)@,
            forall|k: int| 0 <= k < i ==> dst@[at + k] == #[trigger] src@[k],
            forall|k: int| 0 <= k < at ==> #[trigger] dst@[k] == given[k],
            forall|k: int| at + i <= k < given.len() ==> #[trigger] dst@[k] == given[k],
        decreases n - i,
    {
        dst.set(at + i, src[i]);
        i = i + 1;
    }
    proof {
        let want = given.take(at as int) + src@.take(n as int) + given.skip(at + n);
        assert forall|k: int| 0 <= k < want.len() implies dst@[k] == want[k] by {
            if at <= k < at + n {
                assert(dst@[at + (k - at)] == src@[k - at]);
            }
        }
        assert(dst@ =~= want);
    }
    n
}

/// `Vec::try_reserve_exact`: keeps what the vector holds. It fails where the
/// vector would hold more bytes than an allocation can; elsewhere the allocator
/// decides, so success is not promised.
#[verifier::external_body]
fn reserve_exact(bytes: &mut Vec<u8>, additional: usize) -> (r: bool)
    ensures
        final(bytes)@ == old(bytes)@,
        old(bytes)@.len() + additional > isize::MAX ==> !r,
{
    bytes.try_reserve_exact(additional).is_ok()
}

/// The error of an allocation that failed.
pub open spec fn allocation_error(len: usize, context: Seq<char>) -> errors::ErrorView {
    errors::ErrorView::Other(
        context + " allocation failed for "@ + text::decimal(len as nat) + " bytes"@,
    )
}

/// A number of zero bytes, or an error where they cannot be allocated. The
/// allocator decides on success, but never for more bytes than an allocation
/// can hold.
pub fn try_zeroed_bytes(len: usize, context: &str) -> (r: Result<Vec<u8>, MediaParserError>)
    ensures
        match r {
            Ok(bytes) => bytes@ == Seq::new(len as nat, |i: int| 0u8),
            Err(e) => e@ == allocation_error(len, context@),
        },
        len > isize::MAX ==> r is Err,
{
    let mut bytes: Vec<u8> = Vec::new();
    if !reserve_exact(&mut bytes, len) {
        let first: String = joined(context, " allocation failed for ");
        let second: String = joined(first.as_str(), decimal_text(len as u64).as_str());
        return Err(MediaParserError::Other(joined(second.as_str(), " bytes")));
    }
    bytes.resize(len, 0);
    proof {
        assert forall|i: int| 0 <= i < len implies bytes@[i] == 0u8 by {
            assert(cloned::<u8>(0u8, bytes@[i]));
        }
        assert(bytes@ =~= Seq::new(len as nat, |i: int| 0u8));
    }
    Ok(bytes)
}

/// A copy of bytes, or an error where it cannot be allocated.
pub fn try_copy_bytes(bytes: &[u8], context: &str) -> (r: Result<Vec<u8>, MediaParserError>)
    ensures
        match r {
            Ok(copy) => copy@ == bytes@,
            Err(e) => e@ == allocation_error(bytes@.len() as usize, context@),
        },
{
    let mut copy: Vec<u8> = match try_zeroed_bytes(bytes.len(), context) {
        Ok(zeroed) => zeroed,
        Err(e) => return Err(e),
    };
    let _ = copy_into(&mut copy, bytes);
    assert(copy@ =~= bytes@);
    Ok(copy)
}

/// The chunks of a body one after the other.
pub open spec fn body_of(chunks: Seq<Seq<u8>>) -> Seq<u8>
    decreases chunks.len(),
{
    if chunks.len() == 0 {
        Seq::empty()
    } else {
        body_of(chunks.drop_last()) + chunks.last()
    }
}

/// A buffer that a body is read into.
#[derive(Debug)]
pub struct BodyBuffer {
    data: Vec<u8>,
    filled: usize,
}

impl BodyBuffer {
    /// What was read so far.
    pub closed spec fn read(self) -> Seq<u8> {
        self.data@.take(self.filled as int)
    }

    /// How much can be read in all.
    pub closed spec fn room(self) -> int {
        self.data@.len() as int
    }

    #[verifier::type_invariant]
    closed spec fn in_bounds(self) -> bool {
        self.filled <= self.data@.len()
    }

    /// An empty buffer over bytes that will be overwritten.
    pub fn new(data: Vec<u8>) -> (r: Self)
        ensures
            r.read() == Seq::<u8>::empty(),
            r.room() == data@.len(),
    {
        let r: BodyBuffer = BodyBuffer { data, filled: 0 };
        assert(r.read() =~= Seq::<u8>::empty());
        r
    }

    /// Adds a chunk of a body, as far as there is room. Tells whether the rest
    /// of the body is not needed.
    pub fn absorb(&mut self, chunk: &[u8]) -> (r: bool)
        ensures
            final(self).room() == old(self).room(),
            final(self).read() == (old(self).read() + chunk@).take(
                lesser(old(self).read().len() as int + chunk@.len(), old(self).room()),
            ),
            r == (old(self).read().len() + chunk@.len() >= old(self).room()),
    {
        proof {
            use_type_invariant(&*self);
        }
        let at: usize = self.filled;
        let ghost given = self.data@;
        let mut data: Vec<u8> = Vec::new();
        self.filled = 0;
        std::mem::swap(&mut data, &mut self.data);
        let written: usize = copy_at(&mut data, at, chunk);
        let room: usize = data.len();
        let filled: usize = at + written;
        proof {
            let want = (given.take(at as int) + chunk@).take(
                lesser(at + chunk@.len(), given.len() as int),
            );
            assert(data@.take(filled as int) =~= want);
        }
        *self = BodyBuffer { data, filled };
        written < chunk.len() || filled >= room
    }

    /// Ends the reading of a body: checks its length where that is known, and
    /// hands out what was read.
    pub fn finish(self, expected: Option<usize>) -> (r: Result<Vec<u8>, MediaParserError>)
        ensures
            match expected {
                Some(n) => if self.read().len() != n {
                    r matches Err(e) && e@ == errors::ErrorView::HttpRequest(
                        "partial response body length mismatch: expected "@ + text::decimal(
                            n as nat,
                        ) + " bytes, received "@ + text::decimal(self.read().len()),
                    )
                } else {
                    r matches Ok(data) && data@ == self.read()
                },
                None => r matches Ok(data) && data@ == self.read(),
            },
    {
        proof {
            use_type_invariant(&self);
        }
        if let Some(n) = expected {
            if self.filled != n {
                let first: String = joined(
                    "partial response body length mismatch: expected ",
                    decimal_text(n as u64).as_str(),
                );
                let second: String = joined(first.as_str(), " bytes, received ");
                return Err(
                    MediaParserError::HttpRequest(
                        joined(second.as_str(), decimal_text(self.filled as u64).as_str()),
                    ),
                );
            }
        }
        let data: Vec<u8> = copy_range(self.data.as_slice(), 0, self.filled);
        assert(data@ =~= self.read());
        Ok(data)
    }
}

/// What a buffer holds after the chunks of a body.
pub open spec fn absorbed(chunks: Seq<Seq<u8>>, room: int) -> Seq<u8>
    decreases chunks.len(),
{
    if chunks.len() == 0 {
        Seq::empty()
    } else {
        let before = absorbed(chunks.drop_last(), room);
        (before + chunks.last()).take(lesser(before.len() as int + chunks.last().len(), room))
    }
}

/// What is read of a body is its start, up to the size of the buffer, however
/// the body is cut into chunks.
pub proof fn law_absorbed_is_the_start_of_the_body(chunks: Seq<Seq<u8>>, room: int)
    requires
        0 <= room,
    ensures
        absorbed(chunks, room) == body_of(chunks).take(
            lesser(body_of(chunks).len() as int, room),
        ),
    decreases chunks.len(),
{
    if chunks.len() > 0 {
        law_absorbed_is_the_start_of_the_body(chunks.drop_last(), room);
    }
    assert(absorbed(chunks, room) =~= body_of(chunks).take(
        lesser(body_of(chunks).len() as int, room),
    ));
}

// --------------------
// Ranges to ask for
// --------------------

/// A read of a stream in several requests.
#[derive(Debug, Clone, Copy)]
pub struct RangeWalk {
    current: u64,
    done: usize,
    len: usize,
}

/// One range to ask for: its first and its last byte, and their number.
#[derive(Debug, Clone, Copy, PartialEq, Eq, Structural)]
pub struct RangeStep {
    pub start: u64,
    pub end: u64,
    pub len: usize,
}

/// How many bytes to ask for next.
pub open spec fn bytes_to_ask(remaining: int, current: int, known: Option<u64>) -> int {
    match known {
        Some(size) => lesser(remaining, size - current),
        None => remaining,
    }
}

impl RangeWalk {
    /// Where the next range starts.
    pub closed spec fn current(self) -> int {
        self.current as int
    }

    /// How many bytes were read.
    pub closed spec fn done(self) -> int {
        self.done as int
    }

    /// How many bytes were asked for.
    pub closed spec fn len(self) -> int {
        self.len as int
    }

    /// A read of `len` bytes from an offset on.
    pub fn new(offset: u64, len: usize) -> (r: Self)
        ensures
            r.current() == offset,
            r.done() == 0,
            r.len() == len,
    {
        RangeWalk { current: offset, done: 0, len }
    }

    /// How many bytes were read.
    pub fn read(&self) -> (r: usize)
        ensures
            r == self.done(),
    {
        self.done
    }

    /// The next range to ask for: nothing once all was read or the known end
    /// of the stream is reached.
    pub fn next(&self, known_size: Option<u64>) -> (r: Result<Option<RangeStep>, MediaParserError>)
        ensures
            if self.done() >= self.len() || (known_size matches Some(size) && self.current()
                >= size) {
                r == Ok::<Option<RangeStep>, MediaParserError>(None)
            } else {
                let n = bytes_to_ask(self.len() - self.done(), self.current(), known_size);
                if self.current() + n > u64::MAX {
                    r matches Err(e) && e@ == errors::ErrorView::Other("HTTP range overflow"@)
                } else {
                    r == Ok::<Option<RangeStep>, MediaParserError>(
                        Some(
                            RangeStep {
                                start: self.current() as u64,
                                end: (self.current() + n - 1) as u64,
                                len: n as usize,
                            },
                        ),
                    )
                }
            },
    {
        if self.done >= self.len {
            return Ok(None);
        }
        let remaining: usize = self.len - self.done;
        let len: usize = match known_size {
            Some(size) => {
                if self.current >= size {
                    return Ok(None);
                }
                let left: u64 = size - self.current;
                if left < remaining as u64 {
                    left as usize
                } else {
                    remaining
                }
            },
            None => remaining,
        };
        match self.current.checked_add(len as u64) {
            Some(behind) => Ok(
                Some(RangeStep { start: self.current, end: behind - 1, len }),
            ),
            None => Err(MediaParserError::other("HTTP range overflow")),
        }
    }

    /// Counts bytes that were read of a range. Tells whether there may be more:
    /// an empty read ends the walk.
    pub fn advance(&mut self, bytes_read: usize) -> (r: Result<bool, MediaParserError>)
        requires
            old(self).done() + bytes_read <= old(self).len(),
        ensures
            final(self).len() == old(self).len(),
            if bytes_read == 0 {
                r == Ok::<bool, MediaParserError>(false) && *final(self) == *old(self)
            } else if old(self).current() + bytes_read > u64::MAX {
                r matches Err(e) && e@ == errors::ErrorView::Other("HTTP read offset overflow"@)
            } else {
                r == Ok::<bool, MediaParserError>(true) && final(self).done() == old(self).done()
                    + bytes_read && final(self).current() == old(self).current() + bytes_read
            },
    {
        if bytes_read == 0 {
            return Ok(false);
        }
        match self.current.checked_add(bytes_read as u64) {
            Some(current) => {
                self.done = self.done + bytes_read;
                self.current = current;
                Ok(true)
            },
            None => Err(MediaParserError::other("HTTP read offset overflow")),
        }
    }
}

/// Where a file is read next, after some bytes were read from an offset on.
pub fn file_read_offset(offset: u64, read_total: usize) -> (r: Result<u64, MediaParserError>)
    ensures
        if offset + read_total > u64::MAX {
            r matches Err(e) && e@ == errors::ErrorView::Other("file read offset overflow"@)
        } else {
            r == Ok::<u64, MediaParserError>((offset + read_total) as u64)
        },
{
    match offset.checked_add(read_total as u64) {
        Some(at) => Ok(at),
        None => Err(MediaParserError::other("file read offset overflow")),
    }
}

// --------------------
// Read-ahead
// --------------------

/// Bytes of a stream that were read ahead.
#[derive(Debug)]
pub struct ReadWindow {
    pub offset: u64,
    pub data: Vec<u8>,
}

/// What a window serves of a read: from which of its bytes on, and how many.
/// It serves all that is wanted, or all up to the end of the stream where it
/// is known to reach it.
pub open spec fn window_part(
    offset: int,
    data: Seq<u8>,
    known: Option<u64>,
    at: int,
    wanted: int,
) -> Option<(int, int)> {
    let from = at - offset;
    if from < 0 || from > data.len() {
        None
    } else if data.len() - from < wanted && !(known matches Some(size) && size == offset
        + data.len()) {
        None
    } else {
        Some((from, lesser(wanted, data.len() - from)))
    }
}

impl ReadWindow {
    /// What the window serves of a read of `wanted` bytes at `offset`, see
    /// `window_part`.
    pub fn serve(&self, known_size: Option<u64>, offset: u64, wanted: usize) -> (r: Option<
        (usize, usize),
    >)
        ensures
            match r {
                Some((from, n)) => window_part(
                    self.offset as int,
                    self.data@,
                    known_size,
                    offset as int,
                    wanted as int,
                ) == Some((from as int, n as int)) && from + n <= self.data@.len(),
                None => window_part(
                    self.offset as int,
                    self.data@,
                    known_size,
                    offset as int,
                    wanted as int,
                ) is None,
            },
    {
        if offset < self.offset {
            return None;
        }
        let distance: u64 = offset - self.offset;
        let len: usize = self.data.len();
        if distance > len as u64 {
            return None;
        }
        let from: usize = distance as usize;
        let available: usize = len - from;
        let reaches_end: bool = match (known_size, self.offset.checked_add(len as u64)) {
            (Some(size), Some(end)) => size == end,
            _ => false,
        };
        if available < wanted && !reaches_end {
            return None;
        }
        let n: usize = if wanted < available {
            wanted
        } else {
            available
        };
        Some((from, n))
    }
}

/// How far to read ahead: to the end of the stream where it is known, up to a
/// bound.
pub fn read_ahead(known_size: Option<u64>, offset: u64) -> (r: usize)
    ensures
        r == (match known_size {
            Some(size) => if size <= offset {
                0
            } else {
                lesser(size - offset, HTTP_READ_AHEAD_BYTES as int)
            },
            None => HTTP_READ_AHEAD_BYTES as int,
        }),
{
    match known_size {
        Some(size) => {
            if size <= offset {
                return 0;
            }
            let left: u64 = size - offset;
            if left < HTTP_READ_AHEAD_BYTES as u64 {
                left as usize
            } else {
                HTTP_READ_AHEAD_BYTES
            }
        },
        None => HTTP_READ_AHEAD_BYTES,
    }
}

/// A window that holds a part of a stream serves what the stream holds: all
/// that is wanted, or all up to the end of the stream.
pub proof fn law_window_serves_the_stream(
    stream: Seq<u8>,
    offset: int,
    data: Seq<u8>,
    known: Option<u64>,
    at: int,
    wanted: int,
)
    requires
        0 <= offset,
        offset + data.len() <= stream.len() <= u64::MAX,
        data == stream.subrange(offset, offset + data.len()),
        known matches Some(size) ==> size == stream.len(),
        0 <= wanted,
        window_part(offset, data, known, at, wanted) is Some,
    ensures
        ({
            let (from, n) = window_part(offset, data, known, at, wanted)->0;
            &&& 0 <= from
            &&& from + n <= data.len()
            &&& n == lesser(wanted, stream.len() - at)
            &&& data.subrange(from, from + n) == stream.subrange(at, at + n)
        }),
{
    let (from, n) = window_part(offset, data, known, at, wanted)->0;
    assert(data.subrange(from, from + n) =~= stream.subrange(at, at + n));
}

// --------------------
// Headers
// --------------------

/// Whether a character may stand in the name of a header: a letter, a digit
/// or one of the signs that tokens are made of.
pub open spec fn is_name_char(c: char) -> bool {
    ||| 0x30 <= c as u32 <= 0x39
    ||| 0x41 <= c as u32 <= 0x5a
    ||| 0x61 <= c as u32 <= 0x7a
    ||| c == '!' || c == '#' || c == '$' || c == '%' || c == '&' || c == '\'' || c == '*' || c
        == '+' || c == '-' || c == '.' || c == '^' || c == '_' || c == '`' || c == '|' || c == '~'
}

/// Whether a text is the name of a header.
pub open spec fn is_header_name(s: Seq<char>) -> bool {
    0 < s.len() <= 65535 && forall|i: int| 0 <= i < s.len() ==> is_name_char(#[trigger] s[i])
}

/// Whether a text can be the value of a header: it holds no control character
/// but the tab.
pub open spec fn is_header_value(s: Seq<char>) -> bool {
    forall|i: int|
        0 <= i < s.len() ==> (#[trigger] s[i] as u32 >= 32 && s[i] as u32 != 127) || s[i] == '\t'
}

/// `HeaderName::try_from`: a name made of token characters, in lower case, or
/// the text of the error, which is always the same.
#[verifier::external_body]
fn header_name(name: &str) -> (r: Result<String, String>)
    ensures
        match r {
            Ok(n) => is_header_name(name@) && n@ == text::ascii_lowercase(name@),
            Err(e) => !is_header_name(name@) && e@ == "invalid HTTP header name"@,
        },
{
    match reqwest::header::HeaderName::try_from(name) {
        Ok(n) => Ok(n.as_str().to_owned()),
        Err(e) => Err(e.to_string()),
    }
}

/// `HeaderValue::from_str`: accepts a value without control characters, or
/// gives the text of the error, which is always the same.
#[verifier::external_body]
fn header_value(value: &str) -> (r: Result<(), String>)
    ensures
        match r {
            Ok(_) => is_header_value(value@),
            Err(e) => !is_header_value(value@) && e@ == "failed to parse header value"@,
        },
{
    match reqwest::header::HeaderValue::from_str(value) {
        Ok(_) => Ok(()),
        Err(e) => Err(e.to_string()),
    }
}

/// Why the header at `k` cannot be sent along with those before it.
pub open spec fn header_error(headers: Seq<(Seq<char>, Seq<char>)>, k: int) -> Option<Seq<char>> {
    let (name, value) = headers[k];
    if !is_header_name(name) {
        Some("Invalid header name '"@ + name + "': "@ + "invalid HTTP header name"@)
    } else if !is_header_value(value) {
        Some("Invalid header value for '"@ + name + "': "@ + "failed to parse header value"@)
    } else if exists|j: int|
        0 <= j < k && text::ascii_lowercase((#[trigger] headers[j]).0) == text::ascii_lowercase(
            name,
        ) {
        Some("duplicate header name ignoring case: '"@ + name + "'"@)
    } else {
        None
    }
}

/// The first error among the first `n` headers.
pub open spec fn headers_error(headers: Seq<(Seq<char>, Seq<char>)>, n: int) -> Option<Seq<char>>
    decreases n,
{
    if n <= 0 {
        None
    } else {
        match headers_error(headers, n - 1) {
            Some(e) => Some(e),
            None => header_error(headers, n - 1),
        }
    }
}

/// What a list of headers is.
pub open spec fn headers_view(headers: Seq<(String, String)>) -> Seq<(Seq<char>, Seq<char>)> {
    Seq::new(headers.len(), |i: int| (headers[i].0@, headers[i].1@))
}

/// The headers with their names in lower case.
pub open spec fn normalized(headers: Seq<(Seq<char>, Seq<char>)>) -> Seq<(Seq<char>, Seq<char>)> {
    Seq::new(headers.len(), |i: int| (text::ascii_lowercase(headers[i].0), headers[i].1))
}

proof fn lemma_headers_error(headers: Seq<(Seq<char>, Seq<char>)>, k: int, n: int)
    requires
        0 <= k <= n,
        headers_error(headers, k) is Some,
    ensures
        headers_error(headers, n) == headers_error(headers, k),
    decreases n,
{
    if k < n {
        lemma_headers_error(headers, k, n - 1);
    }
}

fn quoted(start: &str, name: &str, end: &str) -> (r: String)
    ensures
        r@ == start@ + name@ + end@,
{
    let first: String = joined(start, name);
    joined(first.as_str(), end)
}

/// Checks the headers that a caller adds to requests: their number, their
/// names and values, and that no name comes twice without regard to case.
/// Hands them out with their names in lower case.
pub fn check_headers(headers: &[(String, String)]) -> (r: Result<
    Vec<(String, String)>,
    MediaParserError,
>)
    ensures
        if headers@.len() > MAX_HTTP_HEADERS {
            r matches Err(e) && e@ == errors::ErrorView::HttpRequest(
                "At most 64 HTTP headers are supported"@,
            )
        } else {
            match headers_error(headers_view(headers@), headers@.len() as int) {
                Some(reason) => r matches Err(e) && e@ == errors::ErrorView::HttpRequest(reason),
                None => r matches Ok(list) && headers_view(list@) == normalized(
                    headers_view(headers@),
                ),
            }
        },
{
    if headers.len() > MAX_HTTP_HEADERS {
        return Err(MediaParserError::request("At most 64 HTTP headers are supported"));
    }
    let ghost all = headers_view(headers@);
    let mut out: Vec<(String, String)> = Vec::new();
    let mut i: usize = 0;
    assert(headers_view(out@) =~= normalized(all).take(0));
    while i < headers.len()
        invariant
            i <= headers@.len(),
            headers@.len() <= MAX_HTTP_HEADERS,
            all == headers_view(headers@),
            headers_error(all, i as int) is None,
            out@.len() == i,
            headers_view(out@) == normalized(all).take(i as int),
        decreases headers@.len() - i,
    {
        let ghost before = headers_view(out@);
        let ghost name_text = all[i as int].0;
        let name: &str = headers[i].0.as_str();
        let value: &str = headers[i].1.as_str();
        let lower: String = match header_name(name) {
            Ok(lower) => lower,
            Err(e) => {
                let first: String = quoted("Invalid header name '", name, "': ");
                proof {
                    lemma_headers_error(all, i + 1, all.len() as int);
                }
                return Err(MediaParserError::HttpRequest(joined(first.as_str(), e.as_str())));
            },
        };
        if let Err(e) = header_value(value) {
            let first: String = quoted("Invalid header value for '", name, "': ");
            proof {
                lemma_headers_error(all, i + 1, all.len() as int);
            }
            return Err(MediaParserError::HttpRequest(joined(first.as_str(), e.as_str())));
        }
        let mut j: usize = 0;
        while j < i
            invariant
                j <= i,
                i < headers@.len(),
                out@.len() == i,
                all == headers_view(headers@),
                headers_view(out@) == normalized(all).take(i as int),
                lower@ == text::ascii_lowercase(all[i as int].0),
                name@ == all[i as int].0,
                is_header_name(all[i as int].0),
                is_header_value(all[i as int].1),
                headers@.len() <= MAX_HTTP_HEADERS,
                headers_error(all, i as int) is None,
                forall|k: int|
                    0 <= k < j ==> text::ascii_lowercase((#[trigger] all[k]).0) != lower@,
            decreases i - j,
        {
            proof {
                assert(headers_view(out@)[j as int] == normalized(all)[j as int]);
                assert(out@[j as int].0@ == text::ascii_lowercase(all[j as int].0));
            }
            if text::same_text(out[j].0.as_str(), lower.as_str()) {
                proof {
                    lemma_headers_error(all, i + 1, all.len() as int);
                }
                return Err(
                    MediaParserError::HttpRequest(
                        quoted("duplicate header name ignoring case: '", name, "'"),
                    ),
                );
            }
            j = j + 1;
        }
        let ghost added = (lower@, value@);
        out.push((lower, value.to_owned()));
        proof {
            assert(headers_view(out@) =~= before.push(added));
            assert(normalized(all).take(i + 1) =~= normalized(all).take(i as int).push(
                normalized(all)[i as int],
            ));
        }
        i = i + 1;
    }
    assert(normalized(all).take(i as int) =~= normalized(all));
    Ok(out)
}

/// Headers that pass have different names, whatever their case.
pub proof fn law_checked_headers_differ(headers: Seq<(Seq<char>, Seq<char>)>, i: int, j: int)
    requires
        headers_error(headers, headers.len() as int) is None,
        0 <= i < j < headers.len(),
    ensures
        text::ascii_lowercase(headers[i].0) != text::ascii_lowercase(headers[j].0),
{
    lemma_no_error_before(headers, j + 1, headers.len() as int);
    assert(header_error(headers, j) is None);
}

proof fn lemma_no_error_before(headers: Seq<(Seq<char>, Seq<char>)>, k: int, n: int)
    requires
        0 <= k <= n,
        headers_error(headers, n) is None,
    ensures
        headers_error(headers, k) is None,
    decreases n,
{
    if k < n {
        lemma_no_error_before(headers, k, n - 1);
    }
}

// --------------------
// Written replies
// --------------------

proof fn lemma_decimal(n: nat)
    ensures
        text::decimal(n).len() > 0,
        all_digits(text::decimal(n)),
        digits_value(text::decimal(n)) == n,
        text::decimal(n)[0] != '+',
        text::decimal(n) != seq!['*'],
    decreases n,
{
    let s = text::decimal(n);
    if n < 10 {
        assert(s.drop_last() =~= Seq::empty());
        assert(digits_value(s.drop_last()) == 0);
        assert(s[0] == (0x30 + n) as char);
    } else {
        lemma_decimal(n / 10);
        let before = text::decimal(n / 10);
        assert(s.drop_last() =~= before);
        assert(s.last() == (0x30 + n % 10) as char);
        assert forall|i: int| 0 <= i < s.len() implies is_digit(#[trigger] s[i]) by {
            if i < before.len() {
                assert(s[i] == before[i]);
            }
        }
        assert(s[0] == before[0]);
        assert(s.len() >= 2);
    }
    assert(is_digit(s[0]));
}

/// A number is read back from its decimal digits.
pub proof fn law_number_reads_back(n: u64)
    ensures
        number_of(text::decimal(n as nat)) == Some(n),
{
    lemma_decimal(n as nat);
    assert(unsigned(text::decimal(n as nat)) == text::decimal(n as nat));
}

proof fn lemma_first_at(s: Seq<char>, c: char, k: int, at: int)
    requires
        0 <= k <= at < s.len(),
        s[at] == c,
        forall|j: int| k <= j < at ==> #[trigger] s[j] != c,
    ensures
        first_at(s, c, k) == Some(at),
    decreases at - k,
{
    if k < at {
        lemma_first_at(s, c, k + 1, at);
    }
}

/// A written `Content-Range`: the range, and the size where it is known.
pub open spec fn written_range(start: u64, end: u64, total: Option<u64>) -> Seq<char> {
    "bytes "@ + (text::decimal(start as nat) + seq!['-'] + text::decimal(end as nat)) + seq!['/']
        + (match total {
        Some(size) => text::decimal(size as nat),
        None => seq!['*'],
    })
}

/// A written `Content-Range` without a range.
pub open spec fn written_unsatisfied(total: u64) -> Seq<char> {
    "bytes "@ + seq!['*'] + seq!['/'] + text::decimal(total as nat)
}

/// A `Content-Range` is read back: the range and the size, or the size alone.
#[verifier::spinoff_prover]
#[verifier::rlimit(40)]
pub proof fn law_content_range_reads_back(start: u64, end: u64, total: Option<u64>, size: u64)
    ensures
        start <= end ==> content_range(written_range(start, end, total)) == Some(
            ContentRange::Bytes { start, end, total },
        ),
        start > end ==> content_range(written_range(start, end, total)) is None,
        content_range(written_unsatisfied(size)) == Some(ContentRange::Unsatisfied { total: size }),
{
    reveal_strlit("bytes ");
    let a = text::decimal(start as nat);
    let b = text::decimal(end as nat);
    let c = match total {
        Some(n) => text::decimal(n as nat),
        None => seq!['*'],
    };
    let range = a + seq!['-'] + b;
    lemma_decimal(start as nat);
    lemma_decimal(end as nat);
    law_number_reads_back(start);
    law_number_reads_back(end);
    if let Some(n) = total {
        lemma_decimal(n as nat);
        law_number_reads_back(n);
    }
    let value = written_range(start, end, total);
    assert(value.take(6) =~= "bytes "@);
    let rest = value.skip(6);
    assert(rest =~= range + seq!['/'] + c);
    let slash = range.len() as int;
    assert forall|j: int| 0 <= j < slash implies #[trigger] rest[j] != '/' by {
        if j < a.len() {
            assert(rest[j] == a[j] && is_digit(a[j]));
        } else if j > a.len() {
            assert(rest[j] == b[j - a.len() - 1] && is_digit(b[j - a.len() - 1]));
        }
    }
    lemma_first_at(rest, '/', 0, slash);
    assert(rest.take(slash) =~= range);
    assert(rest.skip(slash + 1) =~= c);
    assert(range[a.len() as int] == '-');
    assert(range != seq!['*']) by {
        assert(range.len() >= 3);
    }
    assert forall|j: int| 0 <= j < a.len() implies #[trigger] range[j] != '-' by {
        assert(range[j] == a[j] && is_digit(a[j]));
    }
    lemma_first_at(range, '-', 0, a.len() as int);
    assert(range.take(a.len() as int) =~= a);
    assert(range.skip(a.len() as int + 1) =~= b);
    lemma_unsatisfied(size);
}

proof fn lemma_unsatisfied(size: u64)
    ensures
        content_range(written_unsatisfied(size)) == Some(ContentRange::Unsatisfied { total: size }),
{
    reveal_strlit("bytes ");
    let d = text::decimal(size as nat);
    lemma_decimal(size as nat);
    law_number_reads_back(size);
    let value = written_unsatisfied(size);
    assert(value.take(6) =~= "bytes "@);
    let rest = value.skip(6);
    assert(rest =~= seq!['*'] + seq!['/'] + d);
    lemma_first_at(rest, '/', 0, 1);
    assert(rest.take(1) =~= seq!['*']);
    assert(rest.skip(2) =~= d);
}

/// A partial reply is accepted where it tells a part of the stream from the
/// start of the range on, no longer than the range: so many bytes are read, and
/// the size is known where it is told.
pub proof fn law_partial_reply_is_accepted(
    start: u64,
    end: u64,
    last: u64,
    total: Option<u64>,
    head: ReplyHead,
)
    requires
        head.status == 206,
        head.content_range matches Some(value) && value@ == written_range(start, last, total),
        start <= last <= end,
        total matches Some(size) ==> last < size,
        last - start + 1 <= usize::MAX,
    ensures
        reply_of(start, end, head) == (
            total,
            Ok::<ReplyBody, errors::ErrorView>(ReplyBody::Exactly((last - start + 1) as usize)),
        ),
{
    law_content_range_reads_back(start, last, total, 0);
}

/// A reply with a part that starts elsewhere or ends behind the range is
/// refused, and so is one whose part ends behind the stream.
pub proof fn law_other_parts_are_refused(
    start: u64,
    end: u64,
    first: u64,
    last: u64,
    total: Option<u64>,
    head: ReplyHead,
)
    requires
        head.status == 206,
        head.content_range matches Some(value) && value@ == written_range(first, last, total),
        first != start || last > end || first > last || (total matches Some(size) && last >= size),
    ensures
        reply_of(start, end, head).1 is Err,
        reply_of(start, end, head).0 is None,
{
    law_content_range_reads_back(first, last, total, 0);
}

/// A reply that no part is there is an empty body where the range starts behind
/// the stream, and an error where it does not. A whole reply is accepted for a
/// range from the start on, with the length that it tells.
pub proof fn law_other_replies(start: u64, end: u64, size: u64, head: ReplyHead)
    ensures
        head.status == 416 && (head.content_range matches Some(value) && value@
            == written_unsatisfied(size)) ==> reply_of(start, end, head) == (
            Some(size),
            if start >= size {
                Ok::<ReplyBody, errors::ErrorView>(ReplyBody::Nothing)
            } else {
                Err(errors::ErrorView::HttpStatus(416))
            },
        ),
        head.status == 200 && start == 0 && (head.content_length matches Some(value) && value@
            == text::decimal(size as nat)) ==> reply_of(start, end, head) == (
            Some(size),
            Ok::<ReplyBody, errors::ErrorView>(ReplyBody::Whole),
        ),
        head.status == 200 && start > 0 ==> reply_of(start, end, head).1 is Err,
        head.status != 200 && head.status != 206 && head.status != 416 ==> reply_of(
            start,
            end,
            head,
        ) == (
            None::<u64>,
            Err::<ReplyBody, errors::ErrorView>(errors::ErrorView::HttpStatus(head.status)),
        ),
{
    law_content_range_reads_back(0, 0, None, size);
    law_number_reads_back(size);
}

/// What is asked for next is what is left to read, as far as the stream is known to go.
pub proof fn law_bytes_to_ask(remaining: int, current: int, known: Option<u64>)
    requires
        0 <= remaining,
        0 <= current,
        known matches Some(size) ==> current <= size,
    ensures
        0 <= bytes_to_ask(remaining, current, known) <= remaining,
        known matches Some(size) ==> current + bytes_to_ask(remaining, current, known) <= size && (
        current + remaining > size ==> current + bytes_to_ask(remaining, current, known) == size),
        (known matches Some(size) ==> current + remaining <= size) ==> bytes_to_ask(
            remaining,
            current,
            known,
        ) == remaining,
{
}

} // verus!
