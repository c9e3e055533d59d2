//! Sequential reading of a remote resource, with bytes read ahead.

use vstd::prelude::*;
use crate::bytes::copy_range;
use crate::stream;
use crate::text;
use crate::text::starts_with;

verus! {

/// The bytes that are fetched at once at least.
pub const FETCH_BYTES: usize = 262144;

/// Whether a source is an HTTP resource rather than a path.
pub fn is_remote(source: &str) -> (r: bool)
    ensures
        r == (text::begins_with(source@, "http://"@) || text::begins_with(source@, "https://"@)),
{
    starts_with(source, "http://") || starts_with(source, "https://")
}

/// A place to go to in a stream.
#[derive(Debug, Clone, Copy, PartialEq, Eq, Structural)]
pub enum SeekTo {
    /// A place counted from the start.
    Start(u64),
    /// A place counted from the end.
    End(i64),
    /// A place counted from where the reader is.
    Current(i64),
}

/// A place moved by an offset, but not to before the start.
pub open spec fn moved(from: int, offset: int) -> int {
    if from + offset < 0 {
        0
    } else {
        from + offset
    }
}

/// Where a seek leads.
pub open spec fn seek_target(position: int, length: int, to: SeekTo) -> int {
    match to {
        SeekTo::Start(at) => at as int,
        SeekTo::End(offset) => moved(length, offset as int),
        SeekTo::Current(offset) => moved(position, offset as int),
    }
}

fn move_by(from: u64, offset: i64) -> (r: Option<u64>)
    ensures
        if moved(from as int, offset as int) > u64::MAX {
            r is None
        } else {
            r == Some(moved(from as int, offset as int) as u64)
        },
{
    if offset >= 0 {
        return from.checked_add(offset as u64);
    }
    let back: u64 = (-(offset as i128)) as u64;
    if back > from {
        Some(0)
    } else {
        Some(from - back)
    }
}

/// Where a reader is in a stream of a known length, and what it has read ahead.
#[derive(Debug)]
pub struct ReadAhead {
    position: u64,
    length: u64,
    cache: Vec<u8>,
    used: usize,
}

impl ReadAhead {
    /// Where the next byte comes from.
    pub closed spec fn position(self) -> int {
        self.position as int
    }

    /// How long the stream is.
    pub closed spec fn length(self) -> int {
        self.length as int
    }

    /// The bytes that were read ahead and not handed out.
    pub closed spec fn ahead(self) -> Seq<u8> {
        self.cache@.skip(self.used as int)
    }

    #[verifier::type_invariant]
    closed spec fn in_bounds(self) -> bool {
        &&& self.used <= self.cache@.len()
        &&& self.position + (self.cache@.len() - self.used) <= u64::MAX
    }

    /// A reader at the start of a stream.
    pub fn new(length: u64) -> (r: Self)
        ensures
            r.position() == 0,
            r.length() == length,
            r.ahead() == Seq::<u8>::empty(),
    {
        let r: ReadAhead = ReadAhead { position: 0, length, cache: Vec::new(), used: 0 };
        assert(r.ahead() =~= Seq::<u8>::empty());
        r
    }

    /// How long the stream is.
    pub fn size(&self) -> (r: u64)
        ensures
            r == self.length(),
    {
        self.length
    }

    /// Hands out bytes that were read ahead, as many as are there and wanted.
    pub fn drain(&mut self, wanted: usize) -> (r: Vec<u8>)
        ensures
            r@ == old(self).ahead().take(
                stream::lesser(wanted as int, old(self).ahead().len() as int),
            ),
            final(self).ahead() == old(self).ahead().skip(r@.len() as int),
            final(self).position() == old(self).position() + r@.len(),
            final(self).length() == old(self).length(),
    {
        proof {
            use_type_invariant(&*self);
        }
        let available: usize = self.cache.len() - self.used;
        let take: usize = if wanted < available {
            wanted
        } else {
            available
        };
        let out: Vec<u8> = copy_range(self.cache.as_slice(), self.used, self.used + take);
        assert(out@ =~= self.ahead().take(take as int));
        let mut cache: Vec<u8> = Vec::new();
        let position: u64 = self.position + take as u64;
        let used: usize = self.used + take;
        let ghost before = self.ahead();
        self.position = 0;
        self.used = 0;
        std::mem::swap(&mut cache, &mut self.cache);
        assert(cache@.skip(used as int) =~= before.skip(take as int));
        *self = ReadAhead { position, length: self.length, cache, used };
        out
    }

    /// The range to fetch where `wanted` bytes are still missing: its first
    /// and its last byte. There is none at the end of the stream.
    pub fn next_fetch(&self, wanted: usize) -> (r: Option<(u64, u64)>)
        ensures
            if self.position() >= self.length() {
                r is None
            } else {
                let least = if wanted > FETCH_BYTES {
                    wanted
                } else {
                    FETCH_BYTES
                };
                r == Some(
                    (
                        self.position() as u64,
                        (self.position() + stream::lesser(
                            self.length() - self.position(),
                            least as int,
                        ) - 1) as u64,
                    ),
                )
            },
    {
        if self.position >= self.length {
            return None;
        }
        let remaining: u64 = self.length - self.position;
        let least: usize = if wanted > FETCH_BYTES {
            wanted
        } else {
            FETCH_BYTES
        };
        let count: u64 = if remaining < least as u64 {
            remaining
        } else {
            least as u64
        };
        Some((self.position, self.position + (count - 1)))
    }

    /// Takes bytes that were fetched from where the reader is. Tells whether
    /// there were any: where there were none, what was read ahead stays.
    pub fn fill(&mut self, fetched: Vec<u8>) -> (r: bool)
        requires
            old(self).position() + fetched@.len() <= u64::MAX,
        ensures
            r == (fetched@.len() > 0),
            final(self).ahead() == if r {
                fetched@
            } else {
                old(self).ahead()
            },
            final(self).position() == old(self).position(),
            final(self).length() == old(self).length(),
    {
        if fetched.len() == 0 {
            return false;
        }
        *self = ReadAhead {
            position: self.position,
            length: self.length,
            cache: fetched,
            used: 0,
        };
        assert(self.ahead() =~= fetched@);
        true
    }

    /// Goes to a place and forgets what was read ahead. A place before the
    /// start is the start; one that has no number is refused.
    pub fn seek(&mut self, to: SeekTo) -> (r: Option<u64>)
        ensures
            final(self).length() == old(self).length(),
            ({
                let target = seek_target(old(self).position(), old(self).length(), to);
                if target > u64::MAX {
                    r is None && *final(self) == *old(self)
                } else {
                    r == Some(target as u64) && final(self).position() == target
                        && final(self).ahead() == Seq::<u8>::empty()
                }
            }),
    {
        let target: Option<u64> = match to {
            SeekTo::Start(at) => Some(at),
            SeekTo::End(offset) => move_by(self.length, offset),
            SeekTo::Current(offset) => move_by(self.position, offset),
        };
        if let Some(position) = target {
            *self = ReadAhead { position, length: self.length, cache: Vec::new(), used: 0 };
            assert(self.ahead() =~= Seq::<u8>::empty());
        }
        target
    }
}

/// Whether what a reader has read ahead is what a stream holds there.
pub open spec fn follows(content: Seq<u8>, position: int, ahead: Seq<u8>) -> bool {
    0 <= position && (ahead.len() > 0 ==> position + ahead.len() <= content.len() && ahead
        == content.subrange(position, position + ahead.len()))
}

/// A reader that follows a stream hands out the bytes of the stream from where
/// it is, and still follows it behind them.
pub proof fn law_reader_hands_out_the_stream(
    content: Seq<u8>,
    position: int,
    ahead: Seq<u8>,
    taken: int,
)
    requires
        follows(content, position, ahead),
        0 <= taken <= ahead.len(),
    ensures
        taken > 0 ==> ahead.take(taken) == content.subrange(position, position + taken),
        follows(content, position + taken, ahead.skip(taken)),
{
    if taken > 0 {
        assert(ahead.take(taken) =~= content.subrange(position, position + taken));
    }
    if taken < ahead.len() {
        assert(ahead.skip(taken) =~= content.subrange(
            position + taken,
            position + taken + ahead.skip(taken).len(),
        ));
    }
}

/// A seek forward and back again leads to where it started, and so does one from
/// the end that goes back as far as the stream is long. No seek leads to before the
/// start.
pub proof fn law_seeks(position: int, length: int, by: i64)
    requires
        0 <= position,
        0 <= length,
        i64::MIN < by,
    ensures
        position + by >= 0 ==> seek_target(
            seek_target(position, length, SeekTo::Current(by)),
            length,
            SeekTo::Current((-by) as i64),
        ) == position,
        position + by < 0 ==> seek_target(position, length, SeekTo::Current(by)) == 0,
        seek_target(position, length, SeekTo::Current(by)) - seek_target(
            position,
            length,
            SeekTo::Current(0),
        ) == by || seek_target(position, length, SeekTo::Current(by)) == 0 > position + by,
        seek_target(position, length, SeekTo::Current(0)) == position,
        seek_target(position, length, SeekTo::End(0)) == length,
        seek_target(position, length, SeekTo::End(by)) == seek_target(
            length,
            length,
            SeekTo::Current(by),
        ),
        0 <= position <= u64::MAX ==> seek_target(
            position,
            length,
            SeekTo::Start(position as u64),
        ) == position,
{
}

} // verus!
