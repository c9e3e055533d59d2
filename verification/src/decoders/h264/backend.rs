//! The OpenH264 decoder.

use vstd::prelude::*;
use super::bitstream;
use super::bitstream::{parameter_sets_annex_b, sample_to_annex_b};
use super::sps;
use super::sps::check_sets;
use super::{AvcConfig, DecodeError, FrameToken};
use crate::decoders::h264;
use openh264::decoder::{DecodeOptions, DecodedYUV, Decoder, Flush};
use openh264::formats::YUVSource;

verus! {

// --------------------
// Pending tokens
// --------------------

/// Tokens of samples that were submitted and whose frames have not come out.
#[derive(Debug)]
pub struct PendingTokens {
    tokens: Vec<FrameToken>,
}

impl View for PendingTokens {
    type V = Set<u64>;

    closed spec fn view(&self) -> Set<u64> {
        Set::new(|t: u64| self.tokens@.contains(FrameToken(t)))
    }
}

/// Whether a token is the smallest of a set.
pub open spec fn is_smallest(tokens: Set<u64>, t: u64) -> bool {
    &&& tokens.contains(t)
    &&& forall|u: u64| #[trigger] tokens.contains(u) ==> t <= u
}

impl PendingTokens {
    #[verifier::type_invariant]
    closed spec fn in_order(self) -> bool {
        forall|i: int, j: int|
            0 <= i < j < self.tokens@.len() ==> (#[trigger] self.tokens@[i]).0 < (
            #[trigger] self.tokens@[j]).0
    }

    /// No tokens.
    pub fn new() -> (r: Self)
        ensures
            r@ == Set::<u64>::empty(),
    {
        let r: PendingTokens = PendingTokens { tokens: Vec::new() };
        assert(r@ =~= Set::<u64>::empty());
        r
    }

    /// Adds a token. Tells whether it was not there before.
    pub fn insert(&mut self, token: FrameToken) -> (r: bool)
        ensures
            r == !old(self)@.contains(token.0),
            final(self)@ == old(self)@.insert(token.0),
    {
        proof {
            use_type_invariant(&*self);
        }
        let mut place: usize = 0;
        while place < self.tokens.len() && self.tokens[place].0 < token.0
            invariant
                place <= self.tokens@.len(),
                self.in_order(),
                *self == *old(self),
                forall|k: int| 0 <= k < place ==> (#[trigger] self.tokens@[k]).0 < token.0,
            decreases self.tokens@.len() - place,
        {
            place = place + 1;
        }
        let ghost before = self.tokens@;
        if place < self.tokens.len() && self.tokens[place].0 == token.0 {
            assert(before[place as int] == token);
            assert(self@ =~= old(self)@.insert(token.0));
            return false;
        }
        assert forall|k: int| 0 <= k < before.len() implies (#[trigger] before[k]).0 != token.0 by {
            if k > place {
                assert(before[place as int].0 < before[k].0);
            }
        }
        let mut tokens: Vec<FrameToken> = Vec::new();
        std::mem::swap(&mut tokens, &mut self.tokens);
        tokens.insert(place, token);
        proof {
            let after = before.insert(place as int, token);
            assert(tokens@ == after);
            assert forall|i: int, j: int| 0 <= i < j < after.len() implies (#[trigger] after[i]).0
                < (#[trigger] after[j]).0 by {
                let a = if i < place {
                    i
                } else {
                    i - 1
                };
                let b = if j < place {
                    j
                } else {
                    j - 1
                };
                if i != place {
                    assert(after[i] == before[a]);
                }
                if j != place {
                    assert(after[j] == before[b]);
                }
                if i == place {
                    assert(before[b].0 > token.0) by {
                        if b > place {
                            assert(before[place as int].0 < before[b].0);
                        }
                    }
                }
            }
        }
        self.tokens = tokens;
        proof {
            let after = self.tokens@;
            assert forall|t: u64| self@.contains(t) == #[trigger] old(self)@.insert(
                token.0,
            ).contains(t) by {
                if before.contains(FrameToken(t)) {
                    let k = choose|k: int| 0 <= k < before.len() && before[k] == FrameToken(t);
                    let m = if k < place {
                        k
                    } else {
                        k + 1
                    };
                    assert(after[m] == FrameToken(t));
                }
                if after.contains(FrameToken(t)) && t != token.0 {
                    let m = choose|m: int| 0 <= m < after.len() && after[m] == FrameToken(t);
                    let k = if m < place {
                        m
                    } else {
                        m - 1
                    };
                    assert(before[k] == FrameToken(t));
                }
                if t == token.0 {
                    assert(after[place as int] == FrameToken(t));
                }
            }
            assert(self@ =~= old(self)@.insert(token.0));
            assert(!old(self)@.contains(token.0));
        }
        true
    }
}

/// Takes the smallest token.
pub fn take_smallest_token(pending: &mut PendingTokens) -> (r: Option<FrameToken>)
    ensures
        match r {
            Some(t) => is_smallest(old(pending)@, t.0) && final(pending)@ == old(pending)@.remove(
                t.0,
            ),
            None => old(pending)@ == Set::<u64>::empty() && final(pending)@ == old(pending)@,
        },
{
    proof {
        use_type_invariant(&*pending);
    }
    let ghost before = pending.tokens@;
    if pending.tokens.len() == 0 {
        assert(pending@ =~= Set::<u64>::empty());
        return None;
    }
    let mut tokens: Vec<FrameToken> = Vec::new();
    std::mem::swap(&mut tokens, &mut pending.tokens);
    let token: FrameToken = tokens.remove(0);
    proof {
        assert(tokens@ =~= before.remove(0));
        assert(tokens@ =~= before.skip(1));
    }
    pending.tokens = tokens;
    proof {
        let after = pending.tokens@;
        assert(before[0] == token);
        assert forall|u: u64| #[trigger] old(pending)@.contains(u) implies token.0 <= u by {
            let k = choose|k: int| 0 <= k < before.len() && before[k] == FrameToken(u);
            if k > 0 {
                assert(before[0].0 < before[k].0);
            }
        }
        assert forall|t: u64| pending@.contains(t) == #[trigger] old(pending)@.remove(
            token.0,
        ).contains(t) by {
            if after.contains(FrameToken(t)) {
                let k = choose|k: int| 0 <= k < after.len() && after[k] == FrameToken(t);
                assert(before[k + 1] == FrameToken(t));
                assert(before[0].0 < before[k + 1].0);
            }
            if before.contains(FrameToken(t)) && t != token.0 {
                let k = choose|k: int| 0 <= k < before.len() && before[k] == FrameToken(t);
                assert(after[k - 1] == FrameToken(t));
            }
        }
        assert(pending@ =~= old(pending)@.remove(token.0));
        assert(before.contains(FrameToken(token.0)));
    }
    Some(token)
}

// --------------------
// The outside decoder
// --------------------

/// The decoder of the `openh264` crate. It keeps the pictures that later ones
/// are predicted from.
#[verifier::external_type_specification]
#[verifier::external_body]
pub struct ExDecoder(openh264::decoder::Decoder);

/// A decoded picture in three planes: brightness and two of color, each with
/// the distance between its rows.
#[derive(Debug, Clone)]
pub struct PlanarFrame {
    pub y: Vec<u8>,
    pub u: Vec<u8>,
    pub v: Vec<u8>,
    pub y_stride: usize,
    pub u_stride: usize,
    pub v_stride: usize,
    pub width: usize,
    pub height: usize,
}

impl PlanarFrame {
    /// Whether the two planes of color are laid out alike.
    pub open spec fn color_planes_match(self) -> bool {
        self.u_stride == self.v_stride && self.u@.len() == self.v@.len()
    }
}

/// `Decoder::new`: a decoder with default settings, or the text of the error.
/// Whether one can be made is up to the machine.
#[verifier::external_body]
pub(crate) fn new_decoder() -> (r: Result<Decoder, String>) {
    Decoder::new().map_err(|e| e.to_string())
}

/// `Decoder::decode_with_options` without flushing: hands units to the decoder
/// and gives the picture that is complete by then, or the text of the error.
/// The planes of color of a picture have one layout. What a picture shows
/// depends on all the units handed over before and is left unsaid. A sequence
/// parameter set whose cropping leaves nothing of the picture is not to be
/// handed over: the decoder does not turn away every such set, and its pictures
/// are then larger than their planes.
#[verifier::external_body]
pub(crate) fn submit(decoder: &mut Decoder, packet: &[u8]) -> (r: Result<
    Option<PlanarFrame>,
    String,
>)
    requires
        packet@.len() <= i32::MAX,
        sps::sets_fit(packet@),
    ensures
        r matches Ok(Some(f)) ==> f.color_planes_match(),
{
    let options = DecodeOptions::new().flush_after_decode(Flush::NoFlush);
    match decoder.decode_with_options(packet, options) {
        Ok(Some(f)) => {
            let (width, height) = f.dimensions();
            let (y_stride, u_stride, v_stride) = f.strides();
            let (y, u, v) = (f.y().to_vec(), f.u().to_vec(), f.v().to_vec());
            Ok(Some(PlanarFrame { y, u, v, y_stride, u_stride, v_stride, width, height }))
        },
        Ok(None) => Ok(None),
        Err(e) => Err(e.to_string()),
    }
}

/// `Decoder::flush_remaining`: the pictures that the decoder still holds, or
/// the text of the error. The planes of color of a picture have one layout.
/// How many there are and what they show depends on all the units handed over
/// before and is left unsaid.
#[verifier::external_body]
pub(crate) fn flush(decoder: &mut Decoder) -> (r: Result<Vec<PlanarFrame>, String>)
    ensures
        r matches Ok(list) ==> forall|k: int|
            0 <= k < list@.len() ==> (#[trigger] list@[k]).color_planes_match(),
{
    let frames = decoder.flush_remaining().map_err(|e| e.to_string())?;
    Ok(frames.iter().map(|f: &DecodedYUV<'_>| PlanarFrame {
        y: f.y().to_vec(),
        u: f.u().to_vec(),
        v: f.v().to_vec(),
        y_stride: f.strides().0,
        u_stride: f.strides().1,
        v_stride: f.strides().2,
        width: f.dimensions().0,
        height: f.dimensions().1,
    }).collect())
}

// --------------------
// The record
// --------------------

/// What was asked of the outside decoder, and what came of it: a picture or
/// pictures, or the text of an error.
pub enum DecoderEvent {
    /// Units were handed over.
    Submitted { packet: Seq<u8>, outcome: Result<Option<PlanarFrame>, Seq<char>> },
    /// The pictures that were left were asked for.
    Flushed { outcome: Result<Seq<PlanarFrame>, Seq<char>> },
}

/// What came of units.
pub open spec fn picture_outcome(r: Result<Option<PlanarFrame>, String>) -> Result<
    Option<PlanarFrame>,
    Seq<char>,
> {
    match r {
        Ok(picture) => Ok(picture),
        Err(s) => Err(s@),
    }
}

/// What came of asking for the pictures that were left.
pub open spec fn flush_outcome(r: Result<Vec<PlanarFrame>, String>) -> Result<
    Seq<PlanarFrame>,
    Seq<char>,
> {
    match r {
        Ok(pictures) => Ok(pictures@),
        Err(s) => Err(s@),
    }
}

/// The outside decoder with a record of what was asked of it.
struct RecordedDecoder {
    decoder: Decoder,
    record: Ghost<Seq<DecoderEvent>>,
}

impl RecordedDecoder {
    fn submit(&mut self, packet: &[u8]) -> (r: Result<Option<PlanarFrame>, String>)
        requires
            packet@.len() <= i32::MAX,
            sps::sets_fit(packet@),
        ensures
            final(self).record@ == old(self).record@.push(
                DecoderEvent::Submitted { packet: packet@, outcome: picture_outcome(r) },
            ),
            r matches Ok(Some(f)) ==> f.color_planes_match(),
    {
        let r: Result<Option<PlanarFrame>, String> = submit(&mut self.decoder, packet);
        self.record = Ghost(
            self.record@.push(
                DecoderEvent::Submitted { packet: packet@, outcome: picture_outcome(r) },
            ),
        );
        r
    }

    fn flush(&mut self) -> (r: Result<Vec<PlanarFrame>, String>)
        ensures
            final(self).record@ == old(self).record@.push(
                DecoderEvent::Flushed { outcome: flush_outcome(r) },
            ),
            r matches Ok(list) ==> forall|k: int|
                0 <= k < list@.len() ==> (#[trigger] list@[k]).color_planes_match(),
    {
        let r: Result<Vec<PlanarFrame>, String> = flush(&mut self.decoder);
        self.record = Ghost(
            self.record@.push(DecoderEvent::Flushed { outcome: flush_outcome(r) }),
        );
        r
    }
}

// --------------------
// Pairing
// --------------------

/// The error of a picture for which no token is waiting.
pub open spec fn no_token() -> h264::DecodeErrorView {
    h264::DecodeErrorView::BackendContract("OpenH264 emitted a frame without a pending token"@)
}

/// What becomes of a picture while tokens are waiting: it goes under the
/// smallest.
pub open spec fn emitted(
    before: Set<u64>,
    after: Set<u64>,
    frame: PlanarFrame,
    r: Result<(FrameToken, PlanarFrame), DecodeError>,
) -> bool {
    match r {
        Ok((t, f)) => is_smallest(before, t.0) && after == before.remove(t.0) && f == frame,
        Err(e) => before == Set::<u64>::empty() && after == before && e@ == no_token(),
    }
}

/// Pairs a picture with the smallest token that is waiting.
fn emit_frame(pending: &mut PendingTokens, frame: PlanarFrame) -> (r: Result<
    (FrameToken, PlanarFrame),
    DecodeError,
>)
    ensures
        emitted(old(pending)@, final(pending)@, frame, r),
{
    match take_smallest_token(pending) {
        Some(token) => Ok((token, frame)),
        None => Err(
            DecodeError::BackendContract(
                "OpenH264 emitted a frame without a pending token".to_owned(),
            ),
        ),
    }
}

/// What becomes of the outcome of units while tokens are waiting.
pub open spec fn paired(
    before: Set<u64>,
    after: Set<u64>,
    outcome: Result<Option<PlanarFrame>, Seq<char>>,
    r: Result<Option<(FrameToken, PlanarFrame)>, DecodeError>,
) -> bool {
    match outcome {
        Ok(Some(frame)) => match r {
            Ok(Some(found)) => emitted(before, after, frame, Ok(found)),
            Ok(None) => false,
            Err(e) => emitted(before, after, frame, Err(e)),
        },
        Ok(None) => r matches Ok(None) && after == before,
        Err(s) => r matches Err(e) && e@ == h264::DecodeErrorView::Backend(s) && after == before,
    }
}

/// Pairs the picture that came out, if any, with the smallest token that is
/// waiting.
pub fn pair_picture(
    pending: &mut PendingTokens,
    outcome: Result<Option<PlanarFrame>, String>,
) -> (r: Result<Option<(FrameToken, PlanarFrame)>, DecodeError>)
    ensures
        paired(old(pending)@, final(pending)@, picture_outcome(outcome), r),
{
    match outcome {
        Ok(Some(frame)) => match emit_frame(pending, frame) {
            Ok(found) => Ok(Some(found)),
            Err(e) => Err(e),
        },
        Ok(None) => Ok(None),
        Err(s) => Err(DecodeError::Backend(s)),
    }
}

/// What becomes of pictures while tokens are waiting: each goes under the
/// smallest that is left, unless there are more pictures than tokens.
pub open spec fn all_paired(
    before: Set<u64>,
    after: Set<u64>,
    pictures: Seq<PlanarFrame>,
    r: Result<Vec<(FrameToken, PlanarFrame)>, DecodeError>,
) -> bool {
    match r {
        Ok(list) => {
            &&& drained(before, after, list@)
            &&& list@.len() == pictures.len()
            &&& forall|k: int| 0 <= k < list@.len() ==> (#[trigger] list@[k]).1 == pictures[k]
        },
        Err(e) => {
            &&& e@ == no_token()
            &&& after == Set::<u64>::empty()
            &&& exists|list: Seq<(FrameToken, PlanarFrame)>|
                list.len() < pictures.len() && #[trigger] drained(before, Set::<u64>::empty(), list)
        },
    }
}

/// Pairs pictures with the smallest tokens that are waiting.
pub fn pair_pictures(pending: &mut PendingTokens, pictures: Vec<PlanarFrame>) -> (r: Result<
    Vec<(FrameToken, PlanarFrame)>,
    DecodeError,
>)
    ensures
        all_paired(old(pending)@, final(pending)@, pictures@, r),
{
    let ghost all = pictures@;
    let mut frames: Vec<PlanarFrame> = pictures;
    let mut out: Vec<(FrameToken, PlanarFrame)> = Vec::new();
    let mut i: usize = 0;
    while i < frames.len()
        invariant
            i <= frames@.len(),
            out@.len() == i,
            frames@.len() == all.len(),
            all == pictures@,
            forall|k: int| i <= k < all.len() ==> #[trigger] frames@[k] == all[k],
            forall|k: int| 0 <= k < out@.len() ==> (#[trigger] out@[k]).1 == all[k],
            drained(old(pending)@, pending@, out@),
        decreases frames@.len() - i,
    {
        let mut frame: PlanarFrame = PlanarFrame {
            y: Vec::new(),
            u: Vec::new(),
            v: Vec::new(),
            y_stride: 0,
            u_stride: 0,
            v_stride: 0,
            width: 0,
            height: 0,
        };
        assert(frames@[i as int] == all[i as int]);
        std::mem::swap(&mut frame, &mut frames[i]);
        let ghost before = out@;
        let ghost waiting = pending@;
        match emit_frame(pending, frame) {
            Ok(found) => {
                proof {
                    lemma_drained_more(old(pending)@, waiting, before, found);
                }
                out.push(found);
            },
            Err(e) => {
                assert(drained(old(pending)@, Set::<u64>::empty(), before));
                return Err(e);
            },
        }
        i = i + 1;
    }
    Ok(out)
}

// --------------------
// Decoding
// --------------------

/// The error of a sample or a parameter set that cannot be rewritten.
pub open spec fn bitstream_error(kind: bitstream::NalError) -> h264::DecodeErrorView {
    h264::DecodeErrorView::Bitstream(bitstream::nal_error_words(kind))
}

/// The error of a sequence parameter set whose cropping cannot be followed.
pub open spec fn cropping_error() -> h264::DecodeErrorView {
    h264::DecodeErrorView::Bitstream("AVC parameter set leaves nothing of the picture"@)
}

fn refused_cropping() -> (r: DecodeError)
    ensures
        r@ == cropping_error(),
{
    DecodeError::Bitstream("AVC parameter set leaves nothing of the picture".to_owned())
}

/// What is wrong with the outcome of parameter sets: no picture may come out.
pub open spec fn priming_error(outcome: Result<Option<PlanarFrame>, Seq<char>>) -> Option<
    h264::DecodeErrorView,
> {
    match outcome {
        Ok(Some(_)) => Some(
            h264::DecodeErrorView::BackendContract(
                "OpenH264 emitted a frame for AVC parameter sets"@,
            ),
        ),
        Ok(None) => None,
        Err(s) => Some(h264::DecodeErrorView::Backend(s)),
    }
}

/// Judges the outcome of parameter sets.
pub fn after_parameter_sets(outcome: Result<Option<PlanarFrame>, String>) -> (r: Result<
    (),
    DecodeError,
>)
    ensures
        match priming_error(picture_outcome(outcome)) {
            None => r is Ok,
            Some(error) => r matches Err(e) && e@ == error,
        },
{
    match outcome {
        Ok(Some(_)) => Err(
            DecodeError::BackendContract(
                "OpenH264 emitted a frame for AVC parameter sets".to_owned(),
            ),
        ),
        Ok(None) => Ok(()),
        Err(s) => Err(DecodeError::Backend(s)),
    }
}

/// A decoder that pairs each picture that comes out with the smallest token
/// that is waiting for one.
pub struct OpenH264Decoder {
    decoder: RecordedDecoder,
    pending: PendingTokens,
    annex_b: Vec<u8>,
    length_size: usize,
}

/// What opening gives for a configuration once the outside decoder is made. A
/// configuration without parameter sets asks nothing of it.
pub open spec fn opened(
    config: h264::AvcConfigView,
    length_size: int,
    r: Result<OpenH264Decoder, DecodeError>,
) -> bool {
    let (packet, error) = bitstream::headers(config);
    match error {
        Some(kind) => r matches Err(e) && e@ == bitstream_error(kind),
        None => if packet.len() == 0 {
            r matches Ok(d) && d.is_ready(length_size) && d.record() == Seq::<DecoderEvent>::empty()
        } else if !sps::sets_fit(packet) {
            r matches Err(e) && e@ == cropping_error()
        } else {
            exists|outcome: Result<Option<PlanarFrame>, Seq<char>>| #[trigger]
                opened_after(packet, outcome, length_size, r)
        },
    }
}

/// What opening gives where parameter sets were handed over with an outcome.
pub open spec fn opened_after(
    packet: Seq<u8>,
    outcome: Result<Option<PlanarFrame>, Seq<char>>,
    length_size: int,
    r: Result<OpenH264Decoder, DecodeError>,
) -> bool {
    match priming_error(outcome) {
        None => {
            &&& r matches Ok(d)
            &&& d.is_ready(length_size)
            &&& d.record() == seq![DecoderEvent::Submitted { packet, outcome }]
        },
        Some(error) => r matches Err(e) && e@ == error,
    }
}

impl OpenH264Decoder {
    /// The tokens that are waiting for pictures.
    pub closed spec fn waiting(self) -> Set<u64> {
        self.pending@
    }

    /// The size of the lengths in front of the units of a sample.
    pub closed spec fn length_size(self) -> int {
        self.length_size as int
    }

    /// What was asked of the outside decoder so far, in order, and what came of
    /// it each time.
    pub closed spec fn record(self) -> Seq<DecoderEvent> {
        self.decoder.record@
    }

    /// Whether no token is waiting yet.
    pub open spec fn is_ready(self, length_size: int) -> bool {
        self.waiting() == Set::<u64>::empty() && self.length_size() == length_size
    }

    /// A decoder that knows the parameter sets of a configuration. Whether one
    /// can be made is up to the machine.
    pub fn open(config: &AvcConfig) -> (r: Result<Self, DecodeError>)
        ensures
            ({
                ||| opened(config@, config.length_size as int, r)
                ||| r matches Err(e) && e@ is Backend
            }),
    {
        Self::open_with(new_decoder(), config)
    }

    /// A decoder that knows the parameter sets of a configuration, over an
    /// outside decoder or the text of the error that came in its place.
    pub fn open_with(made: Result<Decoder, String>, config: &AvcConfig) -> (r: Result<
        Self,
        DecodeError,
    >)
        ensures
            match made {
                Ok(_) => opened(config@, config.length_size as int, r),
                Err(s) => r matches Err(e) && e@ == h264::DecodeErrorView::Backend(s@),
            },
    {
        let decoder: Decoder = match made {
            Ok(decoder) => decoder,
            Err(s) => {
                return Err(DecodeError::Backend(s));
            },
        };
        let headers: Vec<u8> = match parameter_sets_annex_b(config) {
            Ok(headers) => headers,
            Err(e) => {
                return Err(e);
            },
        };
        let mut recorded: RecordedDecoder = RecordedDecoder {
            decoder,
            record: Ghost(Seq::empty()),
        };
        let ghost mut outcome: Result<Option<PlanarFrame>, Seq<char>> = Ok(None);
        if headers.len() > 0 {
            proof {
                bitstream::lemma_headers_fit(config@);
            }
            if !check_sets(headers.as_slice()) {
                return Err(refused_cropping());
            }
            let given: Result<Option<PlanarFrame>, String> = recorded.submit(headers.as_slice());
            proof {
                outcome = picture_outcome(given);
            }
            if let Err(e) = after_parameter_sets(given) {
                let r: Result<Self, DecodeError> = Err(e);
                assert(opened_after(headers@, outcome, config.length_size as int, r));
                return r;
            }
            assert(recorded.record@ =~= seq![
                DecoderEvent::Submitted { packet: headers@, outcome },
            ]);
        }
        let r: Result<Self, DecodeError> = Ok(
            OpenH264Decoder {
                decoder: recorded,
                pending: PendingTokens::new(),
                annex_b: Vec::new(),
                length_size: config.length_size,
            },
        );
        assert(headers@.len() > 0 ==> opened_after(
            headers@,
            outcome,
            config.length_size as int,
            r,
        ));
        r
    }

    /// Submits one sample under a token and gives the picture that is complete
    /// by then, under the smallest token that is waiting. A token that waits
    /// already is refused; one whose sample fails goes on waiting.
    pub fn decode(&mut self, sample: &[u8], token: FrameToken) -> (r: Result<
        Option<(FrameToken, PlanarFrame)>,
        DecodeError,
    >)
        ensures
            final(self).length_size() == old(self).length_size(),
            r matches Ok(Some((_, f))) ==> f.color_planes_match(),
            if old(self).waiting().contains(token.0) {
                &&& r matches Err(e) && e@ == h264::DecodeErrorView::BackendContract(
                    "duplicate token submitted to OpenH264"@,
                )
                &&& final(self).waiting() == old(self).waiting()
                &&& final(self).record() == old(self).record()
            } else {
                let waiting = old(self).waiting().insert(token.0);
                let (packet, error) = bitstream::converted(
                    sample@,
                    old(self).length_size(),
                    Seq::empty(),
                );
                if error is Some || !sps::sets_fit(packet) {
                    &&& r matches Err(e) && e@ == (match error {
                        Some(kind) => bitstream_error(kind),
                        None => cropping_error(),
                    })
                    &&& final(self).waiting() == waiting
                    &&& final(self).record() == old(self).record()
                } else {
                    &&& final(self).record().len() == old(self).record().len() + 1
                    &&& final(self).record().drop_last() == old(self).record()
                    &&& final(self).record().last() matches DecoderEvent::Submitted {
                        packet: given,
                        outcome,
                    } && given == packet && paired(waiting, final(self).waiting(), outcome, r)
                }
            },
    {
        if !self.pending.insert(token) {
            assert(self.pending@ =~= old(self).pending@);
            return Err(
                DecodeError::BackendContract("duplicate token submitted to OpenH264".to_owned()),
            );
        }
        if let Err(e) = sample_to_annex_b(sample, self.length_size, &mut self.annex_b) {
            return Err(e);
        }
        proof {
            bitstream::lemma_converted_fits(sample@, self.length_size as int, Seq::empty());
        }
        if !check_sets(self.annex_b.as_slice()) {
            return Err(refused_cropping());
        }
        let outcome: Result<Option<PlanarFrame>, String> = self.decoder.submit(
            self.annex_b.as_slice(),
        );
        assert(self.record().drop_last() =~= old(self).record());
        pair_picture(&mut self.pending, outcome)
    }

    /// Gives the pictures that are left, each under the smallest token that is
    /// waiting.
    pub fn drain(&mut self) -> (r: Result<Vec<(FrameToken, PlanarFrame)>, DecodeError>)
        ensures
            final(self).length_size() == old(self).length_size(),
            r matches Ok(list) ==> forall|k: int|
                0 <= k < list@.len() ==> (#[trigger] list@[k]).1.color_planes_match(),
            final(self).record().len() == old(self).record().len() + 1,
            final(self).record().drop_last() == old(self).record(),
            final(self).record().last() matches DecoderEvent::Flushed { outcome } && match outcome {
                Ok(pictures) => all_paired(
                    old(self).waiting(),
                    final(self).waiting(),
                    pictures,
                    r,
                ),
                Err(s) => r matches Err(e) && e@ == h264::DecodeErrorView::Backend(s)
                    && final(self).waiting() == old(self).waiting(),
            },
    {
        let outcome: Result<Vec<PlanarFrame>, String> = self.decoder.flush();
        assert(self.record().drop_last() =~= old(self).record());
        match outcome {
            Ok(pictures) => pair_pictures(&mut self.pending, pictures),
            Err(s) => Err(DecodeError::Backend(s)),
        }
    }
}

/// The tokens that wait after the first `n` pictures came out.
pub open spec fn left_waiting(
    before: Set<u64>,
    list: Seq<(FrameToken, PlanarFrame)>,
    n: int,
) -> Set<u64>
    decreases n,
{
    if n <= 0 {
        before
    } else {
        left_waiting(before, list, n - 1).remove(list[n - 1].0.0)
    }
}

/// Whether pictures came out under the smallest waiting tokens, one after the
/// other.
pub open spec fn drained(
    before: Set<u64>,
    after: Set<u64>,
    list: Seq<(FrameToken, PlanarFrame)>,
) -> bool {
    &&& after == left_waiting(before, list, list.len() as int)
    &&& forall|k: int|
        0 <= k < list.len() ==> is_smallest(
            left_waiting(before, list, k),
            (#[trigger] list[k]).0.0,
        )
}

/// The first pictures decide which tokens wait after them.
proof fn lemma_waiting_by_prefix(
    before: Set<u64>,
    a: Seq<(FrameToken, PlanarFrame)>,
    b: Seq<(FrameToken, PlanarFrame)>,
    n: int,
)
    requires
        n <= a.len(),
        n <= b.len(),
        forall|k: int| 0 <= k < n ==> (#[trigger] a[k]).0 == b[k].0,
    ensures
        left_waiting(before, a, n) == left_waiting(before, b, n),
    decreases n,
{
    if n > 0 {
        lemma_waiting_by_prefix(before, a, b, n - 1);
        assert(a[n - 1].0 == b[n - 1].0);
    }
}

/// One more picture under the smallest waiting token.
proof fn lemma_drained_more(
    before: Set<u64>,
    waiting: Set<u64>,
    list: Seq<(FrameToken, PlanarFrame)>,
    found: (FrameToken, PlanarFrame),
)
    requires
        drained(before, waiting, list),
        is_smallest(waiting, found.0.0),
    ensures
        drained(before, waiting.remove(found.0.0), list.push(found)),
{
    let all = list.push(found);
    assert forall|k: int| 0 <= k < all.len() implies is_smallest(
        left_waiting(before, all, k),
        (#[trigger] all[k]).0.0,
    ) by {
        lemma_waiting_by_prefix(before, all, list, k);
        if k < list.len() {
            assert(all[k] == list[k]);
        }
    }
    lemma_waiting_by_prefix(before, all, list, list.len() as int);
}

/// Pictures that are left come out in the order of their tokens.
pub proof fn law_drained_in_order(
    before: Set<u64>,
    after: Set<u64>,
    list: Seq<(FrameToken, PlanarFrame)>,
    i: int,
    j: int,
)
    requires
        drained(before, after, list),
        0 <= i < j < list.len(),
    ensures
        list[i].0.0 < list[j].0.0,
{
    let t = list[j].0.0;
    assert(left_waiting(before, list, j).contains(t));
    lemma_waiting_shrinks(before, list, i + 1, j, t);
    assert(left_waiting(before, list, i + 1).contains(t));
    assert(left_waiting(before, list, i).contains(t));
    assert(is_smallest(left_waiting(before, list, i), list[i].0.0));
}

/// A token that waits later waited before.
proof fn lemma_waiting_shrinks(
    before: Set<u64>,
    list: Seq<(FrameToken, PlanarFrame)>,
    a: int,
    b: int,
    t: u64,
)
    requires
        0 <= a <= b,
        left_waiting(before, list, b).contains(t),
    ensures
        left_waiting(before, list, a).contains(t),
    decreases b,
{
    if a < b {
        lemma_waiting_shrinks(before, list, a, b - 1, t);
    }
}

/// Pictures that come out one after the other go under rising tokens, each under one
/// that waited, and the second not under the first one's.
pub proof fn law_pictures_come_out_in_order(
    before: Set<u64>,
    between: Set<u64>,
    after: Set<u64>,
    first: PlanarFrame,
    second: PlanarFrame,
    a: (FrameToken, PlanarFrame),
    b: (FrameToken, PlanarFrame),
)
    requires
        paired(before, between, Ok(Some(first)), Ok(Some(a))),
        paired(between, after, Ok(Some(second)), Ok(Some(b))),
    ensures
        a.0.0 < b.0.0,
        before.contains(a.0.0),
        before.contains(b.0.0),
        forall|t: u64| #[trigger] before.contains(t) ==> a.0.0 <= t,
        forall|t: u64| #[trigger]
            after.contains(t) <==> before.contains(t) && t != a.0.0 && t != b.0.0,
        a.1 == first,
        b.1 == second,
{
}

} // verus!
