use vstd::prelude::*;
use crate::frame::{RawFrame, arbitration_id_of, dlc_in_range, frame_at, record_count, read_frames, MAX_PAYLOAD_LEN, MSG_BYTE_LEN};

verus! {

#[verifier::external_type_specification]
#[verifier::external_body]
pub struct ExParser(can_decode::Parser);

/// One decoded signal: its declared name and its value rendered as text.
pub struct SignalSample {
    pub name: String,
    pub value: String,
}

/// A message that the bus database matched: its name and its signals.
pub struct DecodedFrame {
    pub name: String,
    pub signals: Vec<SignalSample>,
}

/// A decoded message with the timestamp (milliseconds) of its record.
pub struct ParsedMessage {
    pub timestamp: u32,
    pub decoded: DecodedFrame,
}

/// What the bus database gives for a frame with this arbitration id and payload.
pub uninterp spec fn decoded_of(p: can_decode::Parser, arb_id: u32, payload: Seq<u8>) -> Option<DecodedFrame>;

/// Relies on can_decode::Parser::decode_msg: looks up the message by its
/// arbitration id and decodes each declared signal from the payload, or gives
/// `None` when the id is unknown or a signal does not decode; the result
/// depends on the parser, the id and the payload alone. Each signal's physical
/// value is rendered with `f64`'s `to_string`. A payload of at most eight bytes
/// keeps its bit extraction within a `u64`.
#[verifier::external_body]
fn decode_payload(parser: &can_decode::Parser, arb_id: u32, payload: &[u8]) -> (r: Option<DecodedFrame>)
    requires
        payload@.len() <= MAX_PAYLOAD_LEN,
    ensures
        r == decoded_of(*parser, arb_id, payload@),
{
    parser.decode_msg(arb_id, payload).map(|m| DecodedFrame {
        name: m.name,
        signals: m.signals.into_iter().map(|(name, s)| SignalSample {
            name,
            value: s.value.physical.to_string(),
        }).collect(),
    })
}

/// The messages kept from `frames` given the decode outcome of each frame:
/// the decoded ones, in order, each with its frame's timestamp.
pub open spec fn kept(frames: Seq<RawFrame>, outs: Seq<Option<DecodedFrame>>) -> Seq<ParsedMessage>
    decreases outs.len(),
{
    if outs.len() == 0 {
        Seq::empty()
    } else {
        let n = outs.len() - 1;
        let prev = kept(frames, outs.take(n));
        match outs[n] {
            Some(d) => prev.push(ParsedMessage { timestamp: frames[n].timestamp, decoded: d }),
            None => prev,
        }
    }
}

/// Whether a frame is handed to the bus database: its data-length-code is in
/// range and its payload fits the payload region.
pub open spec fn decodable(f: RawFrame) -> bool {
    dlc_in_range(f.dlc) && f.payload@.len() <= MAX_PAYLOAD_LEN
}

/// The decode outcome of one frame: what the database gives for its masked
/// id and payload, or nothing when the frame is not decodable.
pub open spec fn outcome_of(p: can_decode::Parser, f: RawFrame) -> Option<DecodedFrame> {
    if decodable(f) {
        decoded_of(p, arbitration_id_of(f.raw_id), f.payload@)
    } else {
        None
    }
}

/// The decode outcome of each frame, in order.
pub open spec fn decode_outcomes(p: can_decode::Parser, frames: Seq<RawFrame>) -> Seq<Option<DecodedFrame>> {
    frames.map_values(|f: RawFrame| outcome_of(p, f))
}

/// `frames` are the complete records of `bytes`, in order.
pub open spec fn records_of(bytes: Seq<u8>, frames: Seq<RawFrame>) -> bool {
    &&& frames.len() == record_count(bytes.len() as int)
    &&& forall|k: int| 0 <= k < frames.len() ==> frame_at(bytes, k * MSG_BYTE_LEN, #[trigger] frames[k])
}

/// Asks the bus database to decode each frame, with its masked id and its
/// payload; a frame that is not decodable gets no outcome.
pub fn decode_frames(frames: &Vec<RawFrame>, parser: &can_decode::Parser) -> (outs: Vec<Option<DecodedFrame>>)
    ensures
        outs@ == decode_outcomes(*parser, frames@),
{
    let mut outs: Vec<Option<DecodedFrame>> = Vec::new();
    for i in 0..frames.len()
        invariant
            outs@ == decode_outcomes(*parser, frames@.take(i as int)),
    {
        let f = &frames[i];
        let out = if f.has_valid_dlc() && f.payload.len() <= MAX_PAYLOAD_LEN as usize {
            decode_payload(parser, f.arb_id(), f.payload.as_slice())
        } else {
            None
        };
        outs.push(out);
        proof {
            assert(decode_outcomes(*parser, frames@.take(i + 1)) =~= decode_outcomes(*parser, frames@.take(i as int)).push(out));
        }
    }
    proof {
        assert(frames@.take(frames.len() as int) =~= frames@);
    }
    outs
}

/// Pairs each decoded outcome with its frame's timestamp and drops the
/// frames that did not decode.
pub fn keep_decoded(frames: &Vec<RawFrame>, outcomes: Vec<Option<DecodedFrame>>) -> (msgs: Vec<ParsedMessage>)
    requires
        outcomes.len() == frames.len(),
    ensures
        msgs@ == kept(frames@, outcomes@),
{
    let ghost outs = outcomes@;
    let mut msgs: Vec<ParsedMessage> = Vec::new();
    let mut i: usize = 0;
    for out in it: outcomes
        invariant
            outs.len() == frames.len(),
            it.seq() == outs,
            i == it.index(),
            msgs@ == kept(frames@, outs.take(i as int)),
    {
        proof {
            assert(outs.take(i + 1).take(i as int) =~= outs.take(i as int));
        }
        match out {
            Some(d) => {
                msgs.push(ParsedMessage { timestamp: frames[i].timestamp, decoded: d });
            },
            None => {},
        }
        i = i + 1;
    }
    proof {
        assert(outs.take(i as int) =~= outs);
    }
    msgs
}

/// Decodes every complete record of a log file's bytes, keeping the
/// messages that the bus database matched, in record order.
pub fn parse_log_bytes(bytes: &[u8], parser: &can_decode::Parser) -> (msgs: Vec<ParsedMessage>)
    ensures
        exists|frames: Seq<RawFrame>|
            #[trigger] records_of(bytes@, frames) && msgs@ == kept(frames, decode_outcomes(*parser, frames)),
        bytes@.len() < MSG_BYTE_LEN ==> msgs@.len() == 0,
{
    let frames = read_frames(bytes);
    let outs = decode_frames(&frames, parser);
    let msgs = keep_decoded(&frames, outs);
    proof {
        assert(records_of(bytes@, frames@));
        if bytes@.len() < MSG_BYTE_LEN {
            assert(decode_outcomes(*parser, frames@) =~= Seq::<Option<DecodedFrame>>::empty());
        }
    }
    msgs
}

} // verus!
