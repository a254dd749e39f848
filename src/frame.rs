use vstd::prelude::*;

verus! {

/// Width in bytes of one log record.
pub const MSG_BYTE_LEN: usize = 19;

/// Offset of the little-endian 32-bit timestamp (milliseconds).
pub const TIMESTAMP_AT: usize = 1;

/// Offset of the little-endian 32-bit raw identifier.
pub const RAW_ID_AT: usize = 5;

/// Offset of the data-length-code byte.
pub const DLC_AT: usize = 10;

/// Offset of the payload region.
pub const PAYLOAD_AT: usize = 11;

/// Largest payload a frame can carry; the payload region has this width.
pub const MAX_PAYLOAD_LEN: u8 = 8;

/// Flag bit of the raw identifier that marks extended addressing.
pub const CAN_EFF_FLAG: u32 = 0x8000_0000;

/// Mask of a 29-bit extended arbitration id.
pub const CAN_EXT_ID_MASK: u32 = 0x1FFF_FFFF;

/// Mask of an 11-bit standard arbitration id.
pub const CAN_STD_ID_MASK: u32 = 0x7FF;

/// One fixed-width record as it stands in a log file.
pub struct RawFrame {
    pub timestamp: u32,
    pub raw_id: u32,
    pub dlc: u8,
    /// The first `dlc` bytes of the payload region; empty when `dlc` is out of range.
    pub payload: Vec<u8>,
}

/// Little-endian value of four bytes.
pub open spec fn le_u32(b0: u8, b1: u8, b2: u8, b3: u8) -> int {
    b0 + 256 * b1 + 65536 * b2 + 16777216 * b3
}

/// Little-endian 32-bit value at `at` in `bytes`.
pub open spec fn le_u32_at(bytes: Seq<u8>, at: int) -> int {
    le_u32(bytes[at], bytes[at + 1], bytes[at + 2], bytes[at + 3])
}

/// Number of complete records in a buffer of `len` bytes.
pub open spec fn record_count(len: int) -> int {
    len / (MSG_BYTE_LEN as int)
}

/// Whether a data-length-code fits in the payload region.
pub open spec fn dlc_in_range(dlc: u8) -> bool {
    dlc <= MAX_PAYLOAD_LEN
}

/// The frame held by the record that starts at byte `start`.
pub open spec fn frame_at(bytes: Seq<u8>, start: int, f: RawFrame) -> bool {
    let dlc = bytes[start + DLC_AT as int];
    &&& f.timestamp as int == le_u32_at(bytes, start + TIMESTAMP_AT as int)
    &&& f.raw_id as int == le_u32_at(bytes, start + RAW_ID_AT as int)
    &&& f.dlc == dlc
    &&& f.payload@ == if dlc_in_range(dlc) {
        bytes.subrange(start + PAYLOAD_AT as int, start + PAYLOAD_AT as int + dlc as int)
    } else {
        Seq::<u8>::empty()
    }
}

/// The arbitration id carried by a raw identifier: 29 bits when the
/// extended flag is set, 11 bits otherwise.
pub open spec fn arbitration_id_of(raw_id: u32) -> u32 {
    if raw_id & CAN_EFF_FLAG != 0 {
        raw_id & CAN_EXT_ID_MASK
    } else {
        raw_id & CAN_STD_ID_MASK
    }
}

/// Masks a raw identifier down to its arbitration id.
pub fn arbitration_id(raw_id: u32) -> (r: u32)
    ensures
        r == arbitration_id_of(raw_id),
        raw_id & CAN_EFF_FLAG != 0 ==> r == raw_id & CAN_EXT_ID_MASK,
        raw_id & CAN_EFF_FLAG == 0 ==> r == raw_id & CAN_STD_ID_MASK,
{
    if raw_id & CAN_EFF_FLAG != 0 {
        raw_id & CAN_EXT_ID_MASK
    } else {
        raw_id & CAN_STD_ID_MASK
    }
}

impl RawFrame {
    /// The frame's arbitration id.
    pub fn arb_id(&self) -> (r: u32)
        ensures
            r == arbitration_id_of(self.raw_id),
    {
        arbitration_id(self.raw_id)
    }

    /// Whether the frame's data-length-code fits in the payload region.
    pub fn has_valid_dlc(&self) -> (r: bool)
        ensures
            r == dlc_in_range(self.dlc),
    {
        self.dlc <= MAX_PAYLOAD_LEN
    }
}

fn read_le_u32(bytes: &[u8], at: usize) -> (r: u32)
    requires
        at + 4 <= bytes@.len(),
    ensures
        r as int == le_u32_at(bytes@, at as int),
{
    let b0 = bytes[at] as u32;
    let b1 = bytes[at + 1] as u32;
    let b2 = bytes[at + 2] as u32;
    let b3 = bytes[at + 3] as u32;
    b0 + 256 * b1 + 65536 * b2 + 16777216 * b3
}

/// Decodes the record that starts at `start`.
pub fn read_record(bytes: &[u8], start: usize) -> (f: RawFrame)
    requires
        start + MSG_BYTE_LEN <= bytes@.len(),
    ensures
        frame_at(bytes@, start as int, f),
{
    let len = bytes.len();
    let timestamp = read_le_u32(bytes, start + TIMESTAMP_AT);
    let raw_id = read_le_u32(bytes, start + RAW_ID_AT);
    let dlc = bytes[start + DLC_AT];
    let mut payload: Vec<u8> = Vec::new();
    if dlc <= MAX_PAYLOAD_LEN {
        let from = start + PAYLOAD_AT;
        let mut i: usize = 0;
        while i < dlc as usize
            invariant
                from == start + PAYLOAD_AT,
                len == bytes@.len(),
                start + MSG_BYTE_LEN <= bytes@.len(),
                dlc <= MAX_PAYLOAD_LEN,
                i <= dlc,
                payload@ == bytes@.subrange(from as int, from + i),
            decreases dlc - i,
        {
            payload.push(bytes[from + i]);
            i = i + 1;
            assert(payload@ =~= bytes@.subrange(from as int, from + i));
        }
    }
    proof {
        if dlc > MAX_PAYLOAD_LEN {
            assert(payload@ =~= Seq::<u8>::empty());
        }
    }
    RawFrame { timestamp, raw_id, dlc, payload }
}

/// Splits a buffer into its complete records, in order; a short trailing
/// remainder is ignored.
pub fn read_frames(bytes: &[u8]) -> (frames: Vec<RawFrame>)
    ensures
        frames.len() == record_count(bytes@.len() as int),
        bytes@.len() < MSG_BYTE_LEN ==> frames.len() == 0,
        forall|k: int|
            0 <= k < frames.len() ==> frame_at(bytes@, k * MSG_BYTE_LEN, #[trigger] frames@[k]),
{
    let mut frames: Vec<RawFrame> = Vec::new();
    let mut offset: usize = 0;
    while offset <= bytes.len() && MSG_BYTE_LEN <= bytes.len() - offset
        invariant
            offset <= bytes@.len(),
            offset == frames.len() * MSG_BYTE_LEN,
            forall|k: int|
                0 <= k < frames.len() ==> frame_at(bytes@, k * MSG_BYTE_LEN, #[trigger] frames@[k]),
        decreases bytes@.len() - offset,
    {
        let f = read_record(bytes, offset);
        frames.push(f);
        offset = offset + MSG_BYTE_LEN;
    }
    proof {
        let n = frames.len() as int;
        assert(bytes@.len() - n * 19 < 19);
        assert(n == bytes@.len() as int / 19) by (nonlinear_arith)
            requires
                n * 19 <= bytes@.len() as int,
                bytes@.len() as int - n * 19 < 19,
        ;
    }
    frames
}

} // verus!
