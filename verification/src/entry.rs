//! The two binary forms that reach the store: an output reference in 36 bytes, a range of
//! sequence numbers in 11.

use vstd::prelude::*;

verus! {

/// One more than the largest start that the packed form holds.
pub const START_LIMIT: u64 = 0x8_0000_0000_0000;

/// One more than the largest length that the packed form holds.
pub const LENGTH_LIMIT: u64 = 0x20_0000_0000;

/// An output reference as the store keys it.
pub type OutPointValue = [u8; 36];

/// A range as the store holds it.
pub type SatRangeValue = [u8; 11];

/// Reference to one output of one transaction.
#[derive(Clone, Copy, Debug)]
pub struct OutPoint {
    /// The transaction's identifier, in the byte order of the wire.
    pub txid: [u8; 32],
    /// The output's index in the transaction.
    pub vout: u32,
}

/// What an [`OutPoint`] stands for.
#[verifier::ext_equal]
pub struct OutPointView {
    pub txid: Seq<u8>,
    pub vout: u32,
}

impl View for OutPoint {
    type V = OutPointView;

    open spec fn view(&self) -> OutPointView {
        OutPointView { txid: self.txid@, vout: self.vout }
    }
}

/// The half-open interval `[start, end)` of sequence numbers.
#[derive(Clone, Copy, Debug, PartialEq, Eq, Structural)]
pub struct SatRange {
    pub start: u64,
    pub end: u64,
}

/// The four bytes of `value`, lowest first.
pub open spec fn le_bytes_of_u32(value: u32) -> Seq<u8> {
    seq![
        (value & 0xff) as u8,
        ((value >> 8) & 0xff) as u8,
        ((value >> 16) & 0xff) as u8,
        ((value >> 24) & 0xff) as u8,
    ]
}

/// The number whose bytes, lowest first, are the first four of `bytes`.
pub open spec fn u32_of_le_bytes(bytes: Seq<u8>) -> u32 {
    (bytes[0] as u32) | (bytes[1] as u32) << 8 | (bytes[2] as u32) << 16 | (bytes[3] as u32) << 24
}

/// The stored form of an output reference: the identifier's 32 bytes, then the index in four
/// bytes, lowest first.
pub open spec fn outpoint_bytes(outpoint: OutPointView) -> Seq<u8> {
    outpoint.txid + le_bytes_of_u32(outpoint.vout)
}

/// The output reference that 36 stored bytes stand for.
pub open spec fn outpoint_of_bytes(bytes: Seq<u8>) -> OutPointView {
    OutPointView { txid: bytes.subrange(0, 32), vout: u32_of_le_bytes(bytes.subrange(32, 36)) }
}

/// The stored forms of a list of output references.
pub open spec fn keys_of(outpoints: Seq<OutPointValue>) -> Seq<Seq<u8>> {
    Seq::new(outpoints.len(), |at: int| outpoints[at]@)
}

/// A range's start and length in one number: the start in the low 51 bits, the length above.
pub open spec fn packed(range: SatRange) -> u128 {
    (range.start as u128) | ((((range.end - range.start) as u64) as u128) << 51)
}

/// The stored form of a range: the 11 lowest bytes of its packed form, lowest first.
pub open spec fn range_bytes(range: SatRange) -> Seq<u8> {
    let n = packed(range);
    seq![
        (n & 0xff) as u8,
        ((n >> 8) & 0xff) as u8,
        ((n >> 16) & 0xff) as u8,
        ((n >> 24) & 0xff) as u8,
        ((n >> 32) & 0xff) as u8,
        ((n >> 40) & 0xff) as u8,
        ((n >> 48) & 0xff) as u8,
        ((n >> 56) & 0xff) as u8,
        ((n >> 64) & 0xff) as u8,
        ((n >> 72) & 0xff) as u8,
        ((n >> 80) & 0xff) as u8,
    ]
}

/// The low 51 bits of the first seven bytes.
pub open spec fn start_of_bytes(bytes: Seq<u8>) -> u64 {
    ((bytes[0] as u64) | (bytes[1] as u64) << 8 | (bytes[2] as u64) << 16 | (bytes[3] as u64) << 24
        | (bytes[4] as u64) << 32 | (bytes[5] as u64) << 40 | (bytes[6] as u64) << 48)
        & 0x7_ffff_ffff_ffff
}

/// Bytes 6 to 10 without their three lowest bits, which belong to the start.
pub open spec fn length_of_bytes(bytes: Seq<u8>) -> u64 {
    ((bytes[6] as u64) | (bytes[7] as u64) << 8 | (bytes[8] as u64) << 16 | (bytes[9] as u64) << 24
        | (bytes[10] as u64) << 32) >> 3
}

/// The range that 11 stored bytes stand for.
pub open spec fn range_of_bytes(bytes: Seq<u8>) -> SatRange {
    SatRange {
        start: start_of_bytes(bytes),
        end: (start_of_bytes(bytes) + length_of_bytes(bytes)) as u64,
    }
}

/// The stored form of a range list: the stored forms of its ranges, one after the other.
pub open spec fn ranges_bytes(ranges: Seq<SatRange>) -> Seq<u8> {
    Seq::new(11 * ranges.len(), |at: int| range_bytes(ranges[at / 11])[at % 11])
}

/// The range list that stored bytes stand for: one range for each full window of 11 bytes, in
/// order.
pub open spec fn ranges_of_bytes(bytes: Seq<u8>) -> Seq<SatRange> {
    Seq::new(bytes.len() / 11, |at: int| range_of_bytes(bytes.subrange(11 * at, 11 * at + 11)))
}

/// No range of the list ends before it starts.
pub open spec fn all_ordered(ranges: Seq<SatRange>) -> bool {
    forall|at: int| 0 <= at < ranges.len() ==> (#[trigger] ranges[at]).ordered()
}

/// The stored form holds every range of the list without loss.
pub open spec fn all_packable(ranges: Seq<SatRange>) -> bool {
    forall|at: int| 0 <= at < ranges.len() ==> (#[trigger] ranges[at]).packable()
}

impl SatRange {
    /// Units in the range.
    pub open spec fn len(self) -> nat {
        (self.end - self.start) as nat
    }

    /// The end does not lie before the start.
    pub open spec fn ordered(self) -> bool {
        self.start <= self.end
    }

    /// The stored form holds the range without loss: the start lies within 51 bits and the
    /// length within 37.
    pub open spec fn packable(self) -> bool {
        &&& self.start <= self.end
        &&& self.start < START_LIMIT
        &&& self.end - self.start < LENGTH_LIMIT
    }

    /// Reads a range from its stored form.
    pub fn load(value: SatRangeValue) -> (range: SatRange)
        ensures
            range == range_of_bytes(value@),
            range.packable(),
    {
        let raw_base: u64 = (value[0] as u64) | (value[1] as u64) << 8 | (value[2] as u64) << 16 | (
        value[3] as u64) << 24 | (value[4] as u64) << 32 | (value[5] as u64) << 40 | (
        value[6] as u64) << 48;
        let base: u64 = raw_base & 0x7_ffff_ffff_ffff;
        let raw_delta: u64 = (value[6] as u64) | (value[7] as u64) << 8 | (value[8] as u64) << 16
            | (value[9] as u64) << 24 | (value[10] as u64) << 32;
        let delta: u64 = raw_delta >> 3;
        proof {
            let (b6, b7, b8, b9, b10) = (value[6], value[7], value[8], value[9], value[10]);
            assert(raw_base & 0x7_ffff_ffff_ffff < 0x8_0000_0000_0000) by (bit_vector);
            assert(((b6 as u64) | (b7 as u64) << 8 | (b8 as u64) << 16 | (b9 as u64) << 24 | (
            b10 as u64) << 32) >> 3 < 0x20_0000_0000) by (bit_vector);
        }
        SatRange { start: base, end: base + delta }
    }

    /// Writes the range in its stored form.
    pub fn store(self) -> (value: SatRangeValue)
        requires
            self.ordered(),
        ensures
            value@ == range_bytes(self),
    {
        let delta: u64 = self.end - self.start;
        let n: u128 = (self.start as u128) | ((delta as u128) << 51);
        let value: SatRangeValue = [
            #[verifier::truncate] ((n & 0xff) as u8),
            #[verifier::truncate] (((n >> 8) & 0xff) as u8),
            #[verifier::truncate] (((n >> 16) & 0xff) as u8),
            #[verifier::truncate] (((n >> 24) & 0xff) as u8),
            #[verifier::truncate] (((n >> 32) & 0xff) as u8),
            #[verifier::truncate] (((n >> 40) & 0xff) as u8),
            #[verifier::truncate] (((n >> 48) & 0xff) as u8),
            #[verifier::truncate] (((n >> 56) & 0xff) as u8),
            #[verifier::truncate] (((n >> 64) & 0xff) as u8),
            #[verifier::truncate] (((n >> 72) & 0xff) as u8),
            #[verifier::truncate] (((n >> 80) & 0xff) as u8),
        ];
        assert(n == packed(self));
        assert(value@ =~= range_bytes(self));
        value
    }
}

impl OutPoint {
    /// Reads an output reference from its stored form.
    pub fn load(value: OutPointValue) -> (outpoint: OutPoint)
        ensures
            outpoint@ == outpoint_of_bytes(value@),
    {
        let mut txid: [u8; 32] = [0u8; 32];
        let mut at: usize = 0;
        while at < 32
            invariant
                at <= 32,
                forall|k: int| 0 <= k < at ==> txid@[k] == value@[k],
            decreases 32 - at,
        {
            txid[at] = value[at];
            at = at + 1;
        }
        let vout: u32 = (value[32] as u32) | (value[33] as u32) << 8 | (value[34] as u32) << 16 | (
        value[35] as u32) << 24;
        let outpoint = OutPoint { txid, vout };
        assert(outpoint@.txid =~= value@.subrange(0, 32));
        outpoint
    }

    /// Writes the output reference in its stored form.
    pub fn store(self) -> (value: OutPointValue)
        ensures
            value@ == outpoint_bytes(self@),
    {
        let mut value: OutPointValue = [0u8; 36];
        let mut at: usize = 0;
        while at < 32
            invariant
                at <= 32,
                forall|k: int| 0 <= k < at ==> value@[k] == self.txid@[k],
            decreases 32 - at,
        {
            value[at] = self.txid[at];
            at = at + 1;
        }
        let vout: u32 = self.vout;
        value[32] = #[verifier::truncate] ((vout & 0xff) as u8);
        value[33] = #[verifier::truncate] (((vout >> 8) & 0xff) as u8);
        value[34] = #[verifier::truncate] (((vout >> 16) & 0xff) as u8);
        value[35] = #[verifier::truncate] (((vout >> 24) & 0xff) as u8);
        assert(value@ =~= outpoint_bytes(self@));
        value
    }
}

/// Reads a range list from its stored form, or nothing where the bytes are no whole number of
/// ranges.
pub fn load_ranges(bytes: &Vec<u8>) -> (loaded: Option<Vec<SatRange>>)
    ensures
        loaded is Some <==> bytes@.len() % 11 == 0,
        loaded matches Some(ranges) ==> ranges@ == ranges_of_bytes(bytes@) && all_packable(ranges@),
{
    if bytes.len() % 11 != 0 {
        return None;
    }
    let count: usize = bytes.len() / 11;
    let mut ranges: Vec<SatRange> = Vec::new();
    let mut at: usize = 0;
    while at < count
        invariant
            at <= count,
            11 * count == bytes@.len() <= usize::MAX,
            ranges@.len() == at,
            forall|k: int| 0 <= k < at ==> #[trigger] ranges@[k] == ranges_of_bytes(bytes@)[k],
            all_packable(ranges@),
        decreases count - at,
    {
        let from: usize = 11 * at;
        let value: SatRangeValue = [
            bytes[from],
            bytes[from + 1],
            bytes[from + 2],
            bytes[from + 3],
            bytes[from + 4],
            bytes[from + 5],
            bytes[from + 6],
            bytes[from + 7],
            bytes[from + 8],
            bytes[from + 9],
            bytes[from + 10],
        ];
        assert(value@ =~= bytes@.subrange(11 * at, 11 * at + 11));
        ranges.push(SatRange::load(value));
        at = at + 1;
    }
    assert(ranges@ =~= ranges_of_bytes(bytes@));
    Some(ranges)
}

/// Writes a range list in its stored form.
pub fn store_ranges(ranges: &Vec<SatRange>) -> (bytes: Vec<u8>)
    requires
        all_ordered(ranges@),
    ensures
        bytes@ == ranges_bytes(ranges@),
{
    let mut bytes: Vec<u8> = Vec::new();
    let mut at: usize = 0;
    while at < ranges.len()
        invariant
            at <= ranges.len(),
            all_ordered(ranges@),
            bytes@ == ranges_bytes(ranges@.take(at as int)),
        decreases ranges.len() - at,
    {
        let value = ranges[at].store();
        let ghost before = bytes@;
        let mut byte: usize = 0;
        while byte < 11
            invariant
                byte <= 11,
                bytes@ == before + value@.take(byte as int),
            decreases 11 - byte,
        {
            bytes.push(value[byte]);
            byte = byte + 1;
            assert(bytes@ =~= before + value@.take(byte as int));
        }
        proof {
            assert(value@.take(11) =~= value@);
            lemma_ranges_bytes_push(ranges@.take(at as int), ranges@[at as int]);
            assert(ranges@.take(at as int + 1) =~= ranges@.take(at as int).push(ranges@[at as int]));
        }
        at = at + 1;
    }
    assert(ranges@.take(at as int) =~= ranges@);
    bytes
}

/// One more range at the end of a list is 11 more bytes at the end of its stored form.
pub proof fn lemma_ranges_bytes_push(ranges: Seq<SatRange>, range: SatRange)
    ensures
        ranges_bytes(ranges.push(range)) == ranges_bytes(ranges) + range_bytes(range),
{
    assert(ranges_bytes(ranges.push(range)) =~= ranges_bytes(ranges) + range_bytes(range));
}

/// **A range list survives the store.** The stored form of a list of packable ranges is 11
/// bytes for each, and reads back as the same list, in the same order.
pub proof fn lemma_ranges_round_trip(ranges: Seq<SatRange>)
    requires
        all_packable(ranges),
    ensures
        ranges_bytes(ranges).len() == 11 * ranges.len(),
        ranges_of_bytes(ranges_bytes(ranges)) == ranges,
{
    let bytes = ranges_bytes(ranges);
    assert forall|at: int| 0 <= at < ranges.len() implies #[trigger] ranges_of_bytes(bytes)[at]
        == ranges[at] by {
        assert(bytes.subrange(11 * at, 11 * at + 11) =~= range_bytes(ranges[at]));
        lemma_range_round_trip(ranges[at]);
    }
    assert(ranges_of_bytes(bytes) =~= ranges);
}

/// **Stored range lists are canonical.** Bytes that are a whole number of ranges read as
/// packable ranges whose stored form is the same bytes.
pub proof fn lemma_ranges_bytes_round_trip(bytes: Seq<u8>)
    requires
        bytes.len() % 11 == 0,
    ensures
        all_packable(ranges_of_bytes(bytes)),
        ranges_bytes(ranges_of_bytes(bytes)) == bytes,
{
    let ranges = ranges_of_bytes(bytes);
    assert forall|at: int| 0 <= at < ranges.len() implies (#[trigger] ranges[at]).packable() by {
        lemma_range_bytes_round_trip(bytes.subrange(11 * at, 11 * at + 11));
    }
    assert forall|at: int| 0 <= at < bytes.len() implies #[trigger] ranges_bytes(ranges)[at]
        == bytes[at] by {
        let window = bytes.subrange(11 * (at / 11), 11 * (at / 11) + 11);
        lemma_range_bytes_round_trip(window);
        assert(window[at % 11] == bytes[at]);
    }
    assert(ranges_bytes(ranges) =~= bytes);
}

/// A packed start and length come back out of the 11 bytes they were written to.
proof fn lemma_unpack(start: u64, length: u64)
    by (bit_vector)
    requires
        start < 0x8_0000_0000_0000,
        length < 0x20_0000_0000,
    ensures
        ({
            let n = (start as u128) | ((length as u128) << 51);
            let b0 = (n & 0xff) as u8;
            let b1 = ((n >> 8) & 0xff) as u8;
            let b2 = ((n >> 16) & 0xff) as u8;
            let b3 = ((n >> 24) & 0xff) as u8;
            let b4 = ((n >> 32) & 0xff) as u8;
            let b5 = ((n >> 40) & 0xff) as u8;
            let b6 = ((n >> 48) & 0xff) as u8;
            let b7 = ((n >> 56) & 0xff) as u8;
            let b8 = ((n >> 64) & 0xff) as u8;
            let b9 = ((n >> 72) & 0xff) as u8;
            let b10 = ((n >> 80) & 0xff) as u8;
            &&& ((b0 as u64) | (b1 as u64) << 8 | (b2 as u64) << 16 | (b3 as u64) << 24 | (
            b4 as u64) << 32 | (b5 as u64) << 40 | (b6 as u64) << 48) & 0x7_ffff_ffff_ffff
                == start
            &&& ((b6 as u64) | (b7 as u64) << 8 | (b8 as u64) << 16 | (b9 as u64) << 24 | (
            b10 as u64) << 32) >> 3 == length
        }),
{
}

/// Eleven bytes come back out of the start and length they were read as.
proof fn lemma_repack(
    b0: u8,
    b1: u8,
    b2: u8,
    b3: u8,
    b4: u8,
    b5: u8,
    b6: u8,
    b7: u8,
    b8: u8,
    b9: u8,
    b10: u8,
)
    by (bit_vector)
    ensures
        ({
            let start = ((b0 as u64) | (b1 as u64) << 8 | (b2 as u64) << 16 | (b3 as u64) << 24 | (
            b4 as u64) << 32 | (b5 as u64) << 40 | (b6 as u64) << 48) & 0x7_ffff_ffff_ffff;
            let length = ((b6 as u64) | (b7 as u64) << 8 | (b8 as u64) << 16 | (b9 as u64) << 24 | (
            b10 as u64) << 32) >> 3;
            let n = (start as u128) | ((length as u128) << 51);
            &&& start < 0x8_0000_0000_0000
            &&& length < 0x20_0000_0000
            &&& (n & 0xff) as u8 == b0
            &&& ((n >> 8) & 0xff) as u8 == b1
            &&& ((n >> 16) & 0xff) as u8 == b2
            &&& ((n >> 24) & 0xff) as u8 == b3
            &&& ((n >> 32) & 0xff) as u8 == b4
            &&& ((n >> 40) & 0xff) as u8 == b5
            &&& ((n >> 48) & 0xff) as u8 == b6
            &&& ((n >> 56) & 0xff) as u8 == b7
            &&& ((n >> 64) & 0xff) as u8 == b8
            &&& ((n >> 72) & 0xff) as u8 == b9
            &&& ((n >> 80) & 0xff) as u8 == b10
        }),
{
}

/// **A range survives the store.** Reading the stored form of a range gives the range back,
/// whenever its start fits in 51 bits and its length in 37; the 33 bits that the largest
/// issuance needs lie within that.
pub proof fn lemma_range_round_trip(range: SatRange)
    requires
        range.packable(),
    ensures
        range_bytes(range).len() == 11,
        range_of_bytes(range_bytes(range)) == range,
{
    lemma_unpack(range.start, (range.end - range.start) as u64);
}

/// **Stored ranges are canonical.** Any 11 bytes read as a packable range, and writing that
/// range gives the same 11 bytes.
pub proof fn lemma_range_bytes_round_trip(bytes: Seq<u8>)
    requires
        bytes.len() == 11,
    ensures
        range_of_bytes(bytes).packable(),
        range_bytes(range_of_bytes(bytes)) == bytes,
{
    lemma_repack(
        bytes[0],
        bytes[1],
        bytes[2],
        bytes[3],
        bytes[4],
        bytes[5],
        bytes[6],
        bytes[7],
        bytes[8],
        bytes[9],
        bytes[10],
    );
    assert(range_bytes(range_of_bytes(bytes)) =~= bytes);
}

/// The four bytes of an index read back as the index, and four bytes read as an index are
/// written back as they were.
proof fn lemma_index_bytes(vout: u32, b0: u8, b1: u8, b2: u8, b3: u8)
    by (bit_vector)
    ensures
        ({
            let c0 = (vout & 0xff) as u8;
            let c1 = ((vout >> 8) & 0xff) as u8;
            let c2 = ((vout >> 16) & 0xff) as u8;
            let c3 = ((vout >> 24) & 0xff) as u8;
            (c0 as u32) | (c1 as u32) << 8 | (c2 as u32) << 16 | (c3 as u32) << 24 == vout
        }),
        ({
            let read = (b0 as u32) | (b1 as u32) << 8 | (b2 as u32) << 16 | (b3 as u32) << 24;
            &&& (read & 0xff) as u8 == b0
            &&& ((read >> 8) & 0xff) as u8 == b1
            &&& ((read >> 16) & 0xff) as u8 == b2
            &&& ((read >> 24) & 0xff) as u8 == b3
        }),
{
}

/// **An output reference survives the store.** Reading the stored form of an output reference
/// gives the reference back.
pub proof fn lemma_outpoint_round_trip(outpoint: OutPointView)
    requires
        outpoint.txid.len() == 32,
    ensures
        outpoint_bytes(outpoint).len() == 36,
        outpoint_of_bytes(outpoint_bytes(outpoint)) == outpoint,
{
    lemma_index_bytes(outpoint.vout, 0, 0, 0, 0);
    let bytes = outpoint_bytes(outpoint);
    assert(bytes.subrange(0, 32) =~= outpoint.txid);
    assert(bytes.subrange(32, 36) =~= le_bytes_of_u32(outpoint.vout));
}

/// **Stored output references are canonical.** Any 36 bytes read as an output reference whose
/// stored form is the same 36 bytes: two references with one stored form are one reference.
pub proof fn lemma_outpoint_bytes_round_trip(bytes: Seq<u8>)
    requires
        bytes.len() == 36,
    ensures
        outpoint_of_bytes(bytes).txid.len() == 32,
        outpoint_bytes(outpoint_of_bytes(bytes)) == bytes,
{
    lemma_index_bytes(0, bytes[32], bytes[33], bytes[34], bytes[35]);
    let tail = bytes.subrange(32, 36);
    assert(le_bytes_of_u32(u32_of_le_bytes(tail)) =~= tail);
    assert(outpoint_bytes(outpoint_of_bytes(bytes)) =~= bytes);
}

} // verus!
