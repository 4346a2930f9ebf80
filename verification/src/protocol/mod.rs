//! MQTT packet formats: the shared field encodings (remaining length,
//! big-endian integers, length-prefixed UTF-8 strings) and one module per packet.

use vstd::prelude::*;
use vstd::utf8::*;

pub mod connack;
pub mod connect;
pub mod connect_packet;
pub mod messages;
pub mod puback;
pub mod publish;
pub mod suback_packet;
pub mod subscribe;

verus! {

/// Why bytes could not be read as the expected packet.
#[derive(Debug, Clone, Copy, PartialEq, Eq, Structural)]
pub enum PacketError {
    /// The input ends before the packet does.
    UnexpectedEof,
    /// A remaining-length field whose fourth byte still has its continuation bit set.
    MalformedRemainingLength,
    /// A string field whose bytes are not well-formed UTF-8.
    InvalidUtf8,
    /// The fixed header names another packet type than the one being read.
    UnexpectedPacketType,
    /// The reserved flag bits of the fixed header are wrong for the packet type.
    InvalidFlags,
    /// The remaining length disagrees with the packet's contents.
    InvalidRemainingLength,
    /// A requested QoS level above 2.
    InvalidQos,
    /// A SUBSCRIBE packet that holds no topic filter.
    NoSubscriptions,
}

/// `128` to the power `k`.
pub open spec fn pow128(k: nat) -> nat
    decreases k,
{
    if k == 0 {
        1
    } else {
        128 * pow128((k - 1) as nat)
    }
}

/// The bytes that encode `n` as an MQTT remaining length: base 128, least
/// significant digit first, with bit 7 set on every byte but the last.
pub open spec fn remaining_length_bytes(n: nat) -> Seq<u8>
    decreases n,
{
    if n < 128 {
        seq![n as u8]
    } else {
        seq![(n % 128 + 128) as u8] + remaining_length_bytes(n / 128)
    }
}

/// Decoding a remaining length from the front of `s` when at most `budget`
/// more bytes may belong to it: the value and the number of bytes it took.
pub open spec fn decode_remaining_length_within(s: Seq<u8>, budget: nat) -> Result<(nat, nat), PacketError>
    decreases budget,
{
    if budget == 0 {
        Err(PacketError::MalformedRemainingLength)
    } else if s.len() == 0 {
        Err(PacketError::UnexpectedEof)
    } else if s[0] < 128 {
        Ok((s[0] as nat, 1))
    } else {
        match decode_remaining_length_within(s.drop_first(), (budget - 1) as nat) {
            Ok((v, c)) => Ok(((s[0] - 128) as nat + 128 * v, c + 1)),
            Err(e) => Err(e),
        }
    }
}

/// The remaining length at the front of `s`: at most four bytes, the value
/// and the number of bytes read.
pub open spec fn spec_remaining_length(s: Seq<u8>) -> Result<(nat, nat), PacketError> {
    decode_remaining_length_within(s, 4)
}

/// The value of continuation bytes `s` (each with bit 7 set), least significant first.
pub open spec fn continuation_value(s: Seq<u8>) -> nat
    decreases s.len(),
{
    if s.len() == 0 {
        0
    } else {
        (s[0] - 128) as nat + 128 * continuation_value(s.drop_first())
    }
}

/// Every byte of `s` has its continuation bit set.
pub open spec fn all_continue(s: Seq<u8>) -> bool {
    forall|i: int| 0 <= i < s.len() ==> s[i] >= 128
}

/// A decoding result after a prefix of `k` continuation bytes worth `value`,
/// with the digits that follow weighted by `mult`.
pub open spec fn shift_length(r: Result<(nat, nat), PacketError>, value: nat, mult: nat, k: nat) -> Result<(nat, nat), PacketError> {
    match r {
        Ok((v, c)) => Ok((value + mult * v, c + k)),
        Err(e) => Err(e),
    }
}

proof fn lemma_mul_assoc_128(p: nat, v: nat)
    ensures
        128 * (p * v) == (128 * p) * v,
{
    assert(128 * (p * v) == (128 * p) * v) by (nonlinear_arith);
}

/// Reading through a prefix of continuation bytes shifts what follows.
proof fn lemma_decode_after_prefix(pre: Seq<u8>, rest: Seq<u8>, budget: nat)
    requires
        all_continue(pre),
        pre.len() <= budget,
    ensures
        decode_remaining_length_within(pre + rest, budget) == shift_length(
            decode_remaining_length_within(rest, (budget - pre.len()) as nat),
            continuation_value(pre),
            pow128(pre.len()),
            pre.len(),
        ),
    decreases pre.len(),
{
    if pre.len() == 0 {
        assert(pre + rest =~= rest);
        match decode_remaining_length_within(rest, budget) {
            Ok((v, c)) => {},
            Err(e) => {},
        }
    } else {
        let tail = pre.drop_first();
        assert(pre[0] >= 128);
        assert(all_continue(tail)) by {
            assert forall|i: int| 0 <= i < tail.len() implies tail[i] >= 128 by {
                assert(tail[i] == pre[i + 1]);
            }
        }
        lemma_decode_after_prefix(tail, rest, (budget - 1) as nat);
        assert((pre + rest).drop_first() =~= tail + rest);
        assert((pre + rest)[0] == pre[0]);
        match decode_remaining_length_within(rest, (budget - pre.len()) as nat) {
            Ok((v, c)) => {
                lemma_mul_assoc_128(pow128(tail.len()), v);
            },
            Err(e) => {},
        }
    }
}

/// Appending a continuation byte adds its digit at the next weight.
proof fn lemma_continuation_value_push(s: Seq<u8>, b: u8)
    requires
        all_continue(s),
        b >= 128,
    ensures
        continuation_value(s.push(b)) == continuation_value(s) + pow128(s.len()) * (b - 128),
    decreases s.len(),
{
    if s.len() == 0 {
        assert(s.push(b).drop_first() =~= Seq::<u8>::empty());
        assert(continuation_value(Seq::<u8>::empty()) == 0);
        assert(s.push(b)[0] == b);
        assert(continuation_value(s.push(b)) == (b - 128) as nat);
        assert(pow128(0) == 1);
    } else {
        let tail = s.drop_first();
        assert(s.push(b).drop_first() =~= tail.push(b));
        assert(s.push(b)[0] == s[0]);
        assert(all_continue(tail)) by {
            assert forall|i: int| 0 <= i < tail.len() implies tail[i] >= 128 by {
                assert(tail[i] == s[i + 1]);
            }
        }
        assert(s[0] >= 128);
        lemma_continuation_value_push(tail, b);
        let p = pow128(tail.len());
        let d = (b - 128) as nat;
        assert(continuation_value(s.push(b)) == (s[0] - 128) as nat + 128 * continuation_value(tail.push(b)));
        assert(continuation_value(tail.push(b)) == continuation_value(tail) + p * d);
        assert(128 * (continuation_value(tail) + p * d) == 128 * continuation_value(tail) + 128 * (p * d))
            by (nonlinear_arith);
        assert(128 * (p * d) == (128 * p) * d) by (nonlinear_arith);
        assert(pow128(s.len()) == 128 * p);
    }
}

/// The value of `k` continuation bytes is below `128^k`.
proof fn lemma_continuation_value_bound(s: Seq<u8>)
    requires
        all_continue(s),
    ensures
        continuation_value(s) < pow128(s.len()),
    decreases s.len(),
{
    if s.len() > 0 {
        let tail = s.drop_first();
        assert(all_continue(tail)) by {
            assert forall|i: int| 0 <= i < tail.len() implies tail[i] >= 128 by {
                assert(tail[i] == s[i + 1]);
            }
        }
        lemma_continuation_value_bound(tail);
        assert(s[0] < 256);
    }
}

/// A decoded remaining length is below 2^28.
pub proof fn lemma_remaining_length_bound(s: Seq<u8>)
    ensures
        spec_remaining_length(s) matches Ok((v, c)) ==> v < 268435456 && 1 <= c <= 4 && c <= s.len(),
{
    reveal_with_fuel(pow128, 5);
    lemma_decoded_below(s, 4);
}

proof fn lemma_decoded_below(s: Seq<u8>, budget: nat)
    ensures
        decode_remaining_length_within(s, budget) matches Ok((v, c)) ==> v < pow128(budget) && 1 <= c <= budget && c <= s.len(),
    decreases budget,
{
    if budget > 0 && s.len() > 0 && s[0] >= 128 {
        lemma_decoded_below(s.drop_first(), (budget - 1) as nat);
    }
    if budget > 0 {
        assert(pow128(budget) == 128 * pow128((budget - 1) as nat));
        assert(pow128((budget - 1) as nat) >= 1) by { lemma_pow128_positive((budget - 1) as nat); }
    }
}

proof fn lemma_pow128_positive(k: nat)
    ensures
        pow128(k) >= 1,
    decreases k,
{
    if k > 0 {
        lemma_pow128_positive((k - 1) as nat);
    }
}

/// A complete or malformed remaining length is not changed by what follows it.
pub proof fn lemma_remaining_length_prefix(pre: Seq<u8>, rest: Seq<u8>, budget: nat)
    requires
        !(decode_remaining_length_within(pre, budget) is Err && decode_remaining_length_within(pre, budget)->Err_0 == PacketError::UnexpectedEof),
    ensures
        decode_remaining_length_within(pre + rest, budget) == decode_remaining_length_within(pre, budget),
    decreases budget,
{
    if budget > 0 && pre.len() > 0 {
        assert((pre + rest)[0] == pre[0]);
        if pre[0] >= 128 {
            assert((pre + rest).drop_first() =~= pre.drop_first() + rest);
            lemma_remaining_length_prefix(pre.drop_first(), rest, (budget - 1) as nat);
        }
    }
}

/// Decoding gives back what encoding wrote, for every length below `128^budget`.
proof fn lemma_remaining_length_roundtrip_within(n: nat, rest: Seq<u8>, budget: nat)
    requires
        n < pow128(budget),
        budget >= 1,
    ensures
        decode_remaining_length_within(remaining_length_bytes(n) + rest, budget)
            == Ok::<(nat, nat), PacketError>((n, remaining_length_bytes(n).len())),
        remaining_length_bytes(n).len() <= budget,
    decreases n,
{
    let bytes = remaining_length_bytes(n);
    if budget == 0 {
    } else if n < 128 {
        assert(bytes == seq![n as u8]);
        assert((bytes + rest)[0] == n as u8);
    } else {
        let first = (n % 128 + 128) as u8;
        let tail = remaining_length_bytes(n / 128);
        assert(n / 128 < pow128((budget - 1) as nat)) by {
            assert(n < 128 * pow128((budget - 1) as nat));
        }
        if budget == 1 {
            assert(pow128(0) == 1);
            assert(false);
        }
        lemma_remaining_length_roundtrip_within(n / 128, rest, (budget - 1) as nat);
        assert(bytes + rest =~= seq![first] + (tail + rest));
        assert((bytes + rest)[0] == first);
        assert((bytes + rest).drop_first() =~= tail + rest);
    }
}

/// A remaining length below 2^28 reads back as itself from its encoding,
/// whatever bytes follow, and takes at most four bytes.
pub proof fn lemma_remaining_length_roundtrip(n: nat, rest: Seq<u8>)
    requires
        n < 268435456,
    ensures
        spec_remaining_length(remaining_length_bytes(n) + rest)
            == Ok::<(nat, nat), PacketError>((n, remaining_length_bytes(n).len())),
        remaining_length_bytes(n).len() <= 4,
{
    reveal_with_fuel(pow128, 5);
    assert(pow128(4) == 268435456);
    lemma_remaining_length_roundtrip_within(n, rest, 4);
}

/// Appends the remaining-length encoding of `length` to `buffer`.
pub fn encode_remaining_length(buffer: &mut Vec<u8>, length: usize)
    ensures
        final(buffer)@ == old(buffer)@ + remaining_length_bytes(length as nat),
{
    let ghost target = old(buffer)@ + remaining_length_bytes(length as nat);
    let mut length: usize = length;
    loop
        invariant_except_break
            buffer@ + remaining_length_bytes(length as nat) == target,
        ensures
            buffer@ == target,
        decreases length,
    {
        let ghost before = buffer@;
        let ghost old_length = length;
        let mut byte: u8 = (length % 128) as u8;
        length = length / 128;
        if length > 0 {
            assert(byte < 128 ==> byte | 0x80 == byte + 128) by (bit_vector);
            byte = byte | 0x80;
        }
        buffer.push(byte);
        if length == 0 {
            assert(buffer@ == before + remaining_length_bytes(old_length as nat));
            break;
        }
        assert(remaining_length_bytes(old_length as nat) == seq![byte] + remaining_length_bytes(length as nat));
        assert(buffer@ + remaining_length_bytes(length as nat) =~= before + (seq![byte] + remaining_length_bytes(length as nat)));
    }
}

/// One step of reading a remaining length byte by byte.
#[derive(Debug, Clone, Copy, PartialEq, Eq, Structural)]
pub enum LengthStep {
    /// The byte was the last one: the remaining length is complete.
    Complete(usize),
    /// More bytes belong to the remaining length.
    Incomplete,
    /// Four bytes have passed and the length still continues.
    Malformed,
}

/// Reads a remaining length one byte at a time, as the bytes arrive.
pub struct RemainingLengthDecoder {
    value: usize,
    multiplier: usize,
    count: usize,
    taken: Ghost<Seq<u8>>,
}

impl RemainingLengthDecoder {
    /// The bytes taken so far.
    pub closed spec fn taken(&self) -> Seq<u8> {
        self.taken@
    }

    /// The decoder's fields agree with the bytes it has taken.
    #[verifier::type_invariant]
    spec fn wf(&self) -> bool {
        &&& self.taken@.len() < 4
        &&& all_continue(self.taken@)
        &&& self.count == self.taken@.len()
        &&& self.multiplier == pow128(self.count as nat)
        &&& self.value == continuation_value(self.taken@)
    }

    /// A decoder that has taken no byte.
    pub fn new() -> (d: Self)
        ensures
            d.taken() == Seq::<u8>::empty(),
    {
        RemainingLengthDecoder { value: 0, multiplier: 1, count: 0, taken: Ghost(Seq::empty()) }
    }

    /// Takes the next byte of the remaining length.
    pub fn push(&mut self, byte: u8) -> (step: LengthStep)
        ensures
            match step {
                LengthStep::Complete(v) => spec_remaining_length(old(self).taken().push(byte))
                    == Ok::<(nat, nat), PacketError>((v as nat, old(self).taken().len() + 1)),
                LengthStep::Malformed => spec_remaining_length(old(self).taken().push(byte))
                    == Err::<(nat, nat), PacketError>(PacketError::MalformedRemainingLength),
                LengthStep::Incomplete => {
                    &&& final(self).taken() == old(self).taken().push(byte)
                    &&& spec_remaining_length(final(self).taken())
                        == Err::<(nat, nat), PacketError>(PacketError::UnexpectedEof)
                },
            },
    {
        proof {
            use_type_invariant(&*self);
        }
        let ghost taken = self.taken@;
        proof {
            lemma_decode_after_prefix(taken, seq![byte], 4);
            lemma_continuation_value_bound(taken);
            reveal_with_fuel(pow128, 4);
            assert(self.multiplier == 1 || self.multiplier == 128 || self.multiplier == 16384
                || self.multiplier == 2097152);
            assert(self.value < self.multiplier);
            assert(self.multiplier * (byte as nat) <= self.multiplier * 255) by (nonlinear_arith)
                requires byte <= 255;
            assert(self.multiplier * 255 <= 2097152 * 255) by (nonlinear_arith)
                requires self.multiplier <= 2097152;
        }
        assert(taken + seq![byte] == taken.push(byte));
        if byte < 128 {
            let v = self.value + self.multiplier * (byte as usize);
            assert(seq![byte][0] == byte);
            assert(decode_remaining_length_within(seq![byte], (4 - taken.len()) as nat)
                == Ok::<(nat, nat), PacketError>((byte as nat, 1)));
            assert(spec_remaining_length(taken.push(byte)) == shift_length(
                decode_remaining_length_within(seq![byte], (4 - taken.len()) as nat),
                continuation_value(taken), pow128(taken.len()), taken.len()));
            return LengthStep::Complete(v);
        }
        if self.count == 3 {
            assert(seq![byte].drop_first() =~= Seq::<u8>::empty());
            return LengthStep::Malformed;
        }
        proof {
            lemma_continuation_value_push(taken, byte);
            let t2 = taken.push(byte);
            assert(all_continue(t2)) by {
                assert forall|i: int| 0 <= i < t2.len() implies t2[i] >= 128 by {
                    if i < taken.len() { assert(t2[i] == taken[i]); }
                }
            }
            lemma_decode_after_prefix(t2, Seq::<u8>::empty(), 4);
            assert(t2 + Seq::<u8>::empty() =~= t2);
        }
        assert(self.multiplier * ((byte - 128) as nat) <= self.multiplier * 127) by (nonlinear_arith)
            requires byte >= 128, byte <= 255;
        *self = RemainingLengthDecoder {
            value: self.value + self.multiplier * ((byte - 128) as usize),
            multiplier: self.multiplier * 128,
            count: self.count + 1,
            taken: Ghost(taken.push(byte)),
        };
        LengthStep::Incomplete
    }
}

/// Reads the remaining length at the front of `stream`: its value and how many
/// bytes it took.
pub fn decode_remaining_length(stream: &[u8]) -> (res: Result<(usize, usize), PacketError>)
    ensures
        match res {
            Ok((v, c)) => spec_remaining_length(stream@) == Ok::<(nat, nat), PacketError>((v as nat, c as nat)),
            Err(e) => spec_remaining_length(stream@) == Err::<(nat, nat), PacketError>(e),
        },
{
    let mut decoder = RemainingLengthDecoder::new();
    let mut i: usize = 0;
    while i < 4
        invariant
            i == decoder.taken().len(),
            i <= stream.len(),
            decoder.taken() == stream@.subrange(0, i as int),
            spec_remaining_length(decoder.taken()) == Err::<(nat, nat), PacketError>(PacketError::UnexpectedEof),
        decreases 4 - i,
    {
        if i == stream.len() {
            assert(stream@ =~= decoder.taken());
            return Err(PacketError::UnexpectedEof);
        }
        let ghost before = decoder.taken();
        let byte = stream[i];
        let step = decoder.push(byte);
        let ghost pre = before.push(byte);
        assert(pre =~= stream@.subrange(0, i + 1));
        assert(stream@ =~= pre + stream@.subrange(i + 1, stream@.len() as int));
        match step {
            LengthStep::Complete(v) => {
                proof { lemma_remaining_length_prefix(pre, stream@.subrange(i + 1, stream@.len() as int), 4); }
                return Ok((v, i + 1));
            },
            LengthStep::Malformed => {
                proof { lemma_remaining_length_prefix(pre, stream@.subrange(i + 1, stream@.len() as int), 4); }
                return Err(PacketError::MalformedRemainingLength);
            },
            LengthStep::Incomplete => {},
        }
        i = i + 1;
    }
    proof {
        use_type_invariant(&decoder);
    }
    assert(false);
    Err(PacketError::MalformedRemainingLength)
}

/// A big-endian 16-bit value.
pub open spec fn be_u16(hi: u8, lo: u8) -> u16 {
    (hi as nat * 256 + lo as nat) as u16
}

/// The two big-endian bytes of `v`.
pub open spec fn u16_bytes(v: u16) -> Seq<u8> {
    seq![(v / 256) as u8, (v % 256) as u8]
}

/// A big-endian 16-bit value at `pos`.
pub open spec fn spec_read_u16(s: Seq<u8>, pos: int) -> Result<u16, PacketError> {
    if pos + 2 > s.len() {
        Err(PacketError::UnexpectedEof)
    } else {
        Ok(be_u16(s[pos], s[pos + 1]))
    }
}

/// Reads a big-endian 16-bit value at `pos`.
pub fn read_u16(stream: &[u8], pos: usize) -> (res: Result<u16, PacketError>)
    ensures
        res == spec_read_u16(stream@, pos as int),
{
    if pos >= stream.len() || stream.len() - pos < 2 {
        return Err(PacketError::UnexpectedEof);
    }
    let hi = stream[pos];
    let lo = stream[pos + 1];
    Ok((hi as u16) * 256 + (lo as u16))
}

/// A length-prefixed UTF-8 string at `pos`: its characters and the position after it.
pub open spec fn spec_read_string(s: Seq<u8>, pos: int) -> Result<(Seq<char>, int), PacketError> {
    if pos + 2 > s.len() {
        Err(PacketError::UnexpectedEof)
    } else {
        let len = s[pos] as int * 256 + s[pos + 1] as int;
        if pos + 2 + len > s.len() {
            Err(PacketError::UnexpectedEof)
        } else if !valid_utf8(s.subrange(pos + 2, pos + 2 + len)) {
            Err(PacketError::InvalidUtf8)
        } else {
            Ok((decode_utf8(s.subrange(pos + 2, pos + 2 + len)), pos + 2 + len))
        }
    }
}

/// A string field read at `pos` ends at least two bytes after it.
pub proof fn lemma_read_string_advances(s: Seq<u8>, pos: int)
    ensures
        spec_read_string(s, pos) matches Ok((text, p)) ==> pos + 2 <= p <= s.len(),
{
}

/// `String::from_utf8` (std): a `String` exactly when the bytes are well-formed
/// UTF-8, holding the characters they encode.
#[verifier::external_body]
fn string_from_utf8(bytes: Vec<u8>) -> (res: Option<String>)
    ensures
        res is Some <==> valid_utf8(bytes@),
        res matches Some(text) ==> text@ == decode_utf8(bytes@),
{
    String::from_utf8(bytes).ok()
}

/// The bytes `stream[start..end]` in a vector of their own.
pub fn copy_bytes(stream: &[u8], start: usize, end: usize) -> (out: Vec<u8>)
    requires
        start <= end <= stream.len(),
    ensures
        out@ == stream@.subrange(start as int, end as int),
{
    let mut out: Vec<u8> = Vec::new();
    let mut i: usize = start;
    while i < end
        invariant
            start <= i <= end <= stream.len(),
            out@ == stream@.subrange(start as int, i as int),
        decreases end - i,
    {
        out.push(stream[i]);
        assert(out@ =~= stream@.subrange(start as int, i + 1));
        i = i + 1;
    }
    out
}

/// Appends `bytes` to `buffer`.
pub fn append_bytes(buffer: &mut Vec<u8>, bytes: &[u8])
    ensures
        final(buffer)@ == old(buffer)@ + bytes@,
{
    let ghost start = buffer@;
    let mut i: usize = 0;
    while i < bytes.len()
        invariant
            i <= bytes.len(),
            buffer@ == start + bytes@.subrange(0, i as int),
        decreases bytes.len() - i,
    {
        buffer.push(bytes[i]);
        assert(buffer@ =~= start + bytes@.subrange(0, i + 1));
        i = i + 1;
    }
    assert(bytes@.subrange(0, bytes@.len() as int) =~= bytes@);
}

/// Appends the two big-endian bytes of `v` to `buffer`.
pub fn push_u16(buffer: &mut Vec<u8>, v: u16)
    ensures
        final(buffer)@ == old(buffer)@ + u16_bytes(v),
{
    buffer.push((v / 256) as u8);
    buffer.push((v % 256) as u8);
    assert(final(buffer)@ =~= old(buffer)@ + u16_bytes(v));
}

/// Reads a length-prefixed UTF-8 string at `pos`: the text and the position after it.
pub fn read_utf8_string(stream: &[u8], pos: usize) -> (res: Result<(String, usize), PacketError>)
    ensures
        match res {
            Ok((text, next)) => spec_read_string(stream@, pos as int) == Ok::<(Seq<char>, int), PacketError>((text@, next as int)),
            Err(e) => spec_read_string(stream@, pos as int) == Err::<(Seq<char>, int), PacketError>(e),
        },
{
    if pos >= stream.len() || stream.len() - pos < 2 {
        return Err(PacketError::UnexpectedEof);
    }
    let len = (stream[pos] as usize) * 256 + (stream[pos + 1] as usize);
    let start = pos + 2;
    if stream.len() - start < len {
        return Err(PacketError::UnexpectedEof);
    }
    let bytes = copy_bytes(stream, start, start + len);
    match string_from_utf8(bytes) {
        Some(text) => Ok((text, start + len)),
        None => Err(PacketError::InvalidUtf8),
    }
}

} // verus!
