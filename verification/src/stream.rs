//! The entertainment streaming packet: a 16-byte header, then 9 bytes per light.
//!
//! Header: the ASCII text `HueStream`, protocol version 1.0, the sequence number,
//! two reserved bytes, the colour space (0, RGB) and one reserved byte.
//! Per light: type 0 (a light), the light id big-endian, then red, green and blue,
//! each as a 16-bit value whose two bytes both hold the 8-bit channel.
use vstd::prelude::*;
use vstd::string::*;

verus! {

/// The bytes of the ASCII text `HueStream`.
pub open spec fn protocol_name() -> Seq<u8> {
    seq![0x48u8, 0x75, 0x65, 0x53, 0x74, 0x72, 0x65, 0x61, 0x6d]
}

/// The 16-byte header of the packet numbered `sequence`.
pub open spec fn header(sequence: u8) -> Seq<u8> {
    protocol_name() + seq![0x01u8, 0x00, sequence, 0x00, 0x00, 0x00, 0x00]
}

/// The 9 bytes that give light `id` the colour (`r`, `g`, `b`).
pub open spec fn light_entry(id: u16, r: u8, g: u8, b: u8) -> Seq<u8> {
    seq![0x00u8, (id / 256) as u8, (id % 256) as u8, r, r, g, g, b, b]
}

/// The entries for `lights`, in order, all with colour (`r`, `g`, `b`).
pub open spec fn light_entries(lights: Seq<u16>, r: u8, g: u8, b: u8) -> Seq<u8>
    decreases lights.len(),
{
    if lights.len() == 0 {
        Seq::empty()
    } else {
        light_entries(lights.drop_last(), r, g, b) + light_entry(lights.last(), r, g, b)
    }
}

/// The packet numbered `sequence` that sets every light in `lights` to (`r`, `g`, `b`).
pub open spec fn color_packet(sequence: u8, lights: Seq<u16>, r: u8, g: u8, b: u8) -> Seq<u8> {
    header(sequence) + light_entries(lights, r, g, b)
}

/// The packet numbered `sequence` that sets every light in `lights` to (`r`, `g`, `b`).
pub fn encode_colors(sequence: u8, lights: &[u16], r: u8, g: u8, b: u8) -> (packet: Vec<u8>)
    ensures
        packet@ == color_packet(sequence, lights@, r, g, b),
{
    let mut packet: Vec<u8> = vec![
        0x48u8, 0x75, 0x65, 0x53, 0x74, 0x72, 0x65, 0x61, 0x6d,
        0x01, 0x00, sequence, 0x00, 0x00, 0x00, 0x00,
    ];
    assert(packet@ =~= header(sequence) + light_entries(lights@.take(0), r, g, b));
    let n = lights.len();
    let mut i: usize = 0;
    while i < n
        invariant
            n == lights@.len(),
            i <= n,
            packet@ == header(sequence) + light_entries(lights@.take(i as int), r, g, b),
        decreases n - i,
    {
        let id = lights[i];
        packet.push(0x00);
        packet.push((id / 256) as u8);
        packet.push((id % 256) as u8);
        packet.push(r);
        packet.push(r);
        packet.push(g);
        packet.push(g);
        packet.push(b);
        packet.push(b);
        assert(lights@.take(i + 1).drop_last() =~= lights@.take(i as int));
        assert(packet@ =~= header(sequence) + light_entries(lights@.take(i + 1), r, g, b));
        i = i + 1;
    }
    assert(lights@.take(n as int) =~= lights@);
    packet
}

proof fn lemma_entries_layout(lights: Seq<u16>, r: u8, g: u8, b: u8)
    ensures
        light_entries(lights, r, g, b).len() == 9 * lights.len(),
        forall|i: int|
            0 <= i < lights.len() ==> #[trigger] light_entries(lights, r, g, b).subrange(
                9 * i,
                9 * i + 9,
            ) == light_entry(lights[i], r, g, b),
    decreases lights.len(),
{
    if lights.len() > 0 {
        let init = lights.drop_last();
        lemma_entries_layout(init, r, g, b);
        let e = light_entries(lights, r, g, b);
        let p = light_entries(init, r, g, b);
        assert forall|i: int| 0 <= i < lights.len() implies #[trigger] e.subrange(9 * i, 9 * i + 9)
            == light_entry(lights[i], r, g, b) by {
            if i < init.len() {
                assert(p.subrange(9 * i, 9 * i + 9) == light_entry(init[i], r, g, b));
                assert(e.subrange(9 * i, 9 * i + 9) =~= p.subrange(9 * i, 9 * i + 9));
            } else {
                assert(e.subrange(9 * i, 9 * i + 9) =~= light_entry(lights.last(), r, g, b));
            }
        }
    }
}

/// A packet is its header followed by one 9-byte entry per light: it is `16 + 9 * n`
/// bytes long for `n` lights, and the entry of the `i`-th light starts at byte `16 + 9 * i`.
pub proof fn law_packet_layout(sequence: u8, lights: Seq<u16>, r: u8, g: u8, b: u8)
    ensures
        color_packet(sequence, lights, r, g, b).len() == 16 + 9 * lights.len(),
        color_packet(sequence, lights, r, g, b).subrange(0, 16) == header(sequence),
        forall|i: int|
            0 <= i < lights.len() ==> #[trigger] color_packet(sequence, lights, r, g, b).subrange(
                16 + 9 * i,
                16 + 9 * i + 9,
            ) == light_entry(lights[i], r, g, b),
{
    lemma_entries_layout(lights, r, g, b);
    let p = color_packet(sequence, lights, r, g, b);
    let e = light_entries(lights, r, g, b);
    assert(p.subrange(0, 16) =~= header(sequence));
    assert forall|i: int| 0 <= i < lights.len() implies #[trigger] p.subrange(16 + 9 * i, 16 + 9 * i + 9)
        == light_entry(lights[i], r, g, b) by {
        assert(e.subrange(9 * i, 9 * i + 9) == light_entry(lights[i], r, g, b));
        assert(p.subrange(16 + 9 * i, 16 + 9 * i + 9) =~= e.subrange(9 * i, 9 * i + 9));
    }
}

/// The light id that an entry's second and third bytes give back, big-endian.
pub open spec fn entry_id(entry: Seq<u8>) -> int {
    entry[1] as int * 256 + entry[2] as int
}

/// An entry gives back the light's id from its big-endian bytes, and each channel
/// twice.
pub proof fn law_entry_round_trip(id: u16, r: u8, g: u8, b: u8)
    ensures
        entry_id(light_entry(id, r, g, b)) == id,
        light_entry(id, r, g, b)[0] == 0,
        light_entry(id, r, g, b)[3] == r && light_entry(id, r, g, b)[4] == r,
        light_entry(id, r, g, b)[5] == g && light_entry(id, r, g, b)[6] == g,
        light_entry(id, r, g, b)[7] == b && light_entry(id, r, g, b)[8] == b,
{
}

/// The numbering of the packets on one stream. It starts at 0 and moves on by one,
/// wrapping from 255 to 0, after each packet that was sent.
pub struct StreamSequence {
    pub sequence: u8,
}

impl StreamSequence {
    pub fn new() -> (s: StreamSequence)
        ensures
            s.sequence == 0,
    {
        StreamSequence { sequence: 0 }
    }

    /// The next packet, setting every light in `lights` to (`r`, `g`, `b`).
    pub fn packet(&self, lights: &[u16], r: u8, g: u8, b: u8) -> (packet: Vec<u8>)
        ensures
            packet@ == color_packet(self.sequence, lights@, r, g, b),
    {
        encode_colors(self.sequence, lights, r, g, b)
    }

    /// Records that the current packet was sent.
    pub fn sent(&mut self)
        ensures
            final(self).sequence == (old(self).sequence + 1) % 256,
    {
        self.sequence = self.sequence.wrapping_add(1);
    }
}

/// The number that the packet gets after `n` packets were sent from `start`.
pub open spec fn after_sent(start: u8, n: nat) -> u8
    decreases n,
{
    if n == 0 {
        start
    } else {
        ((after_sent(start, (n - 1) as nat) + 1) % 256) as u8
    }
}

/// Packet numbers cycle: after `n` packets the number is `start + n` modulo 256.
pub proof fn law_sequence_cycles(start: u8, n: nat)
    ensures
        after_sent(start, n) == (start + n) % 256,
    decreases n,
{
    if n > 0 {
        law_sequence_cycles(start, (n - 1) as nat);
    }
}


/// Every packet, whatever its number, lights and colour, starts with the ASCII bytes of
/// `HueStream`, then version 1.0 (bytes 1, 0), the packet's number, two zero reserved
/// bytes, colour space 0 (RGB) and a zero reserved byte; then, for light `i`, at byte
/// `16 + 9 * i`: a zero type byte, the id's high and low bytes, and red, green and blue
/// each twice.
pub proof fn law_packet_bytes(sequence: u8, lights: Seq<u16>, r: u8, g: u8, b: u8, i: int)
    requires
        0 <= i < lights.len(),
    ensures
        ({
            let p = color_packet(sequence, lights, r, g, b);
            &&& p[0] == 0x48 && p[1] == 0x75 && p[2] == 0x65 && p[3] == 0x53 && p[4] == 0x74
            &&& p[5] == 0x72 && p[6] == 0x65 && p[7] == 0x61 && p[8] == 0x6d
            &&& p[9] == 1 && p[10] == 0
            &&& p[11] == sequence
            &&& p[12] == 0 && p[13] == 0
            &&& p[14] == 0
            &&& p[15] == 0
            &&& p[16 + 9 * i] == 0
            &&& p[16 + 9 * i + 1] as int * 256 + p[16 + 9 * i + 2] as int == lights[i] as int
            &&& p[16 + 9 * i + 3] == r && p[16 + 9 * i + 4] == r
            &&& p[16 + 9 * i + 5] == g && p[16 + 9 * i + 6] == g
            &&& p[16 + 9 * i + 7] == b && p[16 + 9 * i + 8] == b
            &&& p.len() == 16 + 9 * lights.len()
        }),
{
    law_packet_layout(sequence, lights, r, g, b);
    let p = color_packet(sequence, lights, r, g, b);
    let e = p.subrange(16 + 9 * i, 16 + 9 * i + 9);
    assert(e == light_entry(lights[i], r, g, b));
    assert forall|k: int| 0 <= k < 9 implies p[16 + 9 * i + k] == #[trigger] e[k] by {}
    assert(e[0] == p[16 + 9 * i]);
    assert(e[1] == p[16 + 9 * i + 1]);
    assert(e[2] == p[16 + 9 * i + 2]);
    assert(e[3] == p[16 + 9 * i + 3]);
    assert(e[4] == p[16 + 9 * i + 4]);
    assert(e[5] == p[16 + 9 * i + 5]);
    assert(e[6] == p[16 + 9 * i + 6]);
    assert(e[7] == p[16 + 9 * i + 7]);
    assert(e[8] == p[16 + 9 * i + 8]);
    let h = p.subrange(0, 16);
    assert(h == header(sequence));
    assert forall|k: int| 0 <= k < 16 implies p[k] == #[trigger] h[k] by {}
    assert(h[0] == 0x48 && h[1] == 0x75 && h[2] == 0x65 && h[3] == 0x53 && h[4] == 0x74);
    assert(h[5] == 0x72 && h[6] == 0x65 && h[7] == 0x61 && h[8] == 0x6d);
    assert(h[9] == 1 && h[10] == 0 && h[11] == sequence);
    assert(h[12] == 0 && h[13] == 0 && h[14] == 0 && h[15] == 0);
    assert(p[0] == h[0] && p[1] == h[1] && p[2] == h[2] && p[3] == h[3] && p[4] == h[4]);
    assert(p[5] == h[5] && p[6] == h[6] && p[7] == h[7] && p[8] == h[8] && p[9] == h[9]);
    assert(p[10] == h[10] && p[11] == h[11] && p[12] == h[12] && p[13] == h[13]);
    assert(p[14] == h[14] && p[15] == h[15]);
    let id = lights[i];
    assert((id / 256) as u8 as int * 256 + (id % 256) as u8 as int == id as int);
}

/// The value of a hexadecimal digit byte (`0`-`9`, `a`-`f`, `A`-`F`), or -1 for any
/// other byte.
pub open spec fn hex_digit_value(b: u8) -> int {
    let v = b as int;
    if 48 <= v <= 57 {
        v - 48
    } else if 97 <= v <= 102 {
        v - 87
    } else if 65 <= v <= 70 {
        v - 55
    } else {
        -1
    }
}

/// The position of the first byte from `from` on that is no hexadecimal digit, or -1.
pub open spec fn first_non_hex(bytes: Seq<u8>, from: int) -> int
    decreases bytes.len() - from,
{
    if from < 0 || from >= bytes.len() {
        -1
    } else if hex_digit_value(bytes[from]) < 0 {
        from
    } else {
        first_non_hex(bytes, from + 1)
    }
}

/// The bytes that hexadecimal `text` spells, two digits each, high digit first.
pub open spec fn hex_bytes(text: Seq<u8>) -> Seq<u8> {
    Seq::new(
        text.len() / 2,
        |i: int| (16 * hex_digit_value(text[2 * i]) + hex_digit_value(text[2 * i + 1])) as u8,
    )
}

/// Why a client key cannot serve as the stream's pre-shared key.
#[derive(Debug, PartialEq, Eq)]
pub enum StreamKeyError {
    /// The key has an odd number of bytes.
    OddLength,
    /// The byte at `index` is no hexadecimal digit; `c` is that byte read as a character.
    InvalidCharacter { c: char, index: usize },
    /// The key's length does not fit a fixed-size result.
    InvalidLength,
}

/// What decoding the bytes `text` as hexadecimal gives: the bytes spelled, or where it
/// fails, an odd length first, else the first byte that is no digit.
pub open spec fn hex_outcome(text: Seq<u8>) -> Result<Seq<u8>, StreamKeyError> {
    if text.len() % 2 == 1 {
        Err(StreamKeyError::OddLength)
    } else if first_non_hex(text, 0) >= 0 {
        let i = first_non_hex(text, 0);
        Err(StreamKeyError::InvalidCharacter { c: text[i] as char, index: i as usize })
    } else {
        Ok(hex_bytes(text))
    }
}

/// `hex::decode` on the bytes of `text`: two digits to a byte, high digit first, digits
/// `0`-`9`, `a`-`f` and `A`-`F`. It fails with `OddLength` where the number of bytes is
/// odd, and otherwise, going through the bytes in order, at the first byte that is no
/// such digit, giving that byte as a character and its position.
#[verifier::external_body]
fn decode_hex(text: &str) -> (res: Result<Vec<u8>, StreamKeyError>)
    ensures
        match res {
            Ok(bytes) => hex_outcome(text.spec_bytes()) == Ok::<Seq<u8>, StreamKeyError>(bytes@),
            Err(e) => hex_outcome(text.spec_bytes()) == Err::<Seq<u8>, StreamKeyError>(e),
        },
{
    match hex::decode(text) {
        Ok(bytes) => Ok(bytes),
        Err(hex::FromHexError::OddLength) => Err(StreamKeyError::OddLength),
        Err(hex::FromHexError::InvalidHexCharacter { c, index }) => Err(StreamKeyError::InvalidCharacter { c, index }),
        Err(hex::FromHexError::InvalidStringLength) => Err(StreamKeyError::InvalidLength),
    }
}

/// The pre-shared key of the encrypted stream: the bytes that the client key spells
/// in hexadecimal, or why it spells none.
pub fn stream_key(clientkey: &str) -> (key: Result<Vec<u8>, StreamKeyError>)
    ensures
        match key {
            Ok(bytes) => hex_outcome(clientkey.spec_bytes()) == Ok::<Seq<u8>, StreamKeyError>(bytes@),
            Err(e) => hex_outcome(clientkey.spec_bytes()) == Err::<Seq<u8>, StreamKeyError>(e),
        },
{
    decode_hex(clientkey)
}


/// The hexadecimal digit byte for `v` in `0..16`: `0`-`9`, then `a`-`f`, or `A`-`F`
/// when `upper`.
pub open spec fn hex_digit(v: int, upper: bool) -> u8 {
    if v < 10 {
        (48 + v) as u8
    } else if upper {
        (55 + v) as u8
    } else {
        (87 + v) as u8
    }
}

/// `bytes` written in hexadecimal, two digits a byte, high digit first.
pub open spec fn hex_text_of(bytes: Seq<u8>, upper: bool) -> Seq<u8> {
    Seq::new(
        2 * bytes.len(),
        |k: int|
            if k % 2 == 0 {
                hex_digit(bytes[k / 2] as int / 16, upper)
            } else {
                hex_digit(bytes[k / 2] as int % 16, upper)
            },
    )
}

proof fn lemma_all_digits_pass(text: Seq<u8>, from: int)
    requires
        0 <= from,
        forall|k: int| 0 <= k < text.len() ==> hex_digit_value(#[trigger] text[k]) >= 0,
    ensures
        first_non_hex(text, from) == -1,
    decreases text.len() - from,
{
    if from < text.len() {
        lemma_all_digits_pass(text, from + 1);
    }
}

/// Decoding gives back any bytes written in hexadecimal, with lowercase or uppercase
/// digits: each byte is its high digit times sixteen plus its low digit.
pub proof fn law_hex_round_trip(bytes: Seq<u8>, upper: bool)
    ensures
        hex_outcome(hex_text_of(bytes, upper)) == Ok::<Seq<u8>, StreamKeyError>(bytes),
{
    let text = hex_text_of(bytes, upper);
    assert forall|k: int| 0 <= k < text.len() implies hex_digit_value(#[trigger] text[k])
        == if k % 2 == 0 { bytes[k / 2] as int / 16 } else { bytes[k / 2] as int % 16 } by {
    }
    assert(text.len() % 2 == 0);
    lemma_all_digits_pass(text, 0);
    assert forall|i: int| 0 <= i < bytes.len() implies #[trigger] hex_bytes(text)[i] == bytes[i] by {
        assert((2 * i) % 2 == 0 && (2 * i) / 2 == i);
        assert((2 * i + 1) % 2 == 1 && (2 * i + 1) / 2 == i);
        assert(hex_digit_value(text[2 * i]) == bytes[i] as int / 16);
        assert(hex_digit_value(text[2 * i + 1]) == bytes[i] as int % 16);
    }
    assert(hex_bytes(text) =~= bytes);
}

} // verus!
