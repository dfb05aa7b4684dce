//! The 14-character position identifier.
//!
//! The 10-byte key is written in the standard base64 alphabet, six bits to a
//! character, most significant bits first as base64 reads bytes. Ten bytes
//! give thirteen full characters and one carrying four bits; the two padding
//! characters of full base64 are implied and dropped.

use vstd::prelude::*;
use crate::position::State;
use crate::encoding::{bit_of_byte, key_bits, enc_bits, decodable, pow2_small};
use crate::Error;

verus! {

/// The base64 character for a six-bit value, as a byte of ASCII.
pub open spec fn b64_byte(v: int) -> u8 {
    if 0 <= v < 26 {
        (65 + v) as u8
    } else if 26 <= v < 52 {
        (97 + v - 26) as u8
    } else if 52 <= v < 62 {
        (48 + v - 52) as u8
    } else if v == 62 {
        43u8
    } else {
        47u8
    }
}

/// Distinct six-bit values get distinct characters.
pub proof fn lemma_b64_byte_injective(v1: int, v2: int)
    requires
        0 <= v1 < 64,
        0 <= v2 < 64,
        b64_byte(v1) == b64_byte(v2),
    ensures
        v1 == v2,
{
}

/// No well-formed position with `n` checkers a side has this identifier.
pub open spec fn no_position_has_id(id: Seq<char>, n: int) -> bool {
    forall|p: State|
        !(p.wf() && p.x_total() == n && p.o_total() == n && id =~= #[trigger] id_of(p))
}

/// An identifier of the wrong length belongs to no position.
pub proof fn lemma_no_id_wrong_length(id: Seq<char>, n: int)
    requires
        id.len() != 14,
    ensures
        no_position_has_id(id, n),
{
    assert forall|p: State|
        !(p.wf() && p.x_total() == n && p.o_total() == n && id =~= #[trigger] id_of(p)) by {
        assert(id_of(p).len() == 14);
    }
}

/// Character `g` of `id` is no base64 character at all.
pub open spec fn char_outside_alphabet(id: Seq<char>, g: int) -> bool {
    forall|v: int| 0 <= v < 64 ==> id[g] != #[trigger] b64_byte(v) as char
}

/// The value a byte of the stream has, rebuilt from its bits.
pub open spec fn byte_val(bits: Seq<bool>, j: int) -> int {
    (if bits[8 * j] { 1int } else { 0int })
    + (if bits[8 * j + 1] { 2int } else { 0int })
    + (if bits[8 * j + 2] { 4int } else { 0int })
    + (if bits[8 * j + 3] { 8int } else { 0int })
    + (if bits[8 * j + 4] { 16int } else { 0int })
    + (if bits[8 * j + 5] { 32int } else { 0int })
    + (if bits[8 * j + 6] { 64int } else { 0int })
    + (if bits[8 * j + 7] { 128int } else { 0int })
}

/// Byte `j` of a position's key.
pub open spec fn key_byte(s: State, j: int) -> int {
    byte_val(enc_bits(s), j)
}

/// The six-bit value of identifier character `g`, read from the key bytes as
/// base64 reads them: most significant bits first, three bytes to four
/// characters, and the last character carrying the top four bits of the last
/// byte.
pub open spec fn id_val(s: State, g: int) -> int {
    let j = 3 * (g / 4);
    if g == 13 {
        (key_byte(s, 9) % 4) * 16
    } else if g % 4 == 0 {
        key_byte(s, j) / 4
    } else if g % 4 == 1 {
        (key_byte(s, j) % 4) * 16 + key_byte(s, j + 1) / 16
    } else if g % 4 == 2 {
        (key_byte(s, j + 1) % 16) * 4 + key_byte(s, j + 2) / 64
    } else {
        key_byte(s, j + 2) % 64
    }
}

/// The canonical 14-character identifier of a position.
pub open spec fn id_of(s: State) -> Seq<char> {
    Seq::new(14, |g: int| b64_byte(id_val(s, g)) as char)
}

/// A byte whose bits match a slice of the stream has the value those bits
/// rebuild.
pub proof fn lemma_byte_determined(b: u8, bits: Seq<bool>, j: int)
    requires
        0 <= j,
        8 * j + 8 <= bits.len(),
        forall|i: int| 0 <= i < 8 ==> bit_of_byte(b, i) == bits[8 * j + i],
    ensures
        b as int == byte_val(bits, j),
{
    reveal(bit_of_byte);
    let bi = b as int;
    assert(bi == bi % 2 + 2 * (bi / 2));
    assert(bi / 2 == (bi / 2) % 2 + 2 * (bi / 4));
    assert(bi / 4 == (bi / 4) % 2 + 2 * (bi / 8));
    assert(bi / 8 == (bi / 8) % 2 + 2 * (bi / 16));
    assert(bi / 16 == (bi / 16) % 2 + 2 * (bi / 32));
    assert(bi / 32 == (bi / 32) % 2 + 2 * (bi / 64));
    assert(bi / 64 == (bi / 64) % 2 + 2 * (bi / 128));
    assert(bi / 128 == (bi / 128) % 2);
    assert(bi == bi % 2 + 2 * ((bi / 2) % 2) + 4 * ((bi / 4) % 2) + 8 * ((bi / 8) % 2) + 16 * ((bi
        / 16) % 2) + 32 * ((bi / 32) % 2) + 64 * ((bi / 64) % 2) + 128 * ((bi / 128) % 2));
    assert(pow2_small(0) == 1 && pow2_small(1) == 2 && pow2_small(2) == 4 && pow2_small(3) == 8
        && pow2_small(4) == 16 && pow2_small(5) == 32 && pow2_small(6) == 64 && pow2_small(7)
        == 128);
    assert(bit_of_byte(b, 0) == bits[8 * j] && bit_of_byte(b, 1) == bits[8 * j + 1] && bit_of_byte(
        b, 2) == bits[8 * j + 2] && bit_of_byte(b, 3) == bits[8 * j + 3] && bit_of_byte(b, 4)
        == bits[8 * j + 4] && bit_of_byte(b, 5) == bits[8 * j + 5] && bit_of_byte(b, 6) == bits[8
        * j + 6] && bit_of_byte(b, 7) == bits[8 * j + 7]);
}

/// The six-bit value of one identifier character, in executable form.
fn char_of_val(v: u8) -> (r: u8)
    requires
        v < 64,
    ensures
        r == b64_byte(v as int),
        r < 128,
{
    if v < 26 {
        65 + v
    } else if v < 52 {
        97 + v - 26
    } else if v < 62 {
        48 + v - 52
    } else if v == 62 {
        43
    } else {
        47
    }
}

/// Reads one identifier character back to its six-bit value; characters
/// outside the base64 alphabet have none.
fn val_of_char(c: char) -> (r: Option<u8>)
    ensures
        match r {
            Some(v) => v < 64 && c == b64_byte(v as int) as char,
            None => forall|v: int| 0 <= v < 64 ==> c != b64_byte(v) as char,
        },
{
    let u = c as u32;
    if 65 <= u && u <= 90 {
        Some((u - 65) as u8)
    } else if 97 <= u && u <= 122 {
        Some((u - 97 + 26) as u8)
    } else if 48 <= u && u <= 57 {
        Some((u - 48 + 52) as u8)
    } else if u == 43 {
        Some(62)
    } else if u == 47 {
        Some(63)
    } else {
        None
    }
}

/// Relies on String::from_utf8: bytes below 128 become exactly those
/// characters, one each.
#[verifier::external_body]
fn ascii_to_string(v: Vec<u8>) -> (r: String)
    requires
        forall|i: int| 0 <= i < v@.len() ==> v@[i] < 128,
    ensures
        r@.len() == v@.len(),
        forall|i: int| 0 <= i < v@.len() ==> r@[i] == v@[i] as char,
{
    String::from_utf8(v).unwrap_or_default()
}

} // verus!

verus! {

/// Identifier values are six-bit values.
pub proof fn lemma_id_val_bounds(s: State, g: int)
    requires
        0 <= g < 14,
    ensures
        0 <= id_val(s, g) < 64,
        0 <= key_byte(s, 3 * (g / 4)) < 256 || g == 13,
{
}

/// A byte whose value was rebuilt from stream bits carries those bits.
pub proof fn lemma_byte_from_val(b: u8, bits: Seq<bool>, j: int)
    requires
        0 <= j,
        8 * j + 8 <= bits.len(),
        b as int == byte_val(bits, j),
    ensures
        forall|i: int| 0 <= i < 8 ==> bit_of_byte(b, i) == bits[8 * j + i],
{
    let t0: u8 = if bits[8 * j] { 1 } else { 0 };
    let t1: u8 = if bits[8 * j + 1] { 1 } else { 0 };
    let t2: u8 = if bits[8 * j + 2] { 1 } else { 0 };
    let t3: u8 = if bits[8 * j + 3] { 1 } else { 0 };
    let t4: u8 = if bits[8 * j + 4] { 1 } else { 0 };
    let t5: u8 = if bits[8 * j + 5] { 1 } else { 0 };
    let t6: u8 = if bits[8 * j + 6] { 1 } else { 0 };
    let t7: u8 = if bits[8 * j + 7] { 1 } else { 0 };
    crate::encoding::lemma_byte_of_bits(t0, t1, t2, t3, t4, t5, t6, t7);
    assert(b == (t0 + 2 * t1 + 4 * t2 + 8 * t3 + 16 * t4 + 32 * t5 + 64 * t6 + 128 * t7) as u8);
}

/// The bytes of a key whose bits are a position's stream are the position's
/// key bytes.
pub proof fn lemma_key_bytes(key: Seq<u8>, s: State)
    requires
        key.len() == 10,
        key_bits(key) =~= enc_bits(s),
    ensures
        forall|j: int| 0 <= j < 10 ==> key[j] as int == key_byte(s, j),
{
    assert(enc_bits(s).len() == 80);
    assert forall|j: int| 0 <= j < 10 implies key[j] as int == key_byte(s, j) by {
        assert forall|i: int| 0 <= i < 8 implies bit_of_byte(key[j], i) == enc_bits(s)[8 * j + i]
            by {
            let m = 8 * j + i;
            assert(m / 8 == j && m % 8 == i);
            assert(key_bits(key)[m] == bit_of_byte(key[m / 8], m % 8));
        }
        lemma_byte_determined(key[j], enc_bits(s), j);
    }
}

/// Three bytes of at most 255 survive the trip through four six-bit values.
pub proof fn lemma_group_bytes(b0: int, b1: int, b2: int)
    requires
        0 <= b0 < 256,
        0 <= b1 < 256,
        0 <= b2 < 256,
    ensures
        (b0 / 4) * 4 + ((b0 % 4) * 16 + b1 / 16) / 16 == b0,
        (((b0 % 4) * 16 + b1 / 16) % 16) * 16 + ((b1 % 16) * 4 + b2 / 64) / 4 == b1,
        (((b1 % 16) * 4 + b2 / 64) % 4) * 64 + b2 % 64 == b2,
{
    assert(b1 / 16 < 16);
    assert(((b0 % 4) * 16 + b1 / 16) / 16 == b0 % 4);
    assert(((b0 % 4) * 16 + b1 / 16) % 16 == b1 / 16);
    assert(b2 / 64 < 4);
    assert(((b1 % 16) * 4 + b2 / 64) / 4 == b1 % 16);
    assert(((b1 % 16) * 4 + b2 / 64) % 4 == b2 / 64);
}

/// Four six-bit values survive the trip through three bytes; the mirror of
/// `lemma_group_bytes`.
pub proof fn lemma_group_vals(v0: int, v1: int, v2: int, v3: int)
    requires
        0 <= v0 < 64,
        0 <= v1 < 64,
        0 <= v2 < 64,
        0 <= v3 < 64,
    ensures
        (v0 * 4 + v1 / 16) / 4 == v0,
        ((v0 * 4 + v1 / 16) % 4) * 16 + ((v1 % 16) * 16 + v2 / 4) / 16 == v1,
        (((v1 % 16) * 16 + v2 / 4) % 16) * 4 + ((v2 % 4) * 64 + v3) / 64 == v2,
        ((v2 % 4) * 64 + v3) % 64 == v3,
{
    assert(v1 / 16 < 4);
    assert((v0 * 4 + v1 / 16) / 4 == v0);
    assert((v0 * 4 + v1 / 16) % 4 == v1 / 16);
    assert(v2 / 4 < 16);
    assert(((v1 % 16) * 16 + v2 / 4) / 16 == v1 % 16);
    assert(((v1 % 16) * 16 + v2 / 4) % 16 == v2 / 4);
    assert(((v2 % 4) * 64 + v3) / 64 == v2 % 4);
    assert(((v2 % 4) * 64 + v3) % 64 == v3);
}

/// The final, half-filled group: one byte to two values and back.
pub proof fn lemma_group_last(b9: int, v12: int, v13: int)
    requires
        0 <= b9 < 256,
        0 <= v12 < 64,
        0 <= v13 < 64,
        v13 % 16 == 0,
    ensures
        (b9 / 4) * 4 + ((b9 % 4) * 16) / 16 == b9,
        (v12 * 4 + v13 / 16) / 4 == v12,
        ((v12 * 4 + v13 / 16) % 4) * 16 == v13,
{
    assert(v13 / 16 < 4);
    assert((v12 * 4 + v13 / 16) / 4 == v12);
    assert((v12 * 4 + v13 / 16) % 4 == v13 / 16);
    assert((v13 / 16) * 16 == v13);
}

} // verus!

verus! {

/// The ten byte equations that tie an identifier's values to a key.
pub open spec fn key_equations(vals: Seq<u8>, key: Seq<u8>) -> bool {
    &&& vals.len() == 14
    &&& key.len() == 10
    &&& key[0] as int == (vals[0] as int) * 4 + (vals[1] as int) / 16
    &&& key[1] as int == ((vals[1] as int) % 16) * 16 + (vals[2] as int) / 4
    &&& key[2] as int == ((vals[2] as int) % 4) * 64 + (vals[3] as int)
    &&& key[3] as int == (vals[4] as int) * 4 + (vals[5] as int) / 16
    &&& key[4] as int == ((vals[5] as int) % 16) * 16 + (vals[6] as int) / 4
    &&& key[5] as int == ((vals[6] as int) % 4) * 64 + (vals[7] as int)
    &&& key[6] as int == (vals[8] as int) * 4 + (vals[9] as int) / 16
    &&& key[7] as int == ((vals[9] as int) % 16) * 16 + (vals[10] as int) / 4
    &&& key[8] as int == ((vals[10] as int) % 4) * 64 + (vals[11] as int)
    &&& key[9] as int == (vals[12] as int) * 4 + (vals[13] as int) / 16
}

/// A key whose bytes are a position's key bytes reads back to the
/// position's identifier values.
#[verifier::rlimit(100)]
pub proof fn lemma_vals_of_key(vals: Seq<u8>, key: Seq<u8>, s: State)
    requires
        key_equations(vals, key),
        forall|g: int| 0 <= g < 14 ==> #[trigger] vals[g] < 64,
        vals[13] % 16 == 0,
        forall|j: int| 0 <= j < 10 ==> #[trigger] key[j] as int == key_byte(s, j),
    ensures
        forall|g: int| 0 <= g < 14 ==> #[trigger] vals[g] as int == id_val(s, g),
{
    lemma_group_vals(vals[0] as int, vals[1] as int, vals[2] as int, vals[3] as int);
    lemma_group_vals(vals[4] as int, vals[5] as int, vals[6] as int, vals[7] as int);
    lemma_group_vals(vals[8] as int, vals[9] as int, vals[10] as int, vals[11] as int);
    lemma_group_last(key[9] as int, vals[12] as int, vals[13] as int);
    assert forall|g: int| 0 <= g < 14 implies #[trigger] vals[g] as int == id_val(s, g) by {
        assert(3 * (g / 4) == 0 || 3 * (g / 4) == 3 || 3 * (g / 4) == 6 || 3 * (g / 4) == 9);
    }
}

/// A key built from a position's identifier values carries the position's
/// stream.
#[verifier::rlimit(100)]
pub proof fn lemma_key_of_vals(vals: Seq<u8>, key: Seq<u8>, s: State, n: int)
    requires
        key_equations(vals, key),
        forall|g: int| 0 <= g < 14 ==> #[trigger] vals[g] < 64,
        vals[13] % 16 == 0,
        forall|g: int| 0 <= g < 14 ==> #[trigger] vals[g] as int == id_val(s, g),
        s.wf(),
        s.x_total() == n,
        s.o_total() == n,
        0 <= n <= 15,
    ensures
        key_bits(key) =~= enc_bits(s),
{
    reveal(enc_bits);
    crate::encoding::lemma_counts_total(s);
    crate::encoding::lemma_pstream_len(crate::encoding::counts_of(s), 50);
    assert(enc_bits(s).len() == 80);
    lemma_group_bytes(key_byte(s, 0), key_byte(s, 1), key_byte(s, 2));
    lemma_group_bytes(key_byte(s, 3), key_byte(s, 4), key_byte(s, 5));
    lemma_group_bytes(key_byte(s, 6), key_byte(s, 7), key_byte(s, 8));
    lemma_group_last(key_byte(s, 9), id_val(s, 12), id_val(s, 13));
    assert forall|j: int| 0 <= j < 10 implies #[trigger] key[j] as int == key_byte(s, j) by {
    }
    assert forall|i: int| 0 <= i < 80 implies key_bits(key)[i] == enc_bits(s)[i] by {
        let j = i / 8;
        lemma_byte_from_val(key[j], enc_bits(s), j);
        assert(bit_of_byte(key[j], i % 8) == enc_bits(s)[8 * j + (i % 8)]);
        assert(8 * j + (i % 8) == i);
        assert(key_bits(key)[i] == bit_of_byte(key[i / 8], i % 8));
    }
    assert(key_bits(key) =~= enc_bits(s));
}

} // verus!

verus! {

/// Identifier characters determine the identifier: if every character
/// matches a position's values, the string is that position's identifier.
pub proof fn lemma_chars_make_id(id: Seq<char>, vals: Seq<u8>, p: State)
    requires
        id.len() == 14,
        vals.len() == 14,
        forall|g: int| 0 <= g < 14 ==> id[g] == b64_byte(#[trigger] vals[g] as int) as char,
        forall|g: int| 0 <= g < 14 ==> #[trigger] vals[g] as int == id_val(p, g),
    ensures
        id =~= id_of(p),
{
    assert forall|g: int| 0 <= g < 14 implies id[g] == id_of(p)[g] by {
        assert(vals[g] as int == id_val(p, g));
        assert(id[g] == b64_byte(vals[g] as int) as char);
    }
}

/// Packs fourteen six-bit values into the ten key bytes.
fn bytes_of_vals(vals: &Vec<u8>) -> (key: [u8; 10])
    requires
        vals@.len() == 14,
        forall|g: int| 0 <= g < 14 ==> #[trigger] vals@[g] < 64,
    ensures
        key_equations(vals@, key@),
{
    let mut key = [0u8; 10];
    key[0] = vals[0] * 4 + vals[1] / 16;
    key[1] = (vals[1] % 16) * 16 + vals[2] / 4;
    key[2] = (vals[2] % 4) * 64 + vals[3];
    key[3] = vals[4] * 4 + vals[5] / 16;
    key[4] = (vals[5] % 16) * 16 + vals[6] / 4;
    key[5] = (vals[6] % 4) * 64 + vals[7];
    key[6] = vals[8] * 4 + vals[9] / 16;
    key[7] = (vals[9] % 16) * 16 + vals[10] / 4;
    key[8] = (vals[10] % 4) * 64 + vals[11];
    key[9] = vals[12] * 4 + vals[13] / 16;
    key
}

} // verus!

verus! {

/// No position's identifier carries a character outside the alphabet.
pub proof fn lemma_no_id_with_bad_char(id: Seq<char>, n: int)
    requires
        id.len() == 14,
        exists|g: int| 0 <= g < 14 && #[trigger] char_outside_alphabet(id, g),
    ensures
        no_position_has_id(id, n),
{
    let g = choose|g: int| 0 <= g < 14 && #[trigger] char_outside_alphabet(id, g);
    assert forall|p: State|
        !(p.wf() && p.x_total() == n && p.o_total() == n && id =~= #[trigger] id_of(p)) by {
        if id =~= id_of(p) {
            lemma_id_val_bounds(p, g);
            assert(id[g] == b64_byte(id_val(p, g)) as char);
        }
    }
}

/// No position's identifier carries bits where the dropped padding would
/// sit: the last character's value is a multiple of sixteen.
pub proof fn lemma_no_id_with_padding(id: Seq<char>, v13: u8, n: int)
    requires
        id.len() == 14,
        v13 < 64,
        v13 % 16 != 0,
        id[13] == b64_byte(v13 as int) as char,
    ensures
        no_position_has_id(id, n),
{
    assert forall|p: State|
        !(p.wf() && p.x_total() == n && p.o_total() == n && id =~= #[trigger] id_of(p)) by {
        if id =~= id_of(p) {
            lemma_id_val_bounds(p, 13);
            assert(id[13] == b64_byte(id_val(p, 13)) as char);
            lemma_b64_byte_injective(v13 as int, id_val(p, 13));
        }
    }
}

/// If the key built from an identifier does not decode, the identifier
/// belongs to no position.
pub proof fn lemma_no_id_after_reject(id: Seq<char>, vals: Seq<u8>, key: Seq<u8>, n: int)
    requires
        id.len() == 14,
        vals.len() == 14,
        key.len() == 10,
        forall|g: int| 0 <= g < 14 ==> #[trigger] vals[g] < 64,
        forall|g: int| 0 <= g < 14 ==> id[g] == b64_byte(#[trigger] vals[g] as int) as char,
        vals[13] % 16 == 0,
        key_equations(vals, key),
        0 <= n <= 15,
        !decodable(key_bits(key), n),
    ensures
        no_position_has_id(id, n),
{
    assert forall|p: State|
        !(p.wf() && p.x_total() == n && p.o_total() == n && id =~= #[trigger] id_of(p)) by {
        if p.wf() && p.x_total() == n && p.o_total() == n && id =~= id_of(p) {
            assert forall|g2: int| 0 <= g2 < 14 implies #[trigger] vals[g2] as int == id_val(p, g2)
                by {
                lemma_id_val_bounds(p, g2);
                assert(id[g2] == b64_byte(id_val(p, g2)) as char);
                lemma_b64_byte_injective(vals[g2] as int, id_val(p, g2));
            }
            lemma_key_of_vals(vals, key, p, n);
            crate::encoding::lemma_state_decodable(p, n);
        }
    }
}

} // verus!

verus! {

/// Reads the fourteen six-bit values of an identifier, or reports a
/// character outside the alphabet.
fn vals_of_id(id: &str) -> (r: Option<Vec<u8>>)
    requires
        id@.len() == 14,
    ensures
        match r {
            Some(vals) => vals@.len() == 14 && (forall|g: int|
                0 <= g < 14 ==> #[trigger] vals@[g] < 64) && (forall|g: int|
                0 <= g < 14 ==> id@[g] == b64_byte(#[trigger] vals@[g] as int) as char),
            None => exists|g: int| 0 <= g < 14 && #[trigger] char_outside_alphabet(id@, g),
        },
{
    let mut vals: Vec<u8> = Vec::new();
    let mut g: usize = 0;
    while g < 14
        invariant
            id@.len() == 14,
            0 <= g <= 14,
            vals@.len() == g,
            forall|g2: int| 0 <= g2 < g ==> #[trigger] vals@[g2] < 64,
            forall|g2: int|
                0 <= g2 < g ==> id@[g2] == b64_byte(#[trigger] vals@[g2] as int) as char,
        decreases 14 - g,
    {
        let c = id.get_char(g);
        match val_of_char(c) {
            Some(v) => {
                vals.push(v);
            },
            None => {
                assert(char_outside_alphabet(id@, g as int));
                return None;
            },
        }
        g = g + 1;
    }
    Some(vals)
}

} // verus!

verus! {

/// Positions with the same identifier and the same checker count are the
/// same position: the identifier round-trip has no collisions.
#[verifier::rlimit(100)]
pub proof fn lemma_id_injective(p: State, q: State, n: int)
    requires
        p.wf(),
        q.wf(),
        p.x_total() == n,
        p.o_total() == n,
        q.x_total() == n,
        q.o_total() == n,
        0 <= n <= 15,
        id_of(p) =~= id_of(q),
    ensures
        p == q,
{
    assert forall|g: int| 0 <= g < 14 implies id_val(p, g) == id_val(q, g) by {
        assert(id_of(p)[g] == id_of(q)[g]);
        lemma_b64_byte_injective(id_val(p, g), id_val(q, g));
    }
    assert forall|j: int| 0 <= j < 10 implies key_byte(p, j) == key_byte(q, j) by {
        if j == 9 {
            lemma_group_last(key_byte(p, 9), id_val(p, 12), id_val(p, 13));
            lemma_group_last(key_byte(q, 9), id_val(q, 12), id_val(q, 13));
        } else {
            let grp = j / 3;
            let b = 3 * grp;
            lemma_group_bytes(key_byte(p, b), key_byte(p, b + 1), key_byte(p, b + 2));
            lemma_group_bytes(key_byte(q, b), key_byte(q, b + 1), key_byte(q, b + 2));
            assert(id_val(p, 4 * grp) == id_val(q, 4 * grp));
            assert(id_val(p, 4 * grp + 1) == id_val(q, 4 * grp + 1));
            assert(id_val(p, 4 * grp + 2) == id_val(q, 4 * grp + 2));
            assert(id_val(p, 4 * grp + 3) == id_val(q, 4 * grp + 3));
        }
    }
    reveal(enc_bits);
    crate::encoding::lemma_counts_total(p);
    crate::encoding::lemma_counts_total(q);
    crate::encoding::lemma_pstream_len(crate::encoding::counts_of(p), 50);
    crate::encoding::lemma_pstream_len(crate::encoding::counts_of(q), 50);
    assert(enc_bits(p).len() == 80);
    assert(enc_bits(q).len() == 80);
    assert forall|i: int| 0 <= i < 80 implies enc_bits(p)[i] == enc_bits(q)[i] by {
        let j = i / 8;
        let bp = key_byte(p, j);
        assert(0 <= bp < 256);
        lemma_byte_from_val(bp as u8, enc_bits(p), j);
        lemma_byte_from_val(bp as u8, enc_bits(q), j);
        assert(bit_of_byte(bp as u8, i % 8) == enc_bits(p)[8 * j + (i % 8)]);
        assert(8 * j + (i % 8) == i);
    }
    assert(enc_bits(p) =~= enc_bits(q));
    crate::encoding::lemma_enc_injective(p, q, n, n);
}

impl State {
    /// The canonical 14-character identifier of this position.
    #[verifier::rlimit(100)]
    pub fn position_id(&self) -> (r: String)
        requires
            self.wf(),
        ensures
            r@ =~= id_of(*self),
    {
        let ghost s = *self;
        let key = self.encode();
        proof {
            lemma_key_bytes(key@, s);
        }
        let mut vals: Vec<u8> = Vec::new();
        let mut g: usize = 0;
        while g < 14
            invariant
                s.wf(),
                key@.len() == 10,
                forall|j: int| 0 <= j < 10 ==> key@[j] as int == key_byte(s, j),
                0 <= g <= 14,
                vals@.len() == g,
                forall|g2: int| 0 <= g2 < g ==> #[trigger] vals@[g2] as int == id_val(s, g2),
                forall|g2: int| 0 <= g2 < g ==> #[trigger] vals@[g2] < 64,
            decreases 14 - g,
        {
            let v: u8 = if g == 13 {
                (key[9] % 4) * 16
            } else {
                let j = 3 * (g / 4);
                if g % 4 == 0 {
                    key[j] / 4
                } else if g % 4 == 1 {
                    (key[j] % 4) * 16 + key[j + 1] / 16
                } else if g % 4 == 2 {
                    (key[j + 1] % 16) * 4 + key[j + 2] / 64
                } else {
                    key[j + 2] % 64
                }
            };
            assert(v as int == id_val(s, g as int));
            assert(v < 64);
            vals.push(v);
            g = g + 1;
        }
        let mut out: Vec<u8> = Vec::new();
        let mut g: usize = 0;
        while g < 14
            invariant
                0 <= g <= 14,
                vals@.len() == 14,
                forall|g2: int| 0 <= g2 < 14 ==> #[trigger] vals@[g2] as int == id_val(s, g2),
                forall|g2: int| 0 <= g2 < 14 ==> #[trigger] vals@[g2] < 64,
                out@.len() == g,
                forall|g2: int|
                    0 <= g2 < g ==> #[trigger] out@[g2] == b64_byte(id_val(s, g2)) && out@[g2]
                        < 128,
            decreases 14 - g,
        {
            let c = char_of_val(vals[g]);
            out.push(c);
            g = g + 1;
        }
        let r = ascii_to_string(out);
        assert(r@ =~= id_of(s));
        r
    }

    /// Reads a position back from its identifier, for `checkers` checkers a
    /// side. Identifiers that are not 14 characters, use a character outside
    /// the base64 alphabet, carry bits where the dropped padding would sit,
    /// or whose key does not decode are rejected.
    #[verifier::rlimit(100)]
    #[verifier::spinoff_prover]
    pub fn from_id(id: &str, checkers: u8) -> (r: Result<State, Error>)
        requires
            checkers <= 15,
        ensures
            match r {
                Ok(p) => p.wf() && p.x_total() == checkers && p.o_total() == checkers && id@
                    =~= id_of(p),
                Err(e) => e == Error::InvalidPositionId && no_position_has_id(
                    id@, checkers as int),
            },
    {
        if id.unicode_len() != 14 {
            proof {
                lemma_no_id_wrong_length(id@, checkers as int);
            }
            return Err(Error::InvalidPositionId);
        }
        let vals = match vals_of_id(id) {
            Some(vals) => vals,
            None => {
                proof {
                    lemma_no_id_with_bad_char(id@, checkers as int);
                }
                return Err(Error::InvalidPositionId);
            },
        };
        if vals[13] % 16 != 0 {
            proof {
                lemma_no_id_with_padding(id@, vals@[13], checkers as int);
            }
            return Err(Error::InvalidPositionId);
        }
        let key = bytes_of_vals(&vals);
        match State::decode(key, checkers) {
            Ok(p) => {
                proof {
                    lemma_key_bytes(key@, p);
                    lemma_vals_of_key(vals@, key@, p);
                    lemma_chars_make_id(id@, vals@, p);
                }
                Ok(p)
            },
            Err(_) => {
                proof {
                    lemma_no_id_after_reject(id@, vals@, key@, checkers as int);
                }
                Err(Error::InvalidPositionId)
            },
        }
    }
}

} // verus!

verus! {

/// The identifier round-trip: a position's identifier belongs to it, and
/// reading it back can yield no other position with the same checker count.
pub proof fn lemma_id_round_trip(p: State, n: int)
    requires
        p.wf(),
        p.x_total() == n,
        p.o_total() == n,
        0 <= n <= 15,
    ensures
        !no_position_has_id(id_of(p), n),
        forall|q: State|
            q.wf() && q.x_total() == n && q.o_total() == n && id_of(p) =~= #[trigger] id_of(q)
                ==> q == p,
{
    assert(id_of(p) =~= id_of(p));
    assert forall|q: State|
        q.wf() && q.x_total() == n && q.o_total() == n && id_of(p) =~= #[trigger] id_of(q)
            implies q == p by {
        lemma_id_injective(q, p, n);
    }
}

} // verus!
