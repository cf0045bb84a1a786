//! Ancillary codecs: hex strings from packet dumps, and the obfuscated
//! purchase-list format, a string list XOR-masked with a position-keyed
//! stream.

use vstd::prelude::*;

verus! {

use vstd::string::StringSliceAdditionalSpecFns;
use vstd::utf8::{decode_utf8, encode_utf8, valid_utf8};
use crate::codec::{varint, CodecError, PacketReader, PacketWriter};

/// The wire form of a string list: each string as a varint byte count and
/// its UTF-8 bytes, in order.
pub open spec fn strings_bytes(vs: Seq<String>) -> Seq<u8>
    decreases vs.len(),
{
    if vs.len() == 0 {
        Seq::<u8>::empty()
    } else {
        varint(encode_utf8(vs[0]@).len() as u32) + encode_utf8(vs[0]@) + strings_bytes(
            vs.drop_first(),
        )
    }
}

/// Appending a string to a list appends its wire form.
pub proof fn lemma_strings_bytes_push(vs: Seq<String>, x: String)
    ensures
        strings_bytes(vs.push(x)) == strings_bytes(vs) + varint(encode_utf8(x@).len() as u32)
            + encode_utf8(x@),
    decreases vs.len(),
{
    if vs.len() == 0 {
        assert(vs.push(x).drop_first() =~= Seq::<String>::empty());
        assert(strings_bytes(vs.push(x).drop_first()) =~= Seq::<u8>::empty());
        assert(strings_bytes(vs.push(x)) =~= strings_bytes(vs) + varint(
            encode_utf8(x@).len() as u32,
        ) + encode_utf8(x@));
    } else {
        assert(vs.push(x).drop_first() =~= vs.drop_first().push(x));
        lemma_strings_bytes_push(vs.drop_first(), x);
        assert(strings_bytes(vs.push(x)) =~= strings_bytes(vs) + varint(
            encode_utf8(x@).len() as u32,
        ) + encode_utf8(x@));
    }
}

/// The value of a hex digit, or 16 for any other character.
pub open spec fn hex_digit(c: char) -> int {
    if '0' <= c <= '9' {
        c as int - '0' as int
    } else if 'a' <= c <= 'f' {
        c as int - 'a' as int + 10
    } else if 'A' <= c <= 'F' {
        c as int - 'A' as int + 10
    } else {
        16
    }
}

/// Decodes a hex dump: every two characters form one byte, high digit
/// first.
pub fn decode_hex(s: &str) -> (r: Vec<u8>)
    requires
        s.is_ascii(),
        s@.len() % 2 == 0,
        forall|i: int| 0 <= i < s@.len() ==> hex_digit(#[trigger] s@[i]) < 16,
    ensures
        r@.len() * 2 == s@.len(),
        forall|i: int|
            0 <= i < r@.len() ==> #[trigger] r@[i] as int == hex_digit(s@[2 * i]) * 16 + hex_digit(
                s@[2 * i + 1],
            ),
{
    let n = s.unicode_len();
    let mut r: Vec<u8> = Vec::new();
    let mut i: usize = 0;
    while i + 1 < n
        invariant
            s.is_ascii(),
            s@.len() % 2 == 0,
            forall|k: int| 0 <= k < s@.len() ==> hex_digit(#[trigger] s@[k]) < 16,
            n == s@.len(),
            i % 2 == 0,
            i <= n,
            r@.len() * 2 == i,
            forall|k: int|
                0 <= k < r@.len() ==> #[trigger] r@[k] as int == hex_digit(s@[2 * k]) * 16
                    + hex_digit(s@[2 * k + 1]),
        decreases n - i,
    {
        let hi = hex_digit_value(s.get_char(i));
        let lo = hex_digit_value(s.get_char(i + 1));
        r.push(hi * 16 + lo);
        i = i + 2;
    }
    r
}

/// The value of one hex digit.
fn hex_digit_value(c: char) -> (r: u8)
    requires
        hex_digit(c) < 16,
    ensures
        r as int == hex_digit(c),
{
    if '0' <= c && c <= '9' {
        (c as u8) - ('0' as u8)
    } else if 'a' <= c && c <= 'f' {
        (c as u8) - ('a' as u8) + 10
    } else {
        (c as u8) - ('A' as u8) + 10
    }
}

/// The mask byte at a position of the obfuscation stream.
pub open spec fn mask_at(i: int) -> u8 {
    (i % 212) as u8
}

/// Applies the position-keyed XOR mask; applying it twice returns the
/// original bytes.
pub fn apply_mask(data: &Vec<u8>) -> (r: Vec<u8>)
    ensures
        r@.len() == data@.len(),
        forall|i: int| 0 <= i < r@.len() ==> #[trigger] r@[i] == (data@[i] ^ mask_at(i)),
{
    let mut r: Vec<u8> = Vec::new();
    let mut i: usize = 0;
    while i < data.len()
        invariant
            i <= data@.len(),
            r@.len() == i,
            forall|k: int| 0 <= k < i ==> #[trigger] r@[k] == (data@[k] ^ mask_at(k)),
        decreases data@.len() - i,
    {
        let m: u8 = (i % 212) as u8;
        r.push(data[i] ^ m);
        i = i + 1;
    }
    r
}

/// Masking is an involution: masking twice gives back the input.
pub proof fn lemma_mask_involution(a: Seq<u8>, b: Seq<u8>, c: Seq<u8>)
    requires
        b.len() == a.len(),
        forall|i: int| 0 <= i < b.len() ==> #[trigger] b[i] == (a[i] ^ mask_at(i)),
        c.len() == b.len(),
        forall|i: int| 0 <= i < c.len() ==> #[trigger] c[i] == (b[i] ^ mask_at(i)),
    ensures
        c == a,
{
    assert forall|i: int| 0 <= i < c.len() implies c[i] == a[i] by {
        let x = a[i];
        let m = mask_at(i);
        assert((x ^ m) ^ m == x) by (bit_vector);
    }
    assert(c =~= a);
}

/// What the first string read off an encoded list delivers: the list's
/// next entry while any remain, and the empty terminator after them.
spec fn purchases_head(vs: Seq<String>, rest: Seq<u8>, s: Seq<u8>, k: int) -> bool {
    if k < vs.len() {
        let nb = encode_utf8(vs[k]@);
        let c1 = varint(nb.len() as u32).len() + nb.len();
        &&& crate::codec::parse_lp_bytes(s) == Some((nb, c1 as int))
        &&& valid_utf8(nb)
        &&& decode_utf8(nb) == vs[k]@
        &&& s.skip(c1 as int) == strings_bytes(vs.skip(k + 1)) + varint(0) + rest
    } else {
        &&& crate::codec::parse_lp_bytes(s) == Some(
            (Seq::<u8>::empty(), varint(0).len() as int),
        )
        &&& valid_utf8(Seq::<u8>::empty())
        &&& decode_utf8(Seq::<u8>::empty()) == Seq::<char>::empty()
        &&& encode_utf8(Seq::<char>::empty()) == Seq::<u8>::empty()
    }
}

/// For a reader head in list form, `purchases_head` holds of it.
proof fn lemma_purchases_head(vs: Seq<String>, rest: Seq<u8>, s: Seq<u8>, k: int)
    requires
        0 <= k <= vs.len(),
        forall|i: int| 0 <= i < vs.len() ==> encode_utf8((#[trigger] vs[i])@).len() <= u32::MAX,
        s == strings_bytes(vs.skip(k)) + varint(0) + rest,
    ensures
        purchases_head(vs, rest, s, k),
{
    broadcast use vstd::utf8::encode_utf8_valid_utf8, vstd::utf8::encode_utf8_decode_utf8;

    assert(encode_utf8(Seq::<char>::empty()) =~= Seq::<u8>::empty());
    if k < vs.len() {
        let nb = encode_utf8(vs[k]@);
        let tail = strings_bytes(vs.skip(k + 1)) + varint(0) + rest;
        assert(vs.skip(k).drop_first() =~= vs.skip(k + 1));
        assert(vs.skip(k)[0] == vs[k]);
        assert(s =~= varint(nb.len() as u32) + nb + tail);
        crate::objects::lemma_string_head(vs[k]@, tail, s);
    } else {
        assert(vs.skip(k).len() == 0);
        assert(s =~= varint(0) + Seq::<u8>::empty() + rest);
        crate::objects::lemma_string_head(Seq::<char>::empty(), rest, s);
    }
}

/// Decodes an unmasked purchase list: length-prefixed strings up to the
/// first empty one. A buffer holding an encoded list of non-empty strings,
/// whatever follows its terminator, decodes to exactly that list.
pub fn decode_purchases(data: Vec<u8>) -> (r: Result<Vec<String>, CodecError>)
    ensures
        r matches Ok(v) ==> forall|i: int| 0 <= i < v@.len() ==> (#[trigger] v@[i])@.len() > 0,
        forall|vs: Seq<String>, rest: Seq<u8>|
            (forall|i: int|
                0 <= i < vs.len() ==> 0 < encode_utf8((#[trigger] vs[i])@).len() <= u32::MAX)
                && data@ == #[trigger] (strings_bytes(vs) + varint(0) + rest) ==> (match r {
                Ok(v) => v@.len() == vs.len() && (forall|i: int|
                    0 <= i < vs.len() ==> (#[trigger] v@[i])@ == vs[i]@),
                Err(_) => false,
            }),
{
    let mut reader = PacketReader::new(data);
    let mut values: Vec<String> = Vec::new();
    proof {
        assert forall|vs: Seq<String>| true implies vs.skip(0) =~= vs by {}
    }
    loop
        invariant
            reader.wf(),
            forall|i: int| 0 <= i < values@.len() ==> (#[trigger] values@[i])@.len() > 0,
            forall|vs: Seq<String>, rest: Seq<u8>|
                (forall|i: int|
                    0 <= i < vs.len() ==> 0 < encode_utf8((#[trigger] vs[i])@).len() <= u32::MAX)
                    && data@ == #[trigger] (strings_bytes(vs) + varint(0) + rest) ==> ({
                    &&& values@.len() <= vs.len()
                    &&& forall|i: int|
                        0 <= i < values@.len() ==> (#[trigger] values@[i])@ == vs[i]@
                    &&& reader.rem() == strings_bytes(vs.skip(values@.len() as int)) + varint(0)
                        + rest
                }),
        decreases reader.rem().len(),
    {
        let ghost before = reader.rem().len();
        let ghost pre = reader.rem();
        let ghost k = values@.len() as int;
        proof {
            crate::codec::lemma_varint_size_bounds(reader.rem());
            assert forall|vs: Seq<String>, rest: Seq<u8>|
                (forall|i: int|
                    0 <= i < vs.len() ==> 0 < encode_utf8((#[trigger] vs[i])@).len() <= u32::MAX)
                    && data@ == #[trigger] (strings_bytes(vs) + varint(0) + rest) implies
                purchases_head(vs, rest, pre, k) by {
                lemma_purchases_head(vs, rest, pre, k);
            }
        }
        let value = match reader.read_string() {
            Ok(v) => v,
            Err(e) => {
                proof {
                    assert forall|vs: Seq<String>, rest: Seq<u8>|
                        (forall|i: int|
                            0 <= i < vs.len() ==> 0 < encode_utf8((#[trigger] vs[i])@).len()
                                <= u32::MAX) && data@ == #[trigger] (strings_bytes(vs) + varint(0)
                            + rest) implies false by {}
                }
                return Err(e);
            },
        };
        let bytes: &[u8] = value.as_str().as_bytes();
        if bytes.len() == 0 {
            proof {
                broadcast use vstd::utf8::encode_utf8_valid_utf8;

                assert forall|vs: Seq<String>, rest: Seq<u8>|
                    (forall|i: int|
                        0 <= i < vs.len() ==> 0 < encode_utf8((#[trigger] vs[i])@).len()
                            <= u32::MAX) && data@ == #[trigger] (strings_bytes(vs) + varint(0)
                        + rest) implies values@.len() == vs.len() && (forall|i: int|
                    0 <= i < vs.len() ==> (#[trigger] values@[i])@ == vs[i]@) by {
                    if k < vs.len() {
                        assert(value@ == vs[k]@);
                        assert(bytes@ == encode_utf8(vs[k]@));
                    }
                }
            }
            return Ok(values);
        }
        proof {
            assert(value@.len() > 0) by {
                if value@.len() == 0 {
                    assert(encode_utf8(value@).len() == 0);
                }
            }
        }
        values.push(value);
        proof {
            assert(reader.rem().len() < before);
            assert forall|vs: Seq<String>, rest: Seq<u8>|
                (forall|i: int|
                    0 <= i < vs.len() ==> 0 < encode_utf8((#[trigger] vs[i])@).len() <= u32::MAX)
                    && data@ == #[trigger] (strings_bytes(vs) + varint(0) + rest) implies ({
                &&& values@.len() <= vs.len()
                &&& forall|i: int| 0 <= i < values@.len() ==> (#[trigger] values@[i])@ == vs[i]@
                &&& reader.rem() == strings_bytes(vs.skip(values@.len() as int)) + varint(0)
                    + rest
            }) by {
                if k >= vs.len() {
                    assert(values@[k]@ == decode_utf8(Seq::<u8>::empty()));
                    assert(bytes@ == encode_utf8(values@[k]@));
                    assert(bytes@.len() == 0);
                } else {
                    assert(values@[k]@ == vs[k]@);
                    assert(forall|i: int|
                        0 <= i < values@.len() ==> (#[trigger] values@[i])@ == vs[i]@);
                }
            }
        }
    }
}

/// Encodes a purchase list, terminated by one empty string.
pub fn encode_purchases(values: &Vec<String>) -> (r: Vec<u8>)
    requires
        forall|i: int|
            0 <= i < values@.len() ==> encode_utf8((#[trigger] values@[i])@).len() <= u32::MAX,
    ensures
        r@ == strings_bytes(values@) + varint(0),
{
    let mut w = PacketWriter::new();
    let mut i: usize = 0;
    proof {
        assert(values@.take(0) =~= Seq::<String>::empty());
    }
    while i < values.len()
        invariant
            w.wf(),
            w.starts() == Seq::<usize>::empty(),
            i <= values@.len(),
            w.out() == strings_bytes(values@.take(i as int)),
            forall|k: int|
                0 <= k < values@.len() ==> encode_utf8((#[trigger] values@[k])@).len()
                    <= u32::MAX,
        decreases values@.len() - i,
    {
        w.write_string(values[i].as_str());
        proof {
            lemma_strings_bytes_push(values@.take(i as int), values@[i as int]);
            assert(values@.take(i as int + 1) =~= values@.take(i as int).push(
                values@[i as int],
            ));
        }
        i = i + 1;
    }
    proof {
        reveal_strlit("");
        assert(encode_utf8(""@).len() == 0);
        assert(encode_utf8(""@) =~= Seq::<u8>::empty());
        assert(values@.take(values@.len() as int) =~= values@);
    }
    w.write_string("");
    let r = w.finish();
    proof {
        assert(r@ =~= strings_bytes(values@) + varint(0));
    }
    r
}

} // verus!
