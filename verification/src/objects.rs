//! Wire-level value types: game identifiers, addresses, listings, options,
//! player records and fixed-point positions.

use vstd::prelude::*;

verus! {

use vstd::arithmetic::div_mod::{
    lemma_fundamental_div_mod_converse_div,
    lemma_fundamental_div_mod_converse_mod,
};
use vstd::string::StringSliceAdditionalSpecFns;
use vstd::utf8::{decode_utf8, encode_utf8, valid_utf8};
use crate::codec::{
    le16, le32, varint, u16_val, u32_val, CodecError, PacketReader, PacketWriter,
    lemma_cast_round_trips,
};

/// Language bits used in game options and listing queries.
pub const LANGUAGE_ALL: u32 = 0x0;

pub const LANGUAGE_OTHER: u32 = 0x1;

pub const LANGUAGE_SPANISH: u32 = 0x2;

pub const LANGUAGE_KOREAN: u32 = 0x4;

pub const LANGUAGE_RUSSIAN: u32 = 0x8;

pub const LANGUAGE_PORTUGUESE: u32 = 0x10;

pub const LANGUAGE_ARABIC: u32 = 0x20;

pub const LANGUAGE_FILIPINO: u32 = 0x40;

pub const LANGUAGE_POLISH: u32 = 0x80;

pub const LANGUAGE_ENGLISH: u32 = 0x100;

/// Every language bit the protocol defines.
pub const LANGUAGE_MASK: u32 = 0x1FF;

/// Map bits used in listing queries.
pub const MAP_SKELD: u8 = 0x0;

pub const MAP_PORUS: u8 = 0x1;

pub const MAP_MIRA_HQ: u8 = 0x2;

/// Every map bit the protocol defines.
pub const MAP_MASK: u8 = 0x3;

/// The ordered alphabet used by 6-character game codes.
pub const GAME_CODE_ALPHABET: &'static str = "QWXRTYLPESDFGHUJKZOCVBINMA";

/// The ordered alphabet used by 6-character game codes, as a sequence.
pub open spec fn code_alphabet() -> Seq<char> {
    GAME_CODE_ALPHABET@
}

/// The first position of `c` in `s`, or -1 if it does not occur.
pub open spec fn index_in(s: Seq<char>, c: char) -> int
    decreases s.len(),
{
    if s.len() == 0 {
        -1
    } else if s[0] == c {
        0
    } else {
        let r = index_in(s.drop_first(), c);
        if r < 0 {
            -1
        } else {
            r + 1
        }
    }
}

proof fn lemma_index_in(s: Seq<char>, c: char)
    ensures
        index_in(s, c) >= 0 ==> index_in(s, c) < s.len() && s[index_in(s, c)] == c,
        index_in(s, c) < 0 ==> forall|j: int| 0 <= j < s.len() ==> s[j] != c,
    decreases s.len(),
{
    if s.len() > 0 {
        lemma_index_in(s.drop_first(), c);
        if s[0] != c && index_in(s, c) < 0 {
            assert forall|j: int| 0 <= j < s.len() implies s[j] != c by {
                if j > 0 {
                    assert(s.drop_first()[j - 1] == s[j]);
                }
            }
        }
    }
}

/// The alphabet positions of each character of a 6-letter code.
pub open spec fn code_indices(s: Seq<char>) -> Seq<int> {
    Seq::new(s.len(), |j: int| index_in(code_alphabet(), s[j]))
}

/// The unsigned value of a version-2 game id built from six alphabet
/// positions: the first two pack into the low ten bits, the last four above
/// them, and the top bit is set.
pub open spec fn encode_v2(ix: Seq<int>) -> int {
    let lower = ix[1] * 26 + ix[0];
    let upper = ((ix[5] * 26 + ix[4]) * 26 + ix[3]) * 26 + ix[2];
    0x80000000 + lower + 1024 * upper
}

/// The six alphabet positions packed into a version-2 game id.
pub open spec fn v2_digits(u: u32) -> Seq<int> {
    let lower = (u as int) % 1024;
    let upper = ((u as int) / 1024) % 0x100000;
    seq![
        lower % 26,
        (lower / 26) % 26,
        upper % 26,
        (upper / 26) % 26,
        (upper / 676) % 26,
        (upper / 17576) % 26,
    ]
}

/// The characters of a game id's code: six alphabet letters for a version-2
/// id (any id below -1), else the four bytes of the id read as characters.
pub open spec fn game_code_chars(id: i32) -> Seq<char> {
    let u = id as u32;
    if id < -1 {
        v2_digits(u).map_values(|i: int| code_alphabet()[i])
    } else {
        seq![
            (((u as int) % 256) as u8) as char,
            (((u as int) / 256 % 256) as u8) as char,
            (((u as int) / 0x10000 % 256) as u8) as char,
            (((u as int) / 0x1000000) as u8) as char,
        ]
    }
}


proof fn lemma_pack2_bound(a0: int, a1: int)
    requires
        0 <= a0 < 26,
        0 <= a1 < 26,
    ensures
        0 <= a1 * 26 + a0 < 676,
{
}

proof fn lemma_pack4_bound(a2: int, a3: int, a4: int, a5: int)
    requires
        0 <= a2 < 26,
        0 <= a3 < 26,
        0 <= a4 < 26,
        0 <= a5 < 26,
    ensures
        0 <= ((a5 * 26 + a4) * 26 + a3) * 26 + a2 < 456976,
        ((a5 * 26 + a4) * 26 + a3) * 26 + a2 == (a5 * 26 + a4) * 676 + (a3 * 26 + a2),
        ((a5 * 26 + a4) * 26 + a3) * 26 + a2 == a5 * 17576 + (a4 * 676 + a3 * 26 + a2),
        0 <= a3 * 26 + a2 < 676,
        0 <= a4 * 676 + a3 * 26 + a2 < 17576,
{
    assert(((a5 * 26 + a4) * 26 + a3) * 26 + a2 == a5 * 17576 + a4 * 676 + a3 * 26 + a2)
        by (nonlinear_arith);
    assert(0 <= ((a5 * 26 + a4) * 26 + a3) * 26 + a2 < 456976) by (nonlinear_arith)
        requires
            0 <= a2 < 26 && 0 <= a3 < 26 && 0 <= a4 < 26 && 0 <= a5 < 26,
    ;
    assert(((a5 * 26 + a4) * 26 + a3) * 26 + a2 == (a5 * 26 + a4) * 676 + (a3 * 26 + a2))
        by (nonlinear_arith);
}

/// Decoding the packed form of six in-range alphabet positions returns those
/// positions; the packed value always has its sign bit set and is below -1
/// as a signed value.
pub proof fn lemma_game_id_round_trip(ix: Seq<int>)
    requires
        ix.len() == 6,
        forall|j: int| 0 <= j < 6 ==> 0 <= #[trigger] ix[j] < 26,
    ensures
        0x80000000 <= encode_v2(ix) < 0xFFFFFFFF,
        v2_digits(encode_v2(ix) as u32) == ix,
{
    let lower = ix[1] * 26 + ix[0];
    let upper = ((ix[5] * 26 + ix[4]) * 26 + ix[3]) * 26 + ix[2];
    lemma_pack2_bound(ix[0], ix[1]);
    lemma_pack4_bound(ix[2], ix[3], ix[4], ix[5]);
    let v = encode_v2(ix);
    let u = v as u32;
    assert(v == u as int);
    // peel off the low ten bits, then the sign bit
    assert(u as int == (0x200000 + upper) * 1024 + lower);
    lemma_fundamental_div_mod_converse_mod(u as int, 1024, 0x200000 + upper, lower);
    lemma_fundamental_div_mod_converse_div(u as int, 1024, 0x200000 + upper, lower);
    assert((u as int) % 1024 == lower);
    assert((u as int) / 1024 == 0x200000 + upper);
    lemma_fundamental_div_mod_converse_mod(0x200000 + upper, 0x100000, 2, upper);
    assert(((u as int) / 1024) % 0x100000 == upper);
    // split the lower half into its two base-26 digits
    lemma_fundamental_div_mod_converse_mod(lower, 26, ix[1], ix[0]);
    lemma_fundamental_div_mod_converse_div(lower, 26, ix[1], ix[0]);
    vstd::arithmetic::div_mod::lemma_small_mod(ix[1] as nat, 26);
    // split the upper half into its four base-26 digits
    let u3 = (ix[5] * 26 + ix[4]) * 26 + ix[3];
    lemma_fundamental_div_mod_converse_mod(upper, 26, u3, ix[2]);
    lemma_fundamental_div_mod_converse_div(upper, 26, u3, ix[2]);
    let u4 = ix[5] * 26 + ix[4];
    lemma_fundamental_div_mod_converse_mod(u3, 26, u4, ix[3]);
    lemma_fundamental_div_mod_converse_div(u3, 26, u4, ix[3]);
    lemma_fundamental_div_mod_converse_mod(upper, 676, u4, ix[3] * 26 + ix[2]);
    lemma_fundamental_div_mod_converse_div(upper, 676, u4, ix[3] * 26 + ix[2]);
    vstd::arithmetic::div_mod::lemma_small_mod((u4 % 26) as nat, 26);
    lemma_fundamental_div_mod_converse_mod(u4, 26, ix[5], ix[4]);
    lemma_fundamental_div_mod_converse_div(u4, 26, ix[5], ix[4]);
    lemma_fundamental_div_mod_converse_div(upper, 17576, ix[5], ix[4] * 676 + ix[3] * 26 + ix[2]);
    vstd::arithmetic::div_mod::lemma_small_mod(ix[5] as nat, 26);
    assert(v2_digits(u) =~= ix);
}


/// Encoding any six alphabet letters as a game id and rendering that id
/// back as a code returns the original letters.
pub proof fn lemma_game_code_round_trip(s: Seq<char>)
    requires
        s.len() == 6,
        forall|j: int| 0 <= j < 6 ==> index_in(code_alphabet(), #[trigger] s[j]) >= 0,
    ensures
        ({
            let u = encode_v2(code_indices(s));
            &&& 0x80000000 <= u < 0xFFFFFFFF
            &&& ((u as u32) as i32) < -1
            &&& game_code_chars((u as u32) as i32) == s
        }),
{
    reveal_strlit("QWXRTYLPESDFGHUJKZOCVBINMA");
    let ix = code_indices(s);
    assert forall|j: int| 0 <= j < 6 implies 0 <= #[trigger] ix[j] < 26 by {
        lemma_index_in(code_alphabet(), s[j]);
    }
    lemma_game_id_round_trip(ix);
    let u = encode_v2(ix);
    let uv = u as u32;
    assert(uv as int == u);
    assert(0x80000000 <= uv < 0xFFFFFFFF ==> (uv as i32) < -1) by (bit_vector);
    let id = uv as i32;
    crate::codec::lemma_cast_round_trips();
    assert(id as u32 == uv);
    assert(v2_digits(uv) == ix);
    assert forall|j: int| 0 <= j < 6 implies game_code_chars(id)[j] == s[j] by {
        lemma_index_in(code_alphabet(), s[j]);
        assert(game_code_chars(id)[j] == code_alphabet()[ix[j]]);
    }
    assert(game_code_chars(id) =~= s);
}

/// The 4- or 6-character id of a game. Version-2 ids (6 characters) are
/// negative; version-1 ids (4 characters) pack one character per byte and
/// are non-negative.
#[derive(Copy, Clone, Debug, Eq, PartialEq, Structural)]
pub struct GameId {
    pub id: i32,
}

impl GameId {
    /// Builds a game id from its 6-letter code (letters of the code
    /// alphabet) or from a 4-character ASCII code.
    pub fn from_chars(chars: &str) -> (r: GameId)
        requires
            chars@.len() == 6 || chars@.len() == 4,
            chars@.len() == 6 ==> chars.is_ascii() && (forall|j: int|
                0 <= j < 6 ==> index_in(code_alphabet(), #[trigger] chars@[j]) >= 0),
            chars@.len() == 4 ==> chars.is_ascii(),
        ensures
            chars@.len() == 6 ==> r.id as u32 == encode_v2(code_indices(chars@)) && r.id < -1,
            chars@.len() == 4 ==> r.id >= 0 && r.id as u32 as int == u32_val(
                (chars@[0] as int % 256) as u8,
                (chars@[1] as int % 256) as u8,
                (chars@[2] as int % 256) as u8,
                (chars@[3] as int % 256) as u8,
            ),
    {
        if chars.unicode_len() == 6 {
            let i0 = alphabet_index(chars.get_char(0));
            let i1 = alphabet_index(chars.get_char(1));
            let i2 = alphabet_index(chars.get_char(2));
            let i3 = alphabet_index(chars.get_char(3));
            let i4 = alphabet_index(chars.get_char(4));
            let i5 = alphabet_index(chars.get_char(5));
            let lower: u32 = i1 * 26 + i0;
            let upper: u32 = ((i5 * 26 + i4) * 26 + i3) * 26 + i2;
            let u: u32 = 0x80000000 + lower + 1024 * upper;
            proof {
                lemma_cast_round_trips();
                assert(code_indices(chars@) =~= seq![
                    i0 as int,
                    i1 as int,
                    i2 as int,
                    i3 as int,
                    i4 as int,
                    i5 as int,
                ]);
                assert(u as int == encode_v2(code_indices(chars@)));
                assert(0x80000000 <= u < 0xFFFFFFFF ==> (u as i32) < -1) by (bit_vector);
            }
            GameId { id: u as i32 }
        } else {
            let b0 = chars.get_ascii(0);
            let b1 = chars.get_ascii(1);
            let b2 = chars.get_ascii(2);
            let b3 = chars.get_ascii(3);
            let u: u32 = b0 as u32 + 256 * (b1 as u32) + 0x10000 * (b2 as u32) + 0x1000000 * (
            b3 as u32);
            proof {
                lemma_cast_round_trips();
                assert(u < 0x80000000 ==> (u as i32) >= 0) by (bit_vector);
            }
            GameId { id: u as i32 }
        }
    }

    /// The characters of this id's code: six alphabet letters for a
    /// version-2 id, else the id's four bytes read as characters.
    pub fn to_code_string(&self) -> (r: String)
        ensures
            r@ == game_code_chars(self.id),
    {
        let u: u32 = self.id as u32;
        let mut s = String::new();
        if self.id < -1 {
            let lower: u32 = u % 1024;
            let upper: u32 = (u / 1024) % 0x100000;
            proof {
                lemma_v2_digit_bounds(u);
                reveal_strlit("QWXRTYLPESDFGHUJKZOCVBINMA");
            }
            crate::codec::push_char(&mut s, alphabet_char((lower % 26) as usize));
            crate::codec::push_char(&mut s, alphabet_char(((lower / 26) % 26) as usize));
            crate::codec::push_char(&mut s, alphabet_char((upper % 26) as usize));
            crate::codec::push_char(&mut s, alphabet_char(((upper / 26) % 26) as usize));
            crate::codec::push_char(&mut s, alphabet_char(((upper / 676) % 26) as usize));
            crate::codec::push_char(&mut s, alphabet_char(((upper / 17576) % 26) as usize));
            proof {
                assert(s@ =~= game_code_chars(self.id));
            }
        } else {
            crate::codec::push_char(&mut s, (u % 256) as u8 as char);
            crate::codec::push_char(&mut s, (u / 256 % 256) as u8 as char);
            crate::codec::push_char(&mut s, (u / 0x10000 % 256) as u8 as char);
            crate::codec::push_char(&mut s, (u / 0x1000000) as u8 as char);
            proof {
                assert(s@ =~= game_code_chars(self.id));
            }
        }
        s
    }

    /// Writes the id as four little-endian bytes.
    pub fn serialize(&self, w: &mut PacketWriter)
        requires
            old(w).wf(),
        ensures
            final(w).wf(),
            final(w).out() == old(w).out() + le32(self.id as u32),
            final(w).starts() == old(w).starts(),
    {
        w.write_i32(self.id);
    }

    /// Reads an id from four little-endian bytes.
    pub fn deserialize(r: &mut PacketReader) -> (res: Result<GameId, CodecError>)
        requires
            old(r).wf(),
        ensures
            final(r).wf(),
            match res {
                Ok(g) => old(r).rem().len() >= 4 && old(r).rem().subrange(0, 4) == le32(
                    g.id as u32,
                ) && final(r).rem() == old(r).rem().skip(4),
                Err(e) => e == CodecError::UnexpectedEof && old(r).rem().len() < 4 && *final(r)
                    == *old(r),
            },
    {
        let id = r.read_i32()?;
        Ok(GameId { id })
    }
}

proof fn lemma_v2_digit_bounds(u: u32)
    ensures
        0 <= (u as int) % 1024 % 26 < 26,
        0 <= (u as int) % 1024 / 26 % 26 < 26,
        0 <= ((u as int) / 1024) % 0x100000 % 26 < 26,
        0 <= ((u as int) / 1024) % 0x100000 / 26 % 26 < 26,
        0 <= ((u as int) / 1024) % 0x100000 / 676 % 26 < 26,
        0 <= ((u as int) / 1024) % 0x100000 / 17576 % 26 < 26,
{
}

/// Looks a letter up in the game-code alphabet.
fn alphabet_index(c: char) -> (r: u32)
    requires
        index_in(code_alphabet(), c) >= 0,
    ensures
        r == index_in(code_alphabet(), c),
        r < 26,
{
    proof {
        reveal_strlit("QWXRTYLPESDFGHUJKZOCVBINMA");
        lemma_index_in(code_alphabet(), c);
    }
    let mut i: usize = 0;
    while i < 26
        invariant
            i <= 26,
            index_in(code_alphabet(), c) >= 0,
            code_alphabet().len() == 26,
            forall|j: int| 0 <= j < i ==> code_alphabet()[j] != c,
        decreases 26 - i,
    {
        if GAME_CODE_ALPHABET.get_char(i) == c {
            proof {
                lemma_index_in_prefix(code_alphabet(), c, i as int);
                lemma_index_in(code_alphabet(), c);
            }
            return i as u32;
        }
        i = i + 1;
    }
    proof {
        lemma_index_in(code_alphabet(), c);
        assert(false);
    }
    0
}

proof fn lemma_index_in_prefix(s: Seq<char>, c: char, i: int)
    requires
        0 <= i < s.len(),
        s[i] == c,
        forall|j: int| 0 <= j < i ==> s[j] != c,
    ensures
        index_in(s, c) == i,
    decreases s.len(),
{
    if i == 0 {
    } else {
        assert(forall|j: int| 0 <= j < s.drop_first().len() ==> s.drop_first()[j] == s[j + 1]);
        lemma_index_in_prefix(s.drop_first(), c, i - 1);
    }
}


/// Picks the letter at an alphabet position.
fn alphabet_char(i: usize) -> (r: char)
    requires
        i < 26,
    ensures
        r == code_alphabet()[i as int],
{
    proof {
        reveal_strlit("QWXRTYLPESDFGHUJKZOCVBINMA");
    }
    GAME_CODE_ALPHABET.get_char(i)
}

/// An IPv4 address and port.
#[derive(Debug, Clone, PartialEq, Eq)]
pub struct Address {
    pub ip: [u8; 4],
    pub port: u16,
}

impl Address {
    /// The six bytes of an address on the wire: the IP, then the port in
    /// little-endian.
    pub open spec fn spec_ser(&self) -> Seq<u8> {
        self.ip@ + crate::codec::le16(self.port)
    }

    pub fn serialize(&self, w: &mut PacketWriter)
        requires
            old(w).wf(),
        ensures
            final(w).wf(),
            final(w).out() == old(w).out() + self.spec_ser(),
            final(w).starts() == old(w).starts(),
    {
        w.write_u8(self.ip[0]);
        w.write_u8(self.ip[1]);
        w.write_u8(self.ip[2]);
        w.write_u8(self.ip[3]);
        w.write_u16(self.port);
        proof {
            assert(final(w).out() =~= old(w).out() + self.spec_ser());
        }
    }

    /// Reads a 4-byte IP and a little-endian port.
    pub fn deserialize(r: &mut PacketReader) -> (res: Result<Address, CodecError>)
        requires
            old(r).wf(),
        ensures
            final(r).wf(),
            match res {
                Ok(a) => old(r).rem().len() >= 6 && old(r).rem().subrange(0, 6) == a.spec_ser()
                    && final(r).rem() == old(r).rem().skip(6),
                Err(e) => e == CodecError::UnexpectedEof && old(r).rem().len() < 6,
            },
    {
        let b0 = r.read_u8()?;
        let b1 = r.read_u8()?;
        let b2 = r.read_u8()?;
        let b3 = r.read_u8()?;
        let port = r.read_u16()?;
        let a = Address { ip: [b0, b1, b2, b3], port };
        proof {
            assert(old(r).rem().subrange(0, 6) =~= a.spec_ser());
        }
        Ok(a)
    }
}

/// A position or velocity: two axes in a normalized 16-bit fixed-point
/// domain, where 0 stands for -40.0 world units and 65535 for +40.0.
#[derive(Debug, Copy, Clone, PartialEq, Eq, Structural)]
pub struct Vector2 {
    pub x: u16,
    pub y: u16,
}

impl Vector2 {
    /// One axis value from thousandths of a world unit, clamped to
    /// [-40.0, +40.0] and scaled into the normalized domain.
    pub open spec fn spec_axis_from_milli(t: int) -> u16 {
        if t <= -40000 {
            0u16
        } else if t >= 40000 {
            65535u16
        } else {
            (((t + 40000) * 65535) / 80000) as u16
        }
    }

    /// Builds a vector from thousandths of a world unit per axis, clamping
    /// each axis to [-40.0, +40.0]. An axis at or below -40.0 maps to 0 in
    /// the normalized domain.
    pub fn from_milli(x: i32, y: i32) -> (r: Vector2)
        ensures
            r.x == Vector2::spec_axis_from_milli(x as int),
            r.y == Vector2::spec_axis_from_milli(y as int),
    {
        Vector2 { x: Self::axis_from_milli(x), y: Self::axis_from_milli(y) }
    }

    fn axis_from_milli(t: i32) -> (r: u16)
        ensures
            r == Vector2::spec_axis_from_milli(t as int),
    {
        if t <= -40000 {
            0
        } else if t >= 40000 {
            65535
        } else {
            let wide: i64 = (t as i64 + 40000) * 65535;
            let scaled: i64 = wide / 80000;
            proof {
                assert(0 <= (t + 40000) * 65535 < 80000 * 65536) by (nonlinear_arith)
                    requires
                        -40000 < t < 40000,
                ;
                assert(0 <= scaled < 65536) by (nonlinear_arith)
                    requires
                        scaled == wide / 80000,
                        0 <= wide < 80000 * 65536,
                ;
            }
            scaled as u16
        }
    }

    /// One axis back in thousandths of a world unit.
    pub open spec fn spec_axis_to_milli(v: u16) -> int {
        (v * 80000) / 65535 - 40000
    }

    /// The axes in thousandths of a world unit, in [-40000, 40000].
    pub fn to_milli(&self) -> (r: (i32, i32))
        ensures
            r.0 == Vector2::spec_axis_to_milli(self.x),
            r.1 == Vector2::spec_axis_to_milli(self.y),
            -40000 <= r.0 <= 40000,
            -40000 <= r.1 <= 40000,
    {
        (Self::axis_to_milli(self.x), Self::axis_to_milli(self.y))
    }

    fn axis_to_milli(v: u16) -> (r: i32)
        ensures
            r == Vector2::spec_axis_to_milli(v),
            -40000 <= r <= 40000,
    {
        let wide: i64 = (v as i64) * 80000;
        let scaled: i64 = wide / 65535;
        proof {
            assert(0 <= v * 80000 <= 65535 * 80000) by (nonlinear_arith)
                requires
                    0 <= v <= 65535,
            ;
            assert(0 <= scaled <= 80000) by (nonlinear_arith)
                requires
                    scaled == wide / 65535,
                    0 <= wide <= 65535 * 80000,
            ;
        }
        (scaled as i32) - 40000
    }

    /// The four bytes of a vector: each axis as a little-endian u16.
    pub open spec fn spec_ser(&self) -> Seq<u8> {
        crate::codec::le16(self.x) + crate::codec::le16(self.y)
    }

    pub fn serialize(&self, w: &mut PacketWriter)
        requires
            old(w).wf(),
        ensures
            final(w).wf(),
            final(w).out() == old(w).out() + self.spec_ser(),
            final(w).starts() == old(w).starts(),
    {
        w.write_u16(self.x);
        w.write_u16(self.y);
        proof {
            assert(final(w).out() =~= old(w).out() + self.spec_ser());
        }
    }

    pub fn deserialize(r: &mut PacketReader) -> (res: Result<Vector2, CodecError>)
        requires
            old(r).wf(),
        ensures
            final(r).wf(),
            match res {
                Ok(v) => old(r).rem().len() >= 4 && old(r).rem().subrange(0, 4) == v.spec_ser()
                    && final(r).rem() == old(r).rem().skip(4),
                Err(e) => e == CodecError::UnexpectedEof && old(r).rem().len() < 4,
            },
    {
        let x = r.read_u16()?;
        let y = r.read_u16()?;
        let v = Vector2 { x, y };
        proof {
            assert(old(r).rem().subrange(0, 4) =~= v.spec_ser());
        }
        Ok(v)
    }

    /// The origin of the normalized domain: the world-unit zero point.
    pub fn zero() -> (r: Vector2)
        ensures
            r.x == 0x7FFF && r.y == 0x7FFF,
    {
        Vector2 { x: 0x7FFF, y: 0x7FFF }
    }
}

/// One task of a player: its id and whether it is complete.
#[derive(Debug, Copy, Clone, PartialEq, Eq, Structural)]
pub struct TaskInfo {
    pub id: u32,
    pub complete: bool,
}

impl TaskInfo {
    /// A task on the wire: its id as a varint, then a completion byte.
    pub open spec fn spec_ser(&self) -> Seq<u8> {
        varint(self.id) + seq![if self.complete { 1u8 } else { 0u8 }]
    }

    pub fn serialize(&self, w: &mut PacketWriter)
        requires
            old(w).wf(),
        ensures
            final(w).wf(),
            final(w).out() == old(w).out() + self.spec_ser(),
            final(w).starts() == old(w).starts(),
    {
        w.write_u32_encoded(self.id);
        w.write_bool(self.complete);
        proof {
            assert(final(w).out() =~= old(w).out() + self.spec_ser());
        }
    }

    pub fn deserialize(r: &mut PacketReader) -> (res: Result<TaskInfo, CodecError>)
        requires
            old(r).wf(),
        ensures
            final(r).wf(),
            match res {
                Ok(t) => match crate::codec::varint_size(old(r).rem()) {
                    Some(n) => t.id == crate::codec::varint_value(old(r).rem()) && old(
                        r,
                    ).rem().len() >= n + 1 && old(r).rem()[n] == (if t.complete {
                        1u8
                    } else {
                        0u8
                    }) && final(r).rem() == old(r).rem().skip(n + 1),
                    None => false,
                },
                Err(_) => match crate::codec::varint_size(old(r).rem()) {
                    Some(n) => old(r).rem().len() <= n || old(r).rem()[n] > 1,
                    None => true,
                },
            },
    {
        proof {
            crate::codec::lemma_varint_size_bounds(old(r).rem());
        }
        let id = r.read_u32_encoded()?;
        proof {
            let s = old(r).rem();
            let n = crate::codec::varint_size(s).unwrap();
            assert(s.skip(n).len() == s.len() - n);
            if s.len() > n {
                assert(s.skip(n)[0] == s[n]);
            }
        }
        let complete = r.read_bool()?;
        proof {
            let s = old(r).rem();
            let n = crate::codec::varint_size(s).unwrap();
            assert(s.skip(n).skip(1) =~= s.skip(n + 1));
        }
        Ok(TaskInfo { id, complete })
    }
}

/// The concatenated wire form of a sequence of tasks.
pub open spec fn tasks_bytes(ts: Seq<TaskInfo>) -> Seq<u8>
    decreases ts.len(),
{
    if ts.len() == 0 {
        Seq::<u8>::empty()
    } else {
        ts[0].spec_ser() + tasks_bytes(ts.drop_first())
    }
}

proof fn lemma_tasks_bytes_take_step(ts: Seq<TaskInfo>, i: int)
    requires
        0 <= i < ts.len(),
    ensures
        tasks_bytes(ts.take(i + 1)) == tasks_bytes(ts.take(i)) + ts[i].spec_ser(),
    decreases i,
{
    if i == 0 {
        assert(ts.take(1).drop_first() =~= Seq::<TaskInfo>::empty());
        assert(ts.take(0) =~= Seq::<TaskInfo>::empty());
        assert(ts.take(1).len() == 1 && ts.take(1)[0] == ts[0]);
        assert(tasks_bytes(Seq::<TaskInfo>::empty()) == Seq::<u8>::empty());
        assert(tasks_bytes(ts.take(1)) =~= ts[0].spec_ser());
        assert(tasks_bytes(ts.take(i + 1)) =~= tasks_bytes(ts.take(i)) + ts[i].spec_ser());
    } else {
        lemma_tasks_bytes_take_step(ts.drop_first(), i - 1);
        assert(ts.take(i + 1).drop_first() =~= ts.drop_first().take(i));
        assert(ts.take(i).drop_first() =~= ts.drop_first().take(i - 1));
        assert(ts.take(i + 1)[0] == ts[0] && ts.take(i)[0] == ts[0]);
        assert(ts.drop_first()[i - 1] == ts[i]);
        assert(tasks_bytes(ts.take(i + 1)) =~= tasks_bytes(ts.take(i)) + ts[i].spec_ser());
    }
}

proof fn lemma_tasks_bytes_skip_step(ts: Seq<TaskInfo>, i: int)
    requires
        0 <= i < ts.len(),
    ensures
        tasks_bytes(ts.skip(i)) == ts[i].spec_ser() + tasks_bytes(ts.skip(i + 1)),
    decreases i,
{
    if i == 0 {
        assert(ts.skip(0) =~= ts);
        assert(ts.drop_first() =~= ts.skip(1));
    } else {
        lemma_tasks_bytes_skip_step(ts.drop_first(), i - 1);
        assert(ts.drop_first().skip(i - 1) =~= ts.skip(i));
        assert(ts.drop_first().skip(i) =~= ts.skip(i + 1));
        assert(ts.drop_first()[i - 1] == ts[i]);
    }
}

/// One player's record in the game data registry. `dirty` is local
/// bookkeeping (the record awaits transmission) and never crosses the wire.
#[derive(Debug, Clone)]
pub struct PlayerData {
    pub name: String,
    pub color: u8,
    pub hat_id: u32,
    pub skin_id: u32,
    pub pet_id: u32,
    pub disconnected: bool,
    pub is_imposter: bool,
    pub is_dead: bool,
    pub tasks: Vec<TaskInfo>,
    pub dirty: bool,
}

impl PlayerData {
    /// The three status flags packed into one byte.
    pub open spec fn spec_flags(&self) -> u8 {
        ((if self.disconnected {
            1int
        } else {
            0int
        }) + (if self.is_imposter {
            2int
        } else {
            0int
        }) + (if self.is_dead {
            4int
        } else {
            0int
        })) as u8
    }

    /// A record fits on the wire: the name's byte count fits the length
    /// varint and the task count fits its one byte.
    pub open spec fn wf(&self) -> bool {
        &&& encode_utf8(self.name@).len() <= u32::MAX
        &&& self.tasks@.len() <= 255
    }

    /// A record on the wire: name, color, hat, skin and pet, the flags
    /// byte, a task count and the tasks.
    pub open spec fn spec_ser(&self) -> Seq<u8> {
        varint(encode_utf8(self.name@).len() as u32) + encode_utf8(self.name@) + seq![self.color]
            + varint(self.hat_id) + varint(self.skin_id) + varint(self.pet_id) + seq![
            self.spec_flags(),
            self.tasks@.len() as u8,
        ] + tasks_bytes(self.tasks@)
    }

    #[verifier::rlimit(100)]
    pub fn serialize(&self, w: &mut PacketWriter)
        requires
            old(w).wf(),
            self.wf(),
        ensures
            final(w).wf(),
            final(w).out() == old(w).out() + self.spec_ser(),
            final(w).starts() == old(w).starts(),
    {
        w.write_string(self.name.as_str());
        w.write_u8(self.color);
        w.write_u32_encoded(self.hat_id);
        w.write_u32_encoded(self.skin_id);
        w.write_u32_encoded(self.pet_id);
        let flags: u8 = (if self.disconnected {
            1u8
        } else {
            0u8
        }) + (if self.is_imposter {
            2u8
        } else {
            0u8
        }) + (if self.is_dead {
            4u8
        } else {
            0u8
        });
        w.write_u8(flags);
        w.write_u8(self.tasks.len() as u8);
        write_tasks(w, &self.tasks);
        proof {
            assert(final(w).out() =~= old(w).out() + self.spec_ser());
        }
    }

    /// Reads a record. Any byte sequence that starts with the wire form of a
    /// well-formed record parses back to that record, with `dirty` clear.
    #[verifier::rlimit(100)]
    #[verifier::spinoff_prover]
    pub fn deserialize(r: &mut PacketReader) -> (res: Result<PlayerData, CodecError>)
        requires
            old(r).wf(),
        ensures
            final(r).wf(),
            forall|x: PlayerData, rest: Seq<u8>|
                x.wf() && old(r).rem() == #[trigger] (x.spec_ser() + rest) ==> (match res {
                    Ok(v) => v.name@ == x.name@ && v.color == x.color && v.hat_id == x.hat_id
                        && v.skin_id == x.skin_id && v.pet_id == x.pet_id && v.disconnected
                        == x.disconnected && v.is_imposter == x.is_imposter && v.is_dead
                        == x.is_dead && v.tasks@ == x.tasks@ && !v.dirty && final(r).rem() == rest,
                    Err(_) => false,
                }),
    {
        proof {
            assert forall|x: PlayerData, rest: Seq<u8>|
                x.wf() && old(r).rem() == #[trigger] (x.spec_ser() + rest) implies pd_wire_facts(
                x,
                rest,
                old(r).rem(),
            ) by {
                lemma_player_data_parse_fields(x, rest, old(r).rem());
            }
        }
        let name = r.read_string()?;
        let color = r.read_u8()?;
        let hat_id = r.read_u32_encoded()?;
        let skin_id = r.read_u32_encoded()?;
        let pet_id = r.read_u32_encoded()?;
        let flags = r.read_u8()?;
        let count = r.read_u8()?;
        let ghost before_tasks = r.rem();
        proof {
            assert forall|x: PlayerData, rest: Seq<u8>|
                x.wf() && old(r).rem() == #[trigger] (x.spec_ser() + rest) implies before_tasks
                == tasks_bytes(x.tasks@) + rest && count as int == x.tasks@.len() by {
                assert(pd_wire_facts(x, rest, old(r).rem()));
            }
        }
        let tasks = read_tasks(r, count)?;
        let disconnected = flags % 2 == 1;
        let is_imposter = (flags / 2) % 2 == 1;
        let is_dead = (flags / 4) % 2 == 1;
        let v = PlayerData {
            name,
            color,
            hat_id,
            skin_id,
            pet_id,
            disconnected,
            is_imposter,
            is_dead,
            tasks,
            dirty: false,
        };
        proof {
            assert forall|x: PlayerData, rest: Seq<u8>|
                x.wf() && old(r).rem() == #[trigger] (x.spec_ser() + rest) implies (v.name@
                == x.name@ && v.color == x.color && v.hat_id == x.hat_id && v.skin_id == x.skin_id
                && v.pet_id == x.pet_id && v.disconnected == x.disconnected && v.is_imposter
                == x.is_imposter && v.is_dead == x.is_dead && v.tasks@ == x.tasks@ && final(r).rem()
                == rest) by {
                assert(pd_wire_facts(x, rest, old(r).rem()));
                broadcast use vstd::utf8::encode_utf8_decode_utf8;

                assert(before_tasks == tasks_bytes(x.tasks@) + rest && count == x.tasks@.len());
                let f = x.spec_flags();
                assert((f % 2 == 1) == x.disconnected && ((f / 2) % 2 == 1) == x.is_imposter && ((f
                    / 4) % 2 == 1) == x.is_dead);
                assert(x.tasks@.take(x.tasks@.len() as int) =~= x.tasks@);
                assert(x.tasks@.skip(x.tasks@.len() as int) =~= Seq::<TaskInfo>::empty());
                assert(tasks_bytes(x.tasks@.skip(x.tasks@.len() as int)) + rest =~= rest);
            }
        }
        Ok(v)
    }
}


fn write_tasks(w: &mut PacketWriter, tasks: &Vec<TaskInfo>)
    requires
        old(w).wf(),
    ensures
        final(w).wf(),
        final(w).out() == old(w).out() + tasks_bytes(tasks@),
        final(w).starts() == old(w).starts(),
{
    let mut i: usize = 0;
    while i < tasks.len()
        invariant
            w.wf(),
            i <= tasks@.len(),
            w.starts() == old(w).starts(),
            w.out() == old(w).out() + tasks_bytes(tasks@.take(i as int)),
        decreases tasks@.len() - i,
    {
        let t = TaskInfo { id: tasks[i].id, complete: tasks[i].complete };
        t.serialize(w);
        proof {
            lemma_tasks_bytes_take_step(tasks@, i as int);
            assert(old(w).out() + tasks_bytes(tasks@.take(i as int)) + tasks@[i as int].spec_ser()
                =~= old(w).out() + tasks_bytes(tasks@.take(i as int + 1)));
        }
        i = i + 1;
    }
    proof {
        assert(tasks@.take(tasks@.len() as int) =~= tasks@);
    }
}

#[verifier::rlimit(100)]
fn read_tasks(r: &mut PacketReader, count: u8) -> (res: Result<Vec<TaskInfo>, CodecError>)
    requires
        old(r).wf(),
    ensures
        final(r).wf(),
        forall|ts: Seq<TaskInfo>, rest: Seq<u8>|
            old(r).rem() == #[trigger] (tasks_bytes(ts) + rest) && ts.len() == count ==> (match res {
                Ok(v) => v@ == ts && final(r).rem() == rest,
                Err(_) => false,
            }),
{
    let ghost before_tasks = old(r).rem();
    let mut tasks: Vec<TaskInfo> = Vec::new();
    let mut i: usize = 0;
    proof {
        assert forall|ts: Seq<TaskInfo>, rest: Seq<u8>|
            before_tasks == #[trigger] (tasks_bytes(ts) + rest) && ts.len() == count implies (
        tasks@ == ts.take(0) && r.rem() == tasks_bytes(ts.skip(0)) + rest) by {
            assert(tasks@ =~= ts.take(0));
            assert(ts.skip(0) =~= ts);
        }
    }
    while i < count as usize
        invariant
            r.wf(),
            i <= count,
            tasks@.len() == i,
            before_tasks == old(r).rem(),
            forall|ts: Seq<TaskInfo>, rest: Seq<u8>|
                before_tasks == #[trigger] (tasks_bytes(ts) + rest) && ts.len() == count ==> (
                tasks@ == ts.take(i as int) && r.rem() == tasks_bytes(ts.skip(i as int)) + rest),
        decreases count - i,
    {
        proof {
            assert forall|ts: Seq<TaskInfo>, rest: Seq<u8>|
                before_tasks == #[trigger] (tasks_bytes(ts) + rest) && ts.len()
                    == count implies crate::codec::varint_size(r.rem()) == Some(varint(
                ts[i as int].id,
            ).len() as int) && crate::codec::varint_value(r.rem()) == ts[i as int].id
                && r.rem().len() > varint(ts[i as int].id).len() && r.rem()[varint(
                ts[i as int].id,
            ).len() as int] == (if ts[i as int].complete {
                1u8
            } else {
                0u8
            }) && r.rem().skip(varint(ts[i as int].id).len() as int + 1) == tasks_bytes(
                ts.skip(i as int + 1),
            ) + rest by {
                lemma_tasks_bytes_skip_step(ts, i as int);
                lemma_task_parse(ts[i as int], tasks_bytes(ts.skip(i as int + 1)) + rest);
                assert(tasks_bytes(ts.skip(i as int)) + rest =~= ts[i as int].spec_ser() + (
                tasks_bytes(ts.skip(i as int + 1)) + rest));
            }
        }
        let t = TaskInfo::deserialize(r)?;
        tasks.push(t);
        proof {
            assert forall|ts: Seq<TaskInfo>, rest: Seq<u8>|
                before_tasks == #[trigger] (tasks_bytes(ts) + rest) && ts.len() == count implies
                tasks@ == ts.take(i as int + 1) && r.rem() == tasks_bytes(ts.skip(i as int + 1))
                + rest by {
                assert(t == ts[i as int]);
                assert(tasks@ =~= ts.take(i as int + 1));
            }
        }
        i = i + 1;
    }
    proof {
        assert forall|ts: Seq<TaskInfo>, rest: Seq<u8>|
            before_tasks == #[trigger] (tasks_bytes(ts) + rest) && ts.len() == count implies (
        tasks@ == ts && r.rem() == rest) by {
            assert(ts.take(ts.len() as int) =~= ts);
            assert(ts.skip(ts.len() as int) =~= Seq::<TaskInfo>::empty());
            assert(tasks_bytes(ts.skip(ts.len() as int)) + rest =~= rest);
        }
    }
    Ok(tasks)
}

/// Parsing facts for one task at the head of the input.
proof fn lemma_task_parse(t: TaskInfo, rest: Seq<u8>)
    ensures
        crate::codec::varint_size(t.spec_ser() + rest) == Some(varint(t.id).len() as int),
        crate::codec::varint_value(t.spec_ser() + rest) == t.id,
        (t.spec_ser() + rest).len() >= varint(t.id).len() + 1,
        (t.spec_ser() + rest)[varint(t.id).len() as int] == (if t.complete {
            1u8
        } else {
            0u8
        }),
        (t.spec_ser() + rest).skip(varint(t.id).len() as int + 1) == rest,
        t.spec_ser().len() == varint(t.id).len() + 1,
{
    crate::codec::lemma_varint_round_trip(t.id, seq![if t.complete { 1u8 } else { 0u8 }] + rest);
    assert(t.spec_ser() + rest =~= varint(t.id) + (seq![if t.complete { 1u8 } else { 0u8 }]
        + rest));
    assert((t.spec_ser() + rest).skip(varint(t.id).len() as int + 1) =~= rest);
}

/// The wire form of a record from its flags byte onward.
pub open spec fn pd_t5(x: PlayerData, rest: Seq<u8>) -> Seq<u8> {
    seq![x.spec_flags(), x.tasks@.len() as u8] + tasks_bytes(x.tasks@) + rest
}

/// The wire form of a record from its pet id onward.
pub open spec fn pd_t4(x: PlayerData, rest: Seq<u8>) -> Seq<u8> {
    varint(x.pet_id) + pd_t5(x, rest)
}

/// The wire form of a record from its skin id onward.
pub open spec fn pd_t3(x: PlayerData, rest: Seq<u8>) -> Seq<u8> {
    varint(x.skin_id) + pd_t4(x, rest)
}

/// The wire form of a record from its hat id onward.
pub open spec fn pd_t2(x: PlayerData, rest: Seq<u8>) -> Seq<u8> {
    varint(x.hat_id) + pd_t3(x, rest)
}

/// The parse of each leading field of a well-formed record's wire form.
pub open spec fn pd_wire_facts(x: PlayerData, rest: Seq<u8>, s: Seq<u8>) -> bool {
    let nb = encode_utf8(x.name@);
    let c1 = varint(nb.len() as u32).len() + nb.len();
    &&& crate::codec::parse_lp_bytes(s) == Some((nb, c1 as int))
    &&& valid_utf8(nb)
    &&& decode_utf8(nb) == x.name@
    &&& s.skip(c1 as int).len() >= 1 && s.skip(c1 as int)[0] == x.color
    &&& s.skip(c1 as int).skip(1) == pd_t2(x, rest)
    &&& crate::codec::varint_size(pd_t2(x, rest)) == Some(varint(x.hat_id).len() as int)
    &&& crate::codec::varint_value(pd_t2(x, rest)) == x.hat_id
    &&& pd_t2(x, rest).skip(varint(x.hat_id).len() as int) == pd_t3(x, rest)
    &&& crate::codec::varint_size(pd_t3(x, rest)) == Some(varint(x.skin_id).len() as int)
    &&& crate::codec::varint_value(pd_t3(x, rest)) == x.skin_id
    &&& pd_t3(x, rest).skip(varint(x.skin_id).len() as int) == pd_t4(x, rest)
    &&& crate::codec::varint_size(pd_t4(x, rest)) == Some(varint(x.pet_id).len() as int)
    &&& crate::codec::varint_value(pd_t4(x, rest)) == x.pet_id
    &&& pd_t4(x, rest).skip(varint(x.pet_id).len() as int) == pd_t5(x, rest)
    &&& pd_t5(x, rest).len() >= 2 && pd_t5(x, rest)[0] == x.spec_flags() && pd_t5(x, rest)[1]
        == x.tasks@.len() as u8
    &&& pd_t5(x, rest).skip(1).len() >= 1 && pd_t5(x, rest).skip(1)[0] == x.tasks@.len() as u8
    &&& pd_t5(x, rest).skip(1).skip(1) == tasks_bytes(x.tasks@) + rest
}

/// Each field of a well-formed record is recovered from its wire form.
proof fn lemma_player_data_parse_fields(x: PlayerData, rest: Seq<u8>, s: Seq<u8>)
    requires
        x.wf(),
        s == x.spec_ser() + rest,
    ensures
        pd_wire_facts(x, rest, s),
{
    lemma_pd_name_facts(x, rest, s);
    crate::codec::lemma_varint_round_trip(x.hat_id, pd_t3(x, rest));
    crate::codec::lemma_varint_round_trip(x.skin_id, pd_t4(x, rest));
    crate::codec::lemma_varint_round_trip(x.pet_id, pd_t5(x, rest));
    assert(pd_t5(x, rest).skip(1).skip(1) =~= tasks_bytes(x.tasks@) + rest);
}

#[verifier::rlimit(100)]
proof fn lemma_pd_name_facts(x: PlayerData, rest: Seq<u8>, s: Seq<u8>)
    requires
        x.wf(),
        s == x.spec_ser() + rest,
    ensures
        ({
            let nb = encode_utf8(x.name@);
            let c1 = varint(nb.len() as u32).len() + nb.len();
            &&& crate::codec::parse_lp_bytes(s) == Some((nb, c1 as int))
            &&& valid_utf8(nb)
            &&& decode_utf8(nb) == x.name@
            &&& s.skip(c1 as int).len() >= 1 && s.skip(c1 as int)[0] == x.color
            &&& s.skip(c1 as int).skip(1) == pd_t2(x, rest)
        }),
{
    let nb = encode_utf8(x.name@);
    let c1 = varint(nb.len() as u32).len() + nb.len();
    let tail1 = nb + seq![x.color] + pd_t2(x, rest);
    crate::codec::lemma_varint_round_trip(nb.len() as u32, tail1);
    assert(s =~= varint(nb.len() as u32) + tail1);
    let n = varint(nb.len() as u32).len() as int;
    assert(s.subrange(n, n + nb.len() as int) =~= nb);
    broadcast use vstd::utf8::encode_utf8_valid_utf8, vstd::utf8::encode_utf8_decode_utf8;

    assert(valid_utf8(nb));
    assert(decode_utf8(nb) == x.name@);
    assert(s.skip(c1 as int) =~= seq![x.color] + pd_t2(x, rest));
    assert(s.skip(c1 as int).skip(1) =~= pd_t2(x, rest));
}

/// Reads the head of a length-prefixed string from `s`: the byte count, the
/// UTF-8 payload, and where the rest begins.
pub(crate) proof fn lemma_string_head(name: Seq<char>, tail: Seq<u8>, s: Seq<u8>)
    requires
        encode_utf8(name).len() <= u32::MAX,
        s == varint(encode_utf8(name).len() as u32) + encode_utf8(name) + tail,
    ensures
        ({
            let nb = encode_utf8(name);
            let c1 = varint(nb.len() as u32).len() + nb.len();
            &&& crate::codec::parse_lp_bytes(s) == Some((nb, c1 as int))
            &&& valid_utf8(nb)
            &&& decode_utf8(nb) == name
            &&& s.skip(c1 as int) == tail
        }),
{
    let nb = encode_utf8(name);
    let c1 = varint(nb.len() as u32).len() + nb.len();
    let tail1 = nb + tail;
    crate::codec::lemma_varint_round_trip(nb.len() as u32, tail1);
    assert(s =~= varint(nb.len() as u32) + tail1);
    let n = varint(nb.len() as u32).len() as int;
    assert(s.subrange(n, n + nb.len() as int) =~= nb);
    broadcast use vstd::utf8::encode_utf8_valid_utf8, vstd::utf8::encode_utf8_decode_utf8;

    assert(valid_utf8(nb));
    assert(decode_utf8(nb) == name);
    assert(s.skip(c1 as int) =~= tail);
}

/// The public parameters of a game. The player speed, the two light radii
/// and the kill cooldown travel as IEEE-754 single-precision values; the
/// protocol never computes with them, so this type carries their raw bits.
#[derive(Debug, Clone, PartialEq)]
pub struct GameOptions {
    pub game_settings_version: u8,
    pub max_players: u8,
    pub language: u32,
    pub map_id: u8,
    pub player_speed: u32,
    pub crew_light: u32,
    pub imposter_light: u32,
    pub kill_cooldown: u32,
    pub num_common_tasks: u8,
    pub num_long_tasks: u8,
    pub num_short_tasks: u8,
    pub num_emergency_meetings: i32,
    pub num_imposters: i8,
    pub kill_distance: i8,
    pub discussion_time: i32,
    pub voting_time: i32,
    pub is_defaults: u8,
    pub emergency_cooldown: u8,
}

impl Default for GameOptions {
    /// The stock public-game options: ten players, English, the first map,
    /// stock speed and vision, one imposter slot left open.
    fn default() -> (r: GameOptions)
        ensures
            r == (GameOptions {
                game_settings_version: 2u8,
                max_players: 10u8,
                language: LANGUAGE_ENGLISH,
                map_id: 0u8,
                player_speed: 0x3F800000u32,
                crew_light: 0x3F800000u32,
                imposter_light: 0x3FC00000u32,
                kill_cooldown: 0x41700000u32,
                num_common_tasks: 1u8,
                num_long_tasks: 2u8,
                num_short_tasks: 1u8,
                num_emergency_meetings: 1i32,
                num_imposters: 0i8,
                kill_distance: 1i8,
                discussion_time: 15i32,
                voting_time: 120i32,
                is_defaults: 1u8,
                emergency_cooldown: 15u8,
            }),
            r.wf(),
    {
        GameOptions {
            game_settings_version: 2,
            max_players: 10,
            language: LANGUAGE_ENGLISH,
            map_id: 0,
            // 1.0, 1.0, 1.5 and 15.0 as single-precision bit patterns
            player_speed: 0x3F800000,
            crew_light: 0x3F800000,
            imposter_light: 0x3FC00000,
            kill_cooldown: 0x41700000,
            num_common_tasks: 1,
            num_long_tasks: 2,
            num_short_tasks: 1,
            num_emergency_meetings: 1,
            num_imposters: 0,
            kill_distance: 1,
            discussion_time: 15,
            voting_time: 120,
            is_defaults: 1,
            emergency_cooldown: 15,
        }
    }
}

impl GameOptions {
    /// The language field holds only bits the protocol defines.
    pub open spec fn wf(&self) -> bool {
        self.language <= LANGUAGE_MASK
    }

    /// The 42 fixed bytes of the options block.
    pub open spec fn spec_ser(&self) -> Seq<u8> {
        seq![self.game_settings_version, self.max_players] + le32(self.language) + seq![
            self.map_id,
        ] + le32(self.player_speed) + le32(self.crew_light) + le32(self.imposter_light) + le32(
            self.kill_cooldown,
        ) + seq![self.num_common_tasks, self.num_long_tasks, self.num_short_tasks] + le32(
            self.num_emergency_meetings as u32,
        ) + seq![self.num_imposters as u8, self.kill_distance as u8] + le32(
            self.discussion_time as u32,
        ) + le32(self.voting_time as u32) + seq![self.is_defaults, self.emergency_cooldown]
    }

    pub fn serialize(&self, w: &mut PacketWriter)
        requires
            old(w).wf(),
        ensures
            final(w).wf(),
            final(w).out() == old(w).out() + self.spec_ser(),
            final(w).starts() == old(w).starts(),
    {
        w.write_u8(self.game_settings_version);
        w.write_u8(self.max_players);
        w.write_u32(self.language);
        w.write_u8(self.map_id);
        w.write_u32(self.player_speed);
        w.write_u32(self.crew_light);
        w.write_u32(self.imposter_light);
        w.write_u32(self.kill_cooldown);
        w.write_u8(self.num_common_tasks);
        w.write_u8(self.num_long_tasks);
        w.write_u8(self.num_short_tasks);
        w.write_i32(self.num_emergency_meetings);
        w.write_i8(self.num_imposters);
        w.write_i8(self.kill_distance);
        w.write_i32(self.discussion_time);
        w.write_i32(self.voting_time);
        w.write_u8(self.is_defaults);
        w.write_u8(self.emergency_cooldown);
        proof {
            assert(final(w).out() =~= old(w).out() + self.spec_ser());
        }
    }

    /// Reads an options block: 42 fixed bytes, rejected when the language
    /// field holds a bit the protocol does not define.
    #[verifier::rlimit(100)]
    pub fn deserialize(r: &mut PacketReader) -> (res: Result<GameOptions, CodecError>)
        requires
            old(r).wf(),
        ensures
            final(r).wf(),
            match res {
                Ok(_) => old(r).rem().len() >= 42 && final(r).rem() == old(r).rem().skip(42),
                Err(e) => {
                    &&& (e == CodecError::UnexpectedEof <==> old(r).rem().len() < 42)
                    &&& (e == CodecError::InvalidDiscriminant <==> old(r).rem().len() >= 42
                        && u32_val(
                        old(r).rem()[2],
                        old(r).rem()[3],
                        old(r).rem()[4],
                        old(r).rem()[5],
                    ) > LANGUAGE_MASK)
                    &&& (if e == CodecError::UnexpectedEof {
                        *final(r) == *old(r)
                    } else {
                        final(r).rem() == old(r).rem().skip(42)
                    })
                },
            },
            forall|x: GameOptions, rest: Seq<u8>|
                x.wf() && old(r).rem() == #[trigger] (x.spec_ser() + rest) ==> (match res {
                    Ok(v) => v == x && final(r).rem() == rest,
                    Err(_) => false,
                }),
    {
        let n = self_len_check(r)?;
        let b = match r.read_bytes_raw(42) {
            Ok(b) => b,
            Err(_) => {
                proof {
                    assert(false);
                }
                return Err(CodecError::UnexpectedEof);
            },
        };
        let language: u32 = b[2] as u32 + 256 * (b[3] as u32) + 0x10000 * (b[4] as u32) + 0x1000000
            * (b[5] as u32);
        if language > LANGUAGE_MASK {
            proof {
                lemma_cast_round_trips();
                assert forall|x: GameOptions, rest: Seq<u8>|
                    x.wf() && old(r).rem() == #[trigger] (x.spec_ser() + rest) implies false by {
                    crate::codec::lemma_le32_val(x.language);
                    assert(old(r).rem()[2] == le32(x.language)[0]);
                    assert(old(r).rem()[3] == le32(x.language)[1]);
                    assert(old(r).rem()[4] == le32(x.language)[2]);
                    assert(old(r).rem()[5] == le32(x.language)[3]);
                }
            }
            return Err(CodecError::InvalidDiscriminant);
        }
        let v = GameOptions {
            game_settings_version: b[0],
            max_players: b[1],
            language,
            map_id: b[6],
            player_speed: u32_at(&b, 7),
            crew_light: u32_at(&b, 11),
            imposter_light: u32_at(&b, 15),
            kill_cooldown: u32_at(&b, 19),
            num_common_tasks: b[23],
            num_long_tasks: b[24],
            num_short_tasks: b[25],
            num_emergency_meetings: u32_at(&b, 26) as i32,
            num_imposters: b[30] as i8,
            kill_distance: b[31] as i8,
            discussion_time: u32_at(&b, 32) as i32,
            voting_time: u32_at(&b, 36) as i32,
            is_defaults: b[40],
            emergency_cooldown: b[41],
        };
        proof {
            lemma_cast_round_trips();
            assert forall|x: GameOptions, rest: Seq<u8>|
                x.wf() && old(r).rem() == #[trigger] (x.spec_ser() + rest) implies v == x && final(r).rem() == rest by {
                lemma_game_options_bytes(x, rest, old(r).rem());
                crate::codec::lemma_le32_val(x.language);
                crate::codec::lemma_le32_val(x.player_speed);
                crate::codec::lemma_le32_val(x.crew_light);
                crate::codec::lemma_le32_val(x.imposter_light);
                crate::codec::lemma_le32_val(x.kill_cooldown);
                crate::codec::lemma_le32_val(x.num_emergency_meetings as u32);
                crate::codec::lemma_le32_val(x.discussion_time as u32);
                crate::codec::lemma_le32_val(x.voting_time as u32);
                assert(old(r).rem().skip(42) =~= rest);
            }
        }
        Ok(v)
    }
}

/// One little-endian u32 out of a byte buffer.
fn u32_at(b: &Vec<u8>, i: usize) -> (r: u32)
    requires
        i + 4 <= b@.len(),
        i + 4 <= usize::MAX,
    ensures
        r as int == u32_val(b@[i as int], b@[i as int + 1], b@[i as int + 2], b@[i as int + 3]),
{
    b[i] as u32 + 256 * (b[i + 1] as u32) + 0x10000 * (b[i + 2] as u32) + 0x1000000 * (b[i
        + 3] as u32)
}

/// Rejects an options read when fewer than its 42 bytes remain.
fn self_len_check(r: &mut PacketReader) -> (res: Result<(), CodecError>)
    requires
        old(r).wf(),
    ensures
        final(r).wf(),
        *final(r) == *old(r),
        match res {
            Ok(_) => old(r).rem().len() >= 42,
            Err(e) => e == CodecError::UnexpectedEof && old(r).rem().len() < 42,
        },
{
    if r.remaining() < 42 {
        Err(CodecError::UnexpectedEof)
    } else {
        Ok(())
    }
}

/// Each byte of a well-formed options block sits at its fixed offset.
#[verifier::rlimit(100)]
proof fn lemma_game_options_bytes(x: GameOptions, rest: Seq<u8>, s: Seq<u8>)
    requires
        s == x.spec_ser() + rest,
    ensures
        s.len() == 42 + rest.len(),
        s[0] == x.game_settings_version,
        s[1] == x.max_players,
        s.subrange(2, 6) == le32(x.language),
        s[6] == x.map_id,
        s.subrange(7, 11) == le32(x.player_speed),
        s.subrange(11, 15) == le32(x.crew_light),
        s.subrange(15, 19) == le32(x.imposter_light),
        s.subrange(19, 23) == le32(x.kill_cooldown),
        s[23] == x.num_common_tasks,
        s[24] == x.num_long_tasks,
        s[25] == x.num_short_tasks,
        s.subrange(26, 30) == le32(x.num_emergency_meetings as u32),
        s[30] == x.num_imposters as u8,
        s[31] == x.kill_distance as u8,
        s.subrange(32, 36) == le32(x.discussion_time as u32),
        s.subrange(36, 40) == le32(x.voting_time as u32),
        s[40] == x.is_defaults,
        s[41] == x.emergency_cooldown,
        s.skip(42) == rest,
{
    assert(s.subrange(2, 6) =~= le32(x.language));
    assert(s.subrange(7, 11) =~= le32(x.player_speed));
    assert(s.subrange(11, 15) =~= le32(x.crew_light));
    assert(s.subrange(15, 19) =~= le32(x.imposter_light));
    assert(s.subrange(19, 23) =~= le32(x.kill_cooldown));
    assert(s.subrange(26, 30) =~= le32(x.num_emergency_meetings as u32));
    assert(s.subrange(32, 36) =~= le32(x.discussion_time as u32));
    assert(s.subrange(36, 40) =~= le32(x.voting_time as u32));
    assert(s.skip(42) =~= rest);
}


/// One matchmaker server: a display name, its address and a failure count.
#[derive(Debug, Clone, PartialEq)]
pub struct ServerInfo {
    pub name: String,
    pub ip: [u8; 4],
    pub port: u16,
    pub connection_failures: u32,
}

impl ServerInfo {
    /// The name's byte count fits the length varint.
    pub open spec fn wf(&self) -> bool {
        encode_utf8(self.name@).len() <= u32::MAX
    }

    /// A server entry on the wire: name, raw IP, little-endian port and the
    /// failure count as a varint.
    pub open spec fn spec_ser(&self) -> Seq<u8> {
        varint(encode_utf8(self.name@).len() as u32) + encode_utf8(self.name@) + self.ip@ + le16(
            self.port,
        ) + varint(self.connection_failures)
    }

    pub fn serialize(&self, w: &mut PacketWriter)
        requires
            old(w).wf(),
            self.wf(),
        ensures
            final(w).wf(),
            final(w).out() == old(w).out() + self.spec_ser(),
            final(w).starts() == old(w).starts(),
    {
        w.write_string(self.name.as_str());
        w.write_u8(self.ip[0]);
        w.write_u8(self.ip[1]);
        w.write_u8(self.ip[2]);
        w.write_u8(self.ip[3]);
        w.write_u16(self.port);
        w.write_u32_encoded(self.connection_failures);
        proof {
            assert(final(w).out() =~= old(w).out() + self.spec_ser());
        }
    }

    /// Reads a server entry. Any byte sequence that starts with the wire
    /// form of a well-formed entry parses back to that entry.
    #[verifier::rlimit(100)]
    pub fn deserialize(r: &mut PacketReader) -> (res: Result<ServerInfo, CodecError>)
        requires
            old(r).wf(),
        ensures
            final(r).wf(),
            forall|x: ServerInfo, rest: Seq<u8>|
                x.wf() && old(r).rem() == #[trigger] (x.spec_ser() + rest) ==> (match res {
                    Ok(v) => v.name@ == x.name@ && v.ip@ == x.ip@ && v.port == x.port
                        && v.connection_failures == x.connection_failures && final(r).rem() == rest,
                    Err(_) => false,
                }),
    {
        proof {
            assert forall|x: ServerInfo, rest: Seq<u8>|
                x.wf() && old(r).rem() == #[trigger] (x.spec_ser() + rest) implies si_wire_facts(
                x,
                rest,
                old(r).rem(),
            ) by {
                lemma_si_wire_facts(x, rest, old(r).rem());
            }
        }
        let name = r.read_string()?;
        let ipb = r.read_bytes_raw(4)?;
        let ip: [u8; 4] = [ipb[0], ipb[1], ipb[2], ipb[3]];
        let port = r.read_u16()?;
        let connection_failures = r.read_u32_encoded()?;
        let v = ServerInfo { name, ip, port, connection_failures };
        proof {
            assert forall|x: ServerInfo, rest: Seq<u8>|
                x.wf() && old(r).rem() == #[trigger] (x.spec_ser() + rest) implies v.name@
                == x.name@ && v.ip@ == x.ip@ && v.port == x.port && v.connection_failures
                == x.connection_failures && final(r).rem() == rest by {
                broadcast use vstd::utf8::encode_utf8_decode_utf8;

                crate::codec::lemma_le16_val(x.port);
                assert(v.ip@ =~= x.ip@);
            }
        }
        Ok(v)
    }
}

/// The tail of a server entry after its name.
pub open spec fn si_t2(x: ServerInfo, rest: Seq<u8>) -> Seq<u8> {
    x.ip@ + si_t3(x, rest)
}

/// The tail of a server entry from its port onward.
pub open spec fn si_t3(x: ServerInfo, rest: Seq<u8>) -> Seq<u8> {
    le16(x.port) + (varint(x.connection_failures) + rest)
}

/// The parse of each leading field of a well-formed server entry.
pub open spec fn si_wire_facts(x: ServerInfo, rest: Seq<u8>, s: Seq<u8>) -> bool {
    let nb = encode_utf8(x.name@);
    let c1 = varint(nb.len() as u32).len() + nb.len();
    &&& crate::codec::parse_lp_bytes(s) == Some((nb, c1 as int))
    &&& valid_utf8(nb)
    &&& decode_utf8(nb) == x.name@
    &&& s.skip(c1 as int) == si_t2(x, rest)
    &&& si_t2(x, rest).len() >= 4 && si_t2(x, rest).take(4) == x.ip@
    &&& si_t2(x, rest).skip(4) == si_t3(x, rest)
    &&& si_t3(x, rest).len() >= 2 && si_t3(x, rest).subrange(0, 2) == le16(x.port)
    &&& u16_val(si_t3(x, rest)[0], si_t3(x, rest)[1]) == x.port
    &&& si_t3(x, rest).skip(2) == varint(x.connection_failures) + rest
    &&& crate::codec::varint_size(varint(x.connection_failures) + rest) == Some(varint(
        x.connection_failures,
    ).len() as int)
    &&& crate::codec::varint_value(varint(x.connection_failures) + rest)
        == x.connection_failures
    &&& (varint(x.connection_failures) + rest).skip(
        varint(x.connection_failures).len() as int,
    ) == rest
}

#[verifier::rlimit(100)]
proof fn lemma_si_wire_facts(x: ServerInfo, rest: Seq<u8>, s: Seq<u8>)
    requires
        x.wf(),
        s == x.spec_ser() + rest,
    ensures
        si_wire_facts(x, rest, s),
{
    assert(s =~= varint(encode_utf8(x.name@).len() as u32) + encode_utf8(x.name@) + si_t2(
        x,
        rest,
    ));
    lemma_string_head(x.name@, si_t2(x, rest), s);
    assert(si_t2(x, rest).take(4) =~= x.ip@);
    assert(si_t2(x, rest).skip(4) =~= si_t3(x, rest));
    assert(si_t3(x, rest).subrange(0, 2) =~= le16(x.port));
    crate::codec::lemma_le16_val(x.port);
    assert(si_t3(x, rest).skip(2) =~= varint(x.connection_failures) + rest);
    crate::codec::lemma_varint_round_trip(x.connection_failures, rest);
}

/// One public game in a matchmaker listing.
#[derive(Debug, Clone)]
pub struct GameListing {
    pub address: Address,
    pub id: GameId,
    pub host_username: String,
    pub player_count: u8,
    pub age: u32,
    pub map_id: u8,
    pub num_imposters: u8,
    pub max_players: u8,
}

impl GameListing {
    /// The username's byte count fits its varint and the map field holds
    /// only bits the protocol defines.
    pub open spec fn wf(&self) -> bool {
        &&& encode_utf8(self.host_username@).len() <= u32::MAX
        &&& self.map_id <= MAP_MASK
    }

    /// A listing on the wire: address, game id, host name, player count,
    /// age in seconds as a varint, map bits, imposter count, player cap.
    pub open spec fn spec_ser(&self) -> Seq<u8> {
        self.address.spec_ser() + le32(self.id.id as u32) + varint(
            encode_utf8(self.host_username@).len() as u32,
        ) + encode_utf8(self.host_username@) + seq![self.player_count] + varint(self.age) + seq![
            self.map_id,
            self.num_imposters,
            self.max_players,
        ]
    }

    /// Reads a listing, rejecting a map field with bits the protocol does
    /// not define. Any byte sequence that starts with the wire form of a
    /// well-formed listing parses back to that listing.
    #[verifier::rlimit(100)]
    pub fn deserialize(r: &mut PacketReader) -> (res: Result<GameListing, CodecError>)
        requires
            old(r).wf(),
        ensures
            final(r).wf(),
            forall|x: GameListing, rest: Seq<u8>|
                x.wf() && old(r).rem() == #[trigger] (x.spec_ser() + rest) ==> (match res {
                    Ok(v) => v.address.ip@ == x.address.ip@ && v.address.port == x.address.port
                        && v.id == x.id && v.host_username@ == x.host_username@ && v.player_count
                        == x.player_count && v.age == x.age && v.map_id == x.map_id
                        && v.num_imposters == x.num_imposters && v.max_players == x.max_players
                        && final(r).rem() == rest,
                    Err(_) => false,
                }),
            forall|x: GameListing, rest: Seq<u8>|
                encode_utf8(x.host_username@).len() <= u32::MAX && x.map_id > MAP_MASK && old(r).rem() == #[trigger] (x.spec_ser() + rest) ==> res == Err::<GameListing, CodecError>(
                    CodecError::InvalidDiscriminant,
                ),
    {
        let (address, id, host_username, player_count, age) = read_listing_prefix(r)?;
        let map_id = r.read_u8()?;
        let num_imposters = r.read_u8()?;
        let max_players = r.read_u8()?;
        let v = GameListing {
            address,
            id,
            host_username,
            player_count,
            age,
            map_id,
            num_imposters,
            max_players,
        };
        proof {
            assert forall|x: GameListing, rest: Seq<u8>|
                x.wf() && old(r).rem() == #[trigger] (x.spec_ser() + rest) implies v.address.ip@
                == x.address.ip@ && v.address.port == x.address.port && v.id == x.id
                && v.host_username@ == x.host_username@ && v.player_count == x.player_count
                && v.age == x.age && v.map_id == x.map_id && v.num_imposters == x.num_imposters
                && v.max_players == x.max_players && final(r).rem() == rest by {
                assert(gl_t5(x, rest).skip(1) =~= seq![x.num_imposters, x.max_players] + rest);
                assert(gl_t5(x, rest).skip(1).skip(1) =~= seq![x.max_players] + rest);
                assert(gl_t5(x, rest).skip(1).skip(1).skip(1) =~= rest);
            }
        }
        if map_id > MAP_MASK {
            return Err(CodecError::InvalidDiscriminant);
        }
        Ok(v)
    }
}

/// Reads the leading fields of a listing, up to and including its age.
#[verifier::rlimit(100)]
fn read_listing_prefix(r: &mut PacketReader) -> (res: Result<
    (Address, GameId, String, u8, u32),
    CodecError,
>)
    requires
        old(r).wf(),
    ensures
        final(r).wf(),
        forall|x: GameListing, rest: Seq<u8>|
            encode_utf8(x.host_username@).len() <= u32::MAX && old(r).rem() == #[trigger] (
            x.spec_ser() + rest) ==> (match res {
                Ok((a, id, n, pc, age)) => a.ip@ == x.address.ip@ && a.port == x.address.port && id
                    == x.id && n@ == x.host_username@ && pc == x.player_count && age == x.age
                    && final(r).rem() == gl_t5(x, rest),
                Err(_) => false,
            }),
{
    proof {
        assert forall|x: GameListing, rest: Seq<u8>|
            encode_utf8(x.host_username@).len() <= u32::MAX && old(r).rem() == #[trigger] (
            x.spec_ser() + rest) implies old(r).rem().len()
            >= 6 && old(r).rem().subrange(0, 6) == x.address.spec_ser() && old(r).rem().skip(6)
            == gl_t1(x, rest) && gl_t1(x, rest).len() >= 4 && gl_t1(x, rest).subrange(0, 4) == le32(
            x.id.id as u32,
        ) && gl_t1(x, rest).skip(4) == gl_t2(x, rest) by {
            assert(old(r).rem().subrange(0, 6) =~= x.address.spec_ser());
            assert(old(r).rem().skip(6) =~= gl_t1(x, rest));
            assert(gl_t1(x, rest).subrange(0, 4) =~= le32(x.id.id as u32));
            assert(gl_t1(x, rest).skip(4) =~= gl_t2(x, rest));
        }
    }
    let address = Address::deserialize(r)?;
    let id = GameId::deserialize(r)?;
    let rest_read = read_listing_strings(r);
    match rest_read {
        Ok((host_username, player_count, age)) => {
            proof {
                assert forall|x: GameListing, rest: Seq<u8>|
                    encode_utf8(x.host_username@).len() <= u32::MAX && old(r).rem() == #[trigger] (
                    x.spec_ser() + rest) implies address.ip@
                    == x.address.ip@ && address.port == x.address.port && id == x.id
                    && host_username@ == x.host_username@ && player_count == x.player_count && age
                    == x.age && final(r).rem() == gl_t5(x, rest) by {
                    assert(old(r).rem().subrange(0, 6) == x.address.spec_ser());
                    assert(address.spec_ser() == x.address.spec_ser());
                    lemma_address_unser(address, x.address);
                    assert(le32(id.id as u32) == le32(x.id.id as u32));
                    crate::codec::lemma_le32_val(x.id.id as u32);
                    crate::codec::lemma_le32_val(id.id as u32);
                    lemma_cast_round_trips();
                    assert((id.id as u32) as i32 == id.id);
                    assert((x.id.id as u32) as i32 == x.id.id);
                    assert(id == x.id);
                }
            }
            Ok((address, id, host_username, player_count, age))
        },
        Err(e) => Err(e),
    }
}

/// Reads a listing's host name, player count and age.
#[verifier::rlimit(100)]
fn read_listing_strings(r: &mut PacketReader) -> (res: Result<(String, u8, u32), CodecError>)
    requires
        old(r).wf(),
    ensures
        final(r).wf(),
        forall|x: GameListing, rest: Seq<u8>|
            encode_utf8(x.host_username@).len() <= u32::MAX && old(r).rem() == #[trigger] gl_t2(
                x,
                rest,
            ) ==> (match res {
                Ok((n, pc, age)) => n@ == x.host_username@ && pc == x.player_count && age == x.age
                    && final(r).rem() == gl_t5(x, rest),
                Err(_) => false,
            }),
{
    proof {
        assert forall|x: GameListing, rest: Seq<u8>|
            encode_utf8(x.host_username@).len() <= u32::MAX && old(r).rem() == #[trigger] gl_t2(
                x,
                rest,
            ) implies ({
            let nb = encode_utf8(x.host_username@);
            let c1 = varint(nb.len() as u32).len() + nb.len();
            &&& crate::codec::parse_lp_bytes(old(r).rem()) == Some((nb, c1 as int))
            &&& valid_utf8(nb)
            &&& decode_utf8(nb) == x.host_username@
            &&& old(r).rem().skip(c1 as int) == gl_t3(x, rest)
            &&& gl_t3(x, rest).len() >= 1 && gl_t3(x, rest)[0] == x.player_count
            &&& gl_t3(x, rest).skip(1) == varint(x.age) + gl_t5(x, rest)
            &&& crate::codec::varint_size(varint(x.age) + gl_t5(x, rest)) == Some(varint(
                x.age,
            ).len() as int)
            &&& crate::codec::varint_value(varint(x.age) + gl_t5(x, rest)) == x.age
            &&& (varint(x.age) + gl_t5(x, rest)).skip(varint(x.age).len() as int) == gl_t5(
                x,
                rest,
            )
        }) by {
            lemma_string_head(x.host_username@, gl_t3(x, rest), gl_t2(x, rest));
            assert(gl_t3(x, rest).skip(1) =~= varint(x.age) + gl_t5(x, rest));
            crate::codec::lemma_varint_round_trip(x.age, gl_t5(x, rest));
        }
    }
    let host_username = r.read_string()?;
    let player_count = r.read_u8()?;
    let age = r.read_u32_encoded()?;
    proof {
        broadcast use vstd::utf8::encode_utf8_decode_utf8;

    }
    Ok((host_username, player_count, age))
}

/// Two addresses with the same wire form have the same fields.
proof fn lemma_address_unser(a: Address, b: Address)
    requires
        a.spec_ser() == b.spec_ser(),
    ensures
        a.ip@ == b.ip@,
        a.port == b.port,
{
    assert forall|j: int| 0 <= j < 4 implies a.ip@[j] == b.ip@[j] by {
        assert(a.spec_ser()[j] == a.ip@[j] && b.spec_ser()[j] == b.ip@[j]);
    }
    assert(a.ip@ =~= b.ip@);
    crate::codec::lemma_le16_val(a.port);
    crate::codec::lemma_le16_val(b.port);
    assert(a.spec_ser()[4] == le16(a.port)[0] && a.spec_ser()[5] == le16(a.port)[1]);
    assert(b.spec_ser()[4] == le16(b.port)[0] && b.spec_ser()[5] == le16(b.port)[1]);
}

/// The tail of a listing after its address.
pub open spec fn gl_t1(x: GameListing, rest: Seq<u8>) -> Seq<u8> {
    le32(x.id.id as u32) + gl_t2(x, rest)
}

/// The tail of a listing from its host name onward.
pub open spec fn gl_t2(x: GameListing, rest: Seq<u8>) -> Seq<u8> {
    varint(encode_utf8(x.host_username@).len() as u32) + encode_utf8(x.host_username@) + gl_t3(
        x,
        rest,
    )
}

/// The tail of a listing from its player count onward.
pub open spec fn gl_t3(x: GameListing, rest: Seq<u8>) -> Seq<u8> {
    seq![x.player_count] + (varint(x.age) + gl_t5(x, rest))
}

/// The last three bytes of a listing.
pub open spec fn gl_t5(x: GameListing, rest: Seq<u8>) -> Seq<u8> {
    seq![x.map_id, x.num_imposters, x.max_players] + rest
}



} // verus!
