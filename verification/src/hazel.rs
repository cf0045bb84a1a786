//! Transport frames: the five packet disciplines of the reliable-UDP layer.
//!
//! The first byte of a datagram picks the frame kind. `Reliable`, `Hello`
//! and `KeepAlive` carry a big-endian 16-bit acknowledgement id;
//! `Acknowledge` answers one of those ids and carries one trailing zero
//! byte, written always and never read.

use vstd::prelude::*;

verus! {

use crate::codec::{be16, u16_val, CodecError, PacketReader, PacketWriter};

/// The discriminator byte values of the frame kinds.
pub enum HazelType {
    Unreliable,
    Reliable,
    Hello,
    Disconnect,
    Acknowledge,
    KeepAlive,
}

impl HazelType {
    /// The discriminator byte of this frame kind.
    pub open spec fn spec_tag(self) -> u8 {
        match self {
            HazelType::Unreliable => 0,
            HazelType::Reliable => 1,
            HazelType::Hello => 8,
            HazelType::Disconnect => 9,
            HazelType::Acknowledge => 10,
            HazelType::KeepAlive => 12,
        }
    }

    pub fn tag(self) -> (t: u8)
        ensures
            t == self.spec_tag(),
    {
        match self {
            HazelType::Unreliable => 0,
            HazelType::Reliable => 1,
            HazelType::Hello => 8,
            HazelType::Disconnect => 9,
            HazelType::Acknowledge => 10,
            HazelType::KeepAlive => 12,
        }
    }

    /// The frame kind a discriminator byte names, if any.
    pub fn from_u8(t: u8) -> (r: Option<HazelType>)
        ensures
            match r {
                Some(k) => k.spec_tag() == t,
                None => t != 0 && t != 1 && t != 8 && t != 9 && t != 10 && t != 12,
            },
    {
        match t {
            0 => Some(HazelType::Unreliable),
            1 => Some(HazelType::Reliable),
            8 => Some(HazelType::Hello),
            9 => Some(HazelType::Disconnect),
            10 => Some(HazelType::Acknowledge),
            12 => Some(HazelType::KeepAlive),
            _ => None,
        }
    }
}

/// An inbound transport frame.
#[derive(Debug, Clone, PartialEq)]
pub enum HazelPacket {
    Unreliable { data: Vec<u8> },
    Reliable { ack_id: u16, data: Vec<u8> },
    Disconnect,
    Hello { ack_id: u16, data: Vec<u8> },
    Acknowledge { ack_id: u16 },
    KeepAlive { ack_id: u16 },
}

/// An outbound transport frame, its body already serialized.
#[derive(Debug, Clone, PartialEq)]
pub enum HazelPacketOut {
    Unreliable { data: Vec<u8> },
    Reliable { ack_id: u16, data: Vec<u8> },
    Disconnect,
    Hello { ack_id: u16, data: Vec<u8> },
    Acknowledge { ack_id: u16 },
    KeepAlive { ack_id: u16 },
}

impl HazelPacketOut {
    /// The exact bytes of an outbound frame: the kind byte, then the
    /// big-endian ack id where the kind carries one, then the body. An
    /// `Acknowledge` ends with its single zero padding byte.
    pub open spec fn spec_ser(&self) -> Seq<u8> {
        match self {
            HazelPacketOut::Unreliable { data } => seq![0u8] + data@,
            HazelPacketOut::Reliable { ack_id, data } => seq![1u8] + be16(*ack_id) + data@,
            HazelPacketOut::Disconnect => seq![9u8],
            HazelPacketOut::Hello { ack_id, data } => seq![8u8] + be16(*ack_id) + data@,
            HazelPacketOut::Acknowledge { ack_id } => seq![10u8] + be16(*ack_id) + seq![0u8],
            HazelPacketOut::KeepAlive { ack_id } => seq![12u8] + be16(*ack_id),
        }
    }

    pub fn serialize(&self, w: &mut PacketWriter)
        requires
            old(w).wf(),
        ensures
            final(w).wf(),
            final(w).out() == old(w).out() + self.spec_ser(),
            final(w).starts() == old(w).starts(),
    {
        match self {
            HazelPacketOut::Unreliable { data } => {
                w.write_u8(HazelType::Unreliable.tag());
                w.write_bytes_raw(data.as_slice());
            },
            HazelPacketOut::Reliable { ack_id, data } => {
                w.write_u8(HazelType::Reliable.tag());
                w.write_u16_be(*ack_id);
                w.write_bytes_raw(data.as_slice());
            },
            HazelPacketOut::Disconnect => {
                w.write_u8(HazelType::Disconnect.tag());
            },
            HazelPacketOut::Hello { ack_id, data } => {
                w.write_u8(HazelType::Hello.tag());
                w.write_u16_be(*ack_id);
                w.write_bytes_raw(data.as_slice());
            },
            HazelPacketOut::Acknowledge { ack_id } => {
                w.write_u8(HazelType::Acknowledge.tag());
                w.write_u16_be(*ack_id);
                // padding the peer expects but never reads
                w.write_u8(0x00);
            },
            HazelPacketOut::KeepAlive { ack_id } => {
                w.write_u8(HazelType::KeepAlive.tag());
                w.write_u16_be(*ack_id);
            },
        }
        proof {
            assert(final(w).out() =~= old(w).out() + self.spec_ser());
        }
    }

    /// The frame as a standalone byte vector.
    pub fn serialize_bytes(&self) -> (r: Vec<u8>)
        ensures
            r@ == self.spec_ser(),
    {
        let mut w = PacketWriter::new();
        self.serialize(&mut w);
        proof {
            assert(Seq::<u8>::empty() + self.spec_ser() =~= self.spec_ser());
        }
        w.finish()
    }
}

/// How an inbound frame relates to the datagram it was read from.
pub open spec fn hazel_rel(p: HazelPacket, s: Seq<u8>) -> bool {
    match p {
        HazelPacket::Unreliable { data } => s.len() >= 1 && s[0] == 0 && data@ == s.skip(1),
        HazelPacket::Reliable { ack_id, data } => s.len() >= 3 && s[0] == 1 && ack_id as int
            == u16_val(s[2], s[1]) && data@ == s.skip(3),
        HazelPacket::Disconnect => s.len() >= 1 && s[0] == 9,
        HazelPacket::Hello { ack_id, data } => s.len() >= 3 && s[0] == 8 && ack_id as int
            == u16_val(s[2], s[1]) && data@ == s.skip(3),
        HazelPacket::Acknowledge { ack_id } => s.len() >= 3 && s[0] == 10 && ack_id as int
            == u16_val(s[2], s[1]),
        HazelPacket::KeepAlive { ack_id } => s.len() >= 3 && s[0] == 12 && ack_id as int
            == u16_val(s[2], s[1]),
    }
}

impl HazelPacket {
    /// The inbound frame's acknowledgement id, where its kind carries one.
    pub open spec fn spec_ack_id(&self) -> Option<u16> {
        match self {
            HazelPacket::Reliable { ack_id, .. } => Some(*ack_id),
            HazelPacket::Hello { ack_id, .. } => Some(*ack_id),
            HazelPacket::KeepAlive { ack_id } => Some(*ack_id),
            _ => None,
        }
    }

    /// Reads one inbound frame from a whole datagram. Frames with a body
    /// consume the datagram to its end.
    pub fn deserialize(r: &mut PacketReader) -> (res: Result<HazelPacket, CodecError>)
        requires
            old(r).wf(),
        ensures
            final(r).wf(),
            match res {
                Ok(p) => hazel_rel(p, old(r).rem()),
                Err(e) => {
                    &&& (e == CodecError::UnexpectedEof || e == CodecError::InvalidDiscriminant)
                    &&& (e == CodecError::InvalidDiscriminant <==> old(r).rem().len() >= 1 && old(
                        r,
                    ).rem()[0] != 0 && old(r).rem()[0] != 1 && old(r).rem()[0] != 8 && old(
                        r,
                    ).rem()[0] != 9 && old(r).rem()[0] != 10 && old(r).rem()[0] != 12)
                    &&& (e == CodecError::UnexpectedEof <==> (old(r).rem().len() == 0 || (old(
                        r,
                    ).rem().len() < 3 && (old(r).rem()[0] == 1 || old(r).rem()[0] == 8 || old(
                        r,
                    ).rem()[0] == 10 || old(r).rem()[0] == 12))))
                },
            },
    {
        let tag = r.read_u8()?;
        match HazelType::from_u8(tag) {
            Some(HazelType::Unreliable) => {
                let data = r.remaining_bytes();
                Ok(HazelPacket::Unreliable { data })
            },
            Some(HazelType::Reliable) => {
                let ack_id = r.read_u16_be()?;
                let data = r.remaining_bytes();
                proof {
                    assert(old(r).rem().skip(1).skip(2) =~= old(r).rem().skip(3));
                    assert(old(r).rem().skip(1)[0] == old(r).rem()[1]);
                    assert(old(r).rem().skip(1)[1] == old(r).rem()[2]);
                }
                Ok(HazelPacket::Reliable { ack_id, data })
            },
            Some(HazelType::Hello) => {
                let ack_id = r.read_u16_be()?;
                let data = r.remaining_bytes();
                proof {
                    assert(old(r).rem().skip(1).skip(2) =~= old(r).rem().skip(3));
                    assert(old(r).rem().skip(1)[0] == old(r).rem()[1]);
                    assert(old(r).rem().skip(1)[1] == old(r).rem()[2]);
                }
                Ok(HazelPacket::Hello { ack_id, data })
            },
            Some(HazelType::Disconnect) => Ok(HazelPacket::Disconnect),
            Some(HazelType::Acknowledge) => {
                let ack_id = r.read_u16_be()?;
                proof {
                    assert(old(r).rem().skip(1)[0] == old(r).rem()[1]);
                    assert(old(r).rem().skip(1)[1] == old(r).rem()[2]);
                }
                Ok(HazelPacket::Acknowledge { ack_id })
            },
            Some(HazelType::KeepAlive) => {
                let ack_id = r.read_u16_be()?;
                proof {
                    assert(old(r).rem().skip(1)[0] == old(r).rem()[1]);
                    assert(old(r).rem().skip(1)[1] == old(r).rem()[2]);
                }
                Ok(HazelPacket::KeepAlive { ack_id })
            },
            None => Err(CodecError::InvalidDiscriminant),
        }
    }
}

} // verus!
