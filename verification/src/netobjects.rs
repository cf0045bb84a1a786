//! Replicated networked objects: player control, physics and transform, the
//! world, the lobby, the per-game player registry and the vote-ban system.
//!
//! Each object is created from a prefab initializer, mutated by update-data
//! payloads and remote procedure calls, and offers write helpers that build
//! the RPC frames a non-host client may send.

use vstd::prelude::*;

verus! {

use vstd::string::StringSliceAdditionalSpecFns;
use vstd::utf8::{decode_utf8, encode_utf8, valid_utf8};
use crate::codec::{varint, CodecError, PacketReader, PacketWriter};
use crate::objects::{PlayerData, Vector2};
use crate::packets::{Data, GameInfo};

/// What an inbound RPC asks the session to surface to the application.
#[derive(Debug)]
pub enum RPCCallback {
    ChatMessage { message: String },
    Nothing,
}

/// The RPC call ids a player-control object understands.
pub const RPC_PLAY_ANIMATION: u8 = 0;

pub const RPC_SET_INFECTED: u8 = 3;

pub const RPC_CHECK_NAME: u8 = 5;

pub const RPC_SET_NAME: u8 = 6;

pub const RPC_CHECK_COLOR: u8 = 7;

pub const RPC_SET_COLOR: u8 = 8;

pub const RPC_SET_HAT: u8 = 9;

pub const RPC_SET_SKIN: u8 = 10;

pub const RPC_SEND_CHAT: u8 = 13;

pub const RPC_SET_PET: u8 = 17;

/// The RPC call ids a player-physics object understands.
pub const RPC_ENTER_VENT: u8 = 0x13;

pub const RPC_EXIT_VENT: u8 = 0x14;

/// The RPC call id a player-transform object understands.
pub const RPC_SNAP_TO: u8 = 0x15;

/// The RPC call id a game-data object understands for batched updates.
pub const RPC_UPDATE_PLAYER_INFO: u8 = 0x1e;

/// A player's control object: identity and chat.
#[derive(Debug)]
pub struct PlayerControl {
    pub net_id: u32,
    pub owner_id: i32,
    pub player_id: u8,
    pub name: Option<String>,
}

impl PlayerControl {
    pub fn owner_id(&self) -> (r: i32)
        ensures
            r == self.spec_owner_id(),
    {
        self.owner_id
    }

    pub fn net_id(&self) -> (r: u32)
        ensures
            r == self.spec_net_id(),
    {
        self.net_id
    }

    pub open spec fn spec_owner_id(&self) -> i32 {
        self.owner_id
    }

    pub open spec fn spec_net_id(&self) -> u32 {
        self.net_id
    }

    /// Reads a control initializer: a newness flag byte and the player id.
    pub fn initialize(net_id: u32, owner_id: i32, r: &mut PacketReader) -> (res: Result<
        PlayerControl,
        CodecError,
    >)
        requires
            old(r).wf(),
        ensures
            final(r).wf(),
            match res {
                Ok(c) => old(r).rem().len() >= 2 && old(r).rem()[0] <= 1 && c.player_id == old(
                    r,
                ).rem()[1] && c.spec_net_id() == net_id && c.spec_owner_id() == owner_id
                    && c.name is None && final(r).rem() == old(r).rem().skip(2),
                Err(e) => (e == CodecError::UnexpectedEof || e
                    == CodecError::InvalidDiscriminant) && (e == CodecError::InvalidDiscriminant
                    <==> old(r).rem().len() >= 1 && old(r).rem()[0] > 1) && (e
                    == CodecError::UnexpectedEof <==> old(r).rem().len() < 2 && !(old(
                    r,
                ).rem().len() >= 1 && old(r).rem()[0] > 1)),
            },
    {
        let _is_new = r.read_bool()?;
        let player_id = r.read_u8()?;
        proof {
            assert(old(r).rem().skip(1)[0] == old(r).rem()[1]);
            assert(old(r).rem().skip(1).skip(1) =~= old(r).rem().skip(2));
        }
        Ok(PlayerControl { net_id, owner_id, player_id, name: None })
    }

    /// The RPC that asks the host to validate and set a name.
    pub fn rpc_check_name(&self, name: &str) -> (r: GameInfo)
        requires
            name.spec_bytes().len() <= u32::MAX,
        ensures
            (r matches GameInfo::RPC { net_id, call_id, data } && net_id
                == self.spec_net_id() && call_id == RPC_CHECK_NAME && data@ == rpc_string_payload(name@)),
    {
        GameInfo::RPC {
            net_id: self.net_id,
            call_id: RPC_CHECK_NAME,
            data: string_payload(name),
        }
    }

    /// The RPC a host uses to set a name directly.
    pub fn rpc_set_name(&self, name: &str) -> (r: GameInfo)
        requires
            name.spec_bytes().len() <= u32::MAX,
        ensures
            (r matches GameInfo::RPC { net_id, call_id, data } && net_id
                == self.spec_net_id() && call_id == RPC_SET_NAME && data@ == rpc_string_payload(name@)),
    {
        GameInfo::RPC { net_id: self.net_id, call_id: RPC_SET_NAME, data: string_payload(name) }
    }

    /// The RPC that carries a chat line.
    pub fn rpc_chat_message(&self, message: &str) -> (r: GameInfo)
        requires
            message.spec_bytes().len() <= u32::MAX,
        ensures
            (r matches GameInfo::RPC { net_id, call_id, data } && net_id
                == self.spec_net_id() && call_id == RPC_SEND_CHAT && data@ == rpc_string_payload(message@)),
    {
        GameInfo::RPC {
            net_id: self.net_id,
            call_id: RPC_SEND_CHAT,
            data: string_payload(message),
        }
    }

    /// The RPC that asks the host to validate and set a body color.
    pub fn rpc_check_color(&self, color_index: u8) -> (r: GameInfo)
        ensures
            (r matches GameInfo::RPC { net_id, call_id, data } && net_id
                == self.spec_net_id() && call_id == RPC_CHECK_COLOR && data@ == seq![color_index]),
    {
        let mut w = PacketWriter::new();
        w.write_u8(color_index);
        let bytes = w.finish();
        proof {
            assert(bytes@ =~= seq![color_index]);
        }
        GameInfo::RPC {
            net_id: self.net_id,
            call_id: RPC_CHECK_COLOR,
            data: Data::from_bytes(bytes),
        }
    }

    /// The RPC that sets a skin.
    pub fn rpc_set_skin(&self, skin_index: u32) -> (r: GameInfo)
        ensures
            (r matches GameInfo::RPC { net_id, call_id, data } && net_id
                == self.spec_net_id() && call_id == RPC_SET_SKIN && data@.len() <= 5 && data@ == varint(skin_index)),
    {
        GameInfo::RPC {
            net_id: self.net_id,
            call_id: RPC_SET_SKIN,
            data: varint_payload(skin_index),
        }
    }

    /// The RPC that sets a hat.
    pub fn rpc_set_hat(&self, hat_index: u32) -> (r: GameInfo)
        ensures
            (r matches GameInfo::RPC { net_id, call_id, data } && net_id
                == self.spec_net_id() && call_id == RPC_SET_HAT && data@.len() <= 5 && data@ == varint(hat_index)),
    {
        GameInfo::RPC { net_id: self.net_id, call_id: RPC_SET_HAT, data: varint_payload(hat_index) }
    }

    /// The RPC that sets a pet.
    pub fn rpc_set_pet(&self, pet_index: u32) -> (r: GameInfo)
        ensures
            (r matches GameInfo::RPC { net_id, call_id, data } && net_id
                == self.spec_net_id() && call_id == RPC_SET_PET && data@.len() <= 5 && data@ == varint(pet_index)),
    {
        GameInfo::RPC { net_id: self.net_id, call_id: RPC_SET_PET, data: varint_payload(pet_index) }
    }

    /// Applies an update-data payload: one byte, the player id.
    pub fn update_data(&mut self, r: &mut PacketReader) -> (res: Result<(), CodecError>)
        requires
            old(r).wf(),
        ensures
            final(r).wf(),
            final(self).spec_net_id() == old(self).spec_net_id(),
            final(self).spec_owner_id() == old(self).spec_owner_id(),
            final(self).name == old(self).name,
            match res {
                Ok(_) => old(r).rem().len() >= 1 && final(self).player_id == old(r).rem()[0]
                    && final(r).rem() == old(r).rem().skip(1),
                Err(e) => e == CodecError::UnexpectedEof && old(r).rem().len() == 0 && final(self).player_id == old(self).player_id,
            },
    {
        self.player_id = r.read_u8()?;
        Ok(())
    }

    /// Handles an inbound RPC. A chat line surfaces as a callback; a
    /// host-set name is stored; animation and infection notices are
    /// consumed; an unknown call id is ignored unread.
    pub fn handle_rpc(&mut self, call_id: u8, r: &mut PacketReader) -> (res: Result<
        RPCCallback,
        CodecError,
    >)
        requires
            old(r).wf(),
        ensures
            final(r).wf(),
            final(self).spec_net_id() == old(self).spec_net_id(),
            final(self).spec_owner_id() == old(self).spec_owner_id(),
            final(self).player_id == old(self).player_id,
            call_id != RPC_SET_NAME ==> final(self).name == old(self).name,
            (call_id != RPC_PLAY_ANIMATION && call_id != RPC_SET_INFECTED && call_id
                != RPC_SEND_CHAT && call_id != RPC_SET_NAME) ==> res is Ok && *final(r) == *old(r)
                && *final(self) == *old(self),
            (call_id == RPC_PLAY_ANIMATION && old(r).rem().len() >= 1) ==> res is Ok,
            ((call_id == RPC_SEND_CHAT || call_id == RPC_SET_NAME) && (
            match crate::codec::parse_lp_bytes(old(r).rem()) {
                Some((p, _)) => valid_utf8(p),
                None => false,
            })) ==> res is Ok,
            match res {
                Ok(cb) => {
                    &&& (cb is ChatMessage <==> call_id == RPC_SEND_CHAT)
                    &&& (call_id == RPC_SEND_CHAT ==> match crate::codec::parse_lp_bytes(
                        old(r).rem(),
                    ) {
                        Some((p, c)) => valid_utf8(p) && (cb matches RPCCallback::ChatMessage {
                            message,
                        } && message@ == decode_utf8(p)) && final(r).rem() == old(r).rem().skip(c),
                        None => false,
                    })
                    &&& (call_id == RPC_SET_NAME ==> match crate::codec::parse_lp_bytes(
                        old(r).rem(),
                    ) {
                        Some((p, c)) => valid_utf8(p) && (final(self).name matches Some(n) && n@
                            == decode_utf8(p)) && final(r).rem() == old(r).rem().skip(c),
                        None => false,
                    })
                },
                Err(_) => final(self).name == old(self).name,
            },
    {
        if call_id == RPC_PLAY_ANIMATION {
            let _animation_id = r.read_u8()?;
            Ok(RPCCallback::Nothing)
        } else if call_id == RPC_SET_INFECTED {
            let count = r.read_u32_encoded()?;
            let mut i: u32 = 0;
            while i < count
                invariant
                    r.wf(),
                    call_id == RPC_SET_INFECTED,
                    *self == *old(self),
                decreases count - i,
            {
                let _player_id = r.read_u8()?;
                i = i + 1;
            }
            Ok(RPCCallback::Nothing)
        } else if call_id == RPC_SEND_CHAT {
            let message = r.read_string()?;
            Ok(RPCCallback::ChatMessage { message })
        } else if call_id == RPC_SET_NAME {
            let name = r.read_string()?;
            self.name = Some(name);
            Ok(RPCCallback::Nothing)
        } else {
            Ok(RPCCallback::Nothing)
        }
    }
}

/// The bytes of an RPC payload holding one length-prefixed string.
pub open spec fn rpc_string_payload(s: Seq<char>) -> Seq<u8> {
    varint(encode_utf8(s).len() as u32) + encode_utf8(s)
}

/// Builds the payload of a string-carrying RPC.
fn string_payload(s: &str) -> (r: Data)
    requires
        s.spec_bytes().len() <= u32::MAX,
    ensures
        r@ == rpc_string_payload(s@),
{
    let mut w = PacketWriter::new();
    w.write_string(s);
    let bytes = w.finish();
    proof {
        assert(bytes@ =~= varint(encode_utf8(s@).len() as u32) + encode_utf8(s@));
    }
    Data::from_bytes(bytes)
}

/// Builds the payload of a varint-carrying RPC.
fn varint_payload(v: u32) -> (r: Data)
    ensures
        r@ == varint(v),
        r@.len() <= 5,
{
    let mut w = PacketWriter::new();
    w.write_u32_encoded(v);
    let bytes = w.finish();
    proof {
        assert(bytes@ =~= varint(v));
        crate::codec::lemma_varint_round_trip(v, Seq::<u8>::empty());
    }
    Data::from_bytes(bytes)
}

/// A player's physics object: venting.
#[derive(Debug)]
pub struct PlayerPhysics {
    pub net_id: u32,
    pub owner_id: i32,
}

impl PlayerPhysics {
    pub fn owner_id(&self) -> (r: i32)
        ensures
            r == self.spec_owner_id(),
    {
        self.owner_id
    }

    pub fn net_id(&self) -> (r: u32)
        ensures
            r == self.spec_net_id(),
    {
        self.net_id
    }

    pub open spec fn spec_owner_id(&self) -> i32 {
        self.owner_id
    }

    pub open spec fn spec_net_id(&self) -> u32 {
        self.net_id
    }

    /// A physics initializer carries nothing.
    pub fn initialize(net_id: u32, owner_id: i32, _r: &mut PacketReader) -> (res: PlayerPhysics)
        ensures
            res.spec_net_id() == net_id && res.spec_owner_id() == owner_id,
    {
        PlayerPhysics { net_id, owner_id }
    }

    /// The RPC that enters a vent.
    pub fn rpc_enter_vent(&self, vent_id: u32) -> (r: GameInfo)
        ensures
            (r matches GameInfo::RPC { net_id, call_id, data } && net_id
                == self.spec_net_id() && call_id == RPC_ENTER_VENT && data@.len() <= 5 && data@ == varint(vent_id)),
    {
        GameInfo::RPC {
            net_id: self.net_id,
            call_id: RPC_ENTER_VENT,
            data: varint_payload(vent_id),
        }
    }

    /// The RPC that leaves a vent.
    pub fn rpc_exit_vent(&self, vent_id: u32) -> (r: GameInfo)
        ensures
            (r matches GameInfo::RPC { net_id, call_id, data } && net_id
                == self.spec_net_id() && call_id == RPC_EXIT_VENT && data@.len() <= 5 && data@ == varint(vent_id)),
    {
        GameInfo::RPC {
            net_id: self.net_id,
            call_id: RPC_EXIT_VENT,
            data: varint_payload(vent_id),
        }
    }

    /// A physics object has no update-data payload.
    pub fn update_data(&mut self, _r: &mut PacketReader) -> (res: Result<(), CodecError>)
        ensures
            *final(self) == *old(self),
            res is Ok,
    {
        Ok(())
    }

    /// Vent enter and exit notices carry a vent id and are consumed; an
    /// unknown call id is ignored unread.
    pub fn handle_rpc(&mut self, call_id: u8, r: &mut PacketReader) -> (res: Result<
        RPCCallback,
        CodecError,
    >)
        requires
            old(r).wf(),
        ensures
            final(r).wf(),
            *final(self) == *old(self),
            res matches Ok(cb) ==> cb is Nothing,
    {
        if call_id == RPC_ENTER_VENT || call_id == RPC_EXIT_VENT {
            let _vent_id = r.read_u32_encoded()?;
            Ok(RPCCallback::Nothing)
        } else {
            Ok(RPCCallback::Nothing)
        }
    }
}

/// A player's transform object: sequenced position and velocity.
#[derive(Debug)]
pub struct PlayerTransform {
    pub net_id: u32,
    pub owner_id: i32,
    pub last_seq_id: u16,
    pub target_position: Vector2,
    pub velocity: Vector2,
}

impl PlayerTransform {
    pub fn owner_id(&self) -> (r: i32)
        ensures
            r == self.spec_owner_id(),
    {
        self.owner_id
    }

    pub fn net_id(&self) -> (r: u32)
        ensures
            r == self.spec_net_id(),
    {
        self.net_id
    }

    pub open spec fn spec_owner_id(&self) -> i32 {
        self.owner_id
    }

    pub open spec fn spec_net_id(&self) -> u32 {
        self.net_id
    }

    /// Reads a transform initializer: the last sequence id, the target
    /// position and the velocity.
    pub fn initialize(net_id: u32, owner_id: i32, r: &mut PacketReader) -> (res: Result<
        PlayerTransform,
        CodecError,
    >)
        requires
            old(r).wf(),
        ensures
            final(r).wf(),
            match res {
                Ok(t) => old(r).rem().len() >= 10 && t.spec_net_id() == net_id && t.spec_owner_id()
                    == owner_id && old(r).rem().subrange(0, 2) == crate::codec::le16(t.last_seq_id)
                    && old(r).rem().subrange(2, 6) == t.target_position.spec_ser() && old(
                    r,
                ).rem().subrange(6, 10) == t.velocity.spec_ser() && final(r).rem() == old(
                    r,
                ).rem().skip(10),
                Err(e) => e == CodecError::UnexpectedEof && old(r).rem().len() < 10,
            },
    {
        let last_seq_id = r.read_u16()?;
        let target_position = Vector2::deserialize(r)?;
        let velocity = Vector2::deserialize(r)?;
        proof {
            lemma_transform_slices(old(r).rem());
        }
        Ok(PlayerTransform { net_id, owner_id, last_seq_id, target_position, velocity })
    }

    /// The RPC that teleports the player: the new position and a sequence
    /// id five ahead of the last seen one.
    pub fn rpc_snap_to(&self, new_pos: Vector2) -> (r: GameInfo)
        requires
            self.last_seq_id + 5 <= u16::MAX,
        ensures
            (r matches GameInfo::RPC { net_id, call_id, data } && net_id
                == self.spec_net_id() && call_id == RPC_SNAP_TO && data@ == new_pos.spec_ser()
                + crate::codec::le16((self.last_seq_id + 5) as u16)),
    {
        let mut w = PacketWriter::new();
        new_pos.serialize(&mut w);
        w.write_u16(self.last_seq_id + 5);
        let bytes = w.finish();
        proof {
            assert(bytes@ =~= new_pos.spec_ser() + crate::codec::le16(
                (self.last_seq_id + 5) as u16,
            ));
        }
        GameInfo::RPC { net_id: self.net_id, call_id: RPC_SNAP_TO, data: Data::from_bytes(bytes) }
    }

    /// Applies an update-data payload: sequence id, position, velocity.
    pub fn update_data(&mut self, r: &mut PacketReader) -> (res: Result<(), CodecError>)
        requires
            old(r).wf(),
        ensures
            final(r).wf(),
            final(self).spec_net_id() == old(self).spec_net_id(),
            final(self).spec_owner_id() == old(self).spec_owner_id(),
            match res {
                Ok(_) => old(r).rem().len() >= 10 && old(r).rem().subrange(0, 2)
                    == crate::codec::le16(final(self).last_seq_id) && old(r).rem().subrange(2, 6)
                    == final(self).target_position.spec_ser() && old(r).rem().subrange(6, 10)
                    == final(self).velocity.spec_ser() && final(r).rem() == old(r).rem().skip(10),
                Err(e) => e == CodecError::UnexpectedEof && old(r).rem().len() < 10,
            },
    {
        let last_seq_id = r.read_u16()?;
        let target_position = Vector2::deserialize(r)?;
        let velocity = Vector2::deserialize(r)?;
        proof {
            lemma_transform_slices(old(r).rem());
        }
        self.last_seq_id = last_seq_id;
        self.target_position = target_position;
        self.velocity = velocity;
        Ok(())
    }

    /// A snap-to teleport sets the position and sequence id from the
    /// payload and zeroes the velocity; an unknown call id is ignored.
    pub fn handle_rpc(&mut self, call_id: u8, r: &mut PacketReader) -> (res: Result<
        RPCCallback,
        CodecError,
    >)
        requires
            old(r).wf(),
        ensures
            final(r).wf(),
            final(self).spec_net_id() == old(self).spec_net_id(),
            final(self).spec_owner_id() == old(self).spec_owner_id(),
            res matches Ok(cb) ==> cb is Nothing,
            call_id != RPC_SNAP_TO ==> *final(self) == *old(self) && *final(r) == *old(r),
            match res {
                Ok(_) => call_id == RPC_SNAP_TO ==> old(r).rem().len() >= 6 && old(
                    r,
                ).rem().subrange(0, 4) == final(self).target_position.spec_ser() && old(
                    r,
                ).rem().subrange(4, 6) == crate::codec::le16(final(self).last_seq_id) && final(self).velocity.x == 0x7FFF && final(self).velocity.y == 0x7FFF && final(r).rem() == old(
                    r,
                ).rem().skip(6),
                Err(e) => call_id == RPC_SNAP_TO && e == CodecError::UnexpectedEof && old(
                    r,
                ).rem().len() < 6,
            },
    {
        if call_id == RPC_SNAP_TO {
            let target_position = Vector2::deserialize(r)?;
            let last_seq_id = r.read_u16()?;
            proof {
                assert(old(r).rem().skip(4).subrange(0, 2) =~= old(r).rem().subrange(4, 6));
                assert(old(r).rem().skip(4).skip(2) =~= old(r).rem().skip(6));
            }
            self.target_position = target_position;
            self.last_seq_id = last_seq_id;
            self.velocity = Vector2::zero();
            Ok(RPCCallback::Nothing)
        } else {
            Ok(RPCCallback::Nothing)
        }
    }
}

proof fn lemma_transform_slices(s: Seq<u8>)
    requires
        s.len() >= 10,
    ensures
        s.skip(2).subrange(0, 4) == s.subrange(2, 6),
        s.skip(2).skip(4) == s.skip(6),
        s.skip(6).subrange(0, 4) == s.subrange(6, 10),
        s.skip(6).skip(4) == s.skip(10),
{
    assert(s.skip(2).subrange(0, 4) =~= s.subrange(2, 6));
    assert(s.skip(2).skip(4) =~= s.skip(6));
    assert(s.skip(6).subrange(0, 4) =~= s.subrange(6, 10));
    assert(s.skip(6).skip(4) =~= s.skip(10));
}

/// The game world: sabotage systems, doors and their timers. The reactor,
/// life-support and sabotage countdowns travel as IEEE-754 single-precision
/// values; the protocol never computes with them, so they are carried as
/// raw bits.
#[derive(Debug)]
pub struct World {
    pub net_id: u32,
    pub owner_id: i32,
    pub reactor_countdown: u32,
    pub user_console_pairs: Vec<(u8, u8)>,
    pub expected_switches: u8,
    pub actual_switches: u8,
    pub elec_value: u8,
    pub life_supp_countdown: u32,
    pub completed_consoles: Vec<u32>,
    pub med_user_list: Vec<i8>,
    pub camera_in_use: bool,
    pub comms_active: bool,
    pub door_open: Vec<bool>,
    pub sabotage_timer: u32,
}

impl World {
    pub fn owner_id(&self) -> (r: i32)
        ensures
            r == self.spec_owner_id(),
    {
        self.owner_id
    }

    pub fn net_id(&self) -> (r: u32)
        ensures
            r == self.spec_net_id(),
    {
        self.net_id
    }

    pub open spec fn spec_owner_id(&self) -> i32 {
        self.owner_id
    }

    pub open spec fn spec_net_id(&self) -> u32 {
        self.net_id
    }

    /// Reads a world initializer: every subsystem in order, with thirteen
    /// door flags. Input that starts with the wire form of a well-formed
    /// world parses back to exactly that world.
    #[verifier::rlimit(100)]
    pub fn initialize(net_id: u32, owner_id: i32, r: &mut PacketReader) -> (res: Result<
        World,
        CodecError,
    >)
        requires
            old(r).wf(),
        ensures
            final(r).wf(),
            res matches Ok(w) ==> w.spec_net_id() == net_id && w.spec_owner_id() == owner_id
                && w.door_open@.len() == 13,
            forall|x: World, rest: Seq<u8>|
                world_wf(x) && old(r).rem() == #[trigger] world_init_bytes(x, rest) ==> (match res {
                    Ok(w) => w.reactor_countdown == x.reactor_countdown && w.user_console_pairs@
                        == x.user_console_pairs@ && w.expected_switches == x.expected_switches
                        && w.actual_switches == x.actual_switches && w.elec_value == x.elec_value
                        && w.life_supp_countdown == x.life_supp_countdown && w.completed_consoles@
                        == x.completed_consoles@ && w.med_user_list@ == x.med_user_list@
                        && w.camera_in_use == x.camera_in_use && w.comms_active == x.comms_active
                        && w.door_open@ == x.door_open@ && w.sabotage_timer == x.sabotage_timer
                        && final(r).rem() == rest,
                    Err(_) => false,
                }),
    {
        proof {
            assert forall|x: World, rest: Seq<u8>|
                world_wf(x) && old(r).rem() == #[trigger] world_init_bytes(x, rest) implies
                wi_facts(x, rest, old(r).rem()) by {
                lemma_wi_facts(x, rest, old(r).rem());
            }
        }
        let reactor_countdown = r.read_u32()?;
        let user_console_pairs = read_pair_list(r)?;
        let expected_switches = r.read_u8()?;
        let actual_switches = r.read_u8()?;
        let elec_value = r.read_u8()?;
        let life_supp_countdown = r.read_u32()?;
        let completed_consoles = read_varint_list(r)?;
        let med_user_list = read_i8_list(r)?;
        let camera_in_use = r.read_bool()?;
        let comms_active = r.read_bool()?;
        let door_open = read_bool_list(r, 13)?;
        let sabotage_timer = r.read_u32()?;
        let w = World {
            net_id,
            owner_id,
            reactor_countdown,
            user_console_pairs,
            expected_switches,
            actual_switches,
            elec_value,
            life_supp_countdown,
            completed_consoles,
            med_user_list,
            camera_in_use,
            comms_active,
            door_open,
            sabotage_timer,
        };
        proof {
            assert forall|x: World, rest: Seq<u8>|
                world_wf(x) && old(r).rem() == #[trigger] world_init_bytes(x, rest) implies (
            w.reactor_countdown == x.reactor_countdown && w.user_console_pairs@
                == x.user_console_pairs@ && w.expected_switches == x.expected_switches
                && w.actual_switches == x.actual_switches && w.elec_value == x.elec_value
                && w.life_supp_countdown == x.life_supp_countdown && w.completed_consoles@
                == x.completed_consoles@ && w.med_user_list@ == x.med_user_list@ && w.camera_in_use
                == x.camera_in_use && w.comms_active == x.comms_active && w.door_open@
                == x.door_open@ && w.sabotage_timer == x.sabotage_timer && final(r).rem()
                == rest) by {
                crate::codec::lemma_le32_val(x.reactor_countdown);
                crate::codec::lemma_le32_val(x.life_supp_countdown);
                crate::codec::lemma_le32_val(x.sabotage_timer);
            }
        }
        Ok(w)
    }

    /// Applies an update-data payload: a leading bitmask selects which
    /// subsystems follow and are read in a fixed order. A subsystem whose
    /// bit is clear is left untouched; a selected subsystem takes exactly
    /// the decoded values. Door updates carry a per-door sub-bitmask and
    /// are checked apart.
    /// Applies an update-data payload: a leading bitmask selects which
    /// subsystems follow and are read in a fixed order. A subsystem whose
    /// bit is clear is left untouched; a selected subsystem takes exactly
    /// the decoded values. Door updates carry a per-door sub-bitmask and
    /// are checked apart.
    #[verifier::rlimit(100)]
    pub fn update_data(&mut self, r: &mut PacketReader) -> (res: Result<(), CodecError>)
        requires
            old(r).wf(),
        ensures
            final(r).wf(),
            final(self).spec_net_id() == old(self).spec_net_id(),
            final(self).spec_owner_id() == old(self).spec_owner_id(),
            res matches Ok(_) ==> (match crate::codec::varint_size(old(r).rem()) {
                Some(n) => {
                    let bits = crate::codec::varint_value(old(r).rem());
                    &&& (bits & 8 == 0 ==> final(self).reactor_countdown == old(self).reactor_countdown && final(self).user_console_pairs@ == old(self).user_console_pairs@)
                    &&& (bits & 0x80 == 0 ==> final(self).expected_switches == old(self).expected_switches && final(self).actual_switches == old(self).actual_switches && final(self).elec_value == old(self).elec_value)
                    &&& (bits & 0x100 == 0 ==> final(self).life_supp_countdown == old(self).life_supp_countdown && final(self).completed_consoles@ == old(self).completed_consoles@)
                    &&& (bits & 0x400 == 0 ==> final(self).med_user_list@ == old(self).med_user_list@)
                    &&& (bits & 0x800 == 0 ==> final(self).camera_in_use == old(self).camera_in_use)
                    &&& (bits & 0x4000 == 0 ==> final(self).comms_active == old(self).comms_active)
                    &&& (bits & 0x10000 == 0 ==> final(self).door_open@ == old(self).door_open@)
                    &&& (bits & 0x20000 == 0 ==> final(self).sabotage_timer == old(self).sabotage_timer)
                },
                None => false,
            }),
            forall|x: World, bits: u32, rest: Seq<u8>|
                world_wf(x) && old(self).door_open@.len() == 13 && old(r).rem()
                    == #[trigger] world_update_bytes(x, bits, rest) ==> (match res {
                    Ok(_) => world_took_update(*final(self), x, bits) && final(r).rem() == rest,
                    Err(_) => false,
                }),
    {
        proof {
            assert forall|x: World, bits: u32, rest: Seq<u8>|
                world_wf(x) && old(r).rem() == #[trigger] world_update_bytes(x, bits, rest) implies
                crate::codec::varint_size(old(r).rem()) == Some(varint(bits).len() as int)
                && crate::codec::varint_value(old(r).rem()) == bits && old(r).rem().skip(
                varint(bits).len() as int,
            ) == wu_t2(x, bits, rest) by {
                crate::codec::lemma_varint_round_trip(bits, wu_t2(x, bits, rest));
                assert(old(r).rem() =~= varint(bits) + wu_t2(x, bits, rest));
                assert(old(r).rem().skip(varint(bits).len() as int) =~= wu_t2(x, bits, rest));
            }
        }
        let to_update = r.read_u32_encoded()?;
        self.apply_update(r, to_update)
    }

    /// Applies the subsystems a decoded bitmask selects.
    fn apply_update(&mut self, r: &mut PacketReader, to_update: u32) -> (res: Result<
        (),
        CodecError,
    >)
        requires
            old(r).wf(),
        ensures
            final(r).wf(),
            final(self).spec_net_id() == old(self).spec_net_id(),
            final(self).spec_owner_id() == old(self).spec_owner_id(),
            res matches Ok(_) ==> {
                &&& (to_update & 8 == 0 ==> final(self).reactor_countdown == old(self).reactor_countdown && final(self).user_console_pairs@ == old(self).user_console_pairs@)
                &&& (to_update & 0x80 == 0 ==> final(self).expected_switches == old(self).expected_switches && final(self).actual_switches == old(self).actual_switches && final(self).elec_value == old(self).elec_value)
                &&& (to_update & 0x100 == 0 ==> final(self).life_supp_countdown == old(self).life_supp_countdown && final(self).completed_consoles@ == old(self).completed_consoles@)
                &&& (to_update & 0x400 == 0 ==> final(self).med_user_list@ == old(self).med_user_list@)
                &&& (to_update & 0x800 == 0 ==> final(self).camera_in_use == old(self).camera_in_use)
                &&& (to_update & 0x4000 == 0 ==> final(self).comms_active == old(self).comms_active)
                &&& (to_update & 0x10000 == 0 ==> final(self).door_open@ == old(self).door_open@)
                &&& (to_update & 0x20000 == 0 ==> final(self).sabotage_timer == old(self).sabotage_timer)
            },
            forall|x: World, rest: Seq<u8>|
                world_wf(x) && old(self).door_open@.len() == 13 && old(r).rem() == #[trigger] wu_t2(
                    x,
                    to_update,
                    rest,
                ) ==> (match res {
                    Ok(_) => world_took_update(*final(self), x, to_update) && final(r).rem()
                        == rest,
                    Err(_) => false,
                }),
    {
        self.apply_update_head(r, to_update)?;
        self.apply_update_tail(r, to_update)
    }

    /// Applies the reactor, switch and life-support subsystems when their
    /// bits are selected.
    #[verifier::rlimit(100)]
    fn apply_update_head(&mut self, r: &mut PacketReader, to_update: u32) -> (res: Result<
        (),
        CodecError,
    >)
        requires
            old(r).wf(),
        ensures
            final(r).wf(),
            *final(self) == (World {
                reactor_countdown: final(self).reactor_countdown,
                user_console_pairs: final(self).user_console_pairs,
                expected_switches: final(self).expected_switches,
                actual_switches: final(self).actual_switches,
                elec_value: final(self).elec_value,
                life_supp_countdown: final(self).life_supp_countdown,
                completed_consoles: final(self).completed_consoles,
                ..*old(self)
            }),
            res matches Ok(_) ==> {
                &&& (to_update & 8 == 0 ==> final(self).reactor_countdown == old(self).reactor_countdown && final(self).user_console_pairs@ == old(self).user_console_pairs@)
                &&& (to_update & 0x80 == 0 ==> final(self).expected_switches == old(self).expected_switches && final(self).actual_switches == old(self).actual_switches && final(self).elec_value == old(self).elec_value)
                &&& (to_update & 0x100 == 0 ==> final(self).life_supp_countdown == old(self).life_supp_countdown && final(self).completed_consoles@ == old(self).completed_consoles@)
            },
            forall|x: World, rest: Seq<u8>|
                world_wf(x) && old(r).rem() == #[trigger] wu_t2(x, to_update, rest) ==> (match res {
                    Ok(_) => {
                        &&& (to_update & 8 != 0 ==> final(self).reactor_countdown
                            == x.reactor_countdown && final(self).user_console_pairs@
                            == x.user_console_pairs@)
                        &&& (to_update & 0x80 != 0 ==> final(self).expected_switches
                            == x.expected_switches && final(self).actual_switches
                            == x.actual_switches && final(self).elec_value == x.elec_value)
                        &&& (to_update & 0x100 != 0 ==> final(self).life_supp_countdown
                            == x.life_supp_countdown && final(self).completed_consoles@
                            == x.completed_consoles@)
                        &&& final(r).rem() == wu_t5(x, to_update, rest)
                    },
                    Err(_) => false,
                }),
    {
        proof {
            assert forall|x: World, rest: Seq<u8>|
                world_wf(x) && old(r).rem() == #[trigger] wu_t2(x, to_update, rest) implies
                wu2_head_facts(x, to_update, rest) by {
                lemma_wu2_head_facts(x, to_update, rest);
            }
        }
        if to_update & 8 > 0 {
            self.reactor_countdown = r.read_u32()?;
            self.user_console_pairs = read_pair_list(r)?;
        }
        if to_update & 0x80 > 0 {
            self.expected_switches = r.read_u8()?;
            self.actual_switches = r.read_u8()?;
            self.elec_value = r.read_u8()?;
        }
        if to_update & 0x100 > 0 {
            self.life_supp_countdown = r.read_u32()?;
            self.completed_consoles = read_varint_list(r)?;
        }
        proof {
            assert forall|x: World, rest: Seq<u8>|
                world_wf(x) && old(r).rem() == #[trigger] wu_t2(x, to_update, rest) implies ({
                &&& (to_update & 8 != 0 ==> self.reactor_countdown == x.reactor_countdown
                    && self.user_console_pairs@ == x.user_console_pairs@)
                &&& (to_update & 0x80 != 0 ==> self.expected_switches == x.expected_switches
                    && self.actual_switches == x.actual_switches && self.elec_value
                    == x.elec_value)
                &&& (to_update & 0x100 != 0 ==> self.life_supp_countdown == x.life_supp_countdown
                    && self.completed_consoles@ == x.completed_consoles@)
                &&& r.rem() == wu_t5(x, to_update, rest)
            }) by {
                crate::codec::lemma_le32_val(x.reactor_countdown);
                crate::codec::lemma_le32_val(x.life_supp_countdown);
            }
        }
        Ok(())
    }

    /// Applies the med-scan, camera, comms, door and sabotage subsystems
    /// when their bits are selected.
    #[verifier::rlimit(100)]
    fn apply_update_tail(&mut self, r: &mut PacketReader, to_update: u32) -> (res: Result<
        (),
        CodecError,
    >)
        requires
            old(r).wf(),
        ensures
            final(r).wf(),
            *final(self) == (World {
                med_user_list: final(self).med_user_list,
                camera_in_use: final(self).camera_in_use,
                comms_active: final(self).comms_active,
                door_open: final(self).door_open,
                sabotage_timer: final(self).sabotage_timer,
                ..*old(self)
            }),
            res matches Ok(_) ==> {
                &&& (to_update & 0x400 == 0 ==> final(self).med_user_list@ == old(self).med_user_list@)
                &&& (to_update & 0x800 == 0 ==> final(self).camera_in_use == old(self).camera_in_use)
                &&& (to_update & 0x4000 == 0 ==> final(self).comms_active == old(self).comms_active)
                &&& (to_update & 0x10000 == 0 ==> final(self).door_open@ == old(self).door_open@)
                &&& (to_update & 0x20000 == 0 ==> final(self).sabotage_timer == old(self).sabotage_timer)
            },
            forall|x: World, rest: Seq<u8>|
                world_wf(x) && old(self).door_open@.len() == 13 && old(r).rem() == #[trigger] wu_t5(
                    x,
                    to_update,
                    rest,
                ) ==> (match res {
                    Ok(_) => {
                        &&& (to_update & 0x400 != 0 ==> final(self).med_user_list@
                            == x.med_user_list@)
                        &&& (to_update & 0x800 != 0 ==> final(self).camera_in_use
                            == x.camera_in_use)
                        &&& (to_update & 0x4000 != 0 ==> final(self).comms_active
                            == x.comms_active)
                        &&& (to_update & 0x10000 != 0 ==> final(self).door_open@ == x.door_open@)
                        &&& (to_update & 0x20000 != 0 ==> final(self).sabotage_timer
                            == x.sabotage_timer)
                        &&& final(r).rem() == rest
                    },
                    Err(_) => false,
                }),
    {
        proof {
            assert forall|x: World, rest: Seq<u8>|
                world_wf(x) && old(r).rem() == #[trigger] wu_t5(x, to_update, rest) implies
                wu2_tail_facts(x, to_update, rest) by {
                lemma_wu2_tail_facts(x, to_update, rest);
            }
        }
        if to_update & 0x400 > 0 {
            self.med_user_list = read_i8_list(r)?;
        }
        if to_update & 0x800 > 0 {
            self.camera_in_use = r.read_bool()?;
        }
        if to_update & 0x4000 > 0 {
            self.comms_active = r.read_bool()?;
        }
        if to_update & 0x10000 > 0 {
            self.update_doors(r)?;
        }
        if to_update & 0x20000 > 0 {
            self.sabotage_timer = r.read_u32()?;
        }
        proof {
            assert forall|x: World, rest: Seq<u8>|
                world_wf(x) && old(self).door_open@.len() == 13 && old(r).rem() == #[trigger] wu_t5(
                    x,
                    to_update,
                    rest,
                ) implies ({
                &&& (to_update & 0x400 != 0 ==> self.med_user_list@ == x.med_user_list@)
                &&& (to_update & 0x800 != 0 ==> self.camera_in_use == x.camera_in_use)
                &&& (to_update & 0x4000 != 0 ==> self.comms_active == x.comms_active)
                &&& (to_update & 0x10000 != 0 ==> self.door_open@ == x.door_open@)
                &&& (to_update & 0x20000 != 0 ==> self.sabotage_timer == x.sabotage_timer)
                &&& r.rem() == rest
            }) by {
                crate::codec::lemma_le32_val(x.sabotage_timer);
            }
        }
        Ok(())
    }

    /// Applies a door update: a sub-bitmask, then one flag per selected
    /// door. Only the door set changes; a payload selecting all thirteen
    /// doors sets exactly the decoded flags.
    #[verifier::rlimit(100)]
    fn update_doors(&mut self, r: &mut PacketReader) -> (res: Result<(), CodecError>)
        requires
            old(r).wf(),
        ensures
            final(r).wf(),
            *final(self) == (World { door_open: final(self).door_open, ..*old(self) }),
            final(self).door_open@.len() == old(self).door_open@.len(),
            forall|bs: Seq<bool>, rest: Seq<u8>|
                bs.len() == 13 && old(self).door_open@.len() == 13 && old(r).rem() == #[trigger] (
                varint(0x1FFF) + bools_bytes(bs) + rest) ==> (match res {
                    Ok(_) => final(self).door_open@ == bs && final(r).rem() == rest,
                    Err(_) => false,
                }),
    {
        proof {
            assert forall|bs: Seq<bool>, rest: Seq<u8>|
                bs.len() == 13 && old(self).door_open@.len() == 13 && old(r).rem() == #[trigger] (
                varint(0x1FFF) + bools_bytes(bs) + rest) implies crate::codec::varint_size(
                old(r).rem(),
            ) == Some(varint(0x1FFFu32).len() as int) && crate::codec::varint_value(old(r).rem())
                == 0x1FFFu32 && old(r).rem().skip(varint(0x1FFFu32).len() as int) == bools_bytes(
                bs,
            ) + rest by {
                crate::codec::lemma_varint_round_trip(0x1FFF, bools_bytes(bs) + rest);
                assert(old(r).rem() =~= varint(0x1FFFu32) + (bools_bytes(bs) + rest));
            }
        }
        let doors_flags = r.read_u32_encoded()?;
        let ghost mark = r.rem();
        let n = self.door_open.len();
        let mut i: usize = 0;
        let mut mask: u32 = 1;
        proof {
            lemma_pow2u_vals();
            assert forall|bs: Seq<bool>, rest: Seq<u8>|
                bs.len() == 13 && n == 13 && doors_flags == 0x1FFF && mark == #[trigger] (
                bools_bytes(bs) + rest) implies r.rem() == bools_bytes(bs.skip(0)) + rest by {
                assert(bs.skip(0) =~= bs);
            }
        }
        while i < n
            invariant
                r.wf(),
                n == self.door_open@.len(),
                n == old(self).door_open@.len(),
                i <= n,
                mask == pow2u(i as int) || i > 13,
                *self == (World { door_open: self.door_open, ..*old(self) }),
                forall|bs: Seq<bool>, rest: Seq<u8>|
                    bs.len() == 13 && old(self).door_open@.len() == 13 && old(r).rem()
                        == #[trigger] (varint(0x1FFF) + bools_bytes(bs) + rest) ==> mark
                        == bools_bytes(bs) + rest && doors_flags == 0x1FFF && n == 13,
                forall|bs: Seq<bool>, rest: Seq<u8>|
                    bs.len() == 13 && n == 13 && doors_flags == 0x1FFF && mark == #[trigger] (
                    bools_bytes(bs) + rest) ==> ((forall|j: int|
                        0 <= j < i ==> self.door_open@[j] == bs[j]) && r.rem() == bools_bytes(
                        bs.skip(i as int),
                    ) + rest),
            decreases n - i,
        {
            proof {
                lemma_pow2u_vals();
                if i < 13 {
                    lemma_all_doors_bit(mask);
                }
                assert forall|bs: Seq<bool>, rest: Seq<u8>|
                    bs.len() == 13 && n == 13 && doors_flags == 0x1FFF && mark == #[trigger] (
                    bools_bytes(bs) + rest) implies r.rem() == seq![if bs[i as int] {
                    1u8
                } else {
                    0u8
                }] + (bools_bytes(bs.skip(i as int + 1)) + rest) by {
                    lemma_bools_bytes_skip(bs, i as int);
                    assert(bools_bytes(bs.skip(i as int)) + rest =~= seq![if bs[i as int] {
                        1u8
                    } else {
                        0u8
                    }] + (bools_bytes(bs.skip(i as int + 1)) + rest));
                }
            }
            if i < 32 && doors_flags & mask > 0 {
                let open = r.read_bool()?;
                crate::transport::set_vec_elem(&mut self.door_open, i, open);
            }
            proof {
                assert forall|bs: Seq<bool>, rest: Seq<u8>|
                    bs.len() == 13 && n == 13 && doors_flags == 0x1FFF && mark == #[trigger] (
                    bools_bytes(bs) + rest) implies ((forall|j: int|
                    0 <= j < i + 1 ==> self.door_open@[j] == bs[j]) && r.rem() == bools_bytes(
                    bs.skip(i as int + 1),
                ) + rest) by {
                    assert(r.rem() =~= bools_bytes(bs.skip(i as int + 1)) + rest);
                }
            }
            if mask <= 0x40000000 {
                mask = mask * 2;
            } else {
                mask = 0;
            }
            proof {
                if i + 1 <= 13 {
                    lemma_pow2u_vals();
                    assert(mask == pow2u(i as int + 1) || i + 1 > 13);
                }
            }
            i = i + 1;
        }
        proof {
            assert forall|bs: Seq<bool>, rest: Seq<u8>|
                bs.len() == 13 && n == 13 && doors_flags == 0x1FFF && mark == #[trigger] (
                bools_bytes(bs) + rest) implies self.door_open@ == bs && r.rem() == rest by {
                assert(self.door_open@ =~= bs);
                assert(bs.skip(13) =~= Seq::<bool>::empty());
                assert(bools_bytes(bs.skip(13)) + rest =~= rest);
            }
        }
        Ok(())
    }

    /// Door-close and system-repair notices are consumed; an unknown call
    /// id is ignored unread.
    pub fn handle_rpc(&mut self, call_id: u8, r: &mut PacketReader) -> (res: Result<
        RPCCallback,
        CodecError,
    >)
        requires
            old(r).wf(),
        ensures
            final(r).wf(),
            *final(self) == *old(self),
            res matches Ok(cb) ==> cb is Nothing,
    {
        if call_id == 0 {
            let _room_type = r.read_u8()?;
            Ok(RPCCallback::Nothing)
        } else if call_id == 1 {
            let _system_type = r.read_u8()?;
            let _player_net_id = r.read_u32_encoded()?;
            let _amount = r.read_u8()?;
            Ok(RPCCallback::Nothing)
        } else {
            Ok(RPCCallback::Nothing)
        }
    }
}


/// The wire form of a sequence of console pairs: two bytes each.
pub open spec fn pairs_bytes(s: Seq<(u8, u8)>) -> Seq<u8>
    decreases s.len(),
{
    if s.len() == 0 {
        Seq::<u8>::empty()
    } else {
        seq![s[0].0, s[0].1] + pairs_bytes(s.drop_first())
    }
}

/// The wire form of a sequence of varint-packed values.
pub open spec fn varints_bytes(s: Seq<u32>) -> Seq<u8>
    decreases s.len(),
{
    if s.len() == 0 {
        Seq::<u8>::empty()
    } else {
        varint(s[0]) + varints_bytes(s.drop_first())
    }
}

/// The wire form of a sequence of i8 values: one byte each.
pub open spec fn i8s_bytes(s: Seq<i8>) -> Seq<u8>
    decreases s.len(),
{
    if s.len() == 0 {
        Seq::<u8>::empty()
    } else {
        seq![s[0] as u8] + i8s_bytes(s.drop_first())
    }
}

/// The wire form of a sequence of flags: one byte each, `0x01` for true.
pub open spec fn bools_bytes(s: Seq<bool>) -> Seq<u8>
    decreases s.len(),
{
    if s.len() == 0 {
        Seq::<u8>::empty()
    } else {
        seq![if s[0] {
            1u8
        } else {
            0u8
        }] + bools_bytes(s.drop_first())
    }
}

proof fn lemma_pairs_bytes_skip(s: Seq<(u8, u8)>, i: int)
    requires
        0 <= i < s.len(),
    ensures
        pairs_bytes(s.skip(i)) == seq![s[i].0, s[i].1] + pairs_bytes(s.skip(i + 1)),
    decreases i,
{
    if i == 0 {
        assert(s.skip(0) =~= s);
        assert(s.drop_first() =~= s.skip(1));
    } else {
        lemma_pairs_bytes_skip(s.drop_first(), i - 1);
        assert(s.drop_first().skip(i - 1) =~= s.skip(i));
        assert(s.drop_first().skip(i) =~= s.skip(i + 1));
        assert(s.drop_first()[i - 1] == s[i]);
    }
}

/// Splitting a varint list at a position exposes that element's encoding.
pub proof fn lemma_varints_bytes_skip_pub(s: Seq<u32>, i: int)
    requires
        0 <= i < s.len(),
    ensures
        varints_bytes(s.skip(i)) == varint(s[i]) + varints_bytes(s.skip(i + 1)),
{
    lemma_varints_bytes_skip(s, i);
}

proof fn lemma_varints_bytes_skip(s: Seq<u32>, i: int)
    requires
        0 <= i < s.len(),
    ensures
        varints_bytes(s.skip(i)) == varint(s[i]) + varints_bytes(s.skip(i + 1)),
    decreases i,
{
    if i == 0 {
        assert(s.skip(0) =~= s);
        assert(s.drop_first() =~= s.skip(1));
    } else {
        lemma_varints_bytes_skip(s.drop_first(), i - 1);
        assert(s.drop_first().skip(i - 1) =~= s.skip(i));
        assert(s.drop_first().skip(i) =~= s.skip(i + 1));
        assert(s.drop_first()[i - 1] == s[i]);
    }
}

proof fn lemma_i8s_bytes_skip(s: Seq<i8>, i: int)
    requires
        0 <= i < s.len(),
    ensures
        i8s_bytes(s.skip(i)) == seq![s[i] as u8] + i8s_bytes(s.skip(i + 1)),
    decreases i,
{
    if i == 0 {
        assert(s.skip(0) =~= s);
        assert(s.drop_first() =~= s.skip(1));
    } else {
        lemma_i8s_bytes_skip(s.drop_first(), i - 1);
        assert(s.drop_first().skip(i - 1) =~= s.skip(i));
        assert(s.drop_first().skip(i) =~= s.skip(i + 1));
        assert(s.drop_first()[i - 1] == s[i]);
    }
}

proof fn lemma_bools_bytes_skip(s: Seq<bool>, i: int)
    requires
        0 <= i < s.len(),
    ensures
        bools_bytes(s.skip(i)) == seq![if s[i] {
            1u8
        } else {
            0u8
        }] + bools_bytes(s.skip(i + 1)),
    decreases i,
{
    if i == 0 {
        assert(s.skip(0) =~= s);
        assert(s.drop_first() =~= s.skip(1));
    } else {
        lemma_bools_bytes_skip(s.drop_first(), i - 1);
        assert(s.drop_first().skip(i - 1) =~= s.skip(i));
        assert(s.drop_first().skip(i) =~= s.skip(i + 1));
        assert(s.drop_first()[i - 1] == s[i]);
    }
}

/// Reads a varint count of console pairs. Input that starts with the wire
/// form of a pair list parses back to exactly that list.
fn read_pair_list(r: &mut PacketReader) -> (res: Result<Vec<(u8, u8)>, CodecError>)
    requires
        old(r).wf(),
    ensures
        final(r).wf(),
        forall|ps: Seq<(u8, u8)>, rest: Seq<u8>|
            ps.len() <= u32::MAX && old(r).rem() == #[trigger] (varint(ps.len() as u32)
                + pairs_bytes(ps) + rest) ==> (match res {
                Ok(v) => v@ == ps && final(r).rem() == rest,
                Err(_) => false,
            }),
{
    proof {
        assert forall|ps: Seq<(u8, u8)>, rest: Seq<u8>|
            ps.len() <= u32::MAX && old(r).rem() == #[trigger] (varint(ps.len() as u32)
                + pairs_bytes(ps) + rest) implies crate::codec::varint_size(old(r).rem())
            == Some(varint(ps.len() as u32).len() as int) && crate::codec::varint_value(
            old(r).rem(),
        ) == ps.len() as u32 && old(r).rem().skip(varint(ps.len() as u32).len() as int)
            == pairs_bytes(ps) + rest by {
            crate::codec::lemma_varint_round_trip(ps.len() as u32, pairs_bytes(ps) + rest);
            assert(old(r).rem() =~= varint(ps.len() as u32) + (pairs_bytes(ps) + rest));
        }
    }
    let count = r.read_u32_encoded()?;
    let ghost mark = r.rem();
    let mut v: Vec<(u8, u8)> = Vec::new();
    let mut i: u32 = 0;
    proof {
        assert forall|ps: Seq<(u8, u8)>, rest: Seq<u8>|
            mark == #[trigger] (pairs_bytes(ps) + rest) && ps.len() == count implies (v@
            == ps.take(0) && r.rem() == pairs_bytes(ps.skip(0)) + rest) by {
            assert(v@ =~= ps.take(0));
            assert(ps.skip(0) =~= ps);
        }
    }
    while i < count
        invariant
            r.wf(),
            i <= count,
            v@.len() == i,
            forall|ps: Seq<(u8, u8)>, rest: Seq<u8>|
                ps.len() <= u32::MAX && old(r).rem() == #[trigger] (varint(ps.len() as u32)
                    + pairs_bytes(ps) + rest) ==> mark == pairs_bytes(ps) + rest && count
                    == ps.len(),
            forall|ps: Seq<(u8, u8)>, rest: Seq<u8>|
                mark == #[trigger] (pairs_bytes(ps) + rest) && ps.len() == count ==> (v@
                    == ps.take(i as int) && r.rem() == pairs_bytes(ps.skip(i as int)) + rest),
        decreases count - i,
    {
        proof {
            assert forall|ps: Seq<(u8, u8)>, rest: Seq<u8>|
                mark == #[trigger] (pairs_bytes(ps) + rest) && ps.len() == count implies r.rem()
                == seq![ps[i as int].0, ps[i as int].1] + (pairs_bytes(ps.skip(i as int + 1))
                + rest) by {
                lemma_pairs_bytes_skip(ps, i as int);
                assert(pairs_bytes(ps.skip(i as int)) + rest =~= seq![
                    ps[i as int].0,
                    ps[i as int].1,
                ] + (pairs_bytes(ps.skip(i as int + 1)) + rest));
            }
        }
        let a = r.read_u8()?;
        let b = r.read_u8()?;
        v.push((a, b));
        proof {
            assert forall|ps: Seq<(u8, u8)>, rest: Seq<u8>|
                mark == #[trigger] (pairs_bytes(ps) + rest) && ps.len() == count implies (v@
                == ps.take(i as int + 1) && r.rem() == pairs_bytes(ps.skip(i as int + 1))
                + rest) by {
                assert(v@ =~= ps.take(i as int + 1));
            }
        }
        i = i + 1;
    }
    proof {
        assert forall|ps: Seq<(u8, u8)>, rest: Seq<u8>|
            mark == #[trigger] (pairs_bytes(ps) + rest) && ps.len() == count implies (v@ == ps
            && r.rem() == rest) by {
            assert(ps.take(ps.len() as int) =~= ps);
            assert(ps.skip(ps.len() as int) =~= Seq::<(u8, u8)>::empty());
            assert(pairs_bytes(ps.skip(ps.len() as int)) + rest =~= rest);
        }
    }
    Ok(v)
}

/// Reads a varint count of varint values. Input that starts with the wire\n/// form of such a list parses back to exactly that list.
fn read_varint_list(r: &mut PacketReader) -> (res: Result<Vec<u32>, CodecError>)
    requires
        old(r).wf(),
    ensures
        final(r).wf(),
        forall|ps: Seq<u32>, rest: Seq<u8>|
            ps.len() <= u32::MAX && old(r).rem() == #[trigger] (varint(ps.len() as u32)
                + varints_bytes(ps) + rest) ==> (match res {
                Ok(v) => v@ == ps && final(r).rem() == rest,
                Err(_) => false,
            }),
{
    proof {
        assert forall|ps: Seq<u32>, rest: Seq<u8>|
            ps.len() <= u32::MAX && old(r).rem() == #[trigger] (varint(ps.len() as u32)
                + varints_bytes(ps) + rest) implies crate::codec::varint_size(old(r).rem())
            == Some(varint(ps.len() as u32).len() as int) && crate::codec::varint_value(
            old(r).rem(),
        ) == ps.len() as u32 && old(r).rem().skip(varint(ps.len() as u32).len() as int)
            == varints_bytes(ps) + rest by {
            crate::codec::lemma_varint_round_trip(ps.len() as u32, varints_bytes(ps) + rest);
            assert(old(r).rem() =~= varint(ps.len() as u32) + (varints_bytes(ps) + rest));
        }
    }
    let count = r.read_u32_encoded()?;
    let ghost mark = r.rem();
    let mut v: Vec<u32> = Vec::new();
    let mut i: u32 = 0;
    proof {
        assert forall|ps: Seq<u32>, rest: Seq<u8>|
            mark == #[trigger] (varints_bytes(ps) + rest) && ps.len() == count implies (v@
            == ps.take(0) && r.rem() == varints_bytes(ps.skip(0)) + rest) by {
            assert(v@ =~= ps.take(0));
            assert(ps.skip(0) =~= ps);
        }
    }
    while i < count
        invariant
            r.wf(),
            i <= count,
            v@.len() == i,
            forall|ps: Seq<u32>, rest: Seq<u8>|
                ps.len() <= u32::MAX && old(r).rem() == #[trigger] (varint(ps.len() as u32)
                    + varints_bytes(ps) + rest) ==> mark == varints_bytes(ps) + rest && count
                    == ps.len(),
            forall|ps: Seq<u32>, rest: Seq<u8>|
                mark == #[trigger] (varints_bytes(ps) + rest) && ps.len() == count ==> (v@
                    == ps.take(i as int) && r.rem() == varints_bytes(ps.skip(i as int)) + rest),
        decreases count - i,
    {
        proof {
            assert forall|ps: Seq<u32>, rest: Seq<u8>|
                mark == #[trigger] (varints_bytes(ps) + rest) && ps.len() == count implies
                crate::codec::varint_size(r.rem()) == Some(varint(ps[i as int]).len() as int)
                && crate::codec::varint_value(r.rem()) == ps[i as int] && r.rem().skip(
                varint(ps[i as int]).len() as int,
            ) == varints_bytes(ps.skip(i as int + 1)) + rest by {
                lemma_varints_bytes_skip(ps, i as int);
                crate::codec::lemma_varint_round_trip(
                    ps[i as int],
                    varints_bytes(ps.skip(i as int + 1)) + rest,
                );
                assert(varints_bytes(ps.skip(i as int)) + rest =~= varint(ps[i as int]) + (varints_bytes(ps.skip(i as int + 1)) + rest));
                assert(r.rem() =~= varint(ps[i as int]) + (varints_bytes(ps.skip(i as int + 1)) + rest));
            }
        }
        let a = r.read_u32_encoded()?;
        v.push(a);
        proof {
            crate::codec::lemma_cast_round_trips();
            assert forall|ps: Seq<u32>, rest: Seq<u8>|
                mark == #[trigger] (varints_bytes(ps) + rest) && ps.len() == count implies (v@
                == ps.take(i as int + 1) && r.rem() == varints_bytes(ps.skip(i as int + 1))
                + rest) by {
                assert(v@ =~= ps.take(i as int + 1));
            }
        }
        i = i + 1;
    }
    proof {
        assert forall|ps: Seq<u32>, rest: Seq<u8>|
            mark == #[trigger] (varints_bytes(ps) + rest) && ps.len() == count implies (v@ == ps
            && r.rem() == rest) by {
            assert(ps.take(ps.len() as int) =~= ps);
            assert(ps.skip(ps.len() as int) =~= Seq::<u32>::empty());
            assert(varints_bytes(ps.skip(ps.len() as int)) + rest =~= rest);
        }
    }
    Ok(v)
}

/// Reads a varint count of i8 values. Input that starts with the wire\n/// form of such a list parses back to exactly that list.
fn read_i8_list(r: &mut PacketReader) -> (res: Result<Vec<i8>, CodecError>)
    requires
        old(r).wf(),
    ensures
        final(r).wf(),
        forall|ps: Seq<i8>, rest: Seq<u8>|
            ps.len() <= u32::MAX && old(r).rem() == #[trigger] (varint(ps.len() as u32)
                + i8s_bytes(ps) + rest) ==> (match res {
                Ok(v) => v@ == ps && final(r).rem() == rest,
                Err(_) => false,
            }),
{
    proof {
        assert forall|ps: Seq<i8>, rest: Seq<u8>|
            ps.len() <= u32::MAX && old(r).rem() == #[trigger] (varint(ps.len() as u32)
                + i8s_bytes(ps) + rest) implies crate::codec::varint_size(old(r).rem())
            == Some(varint(ps.len() as u32).len() as int) && crate::codec::varint_value(
            old(r).rem(),
        ) == ps.len() as u32 && old(r).rem().skip(varint(ps.len() as u32).len() as int)
            == i8s_bytes(ps) + rest by {
            crate::codec::lemma_varint_round_trip(ps.len() as u32, i8s_bytes(ps) + rest);
            assert(old(r).rem() =~= varint(ps.len() as u32) + (i8s_bytes(ps) + rest));
        }
    }
    let count = r.read_u32_encoded()?;
    let ghost mark = r.rem();
    let mut v: Vec<i8> = Vec::new();
    let mut i: u32 = 0;
    proof {
        assert forall|ps: Seq<i8>, rest: Seq<u8>|
            mark == #[trigger] (i8s_bytes(ps) + rest) && ps.len() == count implies (v@
            == ps.take(0) && r.rem() == i8s_bytes(ps.skip(0)) + rest) by {
            assert(v@ =~= ps.take(0));
            assert(ps.skip(0) =~= ps);
        }
    }
    while i < count
        invariant
            r.wf(),
            i <= count,
            v@.len() == i,
            forall|ps: Seq<i8>, rest: Seq<u8>|
                ps.len() <= u32::MAX && old(r).rem() == #[trigger] (varint(ps.len() as u32)
                    + i8s_bytes(ps) + rest) ==> mark == i8s_bytes(ps) + rest && count
                    == ps.len(),
            forall|ps: Seq<i8>, rest: Seq<u8>|
                mark == #[trigger] (i8s_bytes(ps) + rest) && ps.len() == count ==> (v@
                    == ps.take(i as int) && r.rem() == i8s_bytes(ps.skip(i as int)) + rest),
        decreases count - i,
    {
        proof {
            assert forall|ps: Seq<i8>, rest: Seq<u8>|
                mark == #[trigger] (i8s_bytes(ps) + rest) && ps.len() == count implies r.rem()
                == seq![ps[i as int] as u8] + (i8s_bytes(ps.skip(i as int + 1)) + rest) by {
                lemma_i8s_bytes_skip(ps, i as int);
                assert(i8s_bytes(ps.skip(i as int)) + rest =~= seq![ps[i as int] as u8] + (i8s_bytes(ps.skip(i as int + 1)) + rest));
            }
        }
        let a = r.read_i8()?;
        v.push(a);
        proof {
            crate::codec::lemma_cast_round_trips();
            assert forall|ps: Seq<i8>, rest: Seq<u8>|
                mark == #[trigger] (i8s_bytes(ps) + rest) && ps.len() == count implies (v@
                == ps.take(i as int + 1) && r.rem() == i8s_bytes(ps.skip(i as int + 1))
                + rest) by {
                assert((a as u8) as i8 == a);
                assert((ps[i as int] as u8) as i8 == ps[i as int]);
                assert(a == ps[i as int]);
                assert(v@ =~= ps.take(i as int + 1));
                assert(r.rem() =~= i8s_bytes(ps.skip(i as int + 1)) + rest);
            }
        }
        i = i + 1;
    }
    proof {
        assert forall|ps: Seq<i8>, rest: Seq<u8>|
            mark == #[trigger] (i8s_bytes(ps) + rest) && ps.len() == count implies (v@ == ps
            && r.rem() == rest) by {
            assert(ps.take(ps.len() as int) =~= ps);
            assert(ps.skip(ps.len() as int) =~= Seq::<i8>::empty());
            assert(i8s_bytes(ps.skip(ps.len() as int)) + rest =~= rest);
        }
    }
    Ok(v)
}

/// Reads a fixed count of flag bytes. Input that starts with the wire form
/// of that many flags parses back to exactly those flags.
fn read_bool_list(r: &mut PacketReader, count: usize) -> (res: Result<Vec<bool>, CodecError>)
    requires
        old(r).wf(),
    ensures
        final(r).wf(),
        res matches Ok(v) ==> v@.len() == count,
        forall|bs: Seq<bool>, rest: Seq<u8>|
            bs.len() == count && old(r).rem() == #[trigger] (bools_bytes(bs) + rest) ==> (
            match res {
                Ok(v) => v@ == bs && final(r).rem() == rest,
                Err(_) => false,
            }),
{
    let ghost mark = old(r).rem();
    let mut v: Vec<bool> = Vec::new();
    let mut i: usize = 0;
    proof {
        assert forall|bs: Seq<bool>, rest: Seq<u8>|
            bs.len() == count && mark == #[trigger] (bools_bytes(bs) + rest) implies (v@
            == bs.take(0) && r.rem() == bools_bytes(bs.skip(0)) + rest) by {
            assert(v@ =~= bs.take(0));
            assert(bs.skip(0) =~= bs);
        }
    }
    while i < count
        invariant
            r.wf(),
            i <= count,
            v@.len() == i,
            mark == old(r).rem(),
            forall|bs: Seq<bool>, rest: Seq<u8>|
                bs.len() == count && mark == #[trigger] (bools_bytes(bs) + rest) ==> (v@
                    == bs.take(i as int) && r.rem() == bools_bytes(bs.skip(i as int)) + rest),
        decreases count - i,
    {
        proof {
            assert forall|bs: Seq<bool>, rest: Seq<u8>|
                bs.len() == count && mark == #[trigger] (bools_bytes(bs) + rest) implies r.rem()
                == seq![if bs[i as int] {
                1u8
            } else {
                0u8
            }] + (bools_bytes(bs.skip(i as int + 1)) + rest) by {
                lemma_bools_bytes_skip(bs, i as int);
                assert(bools_bytes(bs.skip(i as int)) + rest =~= seq![if bs[i as int] {
                    1u8
                } else {
                    0u8
                }] + (bools_bytes(bs.skip(i as int + 1)) + rest));
            }
        }
        let b = r.read_bool()?;
        v.push(b);
        proof {
            assert forall|bs: Seq<bool>, rest: Seq<u8>|
                bs.len() == count && mark == #[trigger] (bools_bytes(bs) + rest) implies (v@
                == bs.take(i as int + 1) && r.rem() == bools_bytes(bs.skip(i as int + 1))
                + rest) by {
                assert(v@ =~= bs.take(i as int + 1));
                assert(r.rem() =~= bools_bytes(bs.skip(i as int + 1)) + rest);
            }
        }
        i = i + 1;
    }
    proof {
        assert forall|bs: Seq<bool>, rest: Seq<u8>|
            bs.len() == count && mark == #[trigger] (bools_bytes(bs) + rest) implies (v@ == bs
            && r.rem() == rest) by {
            assert(bs.take(bs.len() as int) =~= bs);
            assert(bs.skip(bs.len() as int) =~= Seq::<bool>::empty());
            assert(bools_bytes(bs.skip(bs.len() as int)) + rest =~= rest);
        }
    }
    Ok(v)
}


/// A world whose lists fit their wire counts and whose door set is the
/// thirteen the map defines.
pub open spec fn world_wf(x: World) -> bool {
    &&& x.door_open@.len() == 13
    &&& x.user_console_pairs@.len() <= u32::MAX
    &&& x.completed_consoles@.len() <= u32::MAX
    &&& x.med_user_list@.len() <= u32::MAX
}

/// The world initializer's wire form, from the console pairs onward.
pub open spec fn wi_t2(x: World, rest: Seq<u8>) -> Seq<u8> {
    varint(x.user_console_pairs@.len() as u32) + pairs_bytes(x.user_console_pairs@) + wi_t3(
        x,
        rest,
    )
}

/// ... from the switch bytes onward.
pub open spec fn wi_t3(x: World, rest: Seq<u8>) -> Seq<u8> {
    seq![x.expected_switches, x.actual_switches, x.elec_value] + wi_t4(x, rest)
}

/// ... from the life-support countdown onward.
pub open spec fn wi_t4(x: World, rest: Seq<u8>) -> Seq<u8> {
    crate::codec::le32(x.life_supp_countdown) + wi_t5(x, rest)
}

/// ... from the completed consoles onward.
pub open spec fn wi_t5(x: World, rest: Seq<u8>) -> Seq<u8> {
    varint(x.completed_consoles@.len() as u32) + varints_bytes(x.completed_consoles@) + wi_t6(
        x,
        rest,
    )
}

/// ... from the med-scan users onward.
pub open spec fn wi_t6(x: World, rest: Seq<u8>) -> Seq<u8> {
    varint(x.med_user_list@.len() as u32) + i8s_bytes(x.med_user_list@) + wi_t7(x, rest)
}

/// ... from the camera and comms flags onward.
pub open spec fn wi_t7(x: World, rest: Seq<u8>) -> Seq<u8> {
    seq![
        if x.camera_in_use {
            1u8
        } else {
            0u8
        },
        if x.comms_active {
            1u8
        } else {
            0u8
        },
    ] + wi_t8(x, rest)
}

/// ... from the door flags onward.
pub open spec fn wi_t8(x: World, rest: Seq<u8>) -> Seq<u8> {
    bools_bytes(x.door_open@) + (crate::codec::le32(x.sabotage_timer) + rest)
}

/// The whole world initializer: every subsystem in order.
pub open spec fn world_init_bytes(x: World, rest: Seq<u8>) -> Seq<u8> {
    crate::codec::le32(x.reactor_countdown) + wi_t2(x, rest)
}

/// The parse of each field of a well-formed world initializer.
pub open spec fn wi_facts(x: World, rest: Seq<u8>, s: Seq<u8>) -> bool {
    &&& s.len() >= 4 && s.subrange(0, 4) == crate::codec::le32(x.reactor_countdown)
    &&& s.skip(4) == wi_t2(x, rest)
    &&& wi_t3(x, rest).len() >= 3 && wi_t3(x, rest)[0] == x.expected_switches && wi_t3(x, rest)[1]
        == x.actual_switches && wi_t3(x, rest)[2] == x.elec_value
    &&& wi_t3(x, rest).skip(1) == seq![x.actual_switches, x.elec_value] + wi_t4(x, rest)
    &&& wi_t3(x, rest).skip(1).skip(1) == seq![x.elec_value] + wi_t4(x, rest)
    &&& wi_t3(x, rest).skip(1).skip(1).skip(1) == wi_t4(x, rest)
    &&& wi_t4(x, rest).len() >= 4 && wi_t4(x, rest).subrange(0, 4) == crate::codec::le32(
        x.life_supp_countdown,
    )
    &&& wi_t4(x, rest).skip(4) == wi_t5(x, rest)
    &&& wi_t7(x, rest).len() >= 2 && wi_t7(x, rest)[0] == (if x.camera_in_use {
        1u8
    } else {
        0u8
    }) && wi_t7(x, rest).skip(1)[0] == (if x.comms_active {
        1u8
    } else {
        0u8
    })
    &&& wi_t7(x, rest).skip(1).skip(1) == wi_t8(x, rest)
    &&& wi_t8(x, rest) == bools_bytes(x.door_open@) + (crate::codec::le32(x.sabotage_timer)
        + rest)
    &&& (crate::codec::le32(x.sabotage_timer) + rest).subrange(0, 4) == crate::codec::le32(
        x.sabotage_timer,
    )
    &&& (crate::codec::le32(x.sabotage_timer) + rest).skip(4) == rest
}

proof fn lemma_wi_facts(x: World, rest: Seq<u8>, s: Seq<u8>)
    requires
        world_wf(x),
        s == world_init_bytes(x, rest),
    ensures
        wi_facts(x, rest, s),
{
    assert(s.subrange(0, 4) =~= crate::codec::le32(x.reactor_countdown));
    assert(s.skip(4) =~= wi_t2(x, rest));
    assert(wi_t3(x, rest).skip(1) =~= seq![x.actual_switches, x.elec_value] + wi_t4(x, rest));
    assert(wi_t3(x, rest).skip(1).skip(1) =~= seq![x.elec_value] + wi_t4(x, rest));
    assert(wi_t3(x, rest).skip(1).skip(1).skip(1) =~= wi_t4(x, rest));
    assert(wi_t4(x, rest).subrange(0, 4) =~= crate::codec::le32(x.life_supp_countdown));
    assert(wi_t4(x, rest).skip(4) =~= wi_t5(x, rest));
    assert(wi_t7(x, rest).skip(1)[0] == wi_t7(x, rest)[1]);
    assert(wi_t7(x, rest).skip(1).skip(1) =~= wi_t8(x, rest));
    assert((crate::codec::le32(x.sabotage_timer) + rest).subrange(0, 4)
        =~= crate::codec::le32(x.sabotage_timer));
    assert((crate::codec::le32(x.sabotage_timer) + rest).skip(4) =~= rest);
}


/// The update payload's wire form from the reactor subsystem onward, for
/// the subsystems its bitmask selects.
pub open spec fn wu_t2(x: World, bits: u32, rest: Seq<u8>) -> Seq<u8> {
    if bits & 8 != 0 {
        crate::codec::le32(x.reactor_countdown) + (varint(x.user_console_pairs@.len() as u32)
            + pairs_bytes(x.user_console_pairs@) + wu_t3(x, bits, rest))
    } else {
        wu_t3(x, bits, rest)
    }
}

/// ... from the switches onward.
pub open spec fn wu_t3(x: World, bits: u32, rest: Seq<u8>) -> Seq<u8> {
    if bits & 0x80 != 0 {
        seq![x.expected_switches, x.actual_switches, x.elec_value] + wu_t4(x, bits, rest)
    } else {
        wu_t4(x, bits, rest)
    }
}

/// ... from life support onward.
pub open spec fn wu_t4(x: World, bits: u32, rest: Seq<u8>) -> Seq<u8> {
    if bits & 0x100 != 0 {
        crate::codec::le32(x.life_supp_countdown) + (varint(x.completed_consoles@.len() as u32)
            + varints_bytes(x.completed_consoles@) + wu_t5(x, bits, rest))
    } else {
        wu_t5(x, bits, rest)
    }
}

/// ... from the med-scan users onward.
pub open spec fn wu_t5(x: World, bits: u32, rest: Seq<u8>) -> Seq<u8> {
    if bits & 0x400 != 0 {
        varint(x.med_user_list@.len() as u32) + i8s_bytes(x.med_user_list@) + wu_t6(x, bits, rest)
    } else {
        wu_t6(x, bits, rest)
    }
}

/// ... from the camera flag onward.
pub open spec fn wu_t6(x: World, bits: u32, rest: Seq<u8>) -> Seq<u8> {
    if bits & 0x800 != 0 {
        seq![if x.camera_in_use {
            1u8
        } else {
            0u8
        }] + wu_t7(x, bits, rest)
    } else {
        wu_t7(x, bits, rest)
    }
}

/// ... from the comms flag onward.
pub open spec fn wu_t7(x: World, bits: u32, rest: Seq<u8>) -> Seq<u8> {
    if bits & 0x4000 != 0 {
        seq![if x.comms_active {
            1u8
        } else {
            0u8
        }] + wu_t7d(x, bits, rest)
    } else {
        wu_t7d(x, bits, rest)
    }
}

/// ... the doors, if selected: the canonical payload selects all thirteen.
pub open spec fn wu_t7d(x: World, bits: u32, rest: Seq<u8>) -> Seq<u8> {
    if bits & 0x10000 != 0 {
        varint(0x1FFF) + bools_bytes(x.door_open@) + wu_t8(x, bits, rest)
    } else {
        wu_t8(x, bits, rest)
    }
}

/// ... the sabotage timer, if selected.
pub open spec fn wu_t8(x: World, bits: u32, rest: Seq<u8>) -> Seq<u8> {
    if bits & 0x20000 != 0 {
        crate::codec::le32(x.sabotage_timer) + rest
    } else {
        rest
    }
}

/// A world update payload: the bitmask, then the selected subsystems in
/// order. Door updates carry their own sub-bitmask and are not covered by
/// this form.
pub open spec fn world_update_bytes(x: World, bits: u32, rest: Seq<u8>) -> Seq<u8> {
    varint(bits) + wu_t2(x, bits, rest)
}


/// The selected subsystems carry exactly the decoded values.
pub open spec fn world_took_update(w: World, x: World, bits: u32) -> bool {
    &&& (bits & 8 != 0 ==> w.reactor_countdown == x.reactor_countdown && w.user_console_pairs@
        == x.user_console_pairs@)
    &&& (bits & 0x80 != 0 ==> w.expected_switches == x.expected_switches && w.actual_switches
        == x.actual_switches && w.elec_value == x.elec_value)
    &&& (bits & 0x100 != 0 ==> w.life_supp_countdown == x.life_supp_countdown
        && w.completed_consoles@ == x.completed_consoles@)
    &&& (bits & 0x400 != 0 ==> w.med_user_list@ == x.med_user_list@)
    &&& (bits & 0x800 != 0 ==> w.camera_in_use == x.camera_in_use)
    &&& (bits & 0x4000 != 0 ==> w.comms_active == x.comms_active)
    &&& (bits & 0x10000 != 0 ==> w.door_open@ == x.door_open@)
    &&& (bits & 0x20000 != 0 ==> w.sabotage_timer == x.sabotage_timer)
}



/// The parse of the head subsystems of an update payload past its bitmask.
pub open spec fn wu2_head_facts(x: World, bits: u32, rest: Seq<u8>) -> bool {
    &&& (bits & 8 != 0 ==> wu_t2(x, bits, rest).len() >= 4 && wu_t2(x, bits, rest).subrange(0, 4)
        == crate::codec::le32(x.reactor_countdown) && wu_t2(x, bits, rest).skip(4) == varint(
        x.user_console_pairs@.len() as u32,
    ) + pairs_bytes(x.user_console_pairs@) + wu_t3(x, bits, rest))
    &&& (bits & 0x80 != 0 ==> wu_t3(x, bits, rest).len() >= 3 && wu_t3(x, bits, rest)[0]
        == x.expected_switches && wu_t3(x, bits, rest).skip(1)[0] == x.actual_switches && wu_t3(
        x,
        bits,
        rest,
    ).skip(1).skip(1)[0] == x.elec_value && wu_t3(x, bits, rest).skip(1).skip(1).skip(1) == wu_t4(
        x,
        bits,
        rest,
    ))
    &&& (bits & 0x100 != 0 ==> wu_t4(x, bits, rest).len() >= 4 && wu_t4(x, bits, rest).subrange(
        0,
        4,
    ) == crate::codec::le32(x.life_supp_countdown) && wu_t4(x, bits, rest).skip(4) == varint(
        x.completed_consoles@.len() as u32,
    ) + varints_bytes(x.completed_consoles@) + wu_t5(x, bits, rest))
}

#[verifier::rlimit(100)]
proof fn lemma_wu2_head_facts(x: World, bits: u32, rest: Seq<u8>)
    requires
        world_wf(x),
    ensures
        wu2_head_facts(x, bits, rest),
{
    if bits & 8 != 0 {
        assert(wu_t2(x, bits, rest).subrange(0, 4) =~= crate::codec::le32(x.reactor_countdown));
        assert(wu_t2(x, bits, rest).skip(4) =~= varint(x.user_console_pairs@.len() as u32)
            + pairs_bytes(x.user_console_pairs@) + wu_t3(x, bits, rest));
    }
    if bits & 0x80 != 0 {
        assert(wu_t3(x, bits, rest).skip(1)[0] == wu_t3(x, bits, rest)[1]);
        assert(wu_t3(x, bits, rest).skip(1).skip(1)[0] == wu_t3(x, bits, rest)[2]);
        assert(wu_t3(x, bits, rest).skip(1).skip(1).skip(1) =~= wu_t4(x, bits, rest));
    }
    if bits & 0x100 != 0 {
        assert(wu_t4(x, bits, rest).subrange(0, 4) =~= crate::codec::le32(x.life_supp_countdown));
        assert(wu_t4(x, bits, rest).skip(4) =~= varint(x.completed_consoles@.len() as u32)
            + varints_bytes(x.completed_consoles@) + wu_t5(x, bits, rest));
    }
}

/// The parse of the tail subsystems of an update payload.
pub open spec fn wu2_tail_facts(x: World, bits: u32, rest: Seq<u8>) -> bool {
    &&& (bits & 0x800 != 0 ==> wu_t6(x, bits, rest).len() >= 1 && wu_t6(x, bits, rest)[0] == (
    if x.camera_in_use {
        1u8
    } else {
        0u8
    }) && wu_t6(x, bits, rest).skip(1) == wu_t7(x, bits, rest))
    &&& (bits & 0x4000 != 0 ==> wu_t7(x, bits, rest).len() >= 1 && wu_t7(x, bits, rest)[0] == (
    if x.comms_active {
        1u8
    } else {
        0u8
    }) && wu_t7(x, bits, rest).skip(1) == wu_t7d(x, bits, rest))
    &&& (bits & 0x10000 != 0 ==> wu_t7d(x, bits, rest) == varint(0x1FFF) + bools_bytes(
        x.door_open@,
    ) + wu_t8(x, bits, rest))
    &&& (bits & 0x20000 != 0 ==> wu_t8(x, bits, rest).len() >= 4 && wu_t8(x, bits, rest).subrange(
        0,
        4,
    ) == crate::codec::le32(x.sabotage_timer) && wu_t8(x, bits, rest).skip(4) == rest)
    &&& (bits & 0x20000 == 0 ==> wu_t8(x, bits, rest) == rest)
}

#[verifier::rlimit(100)]
proof fn lemma_wu2_tail_facts(x: World, bits: u32, rest: Seq<u8>)
    requires
        world_wf(x),
    ensures
        wu2_tail_facts(x, bits, rest),
{
    if bits & 0x800 != 0 {
        assert(wu_t6(x, bits, rest).skip(1) =~= wu_t7(x, bits, rest));
    }
    if bits & 0x4000 != 0 {
        assert(wu_t7(x, bits, rest).skip(1) =~= wu_t7d(x, bits, rest));
    }
    if bits & 0x20000 != 0 {
        assert(wu_t8(x, bits, rest).subrange(0, 4) =~= crate::codec::le32(x.sabotage_timer));
        assert(wu_t8(x, bits, rest).skip(4) =~= rest);
    }
}



/// Powers of two; the place value of a door's bit in the sub-bitmask.
pub open spec fn pow2u(k: int) -> int
    decreases k,
{
    if k <= 0 {
        1
    } else {
        2 * pow2u(k - 1)
    }
}

proof fn lemma_pow2u_vals()
    ensures
        pow2u(0) == 1,
        pow2u(1) == 2,
        pow2u(2) == 4,
        pow2u(3) == 8,
        pow2u(4) == 16,
        pow2u(5) == 32,
        pow2u(6) == 64,
        pow2u(7) == 128,
        pow2u(8) == 256,
        pow2u(9) == 512,
        pow2u(10) == 1024,
        pow2u(11) == 2048,
        pow2u(12) == 4096,
        pow2u(13) == 8192,
{
    reveal_with_fuel(pow2u, 14);
}

proof fn lemma_all_doors_bit(k: u32)
    requires
        k == 1 || k == 2 || k == 4 || k == 8 || k == 16 || k == 32 || k == 64 || k == 128 || k
            == 256 || k == 512 || k == 1024 || k == 2048 || k == 4096,
    ensures
        0x1FFFu32 & k > 0,
{
    assert(0x1FFFu32 & k > 0) by (bit_vector)
        requires
            k == 1 || k == 2 || k == 4 || k == 8 || k == 16 || k == 32 || k == 64 || k == 128 || k
                == 256 || k == 512 || k == 1024 || k == 2048 || k == 4096,
    ;
}

/// The lobby object; it carries no replicated state.
#[derive(Debug)]
pub struct Lobby {
    pub net_id: u32,
    pub owner_id: i32,
}

impl Lobby {
    pub fn owner_id(&self) -> (r: i32)
        ensures
            r == self.spec_owner_id(),
    {
        self.owner_id
    }

    pub fn net_id(&self) -> (r: u32)
        ensures
            r == self.spec_net_id(),
    {
        self.net_id
    }

    pub open spec fn spec_owner_id(&self) -> i32 {
        self.owner_id
    }

    pub open spec fn spec_net_id(&self) -> u32 {
        self.net_id
    }

    /// A lobby initializer carries nothing.
    pub fn initialize(net_id: u32, owner_id: i32, _r: &mut PacketReader) -> (res: Lobby)
        ensures
            res.spec_net_id() == net_id && res.spec_owner_id() == owner_id,
    {
        Lobby { net_id, owner_id }
    }

    /// A lobby update carries nothing this client reads.
    pub fn update_data(&mut self, _r: &mut PacketReader) -> (res: Result<(), CodecError>)
        ensures
            *final(self) == *old(self),
            res is Ok,
    {
        Ok(())
    }

    /// The lobby answers no RPC.
    pub fn handle_rpc(&mut self, _call_id: u8, _r: &mut PacketReader) -> (res: Result<
        RPCCallback,
        CodecError,
    >)
        ensures
            *final(self) == *old(self),
            res matches Ok(cb) ==> cb is Nothing,
    {
        Ok(RPCCallback::Nothing)
    }
}


/// Two player records that carry the same data, compared at the view level.
pub open spec fn pd_matches(a: PlayerData, b: PlayerData) -> bool {
    &&& a.name@ == b.name@
    &&& a.color == b.color
    &&& a.hat_id == b.hat_id
    &&& a.skin_id == b.skin_id
    &&& a.pet_id == b.pet_id
    &&& a.disconnected == b.disconnected
    &&& a.is_imposter == b.is_imposter
    &&& a.is_dead == b.is_dead
    &&& a.tasks@ == b.tasks@
}

/// The wire form of a sequence of id-tagged player records.
pub open spec fn gd_records_bytes(s: Seq<(u8, PlayerData)>) -> Seq<u8>
    decreases s.len(),
{
    if s.len() == 0 {
        Seq::<u8>::empty()
    } else {
        seq![s[0].0] + s[0].1.spec_ser() + gd_records_bytes(s.drop_first())
    }
}

proof fn lemma_gd_records_bytes_skip(s: Seq<(u8, PlayerData)>, i: int)
    requires
        0 <= i < s.len(),
    ensures
        gd_records_bytes(s.skip(i)) == seq![s[i].0] + s[i].1.spec_ser() + gd_records_bytes(
            s.skip(i + 1),
        ),
    decreases i,
{
    if i == 0 {
        assert(s.skip(0) =~= s);
        assert(s.drop_first() =~= s.skip(1));
    } else {
        lemma_gd_records_bytes_skip(s.drop_first(), i - 1);
        assert(s.drop_first().skip(i - 1) =~= s.skip(i));
        assert(s.drop_first().skip(i) =~= s.skip(i + 1));
        assert(s.drop_first()[i - 1] == s[i]);
    }
}

/// A record sequence whose every record is well-formed.
pub open spec fn gd_each_wf(s: Seq<(u8, PlayerData)>) -> bool {
    forall|i: int| 0 <= i < s.len() ==> (#[trigger] s[i]).1.wf()
}

/// Every well-formed id-tagged record sequence: well-formed records under
/// distinct player ids.
pub open spec fn gd_records_wf(s: Seq<(u8, PlayerData)>) -> bool {
    &&& gd_each_wf(s)
    &&& (forall|i: int, j: int| 0 <= i < j < s.len() ==> (#[trigger] s[i]).0 != (#[trigger] s[j]).0)
}

/// The last record in a read order that carries a player id, if any: what
/// an insert-replacing read leaves bound to that id.
pub open spec fn gd_last_of(s: Seq<(u8, PlayerData)>, id: u8) -> Option<PlayerData>
    decreases s.len(),
{
    if s.len() == 0 {
        None
    } else if s.last().0 == id {
        Some(s.last().1)
    } else {
        gd_last_of(s.drop_last(), id)
    }
}

/// Reading one more record rebinds its id and leaves the others.
proof fn lemma_gd_last_of_push(s: Seq<(u8, PlayerData)>, x: (u8, PlayerData), id: u8)
    ensures
        gd_last_of(s.push(x), id) == (if x.0 == id {
            Some(x.1)
        } else {
            gd_last_of(s, id)
        }),
{
    assert(s.push(x).drop_last() =~= s);
    assert(s.push(x).last() == x);
}

/// One insert-replacing read step keeps the registry bound to last-read
/// records and covering every id read so far.
proof fn lemma_gd_insert_step(
    rs: Seq<(u8, PlayerData)>,
    i: int,
    pre: Seq<(u8, PlayerData)>,
    post: Seq<(u8, PlayerData)>,
    data: PlayerData,
)
    requires
        0 <= i < rs.len(),
        pd_matches(data, rs[i].1),
        forall|m: int|
            0 <= m < pre.len() ==> (gd_last_of(rs.take(i), (#[trigger] pre[m]).0) matches Some(d)
                && pd_matches(pre[m].1, d)),
        forall|k: int|
            0 <= k < i ==> exists|m: int|
                0 <= m < pre.len() && (#[trigger] pre[m]).0 == (#[trigger] rs[k]).0,
        ({
            ||| (pre.len() == post.len() && (exists|j: int|
                0 <= j < pre.len() && (#[trigger] pre[j]).0 == rs[i].0) && (forall|j: int|
                0 <= j < pre.len() ==> (#[trigger] post[j]).0 == pre[j].0) && (forall|j: int|
                0 <= j < pre.len() && (#[trigger] pre[j]).0 != rs[i].0 ==> post[j].1 == pre[j].1)
                && (forall|j: int|
                0 <= j < pre.len() && (#[trigger] pre[j]).0 == rs[i].0 ==> post[j].1 == data))
            ||| ((forall|j: int| 0 <= j < pre.len() ==> (#[trigger] pre[j]).0 != rs[i].0) && post
                == pre.push((rs[i].0, data)))
        }),
    ensures
        forall|m: int|
            0 <= m < post.len() ==> (gd_last_of(rs.take(i + 1), (#[trigger] post[m]).0)
                matches Some(d) && pd_matches(post[m].1, d)),
        forall|k: int|
            0 <= k < i + 1 ==> exists|m: int|
                0 <= m < post.len() && (#[trigger] post[m]).0 == (#[trigger] rs[k]).0,
{
    assert(rs.take(i + 1) =~= rs.take(i).push(rs[i]));
    if pre.len() == post.len() && (exists|j: int|
        0 <= j < pre.len() && (#[trigger] pre[j]).0 == rs[i].0) && (forall|j: int|
        0 <= j < pre.len() ==> (#[trigger] post[j]).0 == pre[j].0) && (forall|j: int|
        0 <= j < pre.len() && (#[trigger] pre[j]).0 != rs[i].0 ==> post[j].1 == pre[j].1) && (
    forall|j: int|
        0 <= j < pre.len() && (#[trigger] pre[j]).0 == rs[i].0 ==> post[j].1 == data) {
        assert forall|m: int| 0 <= m < post.len() implies (gd_last_of(
            rs.take(i + 1),
            (#[trigger] post[m]).0,
        ) matches Some(d) && pd_matches(post[m].1, d)) by {
            lemma_gd_last_of_push(rs.take(i), rs[i], post[m].0);
            assert(post[m].0 == pre[m].0);
            if post[m].0 == rs[i].0 {
                assert(post[m].1 == data);
            } else {
                assert(post[m].1 == pre[m].1);
                assert(gd_last_of(rs.take(i), pre[m].0) matches Some(d) && pd_matches(
                    pre[m].1,
                    d,
                ));
            }
        }
        assert forall|k: int| 0 <= k < i + 1 implies exists|m: int|
            0 <= m < post.len() && (#[trigger] post[m]).0 == (#[trigger] rs[k]).0 by {
            if k < i {
                let m0 = choose|m: int|
                    0 <= m < pre.len() && (#[trigger] pre[m]).0 == rs[k].0;
                assert(post[m0].0 == pre[m0].0);
            } else {
                let j0 = choose|j: int|
                    0 <= j < pre.len() && (#[trigger] pre[j]).0 == rs[i].0;
                assert(post[j0].0 == pre[j0].0);
            }
        }
    } else {
        assert(post == pre.push((rs[i].0, data)));
        assert forall|m: int| 0 <= m < post.len() implies (gd_last_of(
            rs.take(i + 1),
            (#[trigger] post[m]).0,
        ) matches Some(d) && pd_matches(post[m].1, d)) by {
            lemma_gd_last_of_push(rs.take(i), rs[i], post[m].0);
            if m < pre.len() {
                assert(post[m] == pre[m]);
                assert(post[m].0 != rs[i].0);
                assert(gd_last_of(rs.take(i), pre[m].0) matches Some(d) && pd_matches(
                    pre[m].1,
                    d,
                ));
            } else {
                assert(post[m] == (rs[i].0, data));
            }
        }
        assert forall|k: int| 0 <= k < i + 1 implies exists|m: int|
            0 <= m < post.len() && (#[trigger] post[m]).0 == (#[trigger] rs[k]).0 by {
            if k < i {
                let m0 = choose|m: int|
                    0 <= m < pre.len() && (#[trigger] pre[m]).0 == rs[k].0;
                assert(post[m0] == pre[m0]);
            } else {
                assert(post[pre.len() as int].0 == rs[i].0);
            }
        }
    }
}


/// The batched update's payload: each record marked dirty, as a message
/// tagged with its player id, in registry order.
pub open spec fn dirty_records_bytes(s: Seq<(u8, PlayerData)>) -> Seq<u8>
    decreases s.len(),
{
    if s.len() == 0 {
        Seq::<u8>::empty()
    } else {
        (if s[0].1.dirty {
            crate::codec::message_bytes(s[0].0, s[0].1.spec_ser())
        } else {
            Seq::<u8>::empty()
        }) + dirty_records_bytes(s.drop_first())
    }
}

/// Every dirty record can travel: it is well-formed and its wire form fits
/// one message.
pub open spec fn dirty_records_fit(s: Seq<(u8, PlayerData)>) -> bool {
    forall|i: int|
        0 <= i < s.len() && (#[trigger] s[i]).1.dirty ==> s[i].1.wf() && s[i].1.spec_ser().len()
            <= 0xFFFF
}

proof fn lemma_dirty_records_take_step(s: Seq<(u8, PlayerData)>, i: int)
    requires
        0 <= i < s.len(),
    ensures
        dirty_records_bytes(s.take(i + 1)) == dirty_records_bytes(s.take(i)) + (if s[i].1.dirty {
            crate::codec::message_bytes(s[i].0, s[i].1.spec_ser())
        } else {
            Seq::<u8>::empty()
        }),
    decreases i,
{
    if i == 0 {
        assert(s.take(1).drop_first() =~= Seq::<(u8, PlayerData)>::empty());
        assert(s.take(0) =~= Seq::<(u8, PlayerData)>::empty());
        assert(s.take(1)[0] == s[0]);
        assert(dirty_records_bytes(Seq::<(u8, PlayerData)>::empty()) == Seq::<u8>::empty());
        assert(dirty_records_bytes(s.take(i + 1)) =~= dirty_records_bytes(s.take(i)) + (
        if s[i].1.dirty {
            crate::codec::message_bytes(s[i].0, s[i].1.spec_ser())
        } else {
            Seq::<u8>::empty()
        }));
    } else {
        lemma_dirty_records_take_step(s.drop_first(), i - 1);
        assert(s.take(i + 1).drop_first() =~= s.drop_first().take(i));
        assert(s.take(i).drop_first() =~= s.drop_first().take(i - 1));
        assert(s.take(i + 1)[0] == s[0] && s.take(i)[0] == s[0]);
        assert(s.drop_first()[i - 1] == s[i]);
        assert(dirty_records_bytes(s.take(i + 1)) =~= dirty_records_bytes(s.take(i)) + (
        if s[i].1.dirty {
            crate::codec::message_bytes(s[i].0, s[i].1.spec_ser())
        } else {
            Seq::<u8>::empty()
        }));
    }
}

/// The per-game registry of player records, keyed by player id.
#[derive(Debug)]
pub struct GameData {
    pub net_id: u32,
    pub owner_id: i32,
    pub players: Vec<(u8, PlayerData)>,
}

impl GameData {
    pub fn owner_id(&self) -> (r: i32)
        ensures
            r == self.spec_owner_id(),
    {
        self.owner_id
    }

    pub fn net_id(&self) -> (r: u32)
        ensures
            r == self.spec_net_id(),
    {
        self.net_id
    }

    pub open spec fn spec_owner_id(&self) -> i32 {
        self.owner_id
    }

    pub open spec fn spec_net_id(&self) -> u32 {
        self.net_id
    }

    /// No two records share a player id.
    pub open spec fn wf(&self) -> bool {
        forall|i: int, j: int|
            0 <= i < j < self.players@.len() ==> (#[trigger] self.players@[i]).0 != (
            #[trigger] self.players@[j]).0
    }

    /// Reads a game-data initializer: a varint count of player records.
    /// Input that starts with the wire form of distinct well-formed records
    /// parses back to a registry holding exactly those records, in order.
    /// Under repeated player ids the registry binds each id once, to the
    /// record read last for it.
    #[verifier::rlimit(100)]
    pub fn initialize(net_id: u32, owner_id: i32, r: &mut PacketReader) -> (res: Result<
        GameData,
        CodecError,
    >)
        requires
            old(r).wf(),
        ensures
            final(r).wf(),
            res matches Ok(g) ==> g.spec_net_id() == net_id && g.spec_owner_id() == owner_id
                && g.wf(),
            forall|rs: Seq<(u8, PlayerData)>, rest: Seq<u8>|
                gd_records_wf(rs) && rs.len() <= u32::MAX && old(r).rem() == #[trigger] (varint(
                    rs.len() as u32,
                ) + gd_records_bytes(rs) + rest) ==> (match res {
                    Ok(g) => g.players@.len() == rs.len() && (forall|i: int|
                        0 <= i < rs.len() ==> (#[trigger] g.players@[i]).0 == rs[i].0
                            && pd_matches(g.players@[i].1, rs[i].1)) && final(r).rem() == rest,
                    Err(_) => false,
                }),
            forall|rs: Seq<(u8, PlayerData)>, rest: Seq<u8>|
                gd_each_wf(rs) && rs.len() <= u32::MAX && old(r).rem() == #[trigger] (varint(
                    rs.len() as u32,
                ) + gd_records_bytes(rs) + rest) ==> (match res {
                    Ok(g) => (forall|m: int|
                        0 <= m < g.players@.len() ==> (gd_last_of(
                            rs,
                            (#[trigger] g.players@[m]).0,
                        ) matches Some(d) && pd_matches(g.players@[m].1, d))) && (forall|k: int|
                        0 <= k < rs.len() ==> exists|m: int|
                            0 <= m < g.players@.len() && (#[trigger] g.players@[m]).0 == (
                            #[trigger] rs[k]).0)
                        && final(r).rem() == rest,
                    Err(_) => false,
                }),
    {
        proof {
            assert forall|rs: Seq<(u8, PlayerData)>, rest: Seq<u8>|
                gd_each_wf(rs) && rs.len() <= u32::MAX && old(r).rem() == #[trigger] (varint(
                    rs.len() as u32,
                ) + gd_records_bytes(rs) + rest) implies crate::codec::varint_size(old(r).rem())
                == Some(varint(rs.len() as u32).len() as int) && crate::codec::varint_value(
                old(r).rem(),
            ) == rs.len() as u32 && old(r).rem().skip(varint(rs.len() as u32).len() as int)
                == gd_records_bytes(rs) + rest by {
                crate::codec::lemma_varint_round_trip(rs.len() as u32, gd_records_bytes(rs) + rest);
                assert(old(r).rem() =~= varint(rs.len() as u32) + (gd_records_bytes(rs) + rest));
            }
        }
        let count = r.read_u32_encoded()?;
        let ghost mark = r.rem();
        let mut g = GameData { net_id, owner_id, players: Vec::new() };
        let mut i: u32 = 0;
        proof {
            assert forall|rs: Seq<(u8, PlayerData)>, rest: Seq<u8>|
                gd_each_wf(rs) && mark == #[trigger] (gd_records_bytes(rs) + rest) && rs.len()
                    == count implies (g.players@.len() == 0 && r.rem() == gd_records_bytes(
                rs.skip(0),
            ) + rest) by {
                assert(rs.skip(0) =~= rs);
            }
        }
        while i < count
            invariant
                r.wf(),
                i <= count,
                g.wf(),
                g.spec_net_id() == net_id && g.spec_owner_id() == owner_id,
                forall|rs: Seq<(u8, PlayerData)>, rest: Seq<u8>|
                    gd_each_wf(rs) && rs.len() <= u32::MAX && old(r).rem() == #[trigger] (
                    varint(rs.len() as u32) + gd_records_bytes(rs) + rest) ==> mark
                        == gd_records_bytes(rs) + rest && count == rs.len(),
                forall|rs: Seq<(u8, PlayerData)>, rest: Seq<u8>|
                    gd_each_wf(rs) && mark == #[trigger] (gd_records_bytes(rs) + rest) && rs.len()
                        == count ==> ({
                        &&& r.rem() == gd_records_bytes(rs.skip(i as int)) + rest
                        &&& forall|m: int|
                            0 <= m < g.players@.len() ==> (gd_last_of(
                                rs.take(i as int),
                                (#[trigger] g.players@[m]).0,
                            ) matches Some(d) && pd_matches(g.players@[m].1, d))
                        &&& forall|k: int|
                            0 <= k < i ==> exists|m: int|
                                0 <= m < g.players@.len() && (#[trigger] g.players@[m]).0 == (
                                #[trigger] rs[k]).0
                    }),
                forall|rs: Seq<(u8, PlayerData)>, rest: Seq<u8>|
                    gd_records_wf(rs) && mark == #[trigger] (gd_records_bytes(rs) + rest)
                        && rs.len() == count ==> (g.players@.len() == i && (forall|m: int|
                        0 <= m < i ==> (#[trigger] g.players@[m]).0 == rs[m].0 && pd_matches(
                            g.players@[m].1,
                            rs[m].1,
                        )) && r.rem() == gd_records_bytes(rs.skip(i as int)) + rest),
            decreases count - i,
        {
            proof {
                assert forall|rs: Seq<(u8, PlayerData)>, rest: Seq<u8>|
                    gd_each_wf(rs) && mark == #[trigger] (gd_records_bytes(rs) + rest)
                        && rs.len() == count implies r.rem() == seq![rs[i as int].0] + (
                rs[i as int].1.spec_ser() + (gd_records_bytes(rs.skip(i as int + 1)) + rest))
                    && r.rem().skip(1) == rs[i as int].1.spec_ser() + (gd_records_bytes(
                    rs.skip(i as int + 1),
                ) + rest) by {
                    lemma_gd_records_bytes_skip(rs, i as int);
                    assert(gd_records_bytes(rs.skip(i as int)) + rest =~= seq![rs[i as int].0] + (
                    rs[i as int].1.spec_ser() + (gd_records_bytes(rs.skip(i as int + 1))
                        + rest)));
                    assert((seq![rs[i as int].0] + (rs[i as int].1.spec_ser() + (gd_records_bytes(
                        rs.skip(i as int + 1),
                    ) + rest))).skip(1) =~= rs[i as int].1.spec_ser() + (gd_records_bytes(
                        rs.skip(i as int + 1),
                    ) + rest));
                }
            }
            let id = r.read_u8()?;
            let data = PlayerData::deserialize(r)?;
            let ghost pre = g.players@;
            g.insert_player(id, data);
            proof {
                assert forall|rs: Seq<(u8, PlayerData)>, rest: Seq<u8>|
                    gd_records_wf(rs) && mark == #[trigger] (gd_records_bytes(rs) + rest)
                        && rs.len() == count implies (g.players@.len() == i + 1 && (forall|m: int|
                        0 <= m < i + 1 ==> (#[trigger] g.players@[m]).0 == rs[m].0 && pd_matches(
                            g.players@[m].1,
                            rs[m].1,
                        )) && r.rem() == gd_records_bytes(rs.skip(i as int + 1)) + rest) by {
                    assert(id == rs[i as int].0);
                    assert forall|j: int| 0 <= j < pre.len() implies (#[trigger] pre[j]).0
                        != id by {
                        assert(pre[j].0 == rs[j].0);
                        assert(rs[j].0 != rs[i as int].0);
                    }
                    assert(g.players@ == pre.push((id, data)));
                    assert(rs[i as int].1.spec_ser() + (gd_records_bytes(rs.skip(i as int + 1))
                        + rest) =~= rs[i as int].1.spec_ser() + (gd_records_bytes(
                        rs.skip(i as int + 1),
                    ) + rest));
                }
                assert forall|rs: Seq<(u8, PlayerData)>, rest: Seq<u8>|
                    gd_each_wf(rs) && mark == #[trigger] (gd_records_bytes(rs) + rest)
                        && rs.len() == count implies ({
                    &&& r.rem() == gd_records_bytes(rs.skip(i as int + 1)) + rest
                    &&& forall|m: int|
                        0 <= m < g.players@.len() ==> (gd_last_of(
                            rs.take(i as int + 1),
                            (#[trigger] g.players@[m]).0,
                        ) matches Some(d) && pd_matches(g.players@[m].1, d))
                    &&& forall|k: int|
                        0 <= k < i + 1 ==> exists|m: int|
                            0 <= m < g.players@.len() && (#[trigger] g.players@[m]).0 == (
                            #[trigger] rs[k]).0
                }) by {
                    assert(id == rs[i as int].0);
                    assert(rs[i as int].1.spec_ser() + (gd_records_bytes(rs.skip(i as int + 1))
                        + rest) =~= rs[i as int].1.spec_ser() + (gd_records_bytes(
                        rs.skip(i as int + 1),
                    ) + rest));
                    assert(pd_matches(data, rs[i as int].1));
                    if !(exists|j: int| 0 <= j < pre.len() && (#[trigger] pre[j]).0 == id) {
                        assert(g.players@ == pre.push((id, data)));
                    }
                    lemma_gd_insert_step(rs, i as int, pre, g.players@, data);
                }
            }
            i = i + 1;
        }
        proof {
            assert forall|rs: Seq<(u8, PlayerData)>, rest: Seq<u8>|
                gd_each_wf(rs) && mark == #[trigger] (gd_records_bytes(rs) + rest) && rs.len()
                    == count implies r.rem() == rest && rs.take(rs.len() as int) == rs by {
                assert(rs.skip(rs.len() as int) =~= Seq::<(u8, PlayerData)>::empty());
                assert(gd_records_bytes(rs.skip(rs.len() as int)) + rest =~= rest);
                assert(rs.take(rs.len() as int) =~= rs);
            }
        }
        Ok(g)
    }

    /// Inserts a record, replacing the one with the same player id if any.
    /// Distinctness of player ids is preserved.
    pub fn insert_player(&mut self, id: u8, data: PlayerData)
        ensures
            old(self).wf() ==> final(self).wf(),
            (forall|j: int| 0 <= j < old(self).players@.len() ==> (#[trigger] old(self).players@[j]).0 != id) ==> final(self).players@ == old(self).players@.push((id, data)),
            final(self).spec_net_id() == old(self).spec_net_id(),
            final(self).spec_owner_id() == old(self).spec_owner_id(),
            exists|i: int|
                0 <= i < final(self).players@.len() && (#[trigger] final(self).players@[i]).0 == id
                    && final(self).players@[i].1 == data,
            (old(self).wf() && (exists|j: int|
                0 <= j < old(self).players@.len() && (#[trigger] old(self).players@[j]).0
                    == id)) ==> ({
                &&& final(self).players@.len() == old(self).players@.len()
                &&& forall|j: int|
                    0 <= j < old(self).players@.len() ==> (#[trigger] final(self).players@[j]).0
                        == old(self).players@[j].0
                &&& forall|j: int|
                    0 <= j < old(self).players@.len() && (#[trigger] old(self).players@[j]).0 != id
                        ==> final(self).players@[j].1 == old(self).players@[j].1
                &&& forall|j: int|
                    0 <= j < old(self).players@.len() && (#[trigger] old(self).players@[j]).0 == id
                        ==> final(self).players@[j].1 == data
            }),
    {
        let n = self.players.len();
        let mut i: usize = 0;
        while i < n
            invariant
                n == self.players@.len(),
                i <= n,
                *self == *old(self),
                forall|j: int| 0 <= j < i ==> (#[trigger] self.players@[j]).0 != id,
            decreases n - i,
        {
            if self.players[i].0 == id {
                crate::transport::set_vec_elem(&mut self.players, i, (id, data));
                proof {
                    assert(final(self).players@[i as int].0 == id);
                    if old(self).wf() {
                        assert forall|a: int, b: int|
                            0 <= a < b < self.players@.len() implies (
                        #[trigger] self.players@[a]).0 != (#[trigger] self.players@[b]).0 by {
                            assert(old(self).players@[a].0 != old(self).players@[b].0);
                        }
                        assert forall|j: int|
                            0 <= j < old(self).players@.len() && (
                        #[trigger] old(self).players@[j]).0 == id implies self.players@[j].1
                            == data by {
                            if j != i {
                                assert(old(self).players@[i as int].0 == id);
                            }
                        }
                    }
                }
                return ;
            }
            i = i + 1;
        }
        self.players.push((id, data));
        proof {
            assert(final(self).players@[final(self).players@.len() - 1].0 == id);
            if old(self).wf() {
                assert forall|a: int, b: int|
                    0 <= a < b < self.players@.len() implies (#[trigger] self.players@[a]).0 != (
                #[trigger] self.players@[b]).0 by {
                    if b < self.players@.len() - 1 {
                        assert(old(self).players@[a].0 != old(self).players@[b].0);
                    } else {
                        assert(self.players@[a].0 != id);
                    }
                }
            }
        }
    }

    /// Finds the record of a player id.
    pub fn get_player(&self, id: u8) -> (res: Option<&PlayerData>)
        ensures
            match res {
                Some(p) => exists|i: int|
                    0 <= i < self.players@.len() && (#[trigger] self.players@[i]).0 == id
                        && self.players@[i].1 == *p,
                None => forall|i: int|
                    0 <= i < self.players@.len() ==> (#[trigger] self.players@[i]).0 != id,
            },
    {
        let n = self.players.len();
        let mut i: usize = 0;
        while i < n
            invariant
                n == self.players@.len(),
                i <= n,
                forall|j: int| 0 <= j < i ==> (#[trigger] self.players@[j]).0 != id,
            decreases n - i,
        {
            if self.players[i].0 == id {
                return Some(&self.players[i].1);
            }
            i = i + 1;
        }
        None
    }

    /// The RPC that batches every record marked dirty, each wrapped in a
    /// message tagged with its player id, in registry order. It fails
    /// exactly when some dirty record cannot travel.
    #[verifier::rlimit(100)]
    pub fn rpc_update_player_info(&mut self) -> (r: Result<GameInfo, CodecError>)
        ensures
            *final(self) == *old(self),
            r is Ok <==> dirty_records_fit(old(self).players@),
            r matches Ok(g) ==> g matches GameInfo::RPC { net_id, call_id, data } && net_id == old(self).spec_net_id() && call_id == RPC_UPDATE_PLAYER_INFO && data@ == dirty_records_bytes(
                old(self).players@,
            ),
    {
        let mut w = PacketWriter::new();
        let n = self.players.len();
        let mut i: usize = 0;
        while i < n
            invariant
                n == self.players@.len(),
                i <= n,
                *self == *old(self),
                w.wf(),
                w.starts() == Seq::<usize>::empty(),
                w.out() == dirty_records_bytes(self.players@.take(i as int)),
                forall|j: int|
                    0 <= j < i && (#[trigger] self.players@[j]).1.dirty ==> self.players@[j].1.wf()
                        && self.players@[j].1.spec_ser().len() <= 0xFFFF,
            decreases n - i,
        {
            if self.players[i].1.dirty {
                let record = &self.players[i].1;
                if !player_record_fits(record) {
                    return Err(CodecError::UnexpectedEof);
                }
                let mut pw = PacketWriter::new();
                record.serialize(&mut pw);
                let body = pw.finish();
                proof {
                    assert(body@ =~= self.players@[i as int].1.spec_ser());
                }
                if body.len() > 0xFFFF {
                    return Err(CodecError::UnexpectedEof);
                }
                w.write_message(self.players[i].0, body.as_slice());
            }
            proof {
                lemma_dirty_records_take_step(self.players@, i as int);
                assert(w.out() =~= dirty_records_bytes(self.players@.take(i as int + 1)));
            }
            i = i + 1;
        }
        proof {
            assert(self.players@.take(self.players@.len() as int) =~= self.players@);
        }
        Ok(
            GameInfo::RPC {
                net_id: self.net_id,
                call_id: RPC_UPDATE_PLAYER_INFO,
                data: Data::from_bytes(w.finish()),
            },
        )
    }

    /// Applies an update-data payload: a one-byte count of player records,
    /// inserted or replaced by id.
    pub fn update_data(&mut self, r: &mut PacketReader) -> (res: Result<(), CodecError>)
        requires
            old(r).wf(),
        ensures
            final(r).wf(),
            old(self).wf() ==> final(self).wf(),
            final(self).spec_net_id() == old(self).spec_net_id(),
            final(self).spec_owner_id() == old(self).spec_owner_id(),
    {
        let count = r.read_u8()?;
        let mut i: u8 = 0;
        while i < count
            invariant
                r.wf(),
                old(self).wf() ==> self.wf(),
                self.spec_net_id() == old(self).spec_net_id(),
                self.spec_owner_id() == old(self).spec_owner_id(),
            decreases count - i,
        {
            let player_id = r.read_u8()?;
            let data = PlayerData::deserialize(r)?;
            self.insert_player(player_id, data);
            i = i + 1;
        }
        Ok(())
    }

    /// A batched player-info RPC carries messages tagged by player id until
    /// the payload is exhausted; each inserts or replaces that record. Any
    /// other call id is ignored unread.
    pub fn handle_rpc(&mut self, call_id: u8, r: &mut PacketReader) -> (res: Result<
        RPCCallback,
        CodecError,
    >)
        requires
            old(r).wf(),
        ensures
            final(r).wf(),
            old(self).wf() ==> final(self).wf(),
            final(self).spec_net_id() == old(self).spec_net_id(),
            final(self).spec_owner_id() == old(self).spec_owner_id(),
            res matches Ok(cb) ==> cb is Nothing,
            call_id != RPC_UPDATE_PLAYER_INFO ==> *final(self) == *old(self) && *final(r) == *old(
                r,
            ),
    {
        if call_id == RPC_UPDATE_PLAYER_INFO {
            while r.remaining() > 0
                invariant
                    r.wf(),
                    old(self).wf() ==> self.wf(),
                    call_id == RPC_UPDATE_PLAYER_INFO,
                    self.spec_net_id() == old(self).spec_net_id(),
                    self.spec_owner_id() == old(self).spec_owner_id(),
                decreases r.rem().len(),
            {
                let (tag, mut inner) = r.read_message()?;
                let data = PlayerData::deserialize(&mut inner)?;
                self.insert_player(tag, data);
            }
            Ok(RPCCallback::Nothing)
        } else {
            Ok(RPCCallback::Nothing)
        }
    }
}

/// Whether a player record satisfies the wire bounds.
fn player_record_fits(p: &PlayerData) -> (r: bool)
    ensures
        r == p.wf(),
{
    let bytes: &[u8] = p.name.as_str().as_bytes();
    bytes.len() <= u32::MAX as usize && p.tasks.len() <= 255
}

/// The vote-ban system; only its leading flag is understood, and nothing of
/// it is tracked beyond creation.
#[derive(Debug)]
pub struct VoteBanSystem {
    pub net_id: u32,
    pub owner_id: i32,
    pub any_votes: bool,
}

impl VoteBanSystem {
    pub fn owner_id(&self) -> (r: i32)
        ensures
            r == self.spec_owner_id(),
    {
        self.owner_id
    }

    pub fn net_id(&self) -> (r: u32)
        ensures
            r == self.spec_net_id(),
    {
        self.net_id
    }

    pub open spec fn spec_owner_id(&self) -> i32 {
        self.owner_id
    }

    pub open spec fn spec_net_id(&self) -> u32 {
        self.net_id
    }

    /// Reads a vote-ban initializer, which is one update payload.
    pub fn initialize(net_id: u32, owner_id: i32, r: &mut PacketReader) -> (res: Result<
        VoteBanSystem,
        CodecError,
    >)
        requires
            old(r).wf(),
        ensures
            final(r).wf(),
            match res {
                Ok(v) => v.spec_net_id() == net_id && v.spec_owner_id() == owner_id && old(r).rem().len() >= 1 && old(r).rem()[0] <= 1 && v.any_votes == (old(r).rem()[0] == 1)
                    && final(r).rem() == old(r).rem().skip(1),
                Err(e) => (e == CodecError::UnexpectedEof <==> old(r).rem().len() == 0) && (e
                    == CodecError::InvalidDiscriminant <==> old(r).rem().len() >= 1 && old(r).rem()[0] > 1),
            },
    {
        let mut obj = VoteBanSystem { net_id, owner_id, any_votes: false };
        obj.update_data(r)?;
        Ok(obj)
    }

    /// Applies an update-data payload: one flag byte saying whether any
    /// votes follow; the rest of the layout is unknown and left unread.
    pub fn update_data(&mut self, r: &mut PacketReader) -> (res: Result<(), CodecError>)
        requires
            old(r).wf(),
        ensures
            final(r).wf(),
            final(self).spec_net_id() == old(self).spec_net_id(),
            final(self).spec_owner_id() == old(self).spec_owner_id(),
            match res {
                Ok(_) => old(r).rem().len() >= 1 && old(r).rem()[0] <= 1 && final(self).any_votes
                    == (old(r).rem()[0] == 1) && final(r).rem() == old(r).rem().skip(1),
                Err(e) => (e == CodecError::UnexpectedEof <==> old(r).rem().len() == 0) && (e
                    == CodecError::InvalidDiscriminant <==> old(r).rem().len() >= 1 && old(
                    r,
                ).rem()[0] > 1) && final(self).any_votes == old(self).any_votes,
            },
    {
        let any_votes = r.read_bool()?;
        self.any_votes = any_votes;
        Ok(())
    }

    /// The vote-ban system answers no RPC this client understands.
    pub fn handle_rpc(&mut self, _call_id: u8, _r: &mut PacketReader) -> (res: Result<
        RPCCallback,
        CodecError,
    >)
        ensures
            *final(self) == *old(self),
            res matches Ok(cb) ==> cb is Nothing,
    {
        Ok(RPCCallback::Nothing)
    }
}

} // verus!
