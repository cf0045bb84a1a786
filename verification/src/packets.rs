//! Session-level packets: the tagged messages inside transport frames.
//!
//! A frame body holds zero or more top-level messages. Each message's tag
//! names a packet kind; `GameInfo` messages in turn wrap replication events
//! for the networked objects.

use vstd::prelude::*;

verus! {

use vstd::string::StringSliceAdditionalSpecFns;
use vstd::utf8::{decode_utf8, encode_utf8, valid_utf8};
use crate::codec::{
    le32, message_bytes, parse_lp_bytes, parse_message, varint, varint_size, varint_value,
    CodecError, PacketReader, PacketWriter,
};
use crate::netobjects::{
    varints_bytes, GameData, Lobby, PlayerControl, PlayerPhysics, PlayerTransform, VoteBanSystem,
    World,
};
use crate::objects::{Address, GameId, GameListing, GameOptions, ServerInfo, LANGUAGE_MASK};

/// A serialized payload carried inside a packet.
#[derive(Debug, Clone, PartialEq)]
pub enum Data {
    Bytes(Vec<u8>),
}

impl View for Data {
    type V = Seq<u8>;

    open spec fn view(&self) -> Seq<u8> {
        match self {
            Data::Bytes(b) => b@,
        }
    }
}

impl Data {
    pub fn from_bytes(b: Vec<u8>) -> (r: Data)
        ensures
            r@ == b@,
    {
        Data::Bytes(b)
    }

    pub fn serialize(&self, w: &mut PacketWriter)
        requires
            old(w).wf(),
        ensures
            final(w).wf(),
            final(w).out() == old(w).out() + self@,
            final(w).starts() == old(w).starts(),
    {
        match self {
            Data::Bytes(b) => w.write_bytes_raw(b.as_slice()),
        }
    }

    pub fn as_bytes(&self) -> (r: &Vec<u8>)
        ensures
            r@ == self@,
    {
        match self {
            Data::Bytes(b) => b,
        }
    }
}

/// The tag byte of each top-level packet kind.
#[derive(Debug, Copy, Clone)]
pub enum PacketType {
    HostingGame,
    GameJoinDisconnect,
    GameStarted,
    PlayerLeft,
    GameInfo,
    GameInfoTo,
    JoinedGame,
    AlterGameInfo,
    KickPlayer,
    ChangeServer,
    ServerList,
    GameList,
}

impl PacketType {
    pub open spec fn spec_tag(self) -> u8 {
        match self {
            PacketType::HostingGame => 0x00,
            PacketType::GameJoinDisconnect => 0x01,
            PacketType::GameStarted => 0x02,
            PacketType::PlayerLeft => 0x04,
            PacketType::GameInfo => 0x05,
            PacketType::GameInfoTo => 0x06,
            PacketType::JoinedGame => 0x07,
            PacketType::AlterGameInfo => 0x0a,
            PacketType::KickPlayer => 0x0b,
            PacketType::ChangeServer => 0x0d,
            PacketType::ServerList => 0x0e,
            PacketType::GameList => 0x10,
        }
    }

    pub fn tag(self) -> (t: u8)
        ensures
            t == self.spec_tag(),
    {
        match self {
            PacketType::HostingGame => 0x00,
            PacketType::GameJoinDisconnect => 0x01,
            PacketType::GameStarted => 0x02,
            PacketType::PlayerLeft => 0x04,
            PacketType::GameInfo => 0x05,
            PacketType::GameInfoTo => 0x06,
            PacketType::JoinedGame => 0x07,
            PacketType::AlterGameInfo => 0x0a,
            PacketType::KickPlayer => 0x0b,
            PacketType::ChangeServer => 0x0d,
            PacketType::ServerList => 0x0e,
            PacketType::GameList => 0x10,
        }
    }

    /// Whether a tag byte names a packet kind.
    pub open spec fn spec_known(t: u8) -> bool {
        t == 0x00 || t == 0x01 || t == 0x02 || t == 0x04 || t == 0x05 || t == 0x06 || t == 0x07
            || t == 0x0a || t == 0x0b || t == 0x0d || t == 0x0e || t == 0x10
    }

    pub fn from_u8(t: u8) -> (r: Option<PacketType>)
        ensures
            match r {
                Some(k) => k.spec_tag() == t && PacketType::spec_known(t),
                None => !PacketType::spec_known(t),
            },
    {
        match t {
            0x00 => Some(PacketType::HostingGame),
            0x01 => Some(PacketType::GameJoinDisconnect),
            0x02 => Some(PacketType::GameStarted),
            0x04 => Some(PacketType::PlayerLeft),
            0x05 => Some(PacketType::GameInfo),
            0x06 => Some(PacketType::GameInfoTo),
            0x07 => Some(PacketType::JoinedGame),
            0x0a => Some(PacketType::AlterGameInfo),
            0x0b => Some(PacketType::KickPlayer),
            0x0d => Some(PacketType::ChangeServer),
            0x0e => Some(PacketType::ServerList),
            0x10 => Some(PacketType::GameList),
            _ => None,
        }
    }
}

/// Why a peer or the server ended a connection.
#[derive(Debug, Clone, PartialEq)]
pub enum DisconnectReason {
    ExitGame,
    GameFull,
    GameStarted,
    GameNotFound,
    IncorrectVersion,
    Banned,
    Kicked,
    Custom { message: String },
    Destroy,
    Error,
    IncorrectGame,
    ServerRequest,
    ServerFull,
    IntentionalLeaving,
    FocusLostBackground,
    FocusLost,
    NewConnection,
}

impl DisconnectReason {
    /// The code of each reason on the wire.
    pub open spec fn spec_code(&self) -> int {
        match self {
            DisconnectReason::ExitGame => 0,
            DisconnectReason::GameFull => 1,
            DisconnectReason::GameStarted => 2,
            DisconnectReason::GameNotFound => 3,
            DisconnectReason::IncorrectVersion => 5,
            DisconnectReason::Banned => 6,
            DisconnectReason::Kicked => 7,
            DisconnectReason::Custom { .. } => 8,
            DisconnectReason::Destroy => 16,
            DisconnectReason::Error => 17,
            DisconnectReason::IncorrectGame => 18,
            DisconnectReason::ServerRequest => 19,
            DisconnectReason::ServerFull => 20,
            DisconnectReason::FocusLostBackground => 207,
            DisconnectReason::IntentionalLeaving => 208,
            DisconnectReason::FocusLost => 209,
            DisconnectReason::NewConnection => 210,
        }
    }

    /// Whether a value names a disconnect reason.
    pub open spec fn spec_known(value: int) -> bool {
        value == 0 || value == 1 || value == 2 || value == 3 || value == 5 || value == 6 || value
            == 7 || value == 8 || value == 16 || value == 17 || value == 18 || value == 19 || value
            == 20 || value == 207 || value == 208 || value == 209 || value == 210
    }

    /// Maps a reason code to its reason; code 8 reads a custom message from
    /// what follows. An unlisted code is an invalid discriminator.
    pub fn from_value_and_reader(value: i32, r: &mut PacketReader) -> (res: Result<
        DisconnectReason,
        CodecError,
    >)
        requires
            old(r).wf(),
        ensures
            final(r).wf(),
            (DisconnectReason::spec_known(value as int) && (value != 8 || (match parse_lp_bytes(
                old(r).rem(),
            ) {
                Some((p, _)) => valid_utf8(p),
                None => false,
            }))) ==> res is Ok,
            match res {
                Ok(reason) => reason.spec_code() == value && DisconnectReason::spec_known(
                    value as int,
                ) && (value != 8 ==> *final(r) == *old(r)) && (value == 8 ==> match parse_lp_bytes(
                    old(r).rem(),
                ) {
                    Some((p, c)) => valid_utf8(p) && (reason matches DisconnectReason::Custom {
                        message,
                    } && message@ == decode_utf8(p)) && final(r).rem() == old(r).rem().skip(c),
                    None => false,
                }),
                Err(e) => {
                    &&& (!DisconnectReason::spec_known(value as int) ==> e
                        == CodecError::InvalidDiscriminant && *final(r) == *old(r))
                    &&& (DisconnectReason::spec_known(value as int) ==> value == 8 && e
                        != CodecError::InvalidDiscriminant && (match parse_lp_bytes(old(r).rem()) {
                        Some((p, _)) => !valid_utf8(p),
                        None => true,
                    }))
                },
            },
    {
        match value {
            0 => Ok(DisconnectReason::ExitGame),
            1 => Ok(DisconnectReason::GameFull),
            2 => Ok(DisconnectReason::GameStarted),
            3 => Ok(DisconnectReason::GameNotFound),
            5 => Ok(DisconnectReason::IncorrectVersion),
            6 => Ok(DisconnectReason::Banned),
            7 => Ok(DisconnectReason::Kicked),
            8 => {
                let message = r.read_string()?;
                Ok(DisconnectReason::Custom { message })
            },
            16 => Ok(DisconnectReason::Destroy),
            17 => Ok(DisconnectReason::Error),
            18 => Ok(DisconnectReason::IncorrectGame),
            19 => Ok(DisconnectReason::ServerRequest),
            20 => Ok(DisconnectReason::ServerFull),
            207 => Ok(DisconnectReason::FocusLostBackground),
            208 => Ok(DisconnectReason::IntentionalLeaving),
            209 => Ok(DisconnectReason::FocusLost),
            210 => Ok(DisconnectReason::NewConnection),
            _ => Err(CodecError::InvalidDiscriminant),
        }
    }
}

/// One message with a raw payload: the frame most sends are wrapped in.
#[derive(Debug, Clone, PartialEq)]
pub struct GenericMessage {
    pub tag: u8,
    pub data: Vec<u8>,
}

impl GenericMessage {
    pub fn serialize(&self, w: &mut PacketWriter)
        requires
            old(w).wf(),
            self.data@.len() <= 0xFFFF,
        ensures
            final(w).wf(),
            final(w).out() == old(w).out() + message_bytes(self.tag, self.data@),
            final(w).starts() == old(w).starts(),
    {
        w.write_message(self.tag, self.data.as_slice());
    }

    /// The message as a standalone byte vector.
    pub fn serialize_bytes(&self) -> (r: Vec<u8>)
        requires
            self.data@.len() <= 0xFFFF,
        ensures
            r@ == message_bytes(self.tag, self.data@),
    {
        let mut w = PacketWriter::new();
        self.serialize(&mut w);
        proof {
            assert(Seq::<u8>::empty() + message_bytes(self.tag, self.data@) =~= message_bytes(
                self.tag,
                self.data@,
            ));
        }
        w.finish()
    }
}

/// How a parsed replication event relates to the tag and payload of the
/// message it was read from; the event reader's per-variant clauses, named
/// so that whole-buffer readers can state them per element.
pub open spec fn game_info_rel(g: GameInfo, tag: u8, body: Seq<u8>) -> bool {
    &&& (g matches GameInfo::UpdateData { net_id, data } ==> tag == 1 && (match varint_size(
        body,
    ) {
        Some(n) => net_id == varint_value(body) && data@ == body.skip(n),
        None => false,
    }))
    &&& (g matches GameInfo::RPC { net_id, call_id, data } ==> tag == 2 && (match varint_size(
        body,
    ) {
        Some(n) => net_id == varint_value(body) && body.len() >= n + 1 && call_id == body[n]
            && data@ == body.skip(n + 1),
        None => false,
    }))
    &&& (g matches GameInfo::Destroy { net_id } ==> tag == 5 && (match varint_size(body) {
        Some(n) => net_id == varint_value(body),
        None => false,
    }))
    &&& (g matches GameInfo::ClientReady { client_id } ==> tag == 7 && (match varint_size(body) {
        Some(n) => client_id as u32 == varint_value(body),
        None => false,
    }))
    &&& (g matches GameInfo::ChangeScene { client_id, scene } ==> tag == 6 && (match varint_size(
        body,
    ) {
        Some(n) => client_id as u32 == varint_value(body) && (match parse_lp_bytes(body.skip(n)) {
            Some((p, _)) => valid_utf8(p) && scene@ == decode_utf8(p),
            None => false,
        }),
        None => false,
    }))
    &&& (g matches GameInfo::CreateFromPrefab { .. } ==> tag == 4)
    &&& (g is Unknown ==> tag != 1 && tag != 2 && tag != 4 && tag != 5 && tag != 6 && tag != 7)
}

/// One replication event inside a `GameInfo` packet.
#[derive(Debug)]
pub enum GameInfo {
    UpdateData { net_id: u32, data: Data },
    RPC { net_id: u32, call_id: u8, data: Data },
    Destroy { net_id: u32 },
    ChangeScene { client_id: i32, scene: String },
    ClientReady { client_id: i32 },
    CreateFromPrefab { spawn_flags: u8, prefab: Prefab },
    Unknown,
}

/// The tag byte of each replication event kind.
#[derive(Debug, Copy, Clone)]
pub enum GameInfoType {
    UpdateData,
    RPC,
    CreateFromPrefab,
    Destroy,
    ChangeScene,
    ClientReady,
}

impl GameInfoType {
    pub open spec fn spec_tag(self) -> u8 {
        match self {
            GameInfoType::UpdateData => 1,
            GameInfoType::RPC => 2,
            GameInfoType::CreateFromPrefab => 4,
            GameInfoType::Destroy => 5,
            GameInfoType::ChangeScene => 6,
            GameInfoType::ClientReady => 7,
        }
    }

    pub fn tag(self) -> (t: u8)
        ensures
            t == self.spec_tag(),
    {
        match self {
            GameInfoType::UpdateData => 1,
            GameInfoType::RPC => 2,
            GameInfoType::CreateFromPrefab => 4,
            GameInfoType::Destroy => 5,
            GameInfoType::ChangeScene => 6,
            GameInfoType::ClientReady => 7,
        }
    }
}

/// The prefab ids the server may spawn.
#[derive(Debug, Copy, Clone)]
pub enum PrefabType {
    World,
    MeetingHub,
    Lobby,
    GameData,
    Player,
    HeadQuarters,
}

impl PrefabType {
    pub open spec fn spec_id(self) -> u32 {
        match self {
            PrefabType::World => 0,
            PrefabType::MeetingHub => 1,
            PrefabType::Lobby => 2,
            PrefabType::GameData => 3,
            PrefabType::Player => 4,
            PrefabType::HeadQuarters => 5,
        }
    }

    pub fn from_u32(id: u32) -> (r: Option<PrefabType>)
        ensures
            match r {
                Some(k) => k.spec_id() == id,
                None => id > 5,
            },
    {
        match id {
            0 => Some(PrefabType::World),
            1 => Some(PrefabType::MeetingHub),
            2 => Some(PrefabType::Lobby),
            3 => Some(PrefabType::GameData),
            4 => Some(PrefabType::Player),
            5 => Some(PrefabType::HeadQuarters),
            _ => None,
        }
    }
}

/// A spawned bundle of networked objects.
#[derive(Debug)]
pub enum Prefab {
    World(World),
    Player(PlayerControl, PlayerPhysics, PlayerTransform),
    Lobby(Lobby),
    GameData(GameData, VoteBanSystem),
    Unknown,
}

impl GameInfo {
    /// Whether this event kind has a writer; inbound-only kinds do not.
    pub open spec fn spec_serializable(&self) -> bool {
        match self {
            GameInfo::RPC { .. } => true,
            GameInfo::Destroy { .. } => true,
            GameInfo::ChangeScene { .. } => true,
            GameInfo::ClientReady { .. } => true,
            _ => false,
        }
    }

    /// The body bytes of a serializable event, before message framing.
    pub open spec fn spec_body(&self) -> Seq<u8> {
        match self {
            GameInfo::RPC { net_id, call_id, data } => varint(*net_id) + seq![*call_id] + data@,
            GameInfo::Destroy { net_id } => varint(*net_id),
            GameInfo::ChangeScene { client_id, scene } => varint(*client_id as u32) + varint(
                encode_utf8(scene@).len() as u32,
            ) + encode_utf8(scene@),
            GameInfo::ClientReady { client_id } => varint(*client_id as u32),
            _ => Seq::<u8>::empty(),
        }
    }

    /// The message tag of a serializable event.
    pub open spec fn spec_tag(&self) -> u8 {
        match self {
            GameInfo::UpdateData { .. } => 1,
            GameInfo::RPC { .. } => 2,
            GameInfo::CreateFromPrefab { .. } => 4,
            GameInfo::Destroy { .. } => 5,
            GameInfo::ChangeScene { .. } => 6,
            GameInfo::ClientReady { .. } => 7,
            GameInfo::Unknown => 0,
        }
    }

    /// Writes the event as one message: its tag, then its body.
    pub fn serialize(&self, w: &mut PacketWriter)
        requires
            old(w).wf(),
            self.spec_serializable(),
            self.spec_body().len() <= 0xFFFF,
            (self matches GameInfo::ChangeScene { scene, .. } ==> encode_utf8(scene@).len()
                <= u32::MAX),
        ensures
            final(w).wf(),
            final(w).out() == old(w).out() + message_bytes(self.spec_tag(), self.spec_body()),
            final(w).starts() == old(w).starts(),
    {
        match self {
            GameInfo::ChangeScene { client_id, scene } => {
                w.start_message(GameInfoType::ChangeScene.tag());
                w.write_i32_encoded(*client_id);
                w.write_string(scene.as_str());
                w.end_message();
            },
            GameInfo::ClientReady { client_id } => {
                w.start_message(GameInfoType::ClientReady.tag());
                w.write_i32_encoded(*client_id);
                w.end_message();
            },
            GameInfo::RPC { net_id, call_id, data } => {
                w.start_message(GameInfoType::RPC.tag());
                w.write_u32_encoded(*net_id);
                w.write_u8(*call_id);
                data.serialize(w);
                w.end_message();
            },
            GameInfo::Destroy { net_id } => {
                w.start_message(GameInfoType::Destroy.tag());
                w.write_u32_encoded(*net_id);
                w.end_message();
            },
            _ => {
                proof {
                    assert(false);
                }
            },
        }
        proof {
            assert(final(w).out() =~= old(w).out() + message_bytes(
                self.spec_tag(),
                self.spec_body(),
            ));
        }
    }

    /// Reads one replication event from one message. The spawned contents
    /// of a `CreateFromPrefab` are read by each object's initializer.
    pub fn deserialize(r: &mut PacketReader) -> (res: Result<GameInfo, CodecError>)
        requires
            old(r).wf(),
        ensures
            final(r).wf(),
            match res {
                Ok(g) => match parse_message(old(r).rem()) {
                    Some((tag, body)) => {
                        &&& final(r).rem() == old(r).rem().skip(3 + body.len() as int)
                        &&& (g matches GameInfo::UpdateData { net_id, data } ==> tag == 1 && (
                        match varint_size(body) {
                            Some(n) => net_id == varint_value(body) && data@ == body.skip(n),
                            None => false,
                        }))
                        &&& (g matches GameInfo::RPC { net_id, call_id, data } ==> tag == 2 && (
                        match varint_size(body) {
                            Some(n) => net_id == varint_value(body) && body.len() >= n + 1
                                && call_id == body[n] && data@ == body.skip(n + 1),
                            None => false,
                        }))
                        &&& (g matches GameInfo::Destroy { net_id } ==> tag == 5 && (
                        match varint_size(body) {
                            Some(n) => net_id == varint_value(body),
                            None => false,
                        }))
                        &&& (g matches GameInfo::ClientReady { client_id } ==> tag == 7 && (
                        match varint_size(body) {
                            Some(n) => client_id as u32 == varint_value(body),
                            None => false,
                        }))
                        &&& (g matches GameInfo::ChangeScene { client_id, scene } ==> tag == 6 && (
                        match varint_size(body) {
                            Some(n) => client_id as u32 == varint_value(body) && (
                            match parse_lp_bytes(body.skip(n)) {
                                Some((p, _)) => valid_utf8(p) && scene@ == decode_utf8(p),
                                None => false,
                            }),
                            None => false,
                        }))
                        &&& (g matches GameInfo::CreateFromPrefab { .. } ==> tag == 4)
                        &&& (g is Unknown ==> tag != 1 && tag != 2 && tag != 4 && tag != 5 && tag
                            != 6 && tag != 7)
                    },
                    None => false,
                },
                Err(_) => true,
            },
            match parse_message(old(r).rem()) {
                Some((tag, body)) => {
                    &&& (tag != 1 && tag != 2 && tag != 4 && tag != 5 && tag != 6 && tag != 7
                        ==> (res matches Ok(g) && g is Unknown))
                    &&& ((tag == 1 || tag == 5 || tag == 7) && varint_size(body) is Some
                        ==> res is Ok)
                    &&& (tag == 2 && (match varint_size(body) {
                        Some(n) => body.len() >= n + 1,
                        None => false,
                    }) ==> res is Ok)
                    &&& (tag == 6 && (match varint_size(body) {
                        Some(n) => (match parse_lp_bytes(body.skip(n)) {
                            Some((p, _)) => valid_utf8(p),
                            None => false,
                        }),
                        None => false,
                    }) ==> res is Ok)
                },
                None => res == Err::<GameInfo, CodecError>(CodecError::UnexpectedEof),
            },
    {
        let (tag, mut body) = r.read_message()?;
        proof {
            crate::codec::lemma_varint_size_bounds(body.rem());
        }
        match tag {
            1 => {
                let net_id = body.read_u32_encoded()?;
                let data = body.remaining_bytes();
                Ok(GameInfo::UpdateData { net_id, data: Data::from_bytes(data) })
            },
            2 => {
                let net_id = body.read_u32_encoded()?;
                let call_id = body.read_u8()?;
                let data = body.remaining_bytes();
                proof {
                    let b = old(r).rem();
                    let p = parse_message(b).unwrap().1;
                    let n = varint_size(p).unwrap();
                    crate::codec::lemma_varint_size_bounds(p);
                    if p.len() > n {
                        assert(p.skip(n)[0] == p[n]);
                    }
                    assert(p.skip(n).skip(1) =~= p.skip(n + 1));
                }
                Ok(GameInfo::RPC { net_id, call_id, data: Data::from_bytes(data) })
            },
            4 => {
                let prefab_id = body.read_u32_encoded()?;
                let owner_id = body.read_i32_encoded()?;
                let spawn_flags = body.read_u8()?;
                let num_children = body.read_u32_encoded()?;
                let prefab = read_prefab(&mut body, prefab_id, owner_id, num_children)?;
                Ok(GameInfo::CreateFromPrefab { spawn_flags, prefab })
            },
            5 => {
                let net_id = body.read_u32_encoded()?;
                Ok(GameInfo::Destroy { net_id })
            },
            6 => {
                let client_id = body.read_i32_encoded()?;
                let scene = body.read_string()?;
                Ok(GameInfo::ChangeScene { client_id, scene })
            },
            7 => {
                let client_id = body.read_i32_encoded()?;
                Ok(GameInfo::ClientReady { client_id })
            },
            _ => Ok(GameInfo::Unknown),
        }
    }
}


/// The wire form of a spawned player bundle: three child objects, each a
/// net id and one message holding that child's initializer.
spec fn player_bundle_bytes(
    n1: u32,
    c1: Seq<u8>,
    n2: u32,
    c2: Seq<u8>,
    n3: u32,
    c3: Seq<u8>,
    rest: Seq<u8>,
) -> Seq<u8> {
    varint(n1) + (message_bytes(1, c1) + (varint(n2) + (message_bytes(1, c2) + (varint(n3) + (
    message_bytes(1, c3) + rest)))))
}

/// The parse of each successive piece of a player bundle's wire form.
spec fn player_bundle_facts(
    n1: u32,
    c1: Seq<u8>,
    n2: u32,
    c2: Seq<u8>,
    n3: u32,
    c3: Seq<u8>,
    rest: Seq<u8>,
    s: Seq<u8>,
) -> bool {
    let s1 = s.skip(varint(n1).len() as int);
    let s2 = s1.skip(3 + c1.len() as int);
    let s3 = s2.skip(varint(n2).len() as int);
    let s4 = s3.skip(3 + c2.len() as int);
    let s5 = s4.skip(varint(n3).len() as int);
    let s6 = s5.skip(3 + c3.len() as int);
    &&& varint_size(s) == Some(varint(n1).len() as int) && varint_value(s) == n1
    &&& parse_message(s1) == Some((1u8, c1))
    &&& varint_size(s2) == Some(varint(n2).len() as int) && varint_value(s2) == n2
    &&& parse_message(s3) == Some((1u8, c2))
    &&& varint_size(s4) == Some(varint(n3).len() as int) && varint_value(s4) == n3
    &&& parse_message(s5) == Some((1u8, c3))
    &&& s6 == rest
}

/// A player bundle's wire form parses piece by piece.
proof fn lemma_player_bundle_facts(
    n1: u32,
    c1: Seq<u8>,
    n2: u32,
    c2: Seq<u8>,
    n3: u32,
    c3: Seq<u8>,
    rest: Seq<u8>,
    s: Seq<u8>,
)
    requires
        c1.len() <= 0xFFFF,
        c2.len() <= 0xFFFF,
        c3.len() <= 0xFFFF,
        s == player_bundle_bytes(n1, c1, n2, c2, n3, c3, rest),
    ensures
        player_bundle_facts(n1, c1, n2, c2, n3, c3, rest, s),
{
    let t1 = message_bytes(1, c1) + (varint(n2) + (message_bytes(1, c2) + (varint(n3) + (
    message_bytes(1, c3) + rest))));
    let t2 = varint(n2) + (message_bytes(1, c2) + (varint(n3) + (message_bytes(1, c3) + rest)));
    let t3 = message_bytes(1, c2) + (varint(n3) + (message_bytes(1, c3) + rest));
    let t4 = varint(n3) + (message_bytes(1, c3) + rest);
    let t5 = message_bytes(1, c3) + rest;
    crate::codec::lemma_varint_round_trip(n1, t1);
    crate::codec::lemma_message_round_trip(1, c1, t2);
    crate::codec::lemma_varint_round_trip(n2, t3);
    crate::codec::lemma_message_round_trip(1, c2, t4);
    crate::codec::lemma_varint_round_trip(n3, t5);
    crate::codec::lemma_message_round_trip(1, c3, rest);
    assert(s.skip(varint(n1).len() as int) == t1);
    assert(t1.skip(3 + c1.len() as int) =~= t2);
    assert(t2.skip(varint(n2).len() as int) == t3);
    assert(t3.skip(3 + c2.len() as int) =~= t4);
    assert(t4.skip(varint(n3).len() as int) == t5);
    assert(t5.skip(3 + c3.len() as int) =~= rest);
}

/// Reads the spawned objects of one prefab. An unrecognized prefab id or an
/// unexpected child count yields `Prefab::Unknown` with the payload left as
/// it stands, as does a prefab kind this client does not track. A player
/// bundle in wire form parses back to its three children.
#[verifier::rlimit(100)]
fn read_prefab(r: &mut PacketReader, prefab_id: u32, owner_id: i32, num_children: u32) -> (res:
    Result<Prefab, CodecError>)
    requires
        old(r).wf(),
    ensures
        final(r).wf(),
        forall|n1: u32, c1: Seq<u8>, n2: u32, c2: Seq<u8>, n3: u32, c3: Seq<u8>, rest: Seq<u8>|
            prefab_id == 4 && num_children == 3 && c1.len() >= 2 && c1[0] <= 1 && c1.len()
                <= 0xFFFF && c2.len() <= 0xFFFF && 10 <= c3.len() <= 0xFFFF && old(r).rem()
                == #[trigger] player_bundle_bytes(n1, c1, n2, c2, n3, c3, rest) ==> (match res {
                Ok(p) => (p matches Prefab::Player(c, ph, t) && c.spec_net_id() == n1
                    && c.spec_owner_id() == owner_id && c.player_id == c1[1] && ph.spec_net_id()
                    == n2 && ph.spec_owner_id() == owner_id && t.spec_net_id() == n3
                    && t.spec_owner_id() == owner_id && c3.subrange(0, 2) == crate::codec::le16(
                    t.last_seq_id,
                ) && c3.subrange(2, 6) == t.target_position.spec_ser() && c3.subrange(6, 10)
                    == t.velocity.spec_ser()) && final(r).rem() == rest,
                Err(_) => false,
            }),
{
    proof {
        assert forall|n1: u32, c1: Seq<u8>, n2: u32, c2: Seq<u8>, n3: u32, c3: Seq<u8>, rest:
            Seq<u8>|
            c1.len() <= 0xFFFF && c2.len() <= 0xFFFF && c3.len() <= 0xFFFF && old(r).rem()
                == #[trigger] player_bundle_bytes(n1, c1, n2, c2, n3, c3, rest) implies
            player_bundle_facts(n1, c1, n2, c2, n3, c3, rest, old(r).rem()) by {
            lemma_player_bundle_facts(n1, c1, n2, c2, n3, c3, rest, old(r).rem());
        }
    }
    if prefab_id == 0 && num_children == 1 {
        let _net_id = r.read_u32_encoded()?;
        let (tag, mut data) = r.read_message()?;
        if tag != 1 {
            return Err(CodecError::InvalidDiscriminant);
        }
        let net_id = _net_id;
        let world = World::initialize(net_id, owner_id, &mut data)?;
        Ok(Prefab::World(world))
    } else if prefab_id == 4 && num_children == 3 {
        let net_id = r.read_u32_encoded()?;
        let (tag, mut data) = r.read_message()?;
        if tag != 1 {
            return Err(CodecError::InvalidDiscriminant);
        }
        let control = PlayerControl::initialize(net_id, owner_id, &mut data)?;
        let net_id2 = r.read_u32_encoded()?;
        let (tag2, mut data2) = r.read_message()?;
        if tag2 != 1 {
            return Err(CodecError::InvalidDiscriminant);
        }
        let physics = PlayerPhysics::initialize(net_id2, owner_id, &mut data2);
        let net_id3 = r.read_u32_encoded()?;
        let (tag3, mut data3) = r.read_message()?;
        if tag3 != 1 {
            return Err(CodecError::InvalidDiscriminant);
        }
        let transform = PlayerTransform::initialize(net_id3, owner_id, &mut data3)?;
        Ok(Prefab::Player(control, physics, transform))
    } else if prefab_id == 2 && num_children == 1 {
        let net_id = r.read_u32_encoded()?;
        let (tag, mut data) = r.read_message()?;
        if tag != 1 {
            return Err(CodecError::InvalidDiscriminant);
        }
        let lobby = Lobby::initialize(net_id, owner_id, &mut data);
        Ok(Prefab::Lobby(lobby))
    } else if prefab_id == 3 && num_children == 2 {
        let net_id = r.read_u32_encoded()?;
        let (tag, mut data) = r.read_message()?;
        if tag != 1 {
            return Err(CodecError::InvalidDiscriminant);
        }
        let game_data = GameData::initialize(net_id, owner_id, &mut data)?;
        let net_id2 = r.read_u32_encoded()?;
        let (tag2, mut data2) = r.read_message()?;
        if tag2 != 1 {
            return Err(CodecError::InvalidDiscriminant);
        }
        let vote_ban = VoteBanSystem::initialize(net_id2, owner_id, &mut data2)?;
        Ok(Prefab::GameData(game_data, vote_ban))
    } else {
        Ok(Prefab::Unknown)
    }
}

/// How a parsed packet relates to the tag and payload of the message it
/// was read from.
pub open spec fn packet_rel(p: Packet, tag: u8, body: Seq<u8>) -> bool {
    &&& (p matches Packet::HostingGame { game_id } ==> tag == 0 && body.len() >= 4
        && body.subrange(0, 4) == le32(game_id.id as u32))
    &&& (p is GameStarted ==> tag == 2)
    &&& (p matches Packet::Disconnected(reason) ==> tag == 1 && body.len() >= 4 && 0
        <= reason.spec_code() < 0xFF && body.subrange(0, 4) == le32(reason.spec_code() as u32))
    &&& (p matches Packet::PlayerJoined { game_id, player_id, host_id } ==> tag == 1 && body.len()
        >= 12 && body.subrange(0, 4) == le32(game_id.id as u32) && body.subrange(4, 8) == le32(
        player_id as u32,
    ) && body.subrange(8, 12) == le32(host_id as u32))
    &&& (p matches Packet::PlayerLeft { game_id, .. } ==> tag == 4 && body.len() >= 12
        && body.subrange(0, 4) == le32(game_id.id as u32))
    &&& (p is ClientJoinedGame ==> tag == 7)
    &&& (p matches Packet::GameAltered { game_id, is_public } ==> tag == 0x0a && body.len() >= 6
        && body.subrange(0, 4) == le32(game_id.id as u32) && body[4] == 1 && body[5] == (
    if is_public {
        1u8
    } else {
        0u8
    }))
    &&& (p matches Packet::ChangeServer { address } ==> tag == 0x0d && body.len() >= 6
        && body.subrange(0, 6) == address.spec_ser())
    &&& (p is ServerList ==> tag == 0x0e)
    &&& (p is GameList ==> tag == 0x10)
    &&& (p matches Packet::GameInfo { game_id, .. } ==> tag == 5 && body.len() >= 4
        && body.subrange(0, 4) == le32(game_id.id as u32))
    &&& (p matches Packet::GameInfoTo { game_id, .. } ==> tag == 6 && body.len() >= 4
        && body.subrange(0, 4) == le32(game_id.id as u32))
    &&& (p matches Packet::NotImplemented(k) ==> k.spec_tag() == tag && PacketType::spec_known(
        tag,
    ))
    &&& (p matches Packet::UnknownTag(t) ==> t == tag && !PacketType::spec_known(tag))
    &&& (p is KickPlayer ==> false)
    &&& (tag == 1 && body.len() >= 4 && crate::codec::u32_val(body[0], body[1], body[2], body[3])
        < 0xFF ==> p is Disconnected)
    &&& (tag == 1 && body.len() >= 12 && crate::codec::u32_val(body[0], body[1], body[2], body[3])
        >= 0xFF ==> p is PlayerJoined)
    &&& (tag == 0x00 ==> p is HostingGame)
    &&& (tag == 0x02 ==> p is GameStarted)
    &&& (tag == 0x04 ==> p is PlayerLeft)
    &&& (tag == 0x05 ==> p is GameInfo)
    &&& (tag == 0x06 ==> p is GameInfoTo)
    &&& (tag == 0x07 ==> p is ClientJoinedGame)
    &&& (tag == 0x0a ==> p is GameAltered)
    &&& (tag == 0x0b ==> p is NotImplemented)
    &&& (tag == 0x0d ==> p is ChangeServer)
    &&& (tag == 0x0e ==> p is ServerList)
    &&& (tag == 0x10 ==> p is GameList)
    &&& (!PacketType::spec_known(tag) ==> p is UnknownTag)
}

/// One top-level packet, as read from a frame body or written into one.
#[derive(Debug)]
pub enum Packet {
    HostingGame { game_id: GameId },
    Disconnected(DisconnectReason),
    PlayerJoined { game_id: GameId, player_id: i32, host_id: i32 },
    PlayerLeft { game_id: GameId, player_id: i32, host_id: i32, reason: Option<u8> },
    ClientJoinedGame(JoinedGamePacket),
    GameList(GameListPacket),
    ServerList(ServerListPacket),
    GameAltered { game_id: GameId, is_public: bool },
    GameStarted,
    ChangeServer { address: Address },
    GameInfo { game_id: GameId, data: Vec<GameInfo> },
    GameInfoTo { game_id: GameId, client_id: i32, data: Vec<GameInfo> },
    KickPlayer { game_id: GameId, player_id: i32, ban: bool },
    NotImplemented(PacketType),
    UnknownTag(u8),
}

/// A single replication event's messages are that event's message alone.
pub proof fn lemma_one_info_packet(data: Seq<GameInfo>)
    requires
        data.len() == 1,
    ensures
        infos_bytes(data) == message_bytes(data[0].spec_tag(), data[0].spec_body()),
{
    assert(data.drop_first() =~= Seq::<GameInfo>::empty());
    assert(infos_bytes(data.drop_first()) == Seq::<u8>::empty());
    assert(infos_bytes(data) =~= message_bytes(data[0].spec_tag(), data[0].spec_body()));
}

/// The concatenated messages of a sequence of replication events.
pub open spec fn infos_bytes(infos: Seq<GameInfo>) -> Seq<u8>
    decreases infos.len(),
{
    if infos.len() == 0 {
        Seq::<u8>::empty()
    } else {
        message_bytes(infos[0].spec_tag(), infos[0].spec_body()) + infos_bytes(infos.drop_first())
    }
}

impl Packet {
    /// Whether this packet kind has a writer; inbound-only kinds do not.
    pub open spec fn spec_serializable(&self) -> bool {
        match self {
            Packet::GameInfo { data, .. } => forall|i: int|
                0 <= i < data@.len() ==> (#[trigger] data@[i]).spec_serializable()
                    && data@[i].spec_body().len() <= 0xFFFF && (data@[i]
                    matches GameInfo::ChangeScene { scene, .. } ==> encode_utf8(scene@).len()
                    <= u32::MAX),
            Packet::GameInfoTo { data, .. } => forall|i: int|
                0 <= i < data@.len() ==> (#[trigger] data@[i]).spec_serializable()
                    && data@[i].spec_body().len() <= 0xFFFF && (data@[i]
                    matches GameInfo::ChangeScene { scene, .. } ==> encode_utf8(scene@).len()
                    <= u32::MAX),
            Packet::KickPlayer { .. } => true,
            _ => false,
        }
    }

    /// The body bytes of a serializable packet, before message framing.
    pub open spec fn spec_body(&self) -> Seq<u8> {
        match self {
            Packet::GameInfo { game_id, data } => le32(game_id.id as u32) + infos_bytes(data@),
            Packet::GameInfoTo { game_id, client_id, data } => le32(game_id.id as u32) + varint(
                *client_id as u32,
            ) + infos_bytes(data@),
            Packet::KickPlayer { game_id, player_id, ban } => le32(game_id.id as u32) + varint(
                *player_id as u32,
            ) + seq![if *ban {
                1u8
            } else {
                0u8
            }],
            _ => Seq::<u8>::empty(),
        }
    }

    /// Writes a packet body. The caller frames it in a message carrying the
    /// packet kind's tag.
    pub fn serialize(&self, w: &mut PacketWriter)
        requires
            old(w).wf(),
            self.spec_serializable(),
        ensures
            final(w).wf(),
            final(w).out() == old(w).out() + self.spec_body(),
            final(w).starts() == old(w).starts(),
    {
        match self {
            Packet::GameInfo { game_id, data } => {
                game_id.serialize(w);
                serialize_infos(w, data);
            },
            Packet::GameInfoTo { game_id, client_id, data } => {
                game_id.serialize(w);
                w.write_i32_encoded(*client_id);
                serialize_infos(w, data);
            },
            Packet::KickPlayer { game_id, player_id, ban } => {
                game_id.serialize(w);
                w.write_i32_encoded(*player_id);
                w.write_bool(*ban);
            },
            _ => {
                proof {
                    assert(false);
                }
            },
        }
        proof {
            assert(final(w).out() =~= old(w).out() + self.spec_body());
        }
    }

    /// Reads one packet from one message. List-bearing kinds read their
    /// elements to the message's end.
    #[verifier::rlimit(100)]
    pub fn deserialize(r: &mut PacketReader) -> (res: Result<Packet, CodecError>)
        requires
            old(r).wf(),
        ensures
            final(r).wf(),
            match res {
                Ok(p) => match parse_message(old(r).rem()) {
                    Some((tag, body)) => {
                        &&& final(r).rem() == old(r).rem().skip(3 + body.len() as int)

            &&& (p matches Packet::HostingGame { game_id } ==> tag == 0 && body.len() >= 4
                && body.subrange(0, 4) == le32(game_id.id as u32))
            &&& (p is GameStarted ==> tag == 2)
            &&& (p matches Packet::Disconnected(reason) ==> tag == 1 && body.len() >= 4 && 0
                <= reason.spec_code() < 0xFF && body.subrange(0, 4) == le32(reason.spec_code() as u32))
            &&& (p matches Packet::PlayerJoined { game_id, player_id, host_id } ==> tag == 1 && body.len()
                >= 12 && body.subrange(0, 4) == le32(game_id.id as u32) && body.subrange(4, 8) == le32(
                player_id as u32,
            ) && body.subrange(8, 12) == le32(host_id as u32))
            &&& (p matches Packet::PlayerLeft { game_id, .. } ==> tag == 4 && body.len() >= 12
                && body.subrange(0, 4) == le32(game_id.id as u32))
            &&& (p is ClientJoinedGame ==> tag == 7)
            &&& (p matches Packet::GameAltered { game_id, is_public } ==> tag == 0x0a && body.len() >= 6
                && body.subrange(0, 4) == le32(game_id.id as u32) && body[4] == 1 && body[5] == (
            if is_public {
                1u8
            } else {
                0u8
            }))
            &&& (p matches Packet::ChangeServer { address } ==> tag == 0x0d && body.len() >= 6
                && body.subrange(0, 6) == address.spec_ser())
            &&& (p is ServerList ==> tag == 0x0e)
            &&& (p is GameList ==> tag == 0x10)
            &&& (p matches Packet::GameInfo { game_id, .. } ==> tag == 5 && body.len() >= 4
                && body.subrange(0, 4) == le32(game_id.id as u32))
            &&& (p matches Packet::GameInfoTo { game_id, .. } ==> tag == 6 && body.len() >= 4
                && body.subrange(0, 4) == le32(game_id.id as u32))
            &&& (p matches Packet::NotImplemented(k) ==> k.spec_tag() == tag && PacketType::spec_known(
                tag,
            ))
            &&& (p matches Packet::UnknownTag(t) ==> t == tag && !PacketType::spec_known(tag))
            &&& (p is KickPlayer ==> false)
            &&& (tag == 1 && body.len() >= 4 && crate::codec::u32_val(body[0], body[1], body[2], body[3])
                < 0xFF ==> p is Disconnected)
            &&& (tag == 1 && body.len() >= 12 && crate::codec::u32_val(body[0], body[1], body[2], body[3])
                >= 0xFF ==> p is PlayerJoined)
            &&& (tag == 0x00 ==> p is HostingGame)
            &&& (tag == 0x02 ==> p is GameStarted)
            &&& (tag == 0x04 ==> p is PlayerLeft)
            &&& (tag == 0x05 ==> p is GameInfo)
            &&& (tag == 0x06 ==> p is GameInfoTo)
            &&& (tag == 0x07 ==> p is ClientJoinedGame)
            &&& (tag == 0x0a ==> p is GameAltered)
            &&& (tag == 0x0b ==> p is NotImplemented)
            &&& (tag == 0x0d ==> p is ChangeServer)
            &&& (tag == 0x0e ==> p is ServerList)
            &&& (tag == 0x10 ==> p is GameList)
            &&& (!PacketType::spec_known(tag) ==> p is UnknownTag)
                    },
                    None => false,
                },
                Err(_) => true,
            },
            match parse_message(old(r).rem()) {
                Some((tag, body)) => {
                    &&& (!PacketType::spec_known(tag) ==> res is Ok)
                    &&& (tag == 0x02 ==> res is Ok)
                    &&& (tag == 0x0b ==> res is Ok)
                    &&& (tag == 0x00 && body.len() >= 4 ==> res is Ok)
                    &&& (tag == 0x0d && body.len() >= 6 ==> res is Ok)
                    &&& (tag == 0x0a && body.len() >= 6 && body[4] == 1 && body[5] <= 1
                        ==> res is Ok)
                    &&& (tag == 0x04 && body.len() >= 12 ==> res is Ok)
                    &&& (tag == 0x01 && body.len() >= 12 && crate::codec::u32_val(
                        body[0],
                        body[1],
                        body[2],
                        body[3],
                    ) >= 0xFF ==> res is Ok)
                    &&& (tag == 0x01 && body.len() >= 4 && crate::codec::u32_val(
                        body[0],
                        body[1],
                        body[2],
                        body[3],
                    ) < 0xFF && DisconnectReason::spec_known(crate::codec::u32_val(
                        body[0],
                        body[1],
                        body[2],
                        body[3],
                    )) && (crate::codec::u32_val(body[0], body[1], body[2], body[3]) != 8 || (
                    match parse_lp_bytes(body.skip(4)) {
                        Some((p2, _)) => valid_utf8(p2),
                        None => false,
                    })) ==> res is Ok)
                },
                None => res == Err::<Packet, CodecError>(CodecError::UnexpectedEof),
            },
    {
        let (tag, mut body) = r.read_message()?;
        let ghost b = parse_message(old(r).rem()).unwrap().1;
        match PacketType::from_u8(tag) {
            Some(PacketType::HostingGame) => {
                let game_id = GameId::deserialize(&mut body)?;
                Ok(Packet::HostingGame { game_id })
            },
            Some(PacketType::GameStarted) => Ok(Packet::GameStarted),
            Some(PacketType::GameJoinDisconnect) => {
                // the same tag carries either a disconnect reason or a
                // player-joined event; a small first word is a reason code
                let value = body.read_i32()?;
                proof {
                    crate::codec::lemma_i32_sign();
                    crate::codec::lemma_cast_round_trips();
                    assert((value as u32) as i32 == value);
                    assert(((value as u32) as i32) >= 0 <==> (value as u32) < 0x80000000);
                    if (value as u32) < 0x80000000 {
                        assert(((value as u32) as i32) as int == (value as u32) as int);
                    }
                }
                if value < 0xFF && value >= 0 {
                    let reason = DisconnectReason::from_value_and_reader(value, &mut body)?;
                    Ok(Packet::Disconnected(reason))
                } else {
                    let player_id = body.read_i32()?;
                    let host_id = body.read_i32()?;
                    proof {
                        crate::codec::lemma_cast_round_trips();
                        assert(b.skip(4).subrange(0, 4) =~= b.subrange(4, 8));
                        assert(b.skip(4).skip(4) =~= b.skip(8));
                    }
                    Ok(Packet::PlayerJoined { game_id: GameId { id: value }, player_id, host_id })
                }
            },
            Some(PacketType::PlayerLeft) => {
                let game_id = GameId::deserialize(&mut body)?;
                let player_id = body.read_i32()?;
                let host_id = body.read_i32()?;
                proof {
                    assert(b.skip(4).subrange(0, 4) =~= b.subrange(4, 8));
                    assert(b.skip(4).skip(4) =~= b.skip(8));
                }
                let reason = if body.remaining() > 0 {
                    Some(body.read_u8()?)
                } else {
                    None
                };
                Ok(Packet::PlayerLeft { game_id, player_id, host_id, reason })
            },
            Some(PacketType::JoinedGame) => {
                let joined = JoinedGamePacket::deserialize(&mut body)?;
                Ok(Packet::ClientJoinedGame(joined))
            },
            Some(PacketType::AlterGameInfo) => {
                let game_id = GameId::deserialize(&mut body)?;
                let to_alter = body.read_u8()?;
                if to_alter != 1 {
                    return Err(CodecError::InvalidDiscriminant);
                }
                let is_public = body.read_bool()?;
                proof {
                    assert(b.skip(4)[0] == b[4]);
                    assert(b.skip(4).skip(1)[0] == b[5]);
                }
                Ok(Packet::GameAltered { game_id, is_public })
            },
            Some(PacketType::ChangeServer) => {
                let address = Address::deserialize(&mut body)?;
                Ok(Packet::ChangeServer { address })
            },
            Some(PacketType::ServerList) => {
                let list = ServerListPacket::deserialize(&mut body)?;
                Ok(Packet::ServerList(list))
            },
            Some(PacketType::GameList) => {
                let list = GameListPacket::deserialize(&mut body)?;
                Ok(Packet::GameList(list))
            },
            Some(PacketType::GameInfoTo) => {
                let game_id = GameId::deserialize(&mut body)?;
                let client_id = body.read_i32_encoded()?;
                let data = read_all_infos(&mut body)?;
                Ok(Packet::GameInfoTo { game_id, client_id, data })
            },
            Some(PacketType::GameInfo) => {
                let game_id = GameId::deserialize(&mut body)?;
                let data = read_all_infos(&mut body)?;
                Ok(Packet::GameInfo { game_id, data })
            },
            Some(packet_type) => Ok(Packet::NotImplemented(packet_type)),
            None => Ok(Packet::UnknownTag(tag)),
        }
    }
}

/// Writes a sequence of replication events, each in its own message.
fn serialize_infos(w: &mut PacketWriter, data: &Vec<GameInfo>)
    requires
        old(w).wf(),
        forall|i: int|
            0 <= i < data@.len() ==> (#[trigger] data@[i]).spec_serializable()
                && data@[i].spec_body().len() <= 0xFFFF && (data@[i]
                matches GameInfo::ChangeScene { scene, .. } ==> encode_utf8(scene@).len()
                <= u32::MAX),
    ensures
        final(w).wf(),
        final(w).out() == old(w).out() + infos_bytes(data@),
        final(w).starts() == old(w).starts(),
{
    let mut i: usize = 0;
    while i < data.len()
        invariant
            w.wf(),
            i <= data@.len(),
            w.starts() == old(w).starts(),
            w.out() == old(w).out() + infos_bytes(data@.take(i as int)),
            forall|j: int|
                0 <= j < data@.len() ==> (#[trigger] data@[j]).spec_serializable()
                    && data@[j].spec_body().len() <= 0xFFFF && (data@[j]
                    matches GameInfo::ChangeScene { scene, .. } ==> encode_utf8(scene@).len()
                    <= u32::MAX),
        decreases data@.len() - i,
    {
        data[i].serialize(w);
        proof {
            lemma_infos_bytes_take_step(data@, i as int);
            assert(old(w).out() + infos_bytes(data@.take(i as int)) + message_bytes(
                data@[i as int].spec_tag(),
                data@[i as int].spec_body(),
            ) =~= old(w).out() + infos_bytes(data@.take(i as int + 1)));
        }
        i = i + 1;
    }
    proof {
        assert(data@.take(data@.len() as int) =~= data@);
    }
}

proof fn lemma_infos_bytes_take_step(infos: Seq<GameInfo>, i: int)
    requires
        0 <= i < infos.len(),
    ensures
        infos_bytes(infos.take(i + 1)) == infos_bytes(infos.take(i)) + message_bytes(
            infos[i].spec_tag(),
            infos[i].spec_body(),
        ),
    decreases i,
{
    if i == 0 {
        assert(infos.take(1).drop_first() =~= Seq::<GameInfo>::empty());
        assert(infos.take(0) =~= Seq::<GameInfo>::empty());
        assert(infos.take(1)[0] == infos[0]);
        assert(infos_bytes(Seq::<GameInfo>::empty()) == Seq::<u8>::empty());
        assert(infos_bytes(infos.take(1)) =~= message_bytes(
            infos[0].spec_tag(),
            infos[0].spec_body(),
        ));
        assert(infos_bytes(infos.take(i + 1)) =~= infos_bytes(infos.take(i)) + message_bytes(
            infos[i].spec_tag(),
            infos[i].spec_body(),
        ));
    } else {
        lemma_infos_bytes_take_step(infos.drop_first(), i - 1);
        assert(infos.take(i + 1).drop_first() =~= infos.drop_first().take(i));
        assert(infos.take(i).drop_first() =~= infos.drop_first().take(i - 1));
        assert(infos.take(i + 1)[0] == infos[0] && infos.take(i)[0] == infos[0]);
        assert(infos.drop_first()[i - 1] == infos[i]);
        assert(infos_bytes(infos.take(i + 1)) =~= infos_bytes(infos.take(i)) + message_bytes(
            infos[i].spec_tag(),
            infos[i].spec_body(),
        ));
    }
}

/// Reads replication events until the payload is exhausted. On success the
/// returned events are exactly those of the payload's messages, in order.
fn read_all_infos(r: &mut PacketReader) -> (res: Result<Vec<GameInfo>, CodecError>)
    requires
        old(r).wf(),
    ensures
        final(r).wf(),
        res matches Ok(_) ==> final(r).rem().len() == 0,
        old(r).rem().len() == 0 ==> (res matches Ok(v) && v@.len() == 0),
        res matches Ok(v) ==> (match crate::codec::parse_messages(old(r).rem()) {
            Some(ms) => v@.len() == ms.len() && (forall|i: int|
                0 <= i < ms.len() ==> game_info_rel(v@[i], (#[trigger] ms[i]).0, ms[i].1)),
            None => false,
        }),
{
    let mut v: Vec<GameInfo> = Vec::new();
    while r.remaining() > 0
        invariant
            r.wf(),
            old(r).rem().len() == 0 ==> v@.len() == 0 && r.rem() == old(r).rem(),
            match crate::codec::parse_messages(old(r).rem()) {
                Some(ms) => v@.len() <= ms.len() && (forall|i: int|
                    0 <= i < v@.len() ==> game_info_rel(v@[i], (#[trigger] ms[i]).0, ms[i].1))
                    && crate::codec::parse_messages(r.rem()) == Some(ms.skip(v@.len() as int)),
                None => crate::codec::parse_messages(r.rem()) is None,
            },
        decreases r.rem().len(),
    {
        let ghost pre = r.rem();
        let info = GameInfo::deserialize(r)?;
        proof {
            let (tag, body) = crate::codec::parse_message(pre).unwrap();
            assert(game_info_rel(info, tag, body));
            lemma_parse_messages_step(pre, tag, body);
            match crate::codec::parse_messages(old(r).rem()) {
                Some(ms) => {
                    let k = v@.len() as int;
                    assert(crate::codec::parse_messages(pre) == Some(ms.skip(k)));
                    if crate::codec::parse_messages(pre.skip(3 + body.len() as int)) is None {
                        assert(false);
                    }
                    assert(ms.skip(k).len() >= 1);
                    assert(k < ms.len());
                    assert(ms.skip(k)[0] == ms[k]);
                    assert(ms.skip(k).drop_first() =~= ms.skip(k + 1));
                },
                None => {},
            }
        }
        v.push(info);
    }
    proof {
        match crate::codec::parse_messages(old(r).rem()) {
            Some(ms) => {
                assert(crate::codec::parse_messages(r.rem()) == Some(
                    Seq::<(u8, Seq<u8>)>::empty(),
                ));
            },
            None => {
                assert(crate::codec::parse_messages(r.rem()) is None);
                assert(r.rem().len() == 0);
            },
        }
    }
    Ok(v)
}

/// A non-empty whole-buffer parse starts with the head message.
pub proof fn lemma_parse_messages_head(s: Seq<u8>, ms: Seq<(u8, Seq<u8>)>)
    requires
        crate::codec::parse_messages(s) == Some(ms),
        ms.len() >= 1,
    ensures
        crate::codec::parse_message(s) == Some((ms[0].0, ms[0].1)),
        s.len() > 0,
{
}

/// Reading one message off a buffer steps the whole-buffer parse by one.
proof fn lemma_parse_messages_step(s: Seq<u8>, tag: u8, body: Seq<u8>)
    requires
        crate::codec::parse_message(s) == Some((tag, body)),
    ensures
        crate::codec::parse_messages(s) == (match crate::codec::parse_messages(
            s.skip(3 + body.len() as int),
        ) {
            Some(rest) => Some(seq![(tag, body)] + rest),
            None => None::<Seq<(u8, Seq<u8>)>>,
        }),
{
    let l = crate::codec::u16_val(s[0], s[1]);
    assert(body == s.subrange(3, 3 + l));
    assert(body.len() == l);
    assert(s[2] == tag);
}

/// Reads top-level packets until the frame body is exhausted. On success
/// the returned packets are exactly those of the body's messages, in order.
pub fn read_all_packets(r: &mut PacketReader) -> (res: Result<Vec<Packet>, CodecError>)
    requires
        old(r).wf(),
    ensures
        final(r).wf(),
        res matches Ok(_) ==> final(r).rem().len() == 0,
        old(r).rem().len() == 0 ==> (res matches Ok(v) && v@.len() == 0),
        res matches Ok(v) ==> (match crate::codec::parse_messages(old(r).rem()) {
            Some(ms) => v@.len() == ms.len() && (forall|i: int|
                0 <= i < ms.len() ==> packet_rel(v@[i], (#[trigger] ms[i]).0, ms[i].1)),
            None => false,
        }),
        (match crate::codec::parse_messages(old(r).rem()) {
            Some(ms) => ms.len() == 1 && ms[0].0 == 0x0d && ms[0].1.len() >= 6,
            None => false,
        }) ==> res is Ok,
{
    let mut v: Vec<Packet> = Vec::new();
    while r.remaining() > 0
        invariant
            r.wf(),
            old(r).rem().len() == 0 ==> v@.len() == 0 && r.rem() == old(r).rem(),
            match crate::codec::parse_messages(old(r).rem()) {
                Some(ms) => v@.len() <= ms.len() && (forall|i: int|
                    0 <= i < v@.len() ==> packet_rel(v@[i], (#[trigger] ms[i]).0, ms[i].1))
                    && crate::codec::parse_messages(r.rem()) == Some(ms.skip(v@.len() as int)),
                None => crate::codec::parse_messages(r.rem()) is None,
            },
        decreases r.rem().len(),
    {
        let ghost pre = r.rem();
        proof {
            match crate::codec::parse_messages(old(r).rem()) {
                Some(ms) => {
                    if ms.len() == 1 && ms[0].0 == 0x0d && ms[0].1.len() >= 6 {
                        if v@.len() == 0 {
                            assert(ms.skip(0) =~= ms);
                            assert(crate::codec::parse_messages(pre) == Some(ms));
                            lemma_parse_messages_head(pre, ms);
                        } else {
                            assert(crate::codec::parse_messages(pre) == Some(ms.skip(1)));
                            assert(ms.skip(1) =~= Seq::<(u8, Seq<u8>)>::empty());
                            assert(pre.len() == 0);
                        }
                    }
                },
                None => {},
            }
        }
        let p = Packet::deserialize(r)?;
        proof {
            let (tag, body) = crate::codec::parse_message(pre).unwrap();
            assert(packet_rel(p, tag, body));
            lemma_parse_messages_step(pre, tag, body);
            match crate::codec::parse_messages(old(r).rem()) {
                Some(ms) => {
                    let k = v@.len() as int;
                    assert(crate::codec::parse_messages(pre) == Some(ms.skip(k)));
                    if crate::codec::parse_messages(pre.skip(3 + body.len() as int)) is None {
                        assert(false);
                    }
                    assert(ms.skip(k).len() >= 1);
                    assert(k < ms.len());
                    assert(ms.skip(k)[0] == ms[k]);
                    assert(ms.skip(k).drop_first() =~= ms.skip(k + 1));
                },
                None => {},
            }
        }
        v.push(p);
    }
    proof {
        match crate::codec::parse_messages(old(r).rem()) {
            Some(ms) => {
                assert(crate::codec::parse_messages(r.rem()) == Some(
                    Seq::<(u8, Seq<u8>)>::empty(),
                ));
            },
            None => {
                assert(crate::codec::parse_messages(r.rem()) is None);
                assert(r.rem().len() == 0);
            },
        }
    }
    Ok(v)
}

/// The request to join a game/// The request to join a game: its id and the maps the client owns.
#[derive(Debug, Clone, PartialEq)]
pub struct JoinGamePacket {
    pub game_id: GameId,
    pub maps_owned: u8,
}

impl JoinGamePacket {
    /// The join request on the wire: the id's four bytes, then the map bits.
    pub open spec fn spec_ser(&self) -> Seq<u8> {
        le32(self.game_id.id as u32) + seq![self.maps_owned]
    }

    pub fn serialize(&self, w: &mut PacketWriter)
        requires
            old(w).wf(),
        ensures
            final(w).wf(),
            final(w).out() == old(w).out() + self.spec_ser(),
            final(w).starts() == old(w).starts(),
    {
        self.game_id.serialize(w);
        w.write_u8(self.maps_owned);
        proof {
            assert(final(w).out() =~= old(w).out() + self.spec_ser());
        }
    }
}

/// What the server answers when this client joins: its ids and the other
/// players already present.
#[derive(Debug, Clone, PartialEq)]
pub struct JoinedGamePacket {
    pub game_id: GameId,
    pub client_id: i32,
    pub host_id: i32,
    pub player_ids: Vec<i32>,
}

impl JoinedGamePacket {
    /// Reads the join answer: the game id, this client's id, the host's id,
    /// then a varint count of other players' ids. A well-formed id list
    /// parses back to exactly those ids.
    pub fn deserialize(r: &mut PacketReader) -> (res: Result<JoinedGamePacket, CodecError>)
        requires
            old(r).wf(),
        ensures
            final(r).wf(),
            res matches Ok(p) ==> old(r).rem().len() >= 12 && old(r).rem().subrange(0, 4) == le32(
                p.game_id.id as u32,
            ) && old(r).rem().subrange(4, 8) == le32(p.client_id as u32) && old(r).rem().subrange(
                8,
                12,
            ) == le32(p.host_id as u32),
            forall|ids: Seq<u32>, rest: Seq<u8>|
                ids.len() <= u32::MAX && old(r).rem().len() >= 12 && old(r).rem().skip(12)
                    == #[trigger] (varint(ids.len() as u32) + varints_bytes(ids) + rest) ==> (
                match res {
                    Ok(p) => p.player_ids@.len() == ids.len() && (forall|k: int|
                        0 <= k < ids.len() ==> (#[trigger] p.player_ids@[k]) as u32 == ids[k])
                        && final(r).rem() == rest,
                    Err(_) => false,
                }),
    {
        let game_id = GameId::deserialize(r)?;
        let client_id = r.read_i32()?;
        let host_id = r.read_i32()?;
        proof {
            let b = old(r).rem();
            assert(b.skip(4).subrange(0, 4) =~= b.subrange(4, 8));
            assert(b.skip(4).skip(4) =~= b.skip(8));
            assert(b.skip(8).subrange(0, 4) =~= b.subrange(8, 12));
            assert(b.skip(8).skip(4) =~= b.skip(12));
            assert forall|ids: Seq<u32>, rest: Seq<u8>|
                ids.len() <= u32::MAX && b.len() >= 12 && b.skip(12) == #[trigger] (varint(
                    ids.len() as u32,
                ) + varints_bytes(ids) + rest) implies crate::codec::varint_size(r.rem()) == Some(
                varint(ids.len() as u32).len() as int,
            ) && crate::codec::varint_value(r.rem()) == ids.len() as u32 && r.rem().skip(
                varint(ids.len() as u32).len() as int,
            ) == varints_bytes(ids) + rest by {
                crate::codec::lemma_varint_round_trip(ids.len() as u32, varints_bytes(ids) + rest);
                assert(r.rem() =~= varint(ids.len() as u32) + (varints_bytes(ids) + rest));
            }
        }
        let count = r.read_u32_encoded()?;
        let ghost mark = r.rem();
        let mut player_ids: Vec<i32> = Vec::new();
        let mut i: u32 = 0;
        proof {
            assert forall|ids: Seq<u32>, rest: Seq<u8>|
                mark == #[trigger] (varints_bytes(ids) + rest) && ids.len() == count implies (
            player_ids@.len() == 0 && r.rem() == varints_bytes(ids.skip(0)) + rest) by {
                assert(ids.skip(0) =~= ids);
            }
        }
        while i < count
            invariant
                r.wf(),
                i <= count,
                player_ids@.len() == i,
                forall|ids: Seq<u32>, rest: Seq<u8>|
                    ids.len() <= u32::MAX && old(r).rem().len() >= 12 && old(r).rem().skip(12)
                        == #[trigger] (varint(ids.len() as u32) + varints_bytes(ids) + rest)
                        ==> mark == varints_bytes(ids) + rest && count == ids.len(),
                forall|ids: Seq<u32>, rest: Seq<u8>|
                    mark == #[trigger] (varints_bytes(ids) + rest) && ids.len() == count ==> (
                    player_ids@.len() == i && (forall|k: int|
                        0 <= k < i ==> (#[trigger] player_ids@[k]) as u32 == ids[k]) && r.rem()
                        == varints_bytes(ids.skip(i as int)) + rest),
            decreases count - i,
        {
            proof {
                assert forall|ids: Seq<u32>, rest: Seq<u8>|
                    mark == #[trigger] (varints_bytes(ids) + rest) && ids.len() == count implies
                    crate::codec::varint_size(r.rem()) == Some(varint(
                        ids[i as int],
                    ).len() as int) && crate::codec::varint_value(r.rem()) == ids[i as int]
                    && r.rem().skip(varint(ids[i as int]).len() as int) == varints_bytes(
                    ids.skip(i as int + 1),
                ) + rest by {
                    crate::netobjects::lemma_varints_bytes_skip_pub(ids, i as int);
                    crate::codec::lemma_varint_round_trip(
                        ids[i as int],
                        varints_bytes(ids.skip(i as int + 1)) + rest,
                    );
                    assert(varints_bytes(ids.skip(i as int)) + rest =~= varint(ids[i as int]) + (
                    varints_bytes(ids.skip(i as int + 1)) + rest));
                    assert(r.rem() =~= varint(ids[i as int]) + (varints_bytes(
                        ids.skip(i as int + 1),
                    ) + rest));
                }
            }
            let id = r.read_i32_encoded()?;
            player_ids.push(id);
            proof {
                crate::codec::lemma_cast_round_trips();
                assert forall|ids: Seq<u32>, rest: Seq<u8>|
                    mark == #[trigger] (varints_bytes(ids) + rest) && ids.len() == count implies (
                player_ids@.len() == i + 1 && (forall|k: int|
                    0 <= k < i + 1 ==> (#[trigger] player_ids@[k]) as u32 == ids[k]) && r.rem()
                    == varints_bytes(ids.skip(i as int + 1)) + rest) by {
                    assert(player_ids@[i as int] == id);
                }
            }
            i = i + 1;
        }
        proof {
            assert forall|ids: Seq<u32>, rest: Seq<u8>|
                mark == #[trigger] (varints_bytes(ids) + rest) && ids.len() == count implies
                r.rem() == rest by {
                assert(ids.skip(ids.len() as int) =~= Seq::<u32>::empty());
                assert(varints_bytes(ids.skip(ids.len() as int)) + rest =~= rest);
            }
        }
        Ok(JoinedGamePacket { game_id, client_id, host_id, player_ids })
    }
}

/// The master-server list the matchmaker may answer with.
#[derive(Debug, Clone, PartialEq)]
pub struct ServerListPacket {
    pub servers: Vec<ServerInfo>,
}

impl ServerListPacket {
    /// Reads a server list: a flag byte that must be 1, a varint count,
    /// then that many messages each holding one server entry.
    pub fn deserialize(r: &mut PacketReader) -> (res: Result<ServerListPacket, CodecError>)
        requires
            old(r).wf(),
        ensures
            final(r).wf(),
            res matches Ok(_) ==> old(r).rem().len() >= 1 && old(r).rem()[0] == 1,
    {
        let flag = r.read_u8()?;
        if flag != 1 {
            return Err(CodecError::InvalidDiscriminant);
        }
        let count = r.read_u32_encoded()?;
        let mut servers: Vec<ServerInfo> = Vec::new();
        let mut i: u32 = 0;
        while i < count
            invariant
                r.wf(),
            decreases count - i,
        {
            let (tag, mut inner) = r.read_message()?;
            if tag != 0 {
                return Err(CodecError::InvalidDiscriminant);
            }
            let info = ServerInfo::deserialize(&mut inner)?;
            servers.push(info);
            i = i + 1;
        }
        Ok(ServerListPacket { servers })
    }
}

/// One page of public game listings.
#[derive(Debug, Clone)]
pub struct GameListPacket {
    pub games: Vec<GameListing>,
}

impl GameListPacket {
    /// Reads a listing page: one message with tag 0 wrapping a sequence of
    /// tag-0 messages, each holding one listing.
    pub fn deserialize(r: &mut PacketReader) -> (res: Result<GameListPacket, CodecError>)
        requires
            old(r).wf(),
        ensures
            final(r).wf(),
    {
        let (tag, mut inner) = r.read_message()?;
        if tag != 0 {
            return Err(CodecError::InvalidDiscriminant);
        }
        let mut games: Vec<GameListing> = Vec::new();
        while inner.remaining() > 0
            invariant
                r.wf(),
                inner.wf(),
            decreases inner.rem().len(),
        {
            let (list_tag, mut list_data) = inner.read_message()?;
            if list_tag != 0 {
                return Err(CodecError::InvalidDiscriminant);
            }
            let listing = GameListing::deserialize(&mut list_data)?;
            games.push(listing);
        }
        Ok(GameListPacket { games })
    }
}

/// The matchmaker query for public games matching a set of options.
#[derive(Debug, Clone, PartialEq)]
pub struct RequestGameListPacket {
    game_options: GameOptions,
}

impl RequestGameListPacket {
    /// The options the request queries with.
    pub closed spec fn spec_options(&self) -> GameOptions {
        self.game_options
    }

    /// A request for the given language bits, map bits and imposter count,
    /// with every other option at its stock value.
    pub fn new(language: u32, maps: u8, num_imposters: i8) -> (r: RequestGameListPacket)
        requires
            language <= LANGUAGE_MASK,
        ensures
            r.spec_options() == (GameOptions {
                game_settings_version: 2u8,
                max_players: 10u8,
                language: language,
                map_id: maps,
                player_speed: 0x3F800000u32,
                crew_light: 0x3F800000u32,
                imposter_light: 0x3FC00000u32,
                kill_cooldown: 0x41700000u32,
                num_common_tasks: 1u8,
                num_long_tasks: 2u8,
                num_short_tasks: 1u8,
                num_emergency_meetings: 1i32,
                num_imposters: num_imposters,
                kill_distance: 1i8,
                discussion_time: 15i32,
                voting_time: 120i32,
                is_defaults: 1u8,
                emergency_cooldown: 15u8,
            }),
            r.spec_options().wf(),
    {
        let mut game_options = GameOptions::default();
        game_options.language = language;
        game_options.map_id = maps;
        game_options.num_imposters = num_imposters;
        RequestGameListPacket { game_options }
    }

    /// The request on the wire: a zero byte, the byte count of the options
    /// block as a varint, then the block itself.
    pub open spec fn spec_ser(&self) -> Seq<u8> {
        seq![0u8] + varint(42) + self.spec_options().spec_ser()
    }

    pub fn serialize(&self, w: &mut PacketWriter)
        requires
            old(w).wf(),
        ensures
            final(w).wf(),
            final(w).out() == old(w).out() + self.spec_ser(),
            final(w).starts() == old(w).starts(),
    {
        w.write_u8(0);
        let mut inner = PacketWriter::new();
        self.game_options.serialize(&mut inner);
        let body = inner.finish();
        w.write_u32_encoded(body.len() as u32);
        w.write_bytes_raw(body.as_slice());
        proof {
            assert(body@ =~= self.game_options.spec_ser());
            assert(self.game_options.spec_ser().len() == 42);
            assert(final(w).out() =~= old(w).out() + self.spec_ser());
        }
    }
}


} // verus!
