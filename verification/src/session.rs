//! The game session: connection settings, the handshake, the packet
//! dispatch loop's decisions, the registry of live networked objects, and
//! the matchmaker scan arithmetic.
//!
//! The session is a state machine over plain values. Outbound traffic is
//! queued in an outbox of framed message bodies; the embedding application
//! drains it into the transport, feeds received packets back in, and acts
//! on the returned reconnection requests.

use vstd::prelude::*;

verus! {

use vstd::string::StringSliceAdditionalSpecFns;
use vstd::string::StringExecFns;
use vstd::utf8::encode_utf8;
use crate::codec::{le16, le32, message_bytes, varint, CodecError, PacketReader, PacketWriter};
use crate::hazel::HazelPacket;
use crate::netobjects::{
    rpc_string_payload, GameData, Lobby, PlayerControl, PlayerPhysics, PlayerTransform,
    RPCCallback, VoteBanSystem, World, RPC_CHECK_COLOR, RPC_CHECK_NAME, RPC_ENTER_VENT,
    RPC_SEND_CHAT, RPC_SET_HAT, RPC_SET_PET, RPC_SET_SKIN, RPC_SNAP_TO, RPC_UPDATE_PLAYER_INFO,
};
use crate::objects::{Address, GameId, GameOptions, LANGUAGE_MASK};
use crate::packets::{
    read_all_packets, DisconnectReason, GameInfo, JoinGamePacket, Packet, PacketType, Prefab,
    ServerListPacket,
};

/// The protocol version this client reports: the decimal-packed build
/// number of the game release it speaks for.
pub const PROTOCOL_VERSION: u32 = 50516550;

/// The port the main servers listen on.
pub const DEFAULT_PORT: u16 = 22023;

/// The main matchmaker servers.
#[derive(Debug, Copy, Clone)]
pub enum MainServer {
    Europe,
    NorthAmerica,
    Asia,
}

impl MainServer {
    /// The fixed address of a main server.
    pub fn to_addr(&self) -> (r: Address)
        ensures
            r.port == DEFAULT_PORT,
            (self is Europe ==> r.ip@ == seq![172u8, 105u8, 251u8, 170u8]),
            (self is NorthAmerica ==> r.ip@ == seq![66u8, 175u8, 220u8, 120u8]),
            (self is Asia ==> r.ip@ == seq![139u8, 162u8, 111u8, 196u8]),
    {
        let r = match self {
            MainServer::Europe => Address { ip: [172, 105, 251, 170], port: DEFAULT_PORT },
            MainServer::NorthAmerica => Address { ip: [66, 175, 220, 120], port: DEFAULT_PORT },
            MainServer::Asia => Address { ip: [139, 162, 111, 196], port: DEFAULT_PORT },
        };
        proof {
            match self {
                MainServer::Europe => assert(r.ip@ =~= seq![172u8, 105u8, 251u8, 170u8]),
                MainServer::NorthAmerica => assert(r.ip@ =~= seq![66u8, 175u8, 220u8, 120u8]),
                MainServer::Asia => assert(r.ip@ =~= seq![139u8, 162u8, 111u8, 196u8]),
            }
        }
        r
    }
}

/// Connection-time options for a game session.
pub struct ClientSettings {
    /// The username sent in the transport hello.
    pub connect_username: String,
    /// The username requested once in the game.
    pub game_username: String,
    /// The color requested on joining.
    pub initial_color: u8,
    /// The skin requested on joining.
    pub initial_skin: u32,
    /// The hat requested on joining.
    pub initial_hat: u32,
    /// The pet requested on joining.
    pub initial_pet: u32,
    /// The scene name announced after joining.
    pub game_scene: String,
    /// Whether to announce the scene; the host sends initial data only
    /// after it.
    pub send_scene: bool,
    /// Whether to request name, color, skin, hat and pet on joining.
    pub send_initial_info: bool,
}

impl Default for ClientSettings {
    /// Plain defaults: a generic username, the first cosmetics, the online
    /// scene, and both join-time announcements enabled.
    fn default() -> (r: ClientSettings)
        ensures
            r.connect_username@ == "client"@,
            r.game_username@ == "client"@,
            r.initial_color == 0 && r.initial_skin == 0 && r.initial_hat == 0 && r.initial_pet
                == 0,
            r.game_scene@ == "OnlineGame"@,
            r.send_scene && r.send_initial_info,
    {
        ClientSettings {
            connect_username: String::from_str("client"),
            game_username: String::from_str("client"),
            initial_color: 0,
            initial_skin: 0,
            initial_hat: 0,
            initial_pet: 0,
            game_scene: String::from_str("OnlineGame"),
            send_scene: true,
            send_initial_info: true,
        }
    }
}

/// Options for a matchmaker scan.
pub struct ScanSettings {
    /// The main server to query.
    pub server: MainServer,
    /// The username sent in the transport hello.
    pub connect_username: String,
    /// The map bits to query.
    pub maps: u8,
    /// The language bits to query.
    pub language: u32,
    /// The imposter count to query; zero asks for any.
    pub num_imposters: i8,
    /// The cap on listing requests in flight.
    pub max_requests: u32,
    /// How many listings the scan tries to keep buffered.
    pub cache_size: u32,
}

impl Default for ScanSettings {
    /// Stock scan: Europe, every map, every language, any imposter count,
    /// at most ten requests toward two hundred buffered listings.
    fn default() -> (r: ScanSettings)
        ensures
            r.server is Europe,
            r.connect_username@ == "client"@,
            r.maps == 7 && r.language == 0 && r.num_imposters == 0,
            r.max_requests == 10 && r.cache_size == 200,
    {
        ScanSettings {
            server: MainServer::Europe,
            connect_username: String::from_str("client"),
            maps: 7,
            language: 0,
            num_imposters: 0,
            max_requests: 10,
            cache_size: 200,
        }
    }
}

/// The body of the transport hello: a reserved zero byte, the protocol
/// version, and the connect username.
pub open spec fn hello_payload(version: u32, username: Seq<char>) -> Seq<u8> {
    seq![0u8] + le32(version) + varint(encode_utf8(username).len() as u32) + encode_utf8(username)
}

/// Builds the hello body for a username.
pub fn build_hello(version: u32, username: &str) -> (r: Vec<u8>)
    requires
        username.spec_bytes().len() <= u32::MAX,
    ensures
        r@ == hello_payload(version, username@),
{
    let mut w = PacketWriter::new();
    w.write_u8(0);
    w.write_u32(version);
    w.write_string(username);
    proof {
        assert(w.out() =~= hello_payload(version, username@));
    }
    w.finish()
}

/// One queued send: a framed body awaiting its transport discipline.
#[derive(Debug, Clone, PartialEq)]
pub enum Outbound {
    Reliable(Vec<u8>),
    Unreliable(Vec<u8>),
    Hello(Vec<u8>),
}

impl View for Outbound {
    type V = Seq<u8>;

    open spec fn view(&self) -> Seq<u8> {
        match self {
            Outbound::Reliable(b) => b@,
            Outbound::Unreliable(b) => b@,
            Outbound::Hello(b) => b@,
        }
    }
}


/// The position of the first control object a client owns, if any.
pub open spec fn first_control(s: Seq<PlayerControl>, owner_id: i32) -> Option<int>
    decreases s.len(),
{
    if s.len() == 0 {
        None
    } else if s[0].owner_id == owner_id {
        Some(0)
    } else {
        match first_control(s.drop_first(), owner_id) {
            Some(i) => Some(i + 1),
            None => None,
        }
    }
}

/// The position of the first physics object a client owns, if any.
pub open spec fn first_physics(s: Seq<PlayerPhysics>, owner_id: i32) -> Option<int>
    decreases s.len(),
{
    if s.len() == 0 {
        None
    } else if s[0].owner_id == owner_id {
        Some(0)
    } else {
        match first_physics(s.drop_first(), owner_id) {
            Some(i) => Some(i + 1),
            None => None,
        }
    }
}

/// The position of the first transform object a client owns, if any.
pub open spec fn first_transform(s: Seq<PlayerTransform>, owner_id: i32) -> Option<int>
    decreases s.len(),
{
    if s.len() == 0 {
        None
    } else if s[0].owner_id == owner_id {
        Some(0)
    } else {
        match first_transform(s.drop_first(), owner_id) {
            Some(i) => Some(i + 1),
            None => None,
        }
    }
}

proof fn lemma_first_control(s: Seq<PlayerControl>, owner_id: i32, i: int)
    requires
        0 <= i <= s.len(),
        forall|j: int| 0 <= j < i ==> (#[trigger] s[j]).owner_id != owner_id,
        i < s.len() ==> s[i].owner_id == owner_id,
    ensures
        i < s.len() ==> first_control(s, owner_id) == Some(i),
        i == s.len() ==> first_control(s, owner_id) is None,
    decreases s.len(),
{
    if s.len() > 0 && s[0].owner_id != owner_id {
        assert(forall|j: int| 0 <= j < s.drop_first().len() ==> s.drop_first()[j] == s[j + 1]);
        lemma_first_control(s.drop_first(), owner_id, i - 1);
    }
}

proof fn lemma_first_physics(s: Seq<PlayerPhysics>, owner_id: i32, i: int)
    requires
        0 <= i <= s.len(),
        forall|j: int| 0 <= j < i ==> (#[trigger] s[j]).owner_id != owner_id,
        i < s.len() ==> s[i].owner_id == owner_id,
    ensures
        i < s.len() ==> first_physics(s, owner_id) == Some(i),
        i == s.len() ==> first_physics(s, owner_id) is None,
    decreases s.len(),
{
    if s.len() > 0 && s[0].owner_id != owner_id {
        assert(forall|j: int| 0 <= j < s.drop_first().len() ==> s.drop_first()[j] == s[j + 1]);
        lemma_first_physics(s.drop_first(), owner_id, i - 1);
    }
}

proof fn lemma_first_transform(s: Seq<PlayerTransform>, owner_id: i32, i: int)
    requires
        0 <= i <= s.len(),
        forall|j: int| 0 <= j < i ==> (#[trigger] s[j]).owner_id != owner_id,
        i < s.len() ==> s[i].owner_id == owner_id,
    ensures
        i < s.len() ==> first_transform(s, owner_id) == Some(i),
        i == s.len() ==> first_transform(s, owner_id) is None,
    decreases s.len(),
{
    if s.len() > 0 && s[0].owner_id != owner_id {
        assert(forall|j: int| 0 <= j < s.drop_first().len() ==> s.drop_first()[j] == s[j + 1]);
        lemma_first_transform(s.drop_first(), owner_id, i - 1);
    }
}

/// One RPC event as a wire message: tag 2, the target's net id, the call id
/// and the payload.
pub open spec fn rpc_message(net_id: u32, call_id: u8, payload: Seq<u8>) -> Seq<u8> {
    message_bytes(2, varint(net_id) + seq![call_id] + payload)
}

/// A broadcast `GameInfo` frame body wrapping one inner event.
pub open spec fn game_info_frame(game_id: GameId, inner: Seq<u8>) -> Seq<u8> {
    message_bytes(5, le32(game_id.id as u32) + inner)
}

/// A host-directed `GameInfoTo` frame body wrapping one inner event.
pub open spec fn game_info_to_frame(game_id: GameId, to_client: i32, inner: Seq<u8>) -> Seq<u8> {
    message_bytes(6, le32(game_id.id as u32) + varint(to_client as u32) + inner)
}

/// A replication event that can fire no application callback: anything but
/// a chat RPC or a spawn of this client's own player.
pub open spec fn quiet_info(g: GameInfo, client_id: Option<i32>) -> bool {
    match g {
        GameInfo::RPC { call_id, .. } => call_id != RPC_SEND_CHAT,
        GameInfo::CreateFromPrefab { prefab, .. } => !(prefab matches Prefab::Player(c, _, _)
            && client_id matches Some(cid) && c.owner_id == cid),
        _ => true,
    }
}

/// What one callback-free replication event does to the object registry.
pub open spec fn quiet_step(pre: NetObjectHandler, post: NetObjectHandler, g: GameInfo) -> bool {
    match g {
        GameInfo::Destroy { net_id } => (pre.spec_contains(net_id) ==> removed_net_object(
            pre,
            post,
            net_id,
        )) && (!pre.spec_contains(net_id) ==> post == pre),
        GameInfo::UpdateData { net_id, .. } => dispatch_frame(pre, post, net_id),
        GameInfo::RPC { net_id, .. } => dispatch_frame(pre, post, net_id),
        GameInfo::CreateFromPrefab { prefab, .. } => added_prefab(pre, post, prefab),
        _ => post == pre,
    }
}

/// The registry after a run of callback-free events: each event's step,
/// chained in order.
pub open spec fn quiet_effect(
    pre: NetObjectHandler,
    post: NetObjectHandler,
    events: Seq<GameInfo>,
) -> bool
    decreases events.len(),
{
    if events.len() == 0 {
        post == pre
    } else {
        exists|mid: NetObjectHandler|
            #[trigger] quiet_step(pre, mid, events[0]) && quiet_effect(
                mid,
                post,
                events.drop_first(),
            )
    }
}

proof fn lemma_quiet_effect_push(
    a: NetObjectHandler,
    b: NetObjectHandler,
    c: NetObjectHandler,
    events: Seq<GameInfo>,
    g: GameInfo,
)
    requires
        quiet_effect(a, b, events),
        quiet_step(b, c, g),
    ensures
        quiet_effect(a, c, events.push(g)),
    decreases events.len(),
{
    if events.len() == 0 {
        assert(b == a);
        assert(events.push(g)[0] == g);
        assert(events.push(g).drop_first() =~= Seq::<GameInfo>::empty());
        assert(quiet_step(a, c, g) && quiet_effect(c, c, events.push(g).drop_first()));
    } else {
        let mid = choose|mid: NetObjectHandler|
            #[trigger] quiet_step(a, mid, events[0]) && quiet_effect(
                mid,
                b,
                events.drop_first(),
            );
        lemma_quiet_effect_push(mid, b, c, events.drop_first(), g);
        assert(events.push(g)[0] == events[0]);
        assert(events.push(g).drop_first() =~= events.drop_first().push(g));
        assert(quiet_step(a, mid, events.push(g)[0]) && quiet_effect(
            mid,
            c,
            events.push(g).drop_first(),
        ));
    }
}

/// Whether a packet scoped to a game id belongs to the session's game.
pub open spec fn in_same_game(c: Client, game_id: GameId) -> bool {
    c.game_id matches Some(g) && g.id == game_id.id
}


/// What a dispatched frame body guarantees: an unparseable body changes
/// nothing; a redirect address is returned only out of a parsed
/// `ChangeServer` message; and a body holding exactly one well-formed
/// `ChangeServer` (while in a game) yields the redirect with a fresh hello
/// and join queued.
pub open spec fn frame_body_outcome(
    pre: Client,
    post: Client,
    reconnect: Option<Address>,
    body: Seq<u8>,
    connect_username: Seq<char>,
) -> bool {
    &&& (crate::codec::parse_messages(body) is None ==> post == pre && reconnect is None)
    &&& (match reconnect {
        Some(a) => match crate::codec::parse_messages(body) {
            Some(ms) => exists|i: int|
                0 <= i < ms.len() && (#[trigger] ms[i]).0 == 0x0d && ms[i].1.len() >= 6
                    && ms[i].1.subrange(0, 6) == a.spec_ser(),
            None => false,
        },
        None => true,
    })
    &&& ((match crate::codec::parse_messages(body) {
        Some(ms) => ms.len() == 1 && ms[0].0 == 0x0d && ms[0].1.len() >= 6,
        None => false,
    }) && pre.game_id is Some ==> {
        let ms = crate::codec::parse_messages(body).unwrap();
        &&& (reconnect matches Some(a) && a.spec_ser() == ms[0].1.subrange(0, 6))
        &&& post.game_id == pre.game_id
        &&& post.outbox@.len() == pre.outbox@.len() + 2
        &&& (post.outbox@[pre.outbox@.len() as int] matches Outbound::Hello(h) && h@
            == hello_payload(PROTOCOL_VERSION, connect_username))
        &&& (post.outbox@.last() matches Outbound::Reliable(b) && b@ == message_bytes(
            1,
            le32(pre.game_id.unwrap().id as u32) + seq![7u8],
        ))
    })
}

/// The outbox gained exactly one reliable frame with the given bytes.
pub open spec fn pushed_reliable(
    old_box: Seq<Outbound>,
    new_box: Seq<Outbound>,
    bytes: Seq<u8>,
) -> bool {
    &&& new_box.len() == old_box.len() + 1
    &&& new_box.drop_last() == old_box
    &&& match new_box.last() {
        Outbound::Reliable(b) => b@ == bytes,
        _ => false,
    }
}


/// Exactly one object, in whichever bucket held the net id, was removed;
/// every other object in every bucket is kept.
pub open spec fn removed_net_object(
    pre: NetObjectHandler,
    post: NetObjectHandler,
    net_id: u32,
) -> bool {
    ||| (exists|i: int|
        0 <= i < pre.player_controls@.len() && (#[trigger] pre.player_controls@[i]).net_id
            == net_id && post.player_controls@ == pre.player_controls@.remove(i)
            && post.player_physics@ == pre.player_physics@ && post.player_transforms@
            == pre.player_transforms@ && post.worlds@ == pre.worlds@ && post.lobbies@
            == pre.lobbies@ && post.game_datas@ == pre.game_datas@ && post.vote_bans@
            == pre.vote_bans@)
    ||| (exists|i: int|
        0 <= i < pre.player_physics@.len() && (#[trigger] pre.player_physics@[i]).net_id == net_id
            && post.player_physics@ == pre.player_physics@.remove(i) && post.player_controls@
            == pre.player_controls@ && post.player_transforms@ == pre.player_transforms@
            && post.worlds@ == pre.worlds@ && post.lobbies@ == pre.lobbies@ && post.game_datas@
            == pre.game_datas@ && post.vote_bans@ == pre.vote_bans@)
    ||| (exists|i: int|
        0 <= i < pre.player_transforms@.len() && (#[trigger] pre.player_transforms@[i]).net_id
            == net_id && post.player_transforms@ == pre.player_transforms@.remove(i)
            && post.player_controls@ == pre.player_controls@ && post.player_physics@
            == pre.player_physics@ && post.worlds@ == pre.worlds@ && post.lobbies@ == pre.lobbies@
            && post.game_datas@ == pre.game_datas@ && post.vote_bans@ == pre.vote_bans@)
    ||| (exists|i: int|
        0 <= i < pre.worlds@.len() && (#[trigger] pre.worlds@[i]).net_id == net_id && post.worlds@
            == pre.worlds@.remove(i) && post.player_controls@ == pre.player_controls@
            && post.player_physics@ == pre.player_physics@ && post.player_transforms@
            == pre.player_transforms@ && post.lobbies@ == pre.lobbies@ && post.game_datas@
            == pre.game_datas@ && post.vote_bans@ == pre.vote_bans@)
    ||| (exists|i: int|
        0 <= i < pre.lobbies@.len() && (#[trigger] pre.lobbies@[i]).net_id == net_id
            && post.lobbies@ == pre.lobbies@.remove(i) && post.player_controls@
            == pre.player_controls@ && post.player_physics@ == pre.player_physics@
            && post.player_transforms@ == pre.player_transforms@ && post.worlds@ == pre.worlds@
            && post.game_datas@ == pre.game_datas@ && post.vote_bans@ == pre.vote_bans@)
    ||| (exists|i: int|
        0 <= i < pre.game_datas@.len() && (#[trigger] pre.game_datas@[i]).net_id == net_id
            && post.game_datas@ == pre.game_datas@.remove(i) && post.player_controls@
            == pre.player_controls@ && post.player_physics@ == pre.player_physics@
            && post.player_transforms@ == pre.player_transforms@ && post.worlds@ == pre.worlds@
            && post.lobbies@ == pre.lobbies@ && post.vote_bans@ == pre.vote_bans@)
    ||| (exists|i: int|
        0 <= i < pre.vote_bans@.len() && (#[trigger] pre.vote_bans@[i]).net_id == net_id
            && post.vote_bans@ == pre.vote_bans@.remove(i) && post.player_controls@
            == pre.player_controls@ && post.player_physics@ == pre.player_physics@
            && post.player_transforms@ == pre.player_transforms@ && post.worlds@ == pre.worlds@
            && post.lobbies@ == pre.lobbies@ && post.game_datas@ == pre.game_datas@)
}

/// The registry of live networked objects, in one bucket per kind. Lookup
/// is linear; object counts are small.
#[derive(Debug)]
pub struct NetObjectHandler {
    pub player_controls: Vec<PlayerControl>,
    pub player_physics: Vec<PlayerPhysics>,
    pub player_transforms: Vec<PlayerTransform>,
    pub worlds: Vec<World>,
    pub lobbies: Vec<Lobby>,
    pub game_datas: Vec<GameData>,
    pub vote_bans: Vec<VoteBanSystem>,
}

impl Default for NetObjectHandler {
    /// An empty registry.
    fn default() -> (r: NetObjectHandler)
        ensures
            r.player_controls@.len() == 0 && r.player_physics@.len() == 0
                && r.player_transforms@.len() == 0 && r.worlds@.len() == 0 && r.lobbies@.len() == 0
                && r.game_datas@.len() == 0 && r.vote_bans@.len() == 0,
    {
        NetObjectHandler {
            player_controls: Vec::new(),
            player_physics: Vec::new(),
            player_transforms: Vec::new(),
            worlds: Vec::new(),
            lobbies: Vec::new(),
            game_datas: Vec::new(),
            vote_bans: Vec::new(),
        }
    }
}

impl NetObjectHandler {
    pub fn new() -> (r: NetObjectHandler)
        ensures
            r.player_controls@.len() == 0 && r.player_physics@.len() == 0
                && r.player_transforms@.len() == 0 && r.worlds@.len() == 0 && r.lobbies@.len() == 0
                && r.game_datas@.len() == 0 && r.vote_bans@.len() == 0,
    {
        NetObjectHandler {
            player_controls: Vec::new(),
            player_physics: Vec::new(),
            player_transforms: Vec::new(),
            worlds: Vec::new(),
            lobbies: Vec::new(),
            game_datas: Vec::new(),
            vote_bans: Vec::new(),
        }
    }

    /// Whether some live object carries a net id.
    pub open spec fn spec_contains(&self, net_id: u32) -> bool {
        ||| (exists|i: int|
            0 <= i < self.player_controls@.len() && (#[trigger] self.player_controls@[i]).net_id
                == net_id)
        ||| (exists|i: int|
            0 <= i < self.player_physics@.len() && (#[trigger] self.player_physics@[i]).net_id
                == net_id)
        ||| (exists|i: int|
            0 <= i < self.player_transforms@.len() && (#[trigger] self.player_transforms@[i]).net_id
                == net_id)
        ||| (exists|i: int|
            0 <= i < self.worlds@.len() && (#[trigger] self.worlds@[i]).net_id == net_id)
        ||| (exists|i: int|
            0 <= i < self.lobbies@.len() && (#[trigger] self.lobbies@[i]).net_id == net_id)
        ||| (exists|i: int|
            0 <= i < self.game_datas@.len() && (#[trigger] self.game_datas@[i]).net_id == net_id)
        ||| (exists|i: int|
            0 <= i < self.vote_bans@.len() && (#[trigger] self.vote_bans@[i]).net_id == net_id)
    }

    /// Files each object of a spawned prefab in its bucket: exactly the
    /// prefab's components are appended and every other bucket is kept; an
    /// unknown prefab adds nothing.
    pub fn add(&mut self, prefab: Prefab)
        ensures
            added_prefab(*old(self), *final(self), prefab),
    {
        match prefab {
            Prefab::Player(control, physics, transform) => {
                self.player_controls.push(control);
                self.player_physics.push(physics);
                self.player_transforms.push(transform);
            },
            Prefab::World(world) => self.worlds.push(world),
            Prefab::Lobby(lobby) => self.lobbies.push(lobby),
            Prefab::GameData(game_data, vote_ban) => {
                self.game_datas.push(game_data);
                self.vote_bans.push(vote_ban);
            },
            Prefab::Unknown => (),
        }
    }

    /// Removes the first object carrying a net id from whichever bucket
    /// holds it; returns whether one was found. Nothing else changes.
    pub fn remove(&mut self, net_id: u32) -> (r: bool)
        ensures
            r == old(self).spec_contains(net_id),
            !r ==> *final(self) == *old(self),
            r ==> removed_net_object(*old(self), *final(self), net_id),
            (forall|i: int|
                0 <= i < old(self).game_datas@.len() ==> (#[trigger] old(self).game_datas@[i]).wf()) ==> (forall|i: int|
                0 <= i < final(self).game_datas@.len() ==> (#[trigger] final(self).game_datas@[i]).wf()),
    {
        let mut i: usize = 0;
        let n1 = self.player_controls.len();
        while i < n1
            invariant
                *self == *old(self),
                n1 == self.player_controls@.len(),
                i <= n1,
                forall|j: int|
                    0 <= j < i ==> (#[trigger] self.player_controls@[j]).net_id != net_id,
            decreases n1 - i,
        {
            if self.player_controls[i].net_id == net_id {
                self.player_controls.remove(i);
                proof {
                    assert(self.game_datas@ =~= old(self).game_datas@);
                }
                return true;
            }
            i = i + 1;
        }
        let n2 = self.player_physics.len();
        i = 0;
        while i < n2
            invariant
                *self == *old(self),
                n2 == self.player_physics@.len(),
                i <= n2,
                forall|j: int| 0 <= j < i ==> (#[trigger] self.player_physics@[j]).net_id != net_id,
            decreases n2 - i,
        {
            if self.player_physics[i].net_id == net_id {
                self.player_physics.remove(i);
                proof {
                    assert(self.game_datas@ =~= old(self).game_datas@);
                }
                return true;
            }
            i = i + 1;
        }
        let n3 = self.player_transforms.len();
        i = 0;
        while i < n3
            invariant
                *self == *old(self),
                n3 == self.player_transforms@.len(),
                i <= n3,
                forall|j: int|
                    0 <= j < i ==> (#[trigger] self.player_transforms@[j]).net_id != net_id,
            decreases n3 - i,
        {
            if self.player_transforms[i].net_id == net_id {
                self.player_transforms.remove(i);
                proof {
                    assert(self.game_datas@ =~= old(self).game_datas@);
                }
                return true;
            }
            i = i + 1;
        }
        let n4 = self.worlds.len();
        i = 0;
        while i < n4
            invariant
                *self == *old(self),
                n4 == self.worlds@.len(),
                i <= n4,
                forall|j: int| 0 <= j < i ==> (#[trigger] self.worlds@[j]).net_id != net_id,
            decreases n4 - i,
        {
            if self.worlds[i].net_id == net_id {
                self.worlds.remove(i);
                proof {
                    assert(self.game_datas@ =~= old(self).game_datas@);
                }
                return true;
            }
            i = i + 1;
        }
        let n5 = self.lobbies.len();
        i = 0;
        while i < n5
            invariant
                *self == *old(self),
                n5 == self.lobbies@.len(),
                i <= n5,
                forall|j: int| 0 <= j < i ==> (#[trigger] self.lobbies@[j]).net_id != net_id,
            decreases n5 - i,
        {
            if self.lobbies[i].net_id == net_id {
                self.lobbies.remove(i);
                proof {
                    assert(self.game_datas@ =~= old(self).game_datas@);
                }
                return true;
            }
            i = i + 1;
        }
        let n6 = self.game_datas.len();
        i = 0;
        while i < n6
            invariant
                *self == *old(self),
                n6 == self.game_datas@.len(),
                i <= n6,
                forall|j: int| 0 <= j < i ==> (#[trigger] self.game_datas@[j]).net_id != net_id,
            decreases n6 - i,
        {
            if self.game_datas[i].net_id == net_id {
                self.game_datas.remove(i);
                proof {
                    if forall|k: int|
                        0 <= k < old(self).game_datas@.len() ==> (#[trigger] old(self).game_datas@[k]).wf() {
                        assert forall|j: int|
                            0 <= j < self.game_datas@.len() implies (
                        #[trigger] self.game_datas@[j]).wf() by {
                            if j < i {
                                assert(self.game_datas@[j] == old(self).game_datas@[j]);
                            } else {
                                assert(self.game_datas@[j] == old(self).game_datas@[j + 1]);
                            }
                        }
                    }
                }
                return true;
            }
            i = i + 1;
        }
        let n7 = self.vote_bans.len();
        i = 0;
        while i < n7
            invariant
                *self == *old(self),
                n7 == self.vote_bans@.len(),
                i <= n7,
                forall|j: int| 0 <= j < i ==> (#[trigger] self.vote_bans@[j]).net_id != net_id,
            decreases n7 - i,
        {
            if self.vote_bans[i].net_id == net_id {
                self.vote_bans.remove(i);
                proof {
                    assert(self.game_datas@ =~= old(self).game_datas@);
                }
                return true;
            }
            i = i + 1;
        }
        false
    }

    /// Finds the first control object a client owns.
    pub fn get_player_control(&self, owner_id: i32) -> (r: Option<&PlayerControl>)
        ensures
            match r {
                Some(c) => first_control(self.player_controls@, owner_id) matches Some(i) && *c
                    == self.player_controls@[i],
                None => first_control(self.player_controls@, owner_id) is None,
            },
    {
        let n = self.player_controls.len();
        let mut i: usize = 0;
        while i < n
            invariant
                n == self.player_controls@.len(),
                i <= n,
                forall|j: int|
                    0 <= j < i ==> (#[trigger] self.player_controls@[j]).owner_id != owner_id,
            decreases n - i,
        {
            if self.player_controls[i].owner_id == owner_id {
                proof {
                    lemma_first_control(self.player_controls@, owner_id, i as int);
                }
                return Some(&self.player_controls[i]);
            }
            i = i + 1;
        }
        proof {
            lemma_first_control(self.player_controls@, owner_id, n as int);
        }
        None
    }

    /// Finds the first physics object a client owns.
    pub fn get_player_physics(&self, owner_id: i32) -> (r: Option<&PlayerPhysics>)
        ensures
            match r {
                Some(c) => first_physics(self.player_physics@, owner_id) matches Some(i) && *c
                    == self.player_physics@[i],
                None => first_physics(self.player_physics@, owner_id) is None,
            },
    {
        let n = self.player_physics.len();
        let mut i: usize = 0;
        while i < n
            invariant
                n == self.player_physics@.len(),
                i <= n,
                forall|j: int|
                    0 <= j < i ==> (#[trigger] self.player_physics@[j]).owner_id != owner_id,
            decreases n - i,
        {
            if self.player_physics[i].owner_id == owner_id {
                proof {
                    lemma_first_physics(self.player_physics@, owner_id, i as int);
                }
                return Some(&self.player_physics[i]);
            }
            i = i + 1;
        }
        proof {
            lemma_first_physics(self.player_physics@, owner_id, n as int);
        }
        None
    }

    /// Finds the first transform object a client owns.
    pub fn get_player_transform(&self, owner_id: i32) -> (r: Option<&PlayerTransform>)
        ensures
            match r {
                Some(c) => first_transform(self.player_transforms@, owner_id) matches Some(i) && *c
                    == self.player_transforms@[i],
                None => first_transform(self.player_transforms@, owner_id) is None,
            },
    {
        let n = self.player_transforms.len();
        let mut i: usize = 0;
        while i < n
            invariant
                n == self.player_transforms@.len(),
                i <= n,
                forall|j: int|
                    0 <= j < i ==> (#[trigger] self.player_transforms@[j]).owner_id != owner_id,
            decreases n - i,
        {
            if self.player_transforms[i].owner_id == owner_id {
                proof {
                    lemma_first_transform(self.player_transforms@, owner_id, i as int);
                }
                return Some(&self.player_transforms[i]);
            }
            i = i + 1;
        }
        proof {
            lemma_first_transform(self.player_transforms@, owner_id, n as int);
        }
        None
    }

    /// Applies an update-data payload to the object carrying a net id;
    /// returns whether one was found. Only that object may change.
    pub fn update_object_data(&mut self, net_id: u32, data: &Vec<u8>) -> (r: Result<
        bool,
        CodecError,
    >)
        ensures
            dispatch_frame(*old(self), *final(self), net_id),
            r matches Ok(false) ==> !old(self).spec_contains(net_id) && *final(self) == *old(self),
            r matches Ok(true) ==> old(self).spec_contains(net_id),
            (forall|i: int|
                0 <= i < old(self).game_datas@.len() ==> (#[trigger] old(self).game_datas@[i]).wf()) ==> (forall|i: int|
                0 <= i < final(self).game_datas@.len() ==> (#[trigger] final(self).game_datas@[i]).wf()),
    {
        let mut reader = PacketReader::new(clone_vec_u8(data));
        let mut i: usize;
        let n_player_controls = self.player_controls.len();
        i = 0;
        while i < n_player_controls
            invariant
                n_player_controls == self.player_controls@.len(),
                i <= n_player_controls,
                *self == *old(self),
                reader.wf(),
                forall|j: int| 0 <= j < i ==> (#[trigger] old(self).player_controls@[j]).net_id != net_id,
            decreases n_player_controls - i,
        {
            if self.player_controls[i].net_id == net_id {
                let obj = &mut self.player_controls[i];
                let res = obj.update_data(&mut reader);
                return match res {
                    Ok(_) => Ok(true),
                    Err(e) => Err(e),
                };
            }
            i = i + 1;
        }
        let n_player_physics = self.player_physics.len();
        i = 0;
        while i < n_player_physics
            invariant
                n_player_physics == self.player_physics@.len(),
                i <= n_player_physics,
                *self == *old(self),
                reader.wf(),
                forall|j: int| 0 <= j < i ==> (#[trigger] old(self).player_physics@[j]).net_id != net_id,
            decreases n_player_physics - i,
        {
            if self.player_physics[i].net_id == net_id {
                let obj = &mut self.player_physics[i];
                let res = obj.update_data(&mut reader);
                return match res {
                    Ok(_) => Ok(true),
                    Err(e) => Err(e),
                };
            }
            i = i + 1;
        }
        let n_player_transforms = self.player_transforms.len();
        i = 0;
        while i < n_player_transforms
            invariant
                n_player_transforms == self.player_transforms@.len(),
                i <= n_player_transforms,
                *self == *old(self),
                reader.wf(),
                forall|j: int| 0 <= j < i ==> (#[trigger] old(self).player_transforms@[j]).net_id != net_id,
            decreases n_player_transforms - i,
        {
            if self.player_transforms[i].net_id == net_id {
                let obj = &mut self.player_transforms[i];
                let res = obj.update_data(&mut reader);
                return match res {
                    Ok(_) => Ok(true),
                    Err(e) => Err(e),
                };
            }
            i = i + 1;
        }
        let n_worlds = self.worlds.len();
        i = 0;
        while i < n_worlds
            invariant
                n_worlds == self.worlds@.len(),
                i <= n_worlds,
                *self == *old(self),
                reader.wf(),
                forall|j: int| 0 <= j < i ==> (#[trigger] old(self).worlds@[j]).net_id != net_id,
            decreases n_worlds - i,
        {
            if self.worlds[i].net_id == net_id {
                let obj = &mut self.worlds[i];
                let res = obj.update_data(&mut reader);
                return match res {
                    Ok(_) => Ok(true),
                    Err(e) => Err(e),
                };
            }
            i = i + 1;
        }
        let n_lobbies = self.lobbies.len();
        i = 0;
        while i < n_lobbies
            invariant
                n_lobbies == self.lobbies@.len(),
                i <= n_lobbies,
                *self == *old(self),
                reader.wf(),
                forall|j: int| 0 <= j < i ==> (#[trigger] old(self).lobbies@[j]).net_id != net_id,
            decreases n_lobbies - i,
        {
            if self.lobbies[i].net_id == net_id {
                let obj = &mut self.lobbies[i];
                let res = obj.update_data(&mut reader);
                return match res {
                    Ok(_) => Ok(true),
                    Err(e) => Err(e),
                };
            }
            i = i + 1;
        }
        let n_game_datas = self.game_datas.len();
        i = 0;
        while i < n_game_datas
            invariant
                n_game_datas == self.game_datas@.len(),
                i <= n_game_datas,
                *self == *old(self),
                reader.wf(),
                forall|j: int| 0 <= j < i ==> (#[trigger] old(self).game_datas@[j]).net_id != net_id,
            decreases n_game_datas - i,
        {
            if self.game_datas[i].net_id == net_id {
                let obj = &mut self.game_datas[i];
                let res = obj.update_data(&mut reader);
                return match res {
                    Ok(_) => Ok(true),
                    Err(e) => Err(e),
                };
            }
            i = i + 1;
        }
        let n_vote_bans = self.vote_bans.len();
        i = 0;
        while i < n_vote_bans
            invariant
                n_vote_bans == self.vote_bans@.len(),
                i <= n_vote_bans,
                *self == *old(self),
                reader.wf(),
                forall|j: int| 0 <= j < i ==> (#[trigger] old(self).vote_bans@[j]).net_id != net_id,
            decreases n_vote_bans - i,
        {
            if self.vote_bans[i].net_id == net_id {
                let obj = &mut self.vote_bans[i];
                let res = obj.update_data(&mut reader);
                return match res {
                    Ok(_) => Ok(true),
                    Err(e) => Err(e),
                };
            }
            i = i + 1;
        }
        Ok(false)
    }

    /// Routes an RPC to the object carrying a net id. Returns the owner id
    /// and any callback, or nothing when no object carries the id. Only the
    /// addressed object may change.
    pub fn handle_object_rpc(&mut self, net_id: u32, call_id: u8, data: &Vec<u8>) -> (r: Result<
        Option<(i32, RPCCallback)>,
        CodecError,
    >)
        ensures
            dispatch_frame(*old(self), *final(self), net_id),
            r matches Ok(None) ==> !old(self).spec_contains(net_id) && *final(self) == *old(self),
            r matches Ok(Some((owner, cb))) ==> owner_of_net_id(*old(self), net_id, owner) && (
            cb is ChatMessage ==> call_id == crate::netobjects::RPC_SEND_CHAT),
            (forall|i: int|
                0 <= i < old(self).game_datas@.len() ==> (#[trigger] old(self).game_datas@[i]).wf()) ==> (forall|i: int|
                0 <= i < final(self).game_datas@.len() ==> (#[trigger] final(self).game_datas@[i]).wf()),
    {
        let mut reader = PacketReader::new(clone_vec_u8(data));
        let mut i: usize;
        let n_player_controls = self.player_controls.len();
        i = 0;
        while i < n_player_controls
            invariant
                n_player_controls == self.player_controls@.len(),
                i <= n_player_controls,
                *self == *old(self),
                reader.wf(),
                forall|j: int| 0 <= j < i ==> (#[trigger] old(self).player_controls@[j]).net_id != net_id,
            decreases n_player_controls - i,
        {
            if self.player_controls[i].net_id == net_id {
                let owner = self.player_controls[i].owner_id;
                let obj = &mut self.player_controls[i];
                let cb = obj.handle_rpc(call_id, &mut reader);
                return match cb {
                    Ok(cb) => Ok(Some((owner, cb))),
                    Err(e) => Err(e),
                };
            }
            i = i + 1;
        }
        let n_player_physics = self.player_physics.len();
        i = 0;
        while i < n_player_physics
            invariant
                n_player_physics == self.player_physics@.len(),
                i <= n_player_physics,
                *self == *old(self),
                reader.wf(),
                forall|j: int| 0 <= j < i ==> (#[trigger] old(self).player_physics@[j]).net_id != net_id,
            decreases n_player_physics - i,
        {
            if self.player_physics[i].net_id == net_id {
                let owner = self.player_physics[i].owner_id;
                let obj = &mut self.player_physics[i];
                let cb = obj.handle_rpc(call_id, &mut reader);
                return match cb {
                    Ok(cb) => Ok(Some((owner, cb))),
                    Err(e) => Err(e),
                };
            }
            i = i + 1;
        }
        let n_player_transforms = self.player_transforms.len();
        i = 0;
        while i < n_player_transforms
            invariant
                n_player_transforms == self.player_transforms@.len(),
                i <= n_player_transforms,
                *self == *old(self),
                reader.wf(),
                forall|j: int| 0 <= j < i ==> (#[trigger] old(self).player_transforms@[j]).net_id != net_id,
            decreases n_player_transforms - i,
        {
            if self.player_transforms[i].net_id == net_id {
                let owner = self.player_transforms[i].owner_id;
                let obj = &mut self.player_transforms[i];
                let cb = obj.handle_rpc(call_id, &mut reader);
                return match cb {
                    Ok(cb) => Ok(Some((owner, cb))),
                    Err(e) => Err(e),
                };
            }
            i = i + 1;
        }
        let n_worlds = self.worlds.len();
        i = 0;
        while i < n_worlds
            invariant
                n_worlds == self.worlds@.len(),
                i <= n_worlds,
                *self == *old(self),
                reader.wf(),
                forall|j: int| 0 <= j < i ==> (#[trigger] old(self).worlds@[j]).net_id != net_id,
            decreases n_worlds - i,
        {
            if self.worlds[i].net_id == net_id {
                let owner = self.worlds[i].owner_id;
                let obj = &mut self.worlds[i];
                let cb = obj.handle_rpc(call_id, &mut reader);
                return match cb {
                    Ok(cb) => Ok(Some((owner, cb))),
                    Err(e) => Err(e),
                };
            }
            i = i + 1;
        }
        let n_lobbies = self.lobbies.len();
        i = 0;
        while i < n_lobbies
            invariant
                n_lobbies == self.lobbies@.len(),
                i <= n_lobbies,
                *self == *old(self),
                reader.wf(),
                forall|j: int| 0 <= j < i ==> (#[trigger] old(self).lobbies@[j]).net_id != net_id,
            decreases n_lobbies - i,
        {
            if self.lobbies[i].net_id == net_id {
                let owner = self.lobbies[i].owner_id;
                let obj = &mut self.lobbies[i];
                let cb = obj.handle_rpc(call_id, &mut reader);
                return match cb {
                    Ok(cb) => Ok(Some((owner, cb))),
                    Err(e) => Err(e),
                };
            }
            i = i + 1;
        }
        let n_game_datas = self.game_datas.len();
        i = 0;
        while i < n_game_datas
            invariant
                n_game_datas == self.game_datas@.len(),
                i <= n_game_datas,
                *self == *old(self),
                reader.wf(),
                forall|j: int| 0 <= j < i ==> (#[trigger] old(self).game_datas@[j]).net_id != net_id,
            decreases n_game_datas - i,
        {
            if self.game_datas[i].net_id == net_id {
                let owner = self.game_datas[i].owner_id;
                let obj = &mut self.game_datas[i];
                let cb = obj.handle_rpc(call_id, &mut reader);
                return match cb {
                    Ok(cb) => Ok(Some((owner, cb))),
                    Err(e) => Err(e),
                };
            }
            i = i + 1;
        }
        let n_vote_bans = self.vote_bans.len();
        i = 0;
        while i < n_vote_bans
            invariant
                n_vote_bans == self.vote_bans@.len(),
                i <= n_vote_bans,
                *self == *old(self),
                reader.wf(),
                forall|j: int| 0 <= j < i ==> (#[trigger] old(self).vote_bans@[j]).net_id != net_id,
            decreases n_vote_bans - i,
        {
            if self.vote_bans[i].net_id == net_id {
                let owner = self.vote_bans[i].owner_id;
                let obj = &mut self.vote_bans[i];
                let cb = obj.handle_rpc(call_id, &mut reader);
                return match cb {
                    Ok(cb) => Ok(Some((owner, cb))),
                    Err(e) => Err(e),
                };
            }
            i = i + 1;
        }
        Ok(None)
    }
}


/// Exactly the prefab's components were appended, bucket by bucket;
/// everything else is kept.
pub open spec fn added_prefab(pre: NetObjectHandler, post: NetObjectHandler, prefab: Prefab) -> bool {
    match prefab {
        Prefab::Player(c, p, t) => post.player_controls@ == pre.player_controls@.push(c)
            && post.player_physics@ == pre.player_physics@.push(p) && post.player_transforms@
            == pre.player_transforms@.push(t) && post.worlds@ == pre.worlds@ && post.lobbies@
            == pre.lobbies@ && post.game_datas@ == pre.game_datas@ && post.vote_bans@
            == pre.vote_bans@,
        Prefab::World(w) => post == (NetObjectHandler { worlds: post.worlds, ..pre })
            && post.worlds@ == pre.worlds@.push(w),
        Prefab::Lobby(l) => post == (NetObjectHandler { lobbies: post.lobbies, ..pre })
            && post.lobbies@ == pre.lobbies@.push(l),
        Prefab::GameData(g, v) => post.game_datas@ == pre.game_datas@.push(g) && post.vote_bans@
            == pre.vote_bans@.push(v) && post.player_controls@ == pre.player_controls@
            && post.player_physics@ == pre.player_physics@ && post.player_transforms@
            == pre.player_transforms@ && post.worlds@ == pre.worlds@ && post.lobbies@
            == pre.lobbies@,
        Prefab::Unknown => post == pre,
    }
}

/// A net-id dispatch touches at most the object carrying the id: bucket
/// sizes, every net id and every owner id are kept, and every object with a
/// different net id is untouched.
pub open spec fn dispatch_frame(
    pre: NetObjectHandler,
    post: NetObjectHandler,
    net_id: u32,
) -> bool {
    &&& post.player_controls@.len() == pre.player_controls@.len()
    &&& (forall|j: int|
        0 <= j < pre.player_controls@.len() ==> (#[trigger] post.player_controls@[j]).net_id == pre.player_controls@[j].net_id
            && post.player_controls@[j].owner_id == pre.player_controls@[j].owner_id && (pre.player_controls@[j].net_id != net_id
            ==> post.player_controls@[j] == pre.player_controls@[j]))
    &&& post.player_physics@.len() == pre.player_physics@.len()
    &&& (forall|j: int|
        0 <= j < pre.player_physics@.len() ==> (#[trigger] post.player_physics@[j]).net_id == pre.player_physics@[j].net_id
            && post.player_physics@[j].owner_id == pre.player_physics@[j].owner_id && (pre.player_physics@[j].net_id != net_id
            ==> post.player_physics@[j] == pre.player_physics@[j]))
    &&& post.player_transforms@.len() == pre.player_transforms@.len()
    &&& (forall|j: int|
        0 <= j < pre.player_transforms@.len() ==> (#[trigger] post.player_transforms@[j]).net_id == pre.player_transforms@[j].net_id
            && post.player_transforms@[j].owner_id == pre.player_transforms@[j].owner_id && (pre.player_transforms@[j].net_id != net_id
            ==> post.player_transforms@[j] == pre.player_transforms@[j]))
    &&& post.worlds@.len() == pre.worlds@.len()
    &&& (forall|j: int|
        0 <= j < pre.worlds@.len() ==> (#[trigger] post.worlds@[j]).net_id == pre.worlds@[j].net_id
            && post.worlds@[j].owner_id == pre.worlds@[j].owner_id && (pre.worlds@[j].net_id != net_id
            ==> post.worlds@[j] == pre.worlds@[j]))
    &&& post.lobbies@.len() == pre.lobbies@.len()
    &&& (forall|j: int|
        0 <= j < pre.lobbies@.len() ==> (#[trigger] post.lobbies@[j]).net_id == pre.lobbies@[j].net_id
            && post.lobbies@[j].owner_id == pre.lobbies@[j].owner_id && (pre.lobbies@[j].net_id != net_id
            ==> post.lobbies@[j] == pre.lobbies@[j]))
    &&& post.game_datas@.len() == pre.game_datas@.len()
    &&& (forall|j: int|
        0 <= j < pre.game_datas@.len() ==> (#[trigger] post.game_datas@[j]).net_id == pre.game_datas@[j].net_id
            && post.game_datas@[j].owner_id == pre.game_datas@[j].owner_id && (pre.game_datas@[j].net_id != net_id
            ==> post.game_datas@[j] == pre.game_datas@[j]))
    &&& post.vote_bans@.len() == pre.vote_bans@.len()
    &&& (forall|j: int|
        0 <= j < pre.vote_bans@.len() ==> (#[trigger] post.vote_bans@[j]).net_id == pre.vote_bans@[j].net_id
            && post.vote_bans@[j].owner_id == pre.vote_bans@[j].owner_id && (pre.vote_bans@[j].net_id != net_id
            ==> post.vote_bans@[j] == pre.vote_bans@[j]))
}

/// Some live object carries the net id and is owned by this client id.
pub open spec fn owner_of_net_id(h: NetObjectHandler, net_id: u32, owner: i32) -> bool {
    ||| (exists|i: int|
        0 <= i < h.player_controls@.len() && (#[trigger] h.player_controls@[i]).net_id == net_id && h.player_controls@[i].owner_id
            == owner)
    ||| (exists|i: int|
        0 <= i < h.player_physics@.len() && (#[trigger] h.player_physics@[i]).net_id == net_id && h.player_physics@[i].owner_id
            == owner)
    ||| (exists|i: int|
        0 <= i < h.player_transforms@.len() && (#[trigger] h.player_transforms@[i]).net_id == net_id && h.player_transforms@[i].owner_id
            == owner)
    ||| (exists|i: int|
        0 <= i < h.worlds@.len() && (#[trigger] h.worlds@[i]).net_id == net_id && h.worlds@[i].owner_id
            == owner)
    ||| (exists|i: int|
        0 <= i < h.lobbies@.len() && (#[trigger] h.lobbies@[i]).net_id == net_id && h.lobbies@[i].owner_id
            == owner)
    ||| (exists|i: int|
        0 <= i < h.game_datas@.len() && (#[trigger] h.game_datas@[i]).net_id == net_id && h.game_datas@[i].owner_id
            == owner)
    ||| (exists|i: int|
        0 <= i < h.vote_bans@.len() && (#[trigger] h.vote_bans@[i]).net_id == net_id && h.vote_bans@[i].owner_id
            == owner)
}

/// Copies a byte vector.
fn clone_vec_u8(v: &Vec<u8>) -> (r: Vec<u8>)
    ensures
        r@ == v@,
{
    let mut r: Vec<u8> = Vec::new();
    let mut i: usize = 0;
    while i < v.len()
        invariant
            i <= v@.len(),
            r@ == v@.take(i as int),
        decreases v@.len() - i,
    {
        r.push(v[i]);
        proof {
            assert(r@ =~= v@.take(i as int + 1));
        }
        i = i + 1;
    }
    proof {
        assert(v@.take(v@.len() as int) =~= v@);
    }
    r
}

/// The callbacks a session fires; the embedding application implements the
/// ones it cares about.
pub trait EventHandler: Sized {
    /// The server named a reason for ending the session.
    fn disconnect_reason(&mut self, client: &mut Client, reason: DisconnectReason) {
    }

    /// This client's own player has spawned.
    fn joined_game(&mut self, client: &mut Client) {
    }

    /// A transport frame arrived; fired before it is dispatched.
    fn packet_received(&mut self, client: &mut Client) {
    }

    /// The matchmaker sent its server list.
    fn server_info(&mut self, client: &mut Client, data: ServerListPacket) {
    }

    /// Another player sent a chat line.
    fn chat_message(&mut self, client: &mut Client, player_id: i32, message: String) {
    }
}

/// One game session: ids adopted from the join handshake, the set of other
/// players, the live objects, and the outbox of frames awaiting the
/// transport.
pub struct Client {
    pub should_disconnect: bool,
    pub game_id: Option<GameId>,
    pub client_id: Option<i32>,
    pub host_id: Option<i32>,
    pub player_ids: Vec<i32>,
    pub net_objects: NetObjectHandler,
    pub is_public: bool,
    pub outbox: Vec<Outbound>,
}

impl Client {
    /// A session that has joined nothing and queued nothing.
    pub fn new() -> (r: Client)
        ensures
            !r.should_disconnect && r.game_id is None && r.client_id is None && r.host_id is None,
            r.player_ids@.len() == 0 && r.outbox@.len() == 0 && !r.is_public,
    {
        Client {
            should_disconnect: false,
            game_id: None,
            client_id: None,
            host_id: None,
            player_ids: Vec::new(),
            net_objects: NetObjectHandler::new(),
            is_public: false,
            outbox: Vec::new(),
        }
    }

    /// True exactly when in a game and designated its host.
    pub fn is_host(&self) -> (r: bool)
        ensures
            r == (self.host_id is Some && self.client_id is Some && self.host_id.unwrap()
                == self.client_id.unwrap()),
    {
        match (self.host_id, self.client_id) {
            (Some(h), Some(c)) => h == c,
            _ => false,
        }
    }

    /// Asks the session loop to stop.
    pub fn disconnect(&mut self)
        ensures
            *final(self) == (Client { should_disconnect: true, ..*old(self) }),
    {
        self.should_disconnect = true;
    }

    /// Queues the transport hello carrying the protocol version and the
    /// connect username.
    pub fn send_hello(&mut self, connect_username: &str)
        requires
            connect_username.spec_bytes().len() <= u32::MAX,
        ensures
            *final(self) == (Client {
                outbox: final(self).outbox,
                ..*old(self)
            }),
            final(self).outbox@ == old(self).outbox@.push(
                Outbound::Hello(final(self).outbox@.last()->Hello_0),
            ),
            final(self).outbox@.last() matches Outbound::Hello(b) && b@ == hello_payload(
                PROTOCOL_VERSION,
                connect_username@,
            ),
    {
        let hello = build_hello(PROTOCOL_VERSION, connect_username);
        self.outbox.push(Outbound::Hello(hello));
    }

    /// Queues a reliable send: one message with the packet kind's tag
    /// around the given body.
    pub fn send_reliable(&mut self, packet_type: PacketType, data: Vec<u8>)
        requires
            data@.len() <= 0xFFFF,
        ensures
            *final(self) == (Client {
                outbox: final(self).outbox,
                ..*old(self)
            }),
            final(self).outbox@ == old(self).outbox@.push(
                Outbound::Reliable(final(self).outbox@.last()->Reliable_0),
            ),
            final(self).outbox@.last() matches Outbound::Reliable(b) && b@ == message_bytes(
                packet_type.spec_tag(),
                data@,
            ),
    {
        let mut w = PacketWriter::new();
        w.write_message(packet_type.tag(), data.as_slice());
        proof {
            assert(Seq::<u8>::empty() + message_bytes(packet_type.spec_tag(), data@)
                =~= message_bytes(packet_type.spec_tag(), data@));
        }
        self.outbox.push(Outbound::Reliable(w.finish()));
    }

    /// Queues an unreliable send: one message with the packet kind's tag
    /// around the given body.
    pub fn send_unreliable(&mut self, packet_type: PacketType, data: Vec<u8>)
        requires
            data@.len() <= 0xFFFF,
        ensures
            *final(self) == (Client {
                outbox: final(self).outbox,
                ..*old(self)
            }),
            final(self).outbox@ == old(self).outbox@.push(
                Outbound::Unreliable(final(self).outbox@.last()->Unreliable_0),
            ),
            final(self).outbox@.last() matches Outbound::Unreliable(b) && b@ == message_bytes(
                packet_type.spec_tag(),
                data@,
            ),
    {
        let mut w = PacketWriter::new();
        w.write_message(packet_type.tag(), data.as_slice());
        proof {
            assert(Seq::<u8>::empty() + message_bytes(packet_type.spec_tag(), data@)
                =~= message_bytes(packet_type.spec_tag(), data@));
        }
        self.outbox.push(Outbound::Unreliable(w.finish()));
    }

    /// Serializes a packet body and queues it reliably under its tag.
    fn send_packet(&mut self, packet_type: PacketType, packet: &Packet)
        requires
            packet.spec_serializable(),
        ensures
            *final(self) == (Client {
                outbox: final(self).outbox,
                ..*old(self)
            }),
            packet.spec_body().len() <= 0xFFFF ==> pushed_reliable(
                old(self).outbox@,
                final(self).outbox@,
                message_bytes(packet_type.spec_tag(), packet.spec_body()),
            ),
            packet.spec_body().len() > 0xFFFF ==> final(self).outbox@ == old(self).outbox@,
    {
        let mut w = PacketWriter::new();
        packet.serialize(&mut w);
        let body = w.finish();
        proof {
            assert(body@ =~= packet.spec_body());
        }
        if body.len() <= 0xFFFF {
            self.send_reliable(packet_type, body);
            proof {
                assert(self.outbox@.drop_last() =~= old(self).outbox@);
            }
        }
    }

    /// Queues the join request for a game id and records it as the current
    /// game; the client claims every map.
    pub fn join_game_id(&mut self, game_id: GameId)
        ensures
            *final(self) == (Client {
                game_id: Some(game_id),
                outbox: final(self).outbox,
                ..*old(self)
            }),
            pushed_reliable(
                old(self).outbox@,
                final(self).outbox@,
                message_bytes(1, le32(game_id.id as u32) + seq![7u8]),
            ),
    {
        self.game_id = Some(game_id);
        let join = JoinGamePacket { game_id, maps_owned: 7 };
        let mut w = PacketWriter::new();
        join.serialize(&mut w);
        let body = w.finish();
        proof {
            assert(body@ =~= le32(game_id.id as u32) + seq![7u8]);
        }
        self.send_reliable(PacketType::GameJoinDisconnect, body);
        proof {
            assert(self.outbox@.drop_last() =~= old(self).outbox@);
        }
    }

    /// Builds the id of a game code and queues the join request for it. The
    /// session must not already be in a game.
    pub fn join_game_code(&mut self, code: &str)
        requires
            old(self).game_id is None,
            code@.len() == 6 || code@.len() == 4,
            code@.len() == 6 ==> code.is_ascii() && (forall|j: int|
                0 <= j < 6 ==> crate::objects::index_in(
                    crate::objects::code_alphabet(),
                    #[trigger] code@[j],
                ) >= 0),
            code@.len() == 4 ==> code.is_ascii(),
        ensures
            *final(self) == (Client {
                game_id: final(self).game_id,
                outbox: final(self).outbox,
                ..*old(self)
            }),
            final(self).game_id is Some,
            ({
                let g = final(self).game_id.unwrap();
                &&& (code@.len() == 6 ==> g.id as u32 == crate::objects::encode_v2(
                    crate::objects::code_indices(code@),
                ) && g.id < -1)
                &&& (code@.len() == 4 ==> g.id >= 0)
                &&& pushed_reliable(
                    old(self).outbox@,
                    final(self).outbox@,
                    message_bytes(1, le32(g.id as u32) + seq![7u8]),
                )
            }),
    {
        let game_id = GameId::from_chars(code);
        self.join_game_id(game_id);
    }

    /// Queues the readiness notice a non-host sends when the game starts.
    pub fn send_ready(&mut self)
        requires
            old(self).game_id is Some,
            old(self).client_id is Some,
        ensures
            *final(self) == (Client { outbox: final(self).outbox, ..*old(self) }),
            pushed_reliable(
                old(self).outbox@,
                final(self).outbox@,
                game_info_frame(
                    old(self).game_id.unwrap(),
                    message_bytes(7, varint(old(self).client_id.unwrap() as u32)),
                ),
            ),
    {
        let game_id = self.game_id.unwrap();
        let client_id = self.client_id.unwrap();
        let mut data: Vec<GameInfo> = Vec::new();
        let info = GameInfo::ClientReady { client_id };
        data.push(info);
        let packet = Packet::GameInfo { game_id, data };
        proof {
            assert((packet->GameInfo_data)@ =~= seq![info]);
            crate::codec::lemma_varint_round_trip(client_id as u32, Seq::<u8>::empty());
            crate::packets::lemma_one_info_packet((packet->GameInfo_data)@);
            assert(packet.spec_serializable());
            assert(packet.spec_body() =~= le32(game_id.id as u32) + message_bytes(
                7,
                varint(client_id as u32),
            ));
            assert(packet.spec_body().len() <= 0xFFFF);
        }
        self.send_packet(PacketType::GameInfo, &packet);
    }

    /// Queues the scene announcement made after joining.
    pub fn change_scene(&mut self, scene_name: &str)
        requires
            old(self).game_id is Some,
            old(self).client_id is Some,
            scene_name.spec_bytes().len() <= 0xFF00,
        ensures
            *final(self) == (Client { outbox: final(self).outbox, ..*old(self) }),
            pushed_reliable(
                old(self).outbox@,
                final(self).outbox@,
                game_info_frame(
                    old(self).game_id.unwrap(),
                    message_bytes(
                        6,
                        varint(old(self).client_id.unwrap() as u32) + varint(
                            encode_utf8(scene_name@).len() as u32,
                        ) + encode_utf8(scene_name@),
                    ),
                ),
            ),
    {
        let game_id = self.game_id.unwrap();
        let client_id = self.client_id.unwrap();
        let mut data: Vec<GameInfo> = Vec::new();
        let info = GameInfo::ChangeScene { client_id, scene: String::from_str(scene_name) };
        data.push(info);
        let packet = Packet::GameInfo { game_id, data };
        proof {
            assert((packet->GameInfo_data)@ =~= seq![info]);
            crate::codec::lemma_varint_round_trip(client_id as u32, Seq::<u8>::empty());
            crate::codec::lemma_varint_round_trip(
                encode_utf8(scene_name@).len() as u32,
                Seq::<u8>::empty(),
            );
            assert(packet.spec_serializable());
            crate::packets::lemma_one_info_packet((packet->GameInfo_data)@);
            assert(packet.spec_body() =~= le32(game_id.id as u32) + message_bytes(
                6,
                varint(client_id as u32) + varint(encode_utf8(scene_name@).len() as u32)
                    + encode_utf8(scene_name@),
            ));
            assert(packet.spec_body().len() <= 0xFFFF);
        }
        self.send_packet_checked(PacketType::GameInfo, &packet);
    }

    /// Serializes a packet body and queues it reliably when it fits one
    /// message; a body past the message size cap is dropped.
    fn send_packet_checked(&mut self, packet_type: PacketType, packet: &Packet)
        requires
            packet.spec_serializable(),
        ensures
            *final(self) == (Client {
                outbox: final(self).outbox,
                ..*old(self)
            }),
            packet.spec_body().len() <= 0xFFFF ==> pushed_reliable(
                old(self).outbox@,
                final(self).outbox@,
                message_bytes(packet_type.spec_tag(), packet.spec_body()),
            ),
            packet.spec_body().len() > 0xFFFF ==> final(self).outbox@ == old(self).outbox@,
    {
        self.send_packet(packet_type, packet);
    }

    /// Queues a listing request for the given filters.
    #[verifier::rlimit(50)]
    pub fn request_game_list(&mut self, language: u32, maps: u8, num_imposters: i8)
        requires
            language <= LANGUAGE_MASK,
        ensures
            *final(self) == (Client { outbox: final(self).outbox, ..*old(self) }),
            ({
                let opts = (GameOptions {
                    game_settings_version: 2u8,
                    max_players: 10u8,
                    language: language,
                    map_id: maps,
                    player_speed: 0x3F800000u32,
                    crew_light: 0x3F800000u32,
                    imposter_light: 0x3FC00000u32,
                    kill_cooldown: 0x41700000u32,
                    num_common_tasks: 1u8,
                    num_long_tasks: 2u8,
                    num_short_tasks: 1u8,
                    num_emergency_meetings: 1i32,
                    num_imposters: num_imposters,
                    kill_distance: 1i8,
                    discussion_time: 15i32,
                    voting_time: 120i32,
                    is_defaults: 1u8,
                    emergency_cooldown: 15u8,
                });
                pushed_reliable(
                    old(self).outbox@,
                    final(self).outbox@,
                    message_bytes(0x10, seq![0u8] + varint(42) + opts.spec_ser()),
                )
            }),
    {
        let req = crate::packets::RequestGameListPacket::new(language, maps, num_imposters);
        let mut w = PacketWriter::new();
        req.serialize(&mut w);
        let body = w.finish();
        proof {
            crate::codec::lemma_varint_round_trip(42, Seq::<u8>::empty());
            assert(req.spec_ser().len() == 1 + varint(42).len() + 42);
            assert(body@ =~= req.spec_ser());
        }
        self.send_reliable(PacketType::GameList, body);
        proof {
            assert(self.outbox@.drop_last() =~= old(self).outbox@);
        }
    }

    /// Queues the identity RPC asking the host to set another player's name.
    pub fn set_player_name(&mut self, player_id: i32, name: &str)
        requires
            old(self).game_id is Some,
            old(self).host_id is Some,
            old(self).client_id is Some,
            !(old(self).host_id.unwrap() == old(self).client_id.unwrap()),
            name.spec_bytes().len() <= 0xFF00,
        ensures
            *final(self) == (Client { outbox: final(self).outbox, ..*old(self) }),
            match first_control(old(self).net_objects.player_controls@, player_id) {
                Some(i) => pushed_reliable(
                    old(self).outbox@,
                    final(self).outbox@,
                    game_info_to_frame(
                        old(self).game_id.unwrap(),
                        old(self).host_id.unwrap(),
                        rpc_message(
                            old(self).net_objects.player_controls@[i].net_id,
                            RPC_CHECK_NAME,
                            rpc_string_payload(name@),
                        ),
                    ),
                ),
                None => final(self).outbox@ == old(self).outbox@,
            },
    {
        let control = match self.net_objects.get_player_control(player_id) {
            Some(value) => value,
            None => {
                return ;
            },
        };
        let info = control.rpc_check_name(name);
        proof {
            lemma_string_payload_len(name@);
        }
        let game_id = self.game_id.unwrap();
        let host_id = self.host_id.unwrap();
        let mut data: Vec<GameInfo> = Vec::new();
        data.push(info);
        let packet = Packet::GameInfoTo { game_id, client_id: host_id, data };
        proof {
            assert((packet->GameInfoTo_data)@ =~= seq![info]);
            lemma_rpc_fits(info);
            assert(packet.spec_serializable());
            crate::packets::lemma_one_info_packet((packet->GameInfoTo_data)@);
            crate::codec::lemma_varint_round_trip(host_id as u32, Seq::<u8>::empty());
            assert(packet.spec_body() =~= le32(game_id.id as u32) + varint(host_id as u32)
                + rpc_message(control.net_id, RPC_CHECK_NAME, rpc_string_payload(name@)));
            assert(packet.spec_body().len() <= 0xFFFF);
        }
        self.send_packet_checked(PacketType::GameInfoTo, &packet);
    }

    /// Queues the identity RPC for this client's own name.
    pub fn set_name(&mut self, name: &str)
        requires
            old(self).game_id is Some,
            old(self).host_id is Some,
            old(self).client_id is Some,
            !(old(self).host_id.unwrap() == old(self).client_id.unwrap()),
            name.spec_bytes().len() <= 0xFF00,
        ensures
            *final(self) == (Client { outbox: final(self).outbox, ..*old(self) }),
            match first_control(old(self).net_objects.player_controls@, old(self).client_id.unwrap()) {
                Some(i) => pushed_reliable(
                    old(self).outbox@,
                    final(self).outbox@,
                    game_info_to_frame(
                        old(self).game_id.unwrap(),
                        old(self).host_id.unwrap(),
                        rpc_message(
                            old(self).net_objects.player_controls@[i].net_id,
                            RPC_CHECK_NAME,
                            rpc_string_payload(name@),
                        ),
                    ),
                ),
                None => final(self).outbox@ == old(self).outbox@,
            },
    {
        let client_id = self.client_id.unwrap();
        self.set_player_name(client_id, name);
    }

    /// Queues a chat line from another player's control object.
    pub fn send_chat_player(&mut self, player_id: i32, message: &str)
        requires
            old(self).game_id is Some,
            old(self).host_id is Some,
            old(self).client_id is Some,
            !(old(self).host_id.unwrap() == old(self).client_id.unwrap()),
            message.spec_bytes().len() <= 0xFF00,
        ensures
            *final(self) == (Client { outbox: final(self).outbox, ..*old(self) }),
            match first_control(old(self).net_objects.player_controls@, player_id) {
                Some(i) => pushed_reliable(
                    old(self).outbox@,
                    final(self).outbox@,
                    game_info_frame(
                        old(self).game_id.unwrap(),
                        rpc_message(
                            old(self).net_objects.player_controls@[i].net_id,
                            RPC_SEND_CHAT,
                            rpc_string_payload(message@),
                        ),
                    ),
                ),
                None => final(self).outbox@ == old(self).outbox@,
            },
    {
        let control = match self.net_objects.get_player_control(player_id) {
            Some(value) => value,
            None => {
                return ;
            },
        };
        let info = control.rpc_chat_message(message);
        proof {
            lemma_string_payload_len(message@);
        }
        let game_id = self.game_id.unwrap();
        let mut data: Vec<GameInfo> = Vec::new();
        data.push(info);
        let packet = Packet::GameInfo { game_id, data };
        proof {
            assert((packet->GameInfo_data)@ =~= seq![info]);
            lemma_rpc_fits(info);
            assert(packet.spec_serializable());
            crate::packets::lemma_one_info_packet((packet->GameInfo_data)@);
            assert(packet.spec_body() =~= le32(game_id.id as u32) + rpc_message(
                control.net_id,
                RPC_SEND_CHAT,
                rpc_string_payload(message@),
            ));
            assert(packet.spec_body().len() <= 0xFFFF);
        }
        self.send_packet_checked(PacketType::GameInfo, &packet);
    }

    /// Queues a chat line from this client's own player.
    pub fn send_chat(&mut self, message: &str)
        requires
            old(self).game_id is Some,
            old(self).host_id is Some,
            old(self).client_id is Some,
            !(old(self).host_id.unwrap() == old(self).client_id.unwrap()),
            message.spec_bytes().len() <= 0xFF00,
        ensures
            *final(self) == (Client { outbox: final(self).outbox, ..*old(self) }),
            match first_control(old(self).net_objects.player_controls@, old(self).client_id.unwrap()) {
                Some(i) => pushed_reliable(
                    old(self).outbox@,
                    final(self).outbox@,
                    game_info_frame(
                        old(self).game_id.unwrap(),
                        rpc_message(
                            old(self).net_objects.player_controls@[i].net_id,
                            RPC_SEND_CHAT,
                            rpc_string_payload(message@),
                        ),
                    ),
                ),
                None => final(self).outbox@ == old(self).outbox@,
            },
    {
        let client_id = self.client_id.unwrap();
        self.send_chat_player(client_id, message);
    }

    /// Queues the identity RPC asking the host to set another player's
    /// color.
    pub fn set_player_color(&mut self, player_id: i32, color_index: u8)
        requires
            old(self).game_id is Some,
            old(self).host_id is Some,
            old(self).client_id is Some,
            !(old(self).host_id.unwrap() == old(self).client_id.unwrap()),
        ensures
            *final(self) == (Client { outbox: final(self).outbox, ..*old(self) }),
            match first_control(old(self).net_objects.player_controls@, player_id) {
                Some(i) => pushed_reliable(
                    old(self).outbox@,
                    final(self).outbox@,
                    game_info_to_frame(
                        old(self).game_id.unwrap(),
                        old(self).host_id.unwrap(),
                        rpc_message(
                            old(self).net_objects.player_controls@[i].net_id,
                            RPC_CHECK_COLOR,
                            seq![color_index],
                        ),
                    ),
                ),
                None => final(self).outbox@ == old(self).outbox@,
            },
    {
        let control = match self.net_objects.get_player_control(player_id) {
            Some(value) => value,
            None => {
                return ;
            },
        };
        let info = control.rpc_check_color(color_index);
        let game_id = self.game_id.unwrap();
        let host_id = self.host_id.unwrap();
        let mut data: Vec<GameInfo> = Vec::new();
        data.push(info);
        let packet = Packet::GameInfoTo { game_id, client_id: host_id, data };
        proof {
            assert((packet->GameInfoTo_data)@ =~= seq![info]);
            lemma_rpc_fits(info);
            assert(packet.spec_serializable());
            crate::packets::lemma_one_info_packet((packet->GameInfoTo_data)@);
            crate::codec::lemma_varint_round_trip(host_id as u32, Seq::<u8>::empty());
            assert(packet.spec_body() =~= le32(game_id.id as u32) + varint(host_id as u32)
                + rpc_message(control.net_id, RPC_CHECK_COLOR, seq![color_index]));
            assert(packet.spec_body().len() <= 0xFFFF);
        }
        self.send_packet_checked(PacketType::GameInfoTo, &packet);
    }

    /// Queues the identity RPC for this client's own color.
    pub fn set_color(&mut self, color_index: u8)
        requires
            old(self).game_id is Some,
            old(self).host_id is Some,
            old(self).client_id is Some,
            !(old(self).host_id.unwrap() == old(self).client_id.unwrap()),
        ensures
            *final(self) == (Client { outbox: final(self).outbox, ..*old(self) }),
            match first_control(old(self).net_objects.player_controls@, old(self).client_id.unwrap()) {
                Some(i) => pushed_reliable(
                    old(self).outbox@,
                    final(self).outbox@,
                    game_info_to_frame(
                        old(self).game_id.unwrap(),
                        old(self).host_id.unwrap(),
                        rpc_message(
                            old(self).net_objects.player_controls@[i].net_id,
                            RPC_CHECK_COLOR,
                            seq![color_index],
                        ),
                    ),
                ),
                None => final(self).outbox@ == old(self).outbox@,
            },
    {
        let client_id = self.client_id.unwrap();
        self.set_player_color(client_id, color_index);
    }

    /// Queues the identity RPC for this client's own skin.
    pub fn set_skin(&mut self, skin_index: u32)
        requires
            old(self).game_id is Some,
            old(self).host_id is Some,
            old(self).client_id is Some,
            !(old(self).host_id.unwrap() == old(self).client_id.unwrap()),
        ensures
            *final(self) == (Client { outbox: final(self).outbox, ..*old(self) }),
            match first_control(old(self).net_objects.player_controls@, old(self).client_id.unwrap()) {
                Some(i) => pushed_reliable(
                    old(self).outbox@,
                    final(self).outbox@,
                    game_info_to_frame(
                        old(self).game_id.unwrap(),
                        old(self).host_id.unwrap(),
                        rpc_message(
                            old(self).net_objects.player_controls@[i].net_id,
                            RPC_SET_SKIN,
                            varint(skin_index),
                        ),
                    ),
                ),
                None => final(self).outbox@ == old(self).outbox@,
            },
    {
        let client_id = self.client_id.unwrap();
        let control = match self.net_objects.get_player_control(client_id) {
            Some(value) => value,
            None => {
                return ;
            },
        };
        let info = control.rpc_set_skin(skin_index);
        let game_id = self.game_id.unwrap();
        let host_id = self.host_id.unwrap();
        let mut data: Vec<GameInfo> = Vec::new();
        data.push(info);
        let packet = Packet::GameInfoTo { game_id, client_id: host_id, data };
        proof {
            assert((packet->GameInfoTo_data)@ =~= seq![info]);
            lemma_rpc_fits(info);
            assert(packet.spec_serializable());
            crate::packets::lemma_one_info_packet((packet->GameInfoTo_data)@);
            crate::codec::lemma_varint_round_trip(host_id as u32, Seq::<u8>::empty());
            assert(packet.spec_body() =~= le32(game_id.id as u32) + varint(host_id as u32)
                + rpc_message(control.net_id, RPC_SET_SKIN, varint(skin_index)));
            assert(packet.spec_body().len() <= 0xFFFF);
        }
        self.send_packet_checked(PacketType::GameInfoTo, &packet);
    }

    /// Queues the identity RPC for this client's own hat.
    pub fn set_hat(&mut self, hat_index: u32)
        requires
            old(self).game_id is Some,
            old(self).host_id is Some,
            old(self).client_id is Some,
            !(old(self).host_id.unwrap() == old(self).client_id.unwrap()),
        ensures
            *final(self) == (Client { outbox: final(self).outbox, ..*old(self) }),
            match first_control(old(self).net_objects.player_controls@, old(self).client_id.unwrap()) {
                Some(i) => pushed_reliable(
                    old(self).outbox@,
                    final(self).outbox@,
                    game_info_to_frame(
                        old(self).game_id.unwrap(),
                        old(self).host_id.unwrap(),
                        rpc_message(
                            old(self).net_objects.player_controls@[i].net_id,
                            RPC_SET_HAT,
                            varint(hat_index),
                        ),
                    ),
                ),
                None => final(self).outbox@ == old(self).outbox@,
            },
    {
        let client_id = self.client_id.unwrap();
        let control = match self.net_objects.get_player_control(client_id) {
            Some(value) => value,
            None => {
                return ;
            },
        };
        let info = control.rpc_set_hat(hat_index);
        let game_id = self.game_id.unwrap();
        let host_id = self.host_id.unwrap();
        let mut data: Vec<GameInfo> = Vec::new();
        data.push(info);
        let packet = Packet::GameInfoTo { game_id, client_id: host_id, data };
        proof {
            assert((packet->GameInfoTo_data)@ =~= seq![info]);
            lemma_rpc_fits(info);
            assert(packet.spec_serializable());
            crate::packets::lemma_one_info_packet((packet->GameInfoTo_data)@);
            crate::codec::lemma_varint_round_trip(host_id as u32, Seq::<u8>::empty());
            assert(packet.spec_body() =~= le32(game_id.id as u32) + varint(host_id as u32)
                + rpc_message(control.net_id, RPC_SET_HAT, varint(hat_index)));
            assert(packet.spec_body().len() <= 0xFFFF);
        }
        self.send_packet_checked(PacketType::GameInfoTo, &packet);
    }

    /// Queues the identity RPC for this client's own pet.
    pub fn set_pet(&mut self, pet_index: u32)
        requires
            old(self).game_id is Some,
            old(self).host_id is Some,
            old(self).client_id is Some,
            !(old(self).host_id.unwrap() == old(self).client_id.unwrap()),
        ensures
            *final(self) == (Client { outbox: final(self).outbox, ..*old(self) }),
            match first_control(old(self).net_objects.player_controls@, old(self).client_id.unwrap()) {
                Some(i) => pushed_reliable(
                    old(self).outbox@,
                    final(self).outbox@,
                    game_info_to_frame(
                        old(self).game_id.unwrap(),
                        old(self).host_id.unwrap(),
                        rpc_message(
                            old(self).net_objects.player_controls@[i].net_id,
                            RPC_SET_PET,
                            varint(pet_index),
                        ),
                    ),
                ),
                None => final(self).outbox@ == old(self).outbox@,
            },
    {
        let client_id = self.client_id.unwrap();
        let control = match self.net_objects.get_player_control(client_id) {
            Some(value) => value,
            None => {
                return ;
            },
        };
        let info = control.rpc_set_pet(pet_index);
        let game_id = self.game_id.unwrap();
        let host_id = self.host_id.unwrap();
        let mut data: Vec<GameInfo> = Vec::new();
        data.push(info);
        let packet = Packet::GameInfoTo { game_id, client_id: host_id, data };
        proof {
            assert((packet->GameInfoTo_data)@ =~= seq![info]);
            lemma_rpc_fits(info);
            assert(packet.spec_serializable());
            crate::packets::lemma_one_info_packet((packet->GameInfoTo_data)@);
            crate::codec::lemma_varint_round_trip(host_id as u32, Seq::<u8>::empty());
            assert(packet.spec_body() =~= le32(game_id.id as u32) + varint(host_id as u32)
                + rpc_message(control.net_id, RPC_SET_PET, varint(pet_index)));
            assert(packet.spec_body().len() <= 0xFFFF);
        }
        self.send_packet_checked(PacketType::GameInfoTo, &packet);
    }

    /// Queues the teleport RPC for another player's transform.
    pub fn set_player_position(&mut self, player_id: i32, new_pos: crate::objects::Vector2)
        requires
            old(self).game_id is Some,
            old(self).host_id is Some,
            old(self).client_id is Some,
            !(old(self).host_id.unwrap() == old(self).client_id.unwrap()),
        ensures
            *final(self) == (Client { outbox: final(self).outbox, ..*old(self) }),
            match first_transform(old(self).net_objects.player_transforms@, player_id) {
                Some(i) => ({
                    let t = old(self).net_objects.player_transforms@[i];
                    if t.last_seq_id <= 0xFFFA {
                        pushed_reliable(
                            old(self).outbox@,
                            final(self).outbox@,
                            game_info_to_frame(
                                old(self).game_id.unwrap(),
                                old(self).host_id.unwrap(),
                                rpc_message(
                                    t.net_id,
                                    RPC_SNAP_TO,
                                    new_pos.spec_ser() + le16((t.last_seq_id + 5) as u16),
                                ),
                            ),
                        )
                    } else {
                        final(self).outbox@ == old(self).outbox@
                    }
                }),
                None => final(self).outbox@ == old(self).outbox@,
            },
    {
        let transform = match self.net_objects.get_player_transform(player_id) {
            Some(value) => value,
            None => {
                return ;
            },
        };
        if transform.last_seq_id > 0xFFFA {
            return ;
        }
        let info = transform.rpc_snap_to(new_pos);
        let game_id = self.game_id.unwrap();
        let host_id = self.host_id.unwrap();
        let mut data: Vec<GameInfo> = Vec::new();
        data.push(info);
        let packet = Packet::GameInfoTo { game_id, client_id: host_id, data };
        proof {
            assert((packet->GameInfoTo_data)@ =~= seq![info]);
            lemma_rpc_fits(info);
            assert(packet.spec_serializable());
            crate::packets::lemma_one_info_packet((packet->GameInfoTo_data)@);
            crate::codec::lemma_varint_round_trip(host_id as u32, Seq::<u8>::empty());
            assert(packet.spec_body() =~= le32(game_id.id as u32) + varint(host_id as u32)
                + rpc_message(
                transform.net_id,
                RPC_SNAP_TO,
                new_pos.spec_ser() + le16((transform.last_seq_id + 5) as u16),
            ));
            assert(packet.spec_body().len() <= 0xFFFF);
        }
        self.send_packet_checked(PacketType::GameInfoTo, &packet);
    }

    /// Queues the teleport RPC for this client's own transform.
    pub fn set_position(&mut self, new_pos: crate::objects::Vector2)
        requires
            old(self).game_id is Some,
            old(self).host_id is Some,
            old(self).client_id is Some,
            !(old(self).host_id.unwrap() == old(self).client_id.unwrap()),
        ensures
            *final(self) == (Client { outbox: final(self).outbox, ..*old(self) }),
            match first_transform(old(self).net_objects.player_transforms@, old(self).client_id.unwrap()) {
                Some(i) => ({
                    let t = old(self).net_objects.player_transforms@[i];
                    if t.last_seq_id <= 0xFFFA {
                        pushed_reliable(
                            old(self).outbox@,
                            final(self).outbox@,
                            game_info_to_frame(
                                old(self).game_id.unwrap(),
                                old(self).host_id.unwrap(),
                                rpc_message(
                                    t.net_id,
                                    RPC_SNAP_TO,
                                    new_pos.spec_ser() + le16((t.last_seq_id + 5) as u16),
                                ),
                            ),
                        )
                    } else {
                        final(self).outbox@ == old(self).outbox@
                    }
                }),
                None => final(self).outbox@ == old(self).outbox@,
            },
    {
        let client_id = self.client_id.unwrap();
        self.set_player_position(client_id, new_pos);
    }

    /// Queues the vent-entry RPC for another player's physics object.
    pub fn player_enter_vent(&mut self, player_id: i32, vent_id: u32)
        requires
            old(self).game_id is Some,
            old(self).host_id is Some,
            old(self).client_id is Some,
            !(old(self).host_id.unwrap() == old(self).client_id.unwrap()),
        ensures
            *final(self) == (Client { outbox: final(self).outbox, ..*old(self) }),
            match first_physics(old(self).net_objects.player_physics@, player_id) {
                Some(i) => pushed_reliable(
                    old(self).outbox@,
                    final(self).outbox@,
                    game_info_frame(
                        old(self).game_id.unwrap(),
                        rpc_message(
                            old(self).net_objects.player_physics@[i].net_id,
                            RPC_ENTER_VENT,
                            varint(vent_id),
                        ),
                    ),
                ),
                None => final(self).outbox@ == old(self).outbox@,
            },
    {
        let physics = match self.net_objects.get_player_physics(player_id) {
            Some(value) => value,
            None => {
                return ;
            },
        };
        let info = physics.rpc_enter_vent(vent_id);
        let game_id = self.game_id.unwrap();
        let mut data: Vec<GameInfo> = Vec::new();
        data.push(info);
        let packet = Packet::GameInfo { game_id, data };
        proof {
            assert((packet->GameInfo_data)@ =~= seq![info]);
            lemma_rpc_fits(info);
            assert(packet.spec_serializable());
            crate::packets::lemma_one_info_packet((packet->GameInfo_data)@);
            assert(packet.spec_body() =~= le32(game_id.id as u32) + rpc_message(
                physics.net_id,
                RPC_ENTER_VENT,
                varint(vent_id),
            ));
            assert(packet.spec_body().len() <= 0xFFFF);
        }
        self.send_packet_checked(PacketType::GameInfo, &packet);
    }

    /// Queues the vent-entry RPC for this client's own physics object.
    pub fn enter_vent(&mut self, vent_id: u32)
        requires
            old(self).game_id is Some,
            old(self).host_id is Some,
            old(self).client_id is Some,
            !(old(self).host_id.unwrap() == old(self).client_id.unwrap()),
        ensures
            *final(self) == (Client { outbox: final(self).outbox, ..*old(self) }),
            match first_physics(old(self).net_objects.player_physics@, old(self).client_id.unwrap()) {
                Some(i) => pushed_reliable(
                    old(self).outbox@,
                    final(self).outbox@,
                    game_info_frame(
                        old(self).game_id.unwrap(),
                        rpc_message(
                            old(self).net_objects.player_physics@[i].net_id,
                            RPC_ENTER_VENT,
                            varint(vent_id),
                        ),
                    ),
                ),
                None => final(self).outbox@ == old(self).outbox@,
            },
    {
        let client_id = self.client_id.unwrap();
        self.player_enter_vent(client_id, vent_id);
    }

    /// Queues the destroy event for a net object.
    pub fn delete_net_object(&mut self, net_id: u32)
        requires
            old(self).game_id is Some,
        ensures
            *final(self) == (Client { outbox: final(self).outbox, ..*old(self) }),
            pushed_reliable(
                old(self).outbox@,
                final(self).outbox@,
                game_info_frame(old(self).game_id.unwrap(), message_bytes(5, varint(net_id))),
            ),
    {
        let game_id = self.game_id.unwrap();
        let mut data: Vec<GameInfo> = Vec::new();
        let info = GameInfo::Destroy { net_id };
        data.push(info);
        let packet = Packet::GameInfo { game_id, data };
        proof {
            assert((packet->GameInfo_data)@ =~= seq![info]);
            crate::codec::lemma_varint_round_trip(net_id, Seq::<u8>::empty());
            assert(packet.spec_serializable());
            crate::packets::lemma_one_info_packet((packet->GameInfo_data)@);
            assert(packet.spec_body() =~= le32(game_id.id as u32) + message_bytes(
                5,
                varint(net_id),
            ));
            assert(packet.spec_body().len() <= 0xFFFF);
        }
        self.send_packet_checked(PacketType::GameInfo, &packet);
    }

    /// Queues the batched player-info update of the first game-data object:
    /// one broadcast RPC carrying every dirty record. Nothing is queued when
    /// a dirty record cannot travel or the batch exceeds one message.
    pub fn update_game_data(&mut self)
        requires
            old(self).game_id is Some,
            old(self).net_objects.game_datas@.len() > 0,
        ensures
            final(self).game_id == old(self).game_id && final(self).client_id == old(self).client_id && final(self).host_id == old(self).host_id && final(self).player_ids == old(self).player_ids && final(self).should_disconnect == old(self).should_disconnect && final(self).is_public == old(self).is_public,
            final(self).net_objects.game_datas@ == old(self).net_objects.game_datas@,
            final(self).net_objects.player_controls == old(self).net_objects.player_controls && final(self).net_objects.player_physics == old(self).net_objects.player_physics && final(self).net_objects.player_transforms == old(self).net_objects.player_transforms && final(self).net_objects.worlds == old(self).net_objects.worlds && final(self).net_objects.lobbies == old(self).net_objects.lobbies && final(self).net_objects.vote_bans == old(self).net_objects.vote_bans,
            ({
                let gd = old(self).net_objects.game_datas@[0];
                let batch = crate::netobjects::dirty_records_bytes(gd.players@);
                &&& (crate::netobjects::dirty_records_fit(gd.players@) && batch.len() <= 0xFF00
                    ==> pushed_reliable(
                    old(self).outbox@,
                    final(self).outbox@,
                    game_info_frame(
                        old(self).game_id.unwrap(),
                        rpc_message(gd.spec_net_id(), RPC_UPDATE_PLAYER_INFO, batch),
                    ),
                ))
                &&& (!crate::netobjects::dirty_records_fit(gd.players@) || batch.len() > 0xFF00
                    ==> final(self).outbox@ == old(self).outbox@)
            }),
    {
        let game_id = self.game_id.unwrap();
        let g = &mut self.net_objects.game_datas[0];
        let info = match g.rpc_update_player_info() {
            Ok(info) => info,
            Err(_) => {
                proof {
                    assert(self.net_objects.game_datas@ =~= old(self).net_objects.game_datas@);
                }
                return ;
            },
        };
        proof {
            assert(self.net_objects.game_datas@ =~= old(self).net_objects.game_datas@);
        }
        let fits = match &info {
            GameInfo::RPC { data: rpc_data, .. } => rpc_data.as_bytes().len() <= 0xFF00,
            _ => false,
        };
        if fits {
            let mut data: Vec<GameInfo> = Vec::new();
            data.push(info);
            let packet = Packet::GameInfo { game_id, data };
            proof {
                assert((packet->GameInfo_data)@ =~= seq![(packet->GameInfo_data)@[0]]);
                lemma_rpc_fits((packet->GameInfo_data)@[0]);
                assert(packet.spec_serializable());
                crate::packets::lemma_one_info_packet((packet->GameInfo_data)@);
                assert(packet.spec_body() =~= le32(game_id.id as u32) + rpc_message(
                    old(self).net_objects.game_datas@[0].spec_net_id(),
                    RPC_UPDATE_PLAYER_INFO,
                    crate::netobjects::dirty_records_bytes(
                        old(self).net_objects.game_datas@[0].players@,
                    ),
                ));
                assert(packet.spec_body().len() <= 0xFFFF);
            }
            self.send_packet_checked(PacketType::GameInfo, &packet);
        }
    }

    /// Dispatches the replication events of one `GameInfo` packet: objects
    /// are spawned, updated, called and destroyed; a spawned player owned
    /// by this client triggers the join-time identity requests and the
    /// joined-game callback. An event for an unknown net id, or one whose
    /// payload does not parse, is skipped. When no event can fire a
    /// callback, only the object registry changes.
    pub fn handle_game_info<H: EventHandler>(
        &mut self,
        handler: &mut H,
        settings: &ClientSettings,
        data: Vec<GameInfo>,
    )
        requires
            encode_utf8(settings.game_username@).len() <= 0xFF00,
        ensures
            (forall|i: int|
                0 <= i < data@.len() ==> quiet_info(#[trigger] data@[i], old(self).client_id))
                ==> *final(self) == (Client {
                net_objects: final(self).net_objects,
                ..*old(self)
            }) && quiet_effect(old(self).net_objects, final(self).net_objects, data@),
    {
        let ghost orig = data@;
        let mut items = data;
        let n = items.len();
        let mut i: usize = 0;
        proof {
            assert(orig.take(0) =~= Seq::<GameInfo>::empty());
        }
        while i < n
            invariant
                items@ == orig.skip(i as int),
                orig.len() == n,
                i <= n,
                encode_utf8(settings.game_username@).len() <= 0xFF00,
                (forall|k: int|
                    0 <= k < orig.len() ==> quiet_info(#[trigger] orig[k], old(self).client_id))
                    ==> *self == (Client { net_objects: self.net_objects, ..*old(self) })
                    && quiet_effect(old(self).net_objects, self.net_objects, orig.take(i as int)),
            decreases n - i,
        {
            let ghost pre_objects = self.net_objects;
            let info = items.remove(0);
            let ghost ginfo = info;
            proof {
                assert(orig.skip(i as int)[0] == orig[i as int]);
                assert(items@ =~= orig.skip(i as int + 1));
            }
            match info {
                GameInfo::Destroy { net_id } => {
                    let _found = self.net_objects.remove(net_id);
                },
                GameInfo::UpdateData { net_id, data } => {
                    let bytes = data.as_bytes();
                    let _ = self.net_objects.update_object_data(net_id, bytes);
                },
                GameInfo::RPC { net_id, call_id, data } => {
                    let bytes = data.as_bytes();
                    let outcome = self.net_objects.handle_object_rpc(net_id, call_id, bytes);
                    match outcome {
                        Ok(Some((owner_id, RPCCallback::ChatMessage { message }))) => {
                            handler.chat_message(self, owner_id, message);
                        },
                        _ => (),
                    }
                },
                GameInfo::CreateFromPrefab { prefab, .. } => {
                    let is_self = match (&prefab, self.client_id) {
                        (Prefab::Player(control, _, _), Some(my_id)) => control.owner_id()
                            == my_id,
                        _ => false,
                    };
                    self.net_objects.add(prefab);
                    if is_self {
                        if settings.send_initial_info {
                            self.send_initial_identity(settings);
                        }
                        handler.joined_game(self);
                    }
                },
                _ => (),
            }
            proof {
                if forall|k: int|
                    0 <= k < orig.len() ==> quiet_info(#[trigger] orig[k], old(self).client_id) {
                    assert(quiet_info(orig[i as int], old(self).client_id));
                    assert(quiet_step(pre_objects, self.net_objects, ginfo));
                    lemma_quiet_effect_push(
                        old(self).net_objects,
                        pre_objects,
                        self.net_objects,
                        orig.take(i as int),
                        ginfo,
                    );
                    assert(orig.take(i as int).push(orig[i as int]) =~= orig.take(i as int + 1));
                }
            }
            i = i + 1;
        }
        proof {
            assert(orig.take(orig.len() as int) =~= orig);
        }
    }

    /// Queues the join-time identity requests: name, color, skin, hat and
    /// pet, in that order, each as a host-directed RPC from this client's
    /// own control object. Nothing is queued when not in a game, when
    /// designated host, when the ids are not adopted yet, or when no
    /// control object is owned yet.
    #[verifier::rlimit(100)]
    fn send_initial_identity(&mut self, settings: &ClientSettings)
        requires
            encode_utf8(settings.game_username@).len() <= 0xFF00,
        ensures
            *final(self) == (Client { outbox: final(self).outbox, ..*old(self) }),
            ({
                let ready = old(self).game_id is Some && old(self).client_id is Some && old(self).host_id is Some && old(self).host_id.unwrap() != old(self).client_id.unwrap();
                &&& (!ready ==> final(self).outbox@ == old(self).outbox@)
                &&& (ready ==> match first_control(
                    old(self).net_objects.player_controls@,
                    old(self).client_id.unwrap(),
                ) {
                    Some(i) => ({
                        let net = old(self).net_objects.player_controls@[i].net_id;
                        let gid = old(self).game_id.unwrap();
                        let host = old(self).host_id.unwrap();
                        let base = old(self).outbox@.len() as int;
                        &&& final(self).outbox@.len() == base + 5
                        &&& final(self).outbox@.subrange(0, base) == old(self).outbox@
                        &&& (final(self).outbox@[base] matches Outbound::Reliable(b0) && b0@
                            == game_info_to_frame(
                            gid,
                            host,
                            rpc_message(
                                net,
                                RPC_CHECK_NAME,
                                rpc_string_payload(settings.game_username@),
                            ),
                        ))
                        &&& (final(self).outbox@[base + 1] matches Outbound::Reliable(b1) && b1@
                            == game_info_to_frame(
                            gid,
                            host,
                            rpc_message(net, RPC_CHECK_COLOR, seq![settings.initial_color]),
                        ))
                        &&& (final(self).outbox@[base + 2] matches Outbound::Reliable(b2) && b2@
                            == game_info_to_frame(
                            gid,
                            host,
                            rpc_message(net, RPC_SET_SKIN, varint(settings.initial_skin)),
                        ))
                        &&& (final(self).outbox@[base + 3] matches Outbound::Reliable(b3) && b3@
                            == game_info_to_frame(
                            gid,
                            host,
                            rpc_message(net, RPC_SET_HAT, varint(settings.initial_hat)),
                        ))
                        &&& (final(self).outbox@[base + 4] matches Outbound::Reliable(b4) && b4@
                            == game_info_to_frame(
                            gid,
                            host,
                            rpc_message(net, RPC_SET_PET, varint(settings.initial_pet)),
                        ))
                    }),
                    None => final(self).outbox@ == old(self).outbox@,
                })
            }),
    {
        let ready = match (self.game_id, self.client_id, self.host_id) {
            (Some(_), Some(c), Some(h)) => h != c,
            _ => false,
        };
        if !ready {
            return ;
        }
        self.set_name(settings.game_username.as_str());
        self.set_color(settings.initial_color);
        self.set_skin(settings.initial_skin);
        self.set_hat(settings.initial_hat);
        self.set_pet(settings.initial_pet);
        proof {
            match first_control(
                old(self).net_objects.player_controls@,
                old(self).client_id.unwrap(),
            ) {
                Some(i) => {
                    assert(self.outbox@.subrange(0, old(self).outbox@.len() as int) =~= old(self).outbox@);
                },
                None => {},
            }
        }
    }

    /// Dispatches one top-level packet. Frames scoped to another game or
    /// another client are dropped. A server redirect queues a fresh hello
    /// and join and returns the address the transport must move to.
    pub fn handle_packet<H: EventHandler>(
        &mut self,
        handler: &mut H,
        settings: &ClientSettings,
        packet: Packet,
    ) -> (reconnect: Option<Address>)
        requires
            encode_utf8(settings.connect_username@).len() <= u32::MAX,
            encode_utf8(settings.game_username@).len() <= 0xFF00,
            encode_utf8(settings.game_scene@).len() <= 0xFF00,
        ensures
            match packet {
                Packet::ChangeServer { address } => (old(self).game_id matches Some(g)
                    ==> reconnect == Some(address) && final(self).game_id == old(self).game_id
                    && final(self).outbox@.len() == old(self).outbox@.len() + 2 && (final(self).outbox@[old(self).outbox@.len() as int] matches Outbound::Hello(h) && h@
                    == hello_payload(PROTOCOL_VERSION, settings.connect_username@)) && (final(self).outbox@.last() matches Outbound::Reliable(b) && b@ == message_bytes(
                    1,
                    le32(g.id as u32) + seq![7u8],
                ))) && (old(self).game_id is None ==> reconnect is None && *final(self) == *old(self)),
                Packet::ClientJoinedGame(joined) => reconnect is None && final(self).client_id
                    == Some(joined.client_id) && final(self).host_id == Some(joined.host_id) && (
                forall|k: int|
                    0 <= k < joined.player_ids@.len() ==> final(self).player_ids@.contains(
                        #[trigger] joined.player_ids@[k],
                    )) && final(self).game_id == old(self).game_id && ({
                    let queued = settings.send_scene && old(self).game_id is Some;
                    &&& (queued ==> pushed_reliable(
                        old(self).outbox@,
                        final(self).outbox@,
                        game_info_frame(
                            old(self).game_id.unwrap(),
                            message_bytes(
                                6,
                                varint(joined.client_id as u32) + varint(
                                    encode_utf8(settings.game_scene@).len() as u32,
                                ) + encode_utf8(settings.game_scene@),
                            ),
                        ),
                    ))
                    &&& (!queued ==> final(self).outbox@ == old(self).outbox@)
                }),
                Packet::PlayerJoined { game_id, player_id, host_id } => reconnect is None && (
                in_same_game(*old(self), game_id) ==> final(self).host_id == Some(host_id)
                    && final(self).player_ids@.contains(player_id) && *final(self) == (Client {
                    host_id: final(self).host_id,
                    player_ids: final(self).player_ids,
                    ..*old(self)
                })) && (!in_same_game(*old(self), game_id) ==> *final(self) == *old(self)),
                Packet::PlayerLeft { game_id, host_id, .. } => reconnect is None && (in_same_game(
                    *old(self),
                    game_id,
                ) ==> final(self).host_id == Some(host_id) && *final(self) == (Client {
                    host_id: final(self).host_id,
                    player_ids: final(self).player_ids,
                    ..*old(self)
                })) && (!in_same_game(*old(self), game_id) ==> *final(self) == *old(self)),
                Packet::GameStarted => reconnect is None && ({
                    let ready = old(self).game_id is Some && old(self).client_id is Some && old(self).host_id is Some && old(self).host_id.unwrap() != old(self).client_id.unwrap();
                    &&& (ready ==> *final(self) == (Client {
                        outbox: final(self).outbox,
                        ..*old(self)
                    }) && pushed_reliable(
                        old(self).outbox@,
                        final(self).outbox@,
                        game_info_frame(
                            old(self).game_id.unwrap(),
                            message_bytes(7, varint(old(self).client_id.unwrap() as u32)),
                        ),
                    ))
                    &&& (!ready ==> *final(self) == *old(self))
                }),
                Packet::GameList(_) => reconnect is None && *final(self) == *old(self),
                Packet::GameAltered { is_public, .. } => reconnect is None && *final(self) == (
                Client { is_public, ..*old(self) }),
                Packet::GameInfo { game_id, .. } => reconnect is None && (!in_same_game(
                    *old(self),
                    game_id,
                ) ==> *final(self) == *old(self)),
                Packet::GameInfoTo { game_id, client_id, .. } => reconnect is None && (((old(self).client_id matches Some(m) && m != client_id) || !in_same_game(
                    *old(self),
                    game_id,
                )) ==> *final(self) == *old(self)),
                Packet::Disconnected(_) => reconnect is None,
                Packet::ServerList(_) => reconnect is None,
                _ => reconnect is None && *final(self) == *old(self),
            },
    {
        match packet {
            Packet::Disconnected(reason) => {
                handler.disconnect_reason(self, reason);
                None
            },
            Packet::ServerList(list) => {
                handler.server_info(self, list);
                None
            },
            Packet::GameList(_) => None,
            Packet::ChangeServer { address } => {
                match self.game_id {
                    Some(game_id) => {
                        self.send_hello(settings.connect_username.as_str());
                        self.join_game_id(game_id);
                        Some(address)
                    },
                    None => None,
                }
            },
            Packet::ClientJoinedGame(joined) => {
                self.client_id = Some(joined.client_id);
                self.host_id = Some(joined.host_id);
                let mut ids = joined.player_ids;
                let k = ids.len();
                let mut j: usize = 0;
                while j < k
                    invariant
                        k == ids@.len(),
                        j <= k,
                        self.client_id is Some,
                        self.client_id == Some(joined.client_id),
                        self.host_id == Some(joined.host_id),
                        self.game_id == old(self).game_id,
                        self.outbox@ == old(self).outbox@,
                        forall|m: int|
                            0 <= m < j ==> self.player_ids@.contains(#[trigger] ids@[m]),
                        ids@ == joined.player_ids@,
                        encode_utf8(settings.game_scene@).len() <= 0xFF00,
                    decreases k - j,
                {
                    let ghost before_ids = self.player_ids@;
                    self.note_player(ids[j]);
                    proof {
                        assert forall|m: int|
                            0 <= m < j implies self.player_ids@.contains(#[trigger] ids@[m]) by {
                            let w = choose|w: int|
                                0 <= w < before_ids.len() && before_ids[w] == ids@[m];
                            assert(self.player_ids@[w] == ids@[m]);
                        }
                    }
                    j = j + 1;
                }
                if settings.send_scene && self.game_id.is_some() {
                    self.change_scene(settings.game_scene.as_str());
                }
                None
            },
            Packet::PlayerJoined { game_id, player_id, host_id } => {
                if self.same_game(game_id) {
                    self.note_player(player_id);
                    self.host_id = Some(host_id);
                }
                None
            },
            Packet::PlayerLeft { game_id, player_id, host_id, .. } => {
                if self.same_game(game_id) {
                    self.forget_player(player_id);
                    self.host_id = Some(host_id);
                }
                None
            },
            Packet::GameStarted => {
                let ready = match (self.game_id, self.client_id, self.host_id) {
                    (Some(_), Some(c), Some(h)) => h != c,
                    _ => false,
                };
                if ready {
                    self.send_ready();
                }
                None
            },
            Packet::GameInfo { game_id, data } => {
                if self.same_game(game_id) {
                    self.handle_game_info(handler, settings, data);
                }
                None
            },
            Packet::GameInfoTo { game_id, client_id, data } => {
                let for_me = match self.client_id {
                    Some(my_id) => my_id == client_id,
                    None => true,
                };
                if for_me && self.same_game(game_id) {
                    self.handle_game_info(handler, settings, data);
                }
                None
            },
            Packet::GameAltered { game_id: _, is_public } => {
                self.is_public = is_public;
                None
            },
            _ => None,
        }
    }

    /// Whether a packet's game id names the game this session is in.
    fn same_game(&self, game_id: GameId) -> (r: bool)
        ensures
            r == (self.game_id matches Some(g) && g.id == game_id.id),
    {
        match self.game_id {
            Some(g) => g.id == game_id.id,
            None => false,
        }
    }

    /// Records a player id in the member set, once.
    fn note_player(&mut self, player_id: i32)
        ensures
            *final(self) == (Client { player_ids: final(self).player_ids, ..*old(self) }),
            final(self).player_ids@.contains(player_id),
            final(self).player_ids@ == old(self).player_ids@ || final(self).player_ids@ == old(self).player_ids@.push(player_id),
    {
        let n = self.player_ids.len();
        let mut i: usize = 0;
        while i < n
            invariant
                *self == *old(self),
                n == self.player_ids@.len(),
                i <= n,
            decreases n - i,
        {
            if self.player_ids[i] == player_id {
                proof {
                    assert(self.player_ids@.contains(player_id));
                }
                return ;
            }
            i = i + 1;
        }
        self.player_ids.push(player_id);
        proof {
            assert(self.player_ids@.last() == player_id);
            assert(self.player_ids@.contains(player_id));
        }
    }

    /// Drops a player id from the member set.
    fn forget_player(&mut self, player_id: i32)
        ensures
            *final(self) == (Client { player_ids: final(self).player_ids, ..*old(self) }),
    {
        let n = self.player_ids.len();
        let mut i: usize = 0;
        while i < n
            invariant
                *self == *old(self),
                n == self.player_ids@.len(),
                i <= n,
            decreases n - i,
        {
            if self.player_ids[i] == player_id {
                self.player_ids.remove(i);
                return ;
            }
            i = i + 1;
        }
    }

    /// Takes one transport frame, already acknowledged by the transport
    /// engine. A frame body is parsed into packets and each is dispatched;
    /// a body that does not parse is dropped whole. A transport disconnect
    /// queues a fresh hello and a join for the current game unless this
    /// session asked to stop. Returns the address to reconnect to when the
    /// server redirected the session. The embedding loop fires the
    /// frame-arrival callback before calling this.
    pub fn handle_hazel_packet<H: EventHandler>(
        &mut self,
        handler: &mut H,
        settings: &ClientSettings,
        packet: HazelPacket,
    ) -> (reconnect: Option<Address>)
        requires
            encode_utf8(settings.connect_username@).len() <= u32::MAX,
            encode_utf8(settings.game_username@).len() <= 0xFF00,
            encode_utf8(settings.game_scene@).len() <= 0xFF00,
        ensures
            match packet {
                HazelPacket::Disconnect => {
                    &&& reconnect is None
                    &&& (old(self).should_disconnect || old(self).game_id is None ==> *final(self)
                        == *old(self))
                    &&& (!old(self).should_disconnect && old(self).game_id is Some ==> {
                        &&& *final(self) == (Client { outbox: final(self).outbox, ..*old(self) })
                        &&& final(self).outbox@.len() == old(self).outbox@.len() + 2
                        &&& (final(self).outbox@[old(self).outbox@.len() as int]
                            matches Outbound::Hello(h) && h@ == hello_payload(
                            PROTOCOL_VERSION,
                            settings.connect_username@,
                        ))
                        &&& (final(self).outbox@.last() matches Outbound::Reliable(b) && b@
                            == message_bytes(
                            1,
                            le32(old(self).game_id.unwrap().id as u32) + seq![7u8],
                        ))
                    })
                },
                HazelPacket::Acknowledge { .. } => reconnect is None && *final(self) == *old(self),
                HazelPacket::KeepAlive { .. } => reconnect is None && *final(self) == *old(self),
                HazelPacket::Hello { .. } => reconnect is None && *final(self) == *old(self),
                HazelPacket::Unreliable { data } => frame_body_outcome(
                    *old(self),
                    *final(self),
                    reconnect,
                    data@,
                    settings.connect_username@,
                ),
                HazelPacket::Reliable { data, .. } => frame_body_outcome(
                    *old(self),
                    *final(self),
                    reconnect,
                    data@,
                    settings.connect_username@,
                ),
            },
    {
        match packet {
            HazelPacket::Unreliable { data } | HazelPacket::Reliable { data, .. } => {
                let ghost body = data@;
                let mut reader = PacketReader::new(data);
                let packets = match read_all_packets(&mut reader) {
                    Ok(v) => v,
                    Err(_) => {
                        return None;
                    },
                };
                let ghost pkts = packets@;
                let ghost ms = crate::codec::parse_messages(body).unwrap();
                let mut reconnect: Option<Address> = None;
                let mut items = packets;
                let n = items.len();
                let mut i: usize = 0;
                while i < n
                    invariant
                        items@ == pkts.skip(i as int),
                        pkts.len() == n,
                        i <= n,
                        encode_utf8(settings.connect_username@).len() <= u32::MAX,
                        encode_utf8(settings.game_username@).len() <= 0xFF00,
                        encode_utf8(settings.game_scene@).len() <= 0xFF00,
                        crate::codec::parse_messages(body) == Some(ms),
                        ms.len() == n,
                        forall|k: int|
                            0 <= k < n ==> crate::packets::packet_rel(
                                pkts[k],
                                (#[trigger] ms[k]).0,
                                ms[k].1,
                            ),
                        match reconnect {
                            Some(a) => exists|j: int|
                                0 <= j < i && ((#[trigger] pkts[j])
                                    matches Packet::ChangeServer { address } && address == a),
                            None => true,
                        },
                        (ms.len() == 1 && ms[0].0 == 0x0d && ms[0].1.len() >= 6 && old(self).game_id is Some) ==> (if i == 0 {
                            *self == *old(self) && reconnect is None
                        } else {
                            &&& (reconnect matches Some(a) && a.spec_ser() == ms[0].1.subrange(
                                0,
                                6,
                            ))
                            &&& self.game_id == old(self).game_id
                            &&& self.outbox@.len() == old(self).outbox@.len() + 2
                            &&& (self.outbox@[old(self).outbox@.len() as int]
                                matches Outbound::Hello(h) && h@ == hello_payload(
                                PROTOCOL_VERSION,
                                settings.connect_username@,
                            ))
                            &&& (self.outbox@.last() matches Outbound::Reliable(b) && b@
                                == message_bytes(
                                1,
                                le32(old(self).game_id.unwrap().id as u32) + seq![7u8],
                            ))
                        }),
                    decreases n - i,
                {
                    let p = items.remove(0);
                    let ghost gp = p;
                    proof {
                        assert(pkts.skip(i as int)[0] == pkts[i as int]);
                        assert(items@ =~= pkts.skip(i as int + 1));
                        assert(gp == pkts[i as int]);
                    }
                    let r = self.handle_packet(handler, settings, p);
                    proof {
                        match gp {
                            Packet::ChangeServer { address } => {},
                            _ => {
                                assert(r is None);
                            },
                        }
                    }
                    if r.is_some() {
                        reconnect = r;
                    }
                    i = i + 1;
                }
                let ghost rc = reconnect;
                proof {
                    match rc {
                        Some(a) => {
                            let j = choose|j: int|
                                0 <= j < i && ((#[trigger] pkts[j])
                                    matches Packet::ChangeServer { address } && address == a);
                            assert(crate::packets::packet_rel(pkts[j], ms[j].0, ms[j].1));
                            assert(ms[j].0 == 0x0d && ms[j].1.len() >= 6 && ms[j].1.subrange(0, 6)
                                == a.spec_ser());
                        },
                        None => {},
                    }
                }
                reconnect
            },
            HazelPacket::Disconnect => {
                if !self.should_disconnect {
                    match self.game_id {
                        Some(game_id) => {
                            self.send_hello(settings.connect_username.as_str());
                            self.join_game_id(game_id);
                        },
                        None => (),
                    }
                }
                None
            },
            _ => None,
        }
    }
}

/// An RPC event whose payload fits comfortably in a message leaves room
/// for its varint net id and call byte.
proof fn lemma_rpc_fits(info: GameInfo)
    requires
        info matches GameInfo::RPC { data, .. } && data@.len() <= 0xFF10,
    ensures
        info.spec_serializable(),
        info.spec_body().len() <= 0xFF16,
{
    match info {
        GameInfo::RPC { net_id, call_id, data } => {
            crate::codec::lemma_varint_round_trip(net_id, Seq::<u8>::empty());
        },
        _ => {},
    }
}

/// A string RPC payload is its length varint plus its UTF-8 bytes.
proof fn lemma_string_payload_len(s: Seq<char>)
    requires
        encode_utf8(s).len() <= 0xFF00,
    ensures
        crate::netobjects::rpc_string_payload(s).len() <= 0xFF10,
{
    crate::codec::lemma_varint_round_trip(
        encode_utf8(s).len() as u32,
        Seq::<u8>::empty(),
    );
}

/// The matchmaker scan's pacing rule: how many listing requests to issue
/// now, toward `cache_size` listings, with `reqs_pending` requests
/// unanswered (ten listings expected from each) and `cached` listings
/// already buffered — rounding up, never more than `budget`.
pub fn requests_to_make(cache_size: u32, reqs_pending: u32, cached: u32, budget: u32) -> (r: u32)
    ensures
        ({
            let missing = cache_size - (reqs_pending * 10 + cached);
            &&& (cache_size <= reqs_pending * 10 + cached ==> r == 0)
            &&& (cache_size > reqs_pending * 10 + cached ==> r as int == (if (missing + 9) / 10
                <= budget {
                (missing + 9) / 10
            } else {
                budget as int
            }))
        }),
{
    let outstanding: u64 = (reqs_pending as u64) * 10 + (cached as u64);
    if (cache_size as u64) <= outstanding {
        return 0;
    }
    let missing: u64 = (cache_size as u64) - outstanding;
    let wanted: u64 = (missing + 9) / 10;
    if wanted <= budget as u64 {
        wanted as u32
    } else {
        budget
    }
}

} // verus!
