use hazelnet::codec::PacketReader;
use hazelnet::hazel::HazelPacket;
use hazelnet::netobjects::PlayerControl;
use hazelnet::objects::{Address, GameId};
use hazelnet::packets::{DisconnectReason, Packet, ServerListPacket};
use hazelnet::session::{
    requests_to_make, Client, ClientSettings, EventHandler, MainServer, Outbound, DEFAULT_PORT,
};
use hazelnet::utils::{apply_mask, decode_hex, decode_purchases, encode_purchases};

#[derive(Default)]
struct Recorder {
    chats: Vec<(i32, String)>,
    joined: u32,
    disconnects: Vec<DisconnectReason>,
    server_lists: Vec<ServerListPacket>,
}

impl EventHandler for Recorder {
    fn disconnect_reason(&mut self, _client: &mut Client, reason: DisconnectReason) {
        self.disconnects.push(reason);
    }

    fn joined_game(&mut self, _client: &mut Client) {
        self.joined += 1;
    }

    fn chat_message(&mut self, _client: &mut Client, player_id: i32, message: String) {
        self.chats.push((player_id, message));
    }

    fn server_info(&mut self, _client: &mut Client, data: ServerListPacket) {
        self.server_lists.push(data);
    }
}

fn reliable_bytes(o: &Outbound) -> Vec<u8> {
    match o {
        Outbound::Reliable(b) => b.clone(),
        other => panic!("expected a reliable send, got {:?}", other),
    }
}

#[test]
fn join_by_code_payload() {
    // joining AQNKQQ sends the id's four bytes and the full maps bitset
    let mut client = Client::new();
    client.join_game_code("AQNKQQ");
    assert_eq!(client.outbox.len(), 1);
    let frame = reliable_bytes(&client.outbox[0]);
    // one message: length 5, tag 1 (join), then the payload
    assert_eq!(frame, vec![0x05, 0x00, 0x01, 0x19, 0xdc, 0x06, 0x80, 0x07]);
}

#[test]
fn redirect_reopens_hello_and_join() {
    let mut client = Client::new();
    let mut handler = Recorder::default();
    let settings = ClientSettings::default();
    client.join_game_code("AQNKQQ");
    client.outbox.clear();
    let packet = Packet::ChangeServer {
        address: Address { ip: [1, 2, 3, 4], port: 22023 },
    };
    let reconnect = client.handle_packet(&mut handler, &settings, packet);
    let addr = reconnect.expect("a redirect must hand back the new address");
    assert_eq!(addr.ip, [1, 2, 3, 4]);
    assert_eq!(addr.port, 22023);
    assert_eq!(client.outbox.len(), 2);
    assert!(matches!(client.outbox[0], Outbound::Hello(_)));
    let join = reliable_bytes(&client.outbox[1]);
    assert_eq!(join, vec![0x05, 0x00, 0x01, 0x19, 0xdc, 0x06, 0x80, 0x07]);
}

#[test]
fn chat_round_trip() {
    let mut client = Client::new();
    let mut handler = Recorder::default();
    let settings = ClientSettings::default();
    client.game_id = Some(GameId::from_chars("AQNKQQ"));
    client.client_id = Some(1);
    client.host_id = Some(2);
    client.net_objects.player_controls.push(PlayerControl {
        net_id: 33,
        owner_id: 1,
        player_id: 0,
        name: None,
    });
    client.net_objects.player_controls.push(PlayerControl {
        net_id: 44,
        owner_id: 77,
        player_id: 1,
        name: None,
    });

    // outbound: one GameInfo wrapping one RPC with call id 13 and "hi"
    client.send_chat("hi");
    assert_eq!(client.outbox.len(), 1);
    let frame = reliable_bytes(&client.outbox[0]);
    let mut r = PacketReader::new(frame);
    let (tag, mut body) = r.read_message().unwrap();
    assert_eq!(tag, 0x05);
    assert_eq!(body.read_i32().unwrap(), client.game_id.unwrap().id);
    let (inner_tag, mut rpc) = body.read_message().unwrap();
    assert_eq!(inner_tag, 2);
    assert_eq!(rpc.read_u32_encoded().unwrap(), 33);
    assert_eq!(rpc.read_u8().unwrap(), 13);
    assert_eq!(rpc.remaining_bytes(), vec![0x02, b'h', b'i']);

    // inbound: the identical shape from another object fires the callback
    let gid = client.game_id.unwrap().id.to_le_bytes();
    let mut body: Vec<u8> = Vec::new();
    let rpc_payload = vec![44u8, 13, 0x02, b'h', b'i'];
    let inner_len = rpc_payload.len() as u16;
    let outer: Vec<u8> = [
        &gid[..],
        &inner_len.to_le_bytes()[..],
        &[2u8][..],
        &rpc_payload[..],
    ]
    .concat();
    let outer_len = outer.len() as u16;
    body.extend_from_slice(&outer_len.to_le_bytes());
    body.push(0x05);
    body.extend_from_slice(&outer);
    let reconnect = client.handle_hazel_packet(
        &mut handler,
        &settings,
        HazelPacket::Reliable { ack_id: 1, data: body },
    );
    assert!(reconnect.is_none());
    assert_eq!(handler.chats, vec![(77, "hi".to_string())]);
}

#[test]
fn main_servers_use_the_default_port() {
    for server in [MainServer::Europe, MainServer::NorthAmerica, MainServer::Asia] {
        assert_eq!(server.to_addr().port, DEFAULT_PORT);
    }
    assert_eq!(MainServer::Europe.to_addr().ip, [172, 105, 251, 170]);
}

#[test]
fn scan_pacing_rounds_up_and_caps() {
    // target 200, nothing pending or cached: twenty requests wanted, capped
    assert_eq!(requests_to_make(200, 0, 0, 10), 10);
    assert_eq!(requests_to_make(200, 0, 0, 50), 20);
    // 15 pending answers promise 150, 45 cached: 5 missing, one request
    assert_eq!(requests_to_make(200, 15, 45, 10), 1);
    // fully covered: none
    assert_eq!(requests_to_make(200, 20, 0, 10), 0);
    assert_eq!(requests_to_make(200, 0, 200, 10), 0);
    // 199 covered: one more
    assert_eq!(requests_to_make(200, 0, 199, 10), 1);
}

#[test]
fn is_host_needs_matching_ids() {
    let mut client = Client::new();
    assert!(!client.is_host());
    client.client_id = Some(5);
    client.host_id = Some(5);
    assert!(client.is_host());
    client.host_id = Some(6);
    assert!(!client.is_host());
}

#[test]
fn decode_hex_pairs() {
    assert_eq!(decode_hex("0aFF10"), vec![0x0A, 0xFF, 0x10]);
    assert_eq!(decode_hex(""), Vec::<u8>::new());
}

#[test]
fn purchase_list_round_trips_through_the_mask() {
    let values = vec!["hat.one".to_string(), "skin.two".to_string()];
    let plain = encode_purchases(&values);
    let masked = apply_mask(&plain);
    assert_ne!(masked, plain);
    let unmasked = apply_mask(&masked);
    assert_eq!(unmasked, plain);
    let decoded = decode_purchases(unmasked).unwrap();
    assert_eq!(decoded, values);
}

#[test]
fn listing_request_frames_its_options() {
    let mut client = Client::new();
    client.request_game_list(0x100, 7, 0);
    let frame = reliable_bytes(&client.outbox[0]);
    // one message with the game-list tag: a zero byte, the option block's
    // length as a varint, then the 42 option bytes
    assert_eq!(frame[2], 0x10);
    assert_eq!(frame[3], 0x00);
    assert_eq!(frame[4], 42);
    assert_eq!(frame.len(), 3 + 2 + 42);
}

#[test]
fn game_started_makes_a_non_host_ready() {
    let mut client = Client::new();
    let mut handler = Recorder::default();
    let settings = ClientSettings::default();
    client.game_id = Some(GameId::from_chars("AQNKQQ"));
    client.client_id = Some(9);
    client.host_id = Some(2);
    client.handle_packet(&mut handler, &settings, Packet::GameStarted);
    assert_eq!(client.outbox.len(), 1);
    // the ready notice: a GameInfo wrapping one client-ready event
    let frame = reliable_bytes(&client.outbox[0]);
    let mut r = PacketReader::new(frame);
    let (tag, mut body) = r.read_message().unwrap();
    assert_eq!(tag, 0x05);
    assert_eq!(body.read_i32().unwrap(), client.game_id.unwrap().id);
    let (inner_tag, mut inner) = body.read_message().unwrap();
    assert_eq!(inner_tag, 7);
    assert_eq!(inner.read_i32_encoded().unwrap(), 9);

    // the designated host stays quiet
    client.outbox.clear();
    client.host_id = Some(9);
    client.handle_packet(&mut handler, &settings, Packet::GameStarted);
    assert!(client.outbox.is_empty());
}

#[test]
fn frames_for_other_games_are_dropped() {
    let mut client = Client::new();
    let mut handler = Recorder::default();
    let settings = ClientSettings::default();
    client.game_id = Some(GameId::from_chars("AQNKQQ"));
    client.client_id = Some(1);
    client.host_id = Some(2);
    let other = GameId::from_chars("QQQQQQ");
    client.handle_packet(
        &mut handler,
        &settings,
        Packet::PlayerJoined { game_id: other, player_id: 50, host_id: 60 },
    );
    assert!(client.player_ids.is_empty());
    assert_eq!(client.host_id, Some(2));
    let mine = client.game_id.unwrap();
    client.handle_packet(
        &mut handler,
        &settings,
        Packet::PlayerJoined { game_id: mine, player_id: 50, host_id: 60 },
    );
    assert_eq!(client.player_ids, vec![50]);
    assert_eq!(client.host_id, Some(60));
}

#[test]
fn joined_game_adopts_ids_and_members() {
    let mut client = Client::new();
    let mut handler = Recorder::default();
    let settings = ClientSettings::default();
    client.game_id = Some(GameId::from_chars("AQNKQQ"));
    // the join answer: game id, client id 9, host id 2, two other players
    let mut w = hazelnet::codec::PacketWriter::new();
    w.start_message(0x07);
    client.game_id.unwrap().serialize(&mut w);
    w.write_i32(9);
    w.write_i32(2);
    w.write_u32_encoded(2);
    w.write_i32_encoded(40);
    w.write_i32_encoded(41);
    w.end_message();
    let mut r = PacketReader::new(w.finish());
    let packet = hazelnet::packets::Packet::deserialize(&mut r).unwrap();
    client.handle_packet(&mut handler, &settings, packet);
    assert_eq!(client.client_id, Some(9));
    assert_eq!(client.host_id, Some(2));
    assert!(client.player_ids.contains(&40));
    assert!(client.player_ids.contains(&41));
    // the scene announcement went out
    assert_eq!(client.outbox.len(), 1);
}

#[test]
fn purchase_list_encodes_length_prefixed_strings() {
    let plain = encode_purchases(&vec!["ab".to_string()]);
    assert_eq!(plain, vec![0x02, b'a', b'b', 0x00]);
    assert_eq!(decode_purchases(plain).unwrap(), vec!["ab".to_string()]);
    // whatever follows the empty terminator is ignored
    let decoded = decode_purchases(vec![0x01, b'x', 0x00, 0xFF, 0xFF]).unwrap();
    assert_eq!(decoded, vec!["x".to_string()]);
}
