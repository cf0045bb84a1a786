use hazelnet::codec::{PacketReader, PacketWriter};
use hazelnet::netobjects::{
    GameData, PlayerControl, PlayerTransform, RPCCallback, VoteBanSystem, World, RPC_SEND_CHAT,
    RPC_SET_NAME, RPC_SNAP_TO,
};
use hazelnet::objects::{PlayerData, Vector2};
use hazelnet::packets::{Data, DisconnectReason, GameInfo, Packet};

fn chat_payload(text: &str) -> Vec<u8> {
    let mut w = PacketWriter::new();
    w.write_string(text);
    w.finish()
}

#[test]
fn player_control_reads_initializer() {
    let mut r = PacketReader::new(vec![0x01, 0x07]);
    let c = PlayerControl::initialize(5, 42, &mut r).unwrap();
    assert_eq!(c.net_id(), 5);
    assert_eq!(c.owner_id(), 42);
    assert_eq!(c.player_id, 7);
}

#[test]
fn player_control_surfaces_chat_and_stores_names() {
    let mut r = PacketReader::new(vec![0x00, 0x00]);
    let mut c = PlayerControl::initialize(5, 42, &mut r).unwrap();
    let mut payload = PacketReader::new(chat_payload("hi"));
    match c.handle_rpc(RPC_SEND_CHAT, &mut payload).unwrap() {
        RPCCallback::ChatMessage { message } => assert_eq!(message, "hi"),
        RPCCallback::Nothing => panic!("a chat line must surface"),
    }
    let mut payload = PacketReader::new(chat_payload("newname"));
    match c.handle_rpc(RPC_SET_NAME, &mut payload).unwrap() {
        RPCCallback::Nothing => (),
        _ => panic!("a set-name carries no callback"),
    }
    assert_eq!(c.name.as_deref(), Some("newname"));
}

#[test]
fn chat_rpc_frame_has_call_id_thirteen() {
    let mut r = PacketReader::new(vec![0x00, 0x00]);
    let c = PlayerControl::initialize(33, 1, &mut r).unwrap();
    match c.rpc_chat_message("hi") {
        GameInfo::RPC { net_id, call_id, data } => {
            assert_eq!(net_id, 33);
            assert_eq!(call_id, 13);
            let Data::Bytes(b) = data;
            assert_eq!(b, vec![0x02, b'h', b'i']);
        }
        other => panic!("unexpected event {:?}", other),
    }
}

#[test]
fn snap_to_updates_transform_and_zeroes_velocity() {
    let mut init = PacketWriter::new();
    init.write_u16(10);
    Vector2 { x: 100, y: 200 }.serialize(&mut init);
    Vector2 { x: 300, y: 400 }.serialize(&mut init);
    let mut r = PacketReader::new(init.finish());
    let mut t = PlayerTransform::initialize(9, 3, &mut r).unwrap();
    assert_eq!(t.last_seq_id, 10);
    assert_eq!(t.velocity, Vector2 { x: 300, y: 400 });

    let mut payload = PacketWriter::new();
    Vector2 { x: 11, y: 22 }.serialize(&mut payload);
    payload.write_u16(15);
    let mut pr = PacketReader::new(payload.finish());
    t.handle_rpc(RPC_SNAP_TO, &mut pr).unwrap();
    assert_eq!(t.target_position, Vector2 { x: 11, y: 22 });
    assert_eq!(t.last_seq_id, 15);
    // zero velocity sits at the midpoint of the normalized domain
    assert_eq!(t.velocity, Vector2 { x: 0x7FFF, y: 0x7FFF });
}

#[test]
fn world_update_keeps_unselected_subsystems() {
    let mut init = PacketWriter::new();
    init.write_u32(0x3F800000);
    init.write_u32_encoded(0);
    init.write_u8(3);
    init.write_u8(1);
    init.write_u8(0);
    init.write_u32(0x42C80000);
    init.write_u32_encoded(0);
    init.write_u32_encoded(0);
    init.write_bool(false);
    init.write_bool(true);
    for _ in 0..13 {
        init.write_bool(false);
    }
    init.write_u32(0);
    let mut r = PacketReader::new(init.finish());
    let mut w = World::initialize(1, -2, &mut r).unwrap();
    assert_eq!(w.door_open.len(), 13);
    assert!(w.comms_active);

    // an update selecting only the switches leaves everything else alone
    let mut upd = PacketWriter::new();
    upd.write_u32_encoded(1 << 7);
    upd.write_u8(7);
    upd.write_u8(7);
    upd.write_u8(255);
    let mut ur = PacketReader::new(upd.finish());
    w.update_data(&mut ur).unwrap();
    assert_eq!(w.expected_switches, 7);
    assert_eq!(w.elec_value, 255);
    assert!(w.comms_active);
    assert_eq!(w.life_supp_countdown, 0x42C80000);
    assert_eq!(w.reactor_countdown, 0x3F800000);
}

#[test]
fn game_data_replaces_records_by_player_id() {
    let mut init = PacketReader::new(vec![0x00]);
    let mut g = GameData::initialize(20, -2, &mut init).unwrap();
    let record = PlayerData {
        name: "one".to_string(),
        color: 1,
        hat_id: 0,
        skin_id: 0,
        pet_id: 0,
        disconnected: false,
        is_imposter: false,
        is_dead: false,
        tasks: vec![],
        dirty: false,
    };
    g.insert_player(4, record.clone());
    let mut replacement = record.clone();
    replacement.name = "two".to_string();
    g.insert_player(4, replacement);
    assert_eq!(g.players.len(), 1);
    assert_eq!(g.get_player(4).unwrap().name, "two");
    assert!(g.get_player(5).is_none());
}

#[test]
fn vote_ban_reads_its_flag() {
    let mut r = PacketReader::new(vec![0x01]);
    let v = VoteBanSystem::initialize(7, -2, &mut r).unwrap();
    assert!(v.any_votes);
}

#[test]
fn game_info_events_round_trip() {
    let mut w = PacketWriter::new();
    let rpc = GameInfo::RPC { net_id: 300, call_id: 13, data: Data::Bytes(vec![0x02, b'h', b'i']) };
    rpc.serialize(&mut w);
    let destroy = GameInfo::Destroy { net_id: 7 };
    destroy.serialize(&mut w);
    let ready = GameInfo::ClientReady { client_id: 12 };
    ready.serialize(&mut w);
    let mut r = PacketReader::new(w.finish());
    match GameInfo::deserialize(&mut r).unwrap() {
        GameInfo::RPC { net_id, call_id, data } => {
            assert_eq!(net_id, 300);
            assert_eq!(call_id, 13);
            let Data::Bytes(b) = data;
            assert_eq!(b, vec![0x02, b'h', b'i']);
        }
        other => panic!("unexpected event {:?}", other),
    }
    assert!(matches!(GameInfo::deserialize(&mut r).unwrap(), GameInfo::Destroy { net_id: 7 }));
    assert!(
        matches!(GameInfo::deserialize(&mut r).unwrap(), GameInfo::ClientReady { client_id: 12 })
    );
    assert_eq!(r.remaining(), 0);
}

#[test]
fn disconnect_reasons_map_from_their_codes() {
    let mut r = PacketReader::new(vec![]);
    assert_eq!(
        DisconnectReason::from_value_and_reader(6, &mut r).unwrap(),
        DisconnectReason::Banned
    );
    assert_eq!(
        DisconnectReason::from_value_and_reader(210, &mut r).unwrap(),
        DisconnectReason::NewConnection
    );
    assert!(DisconnectReason::from_value_and_reader(4, &mut r).is_err());
    let mut r = PacketReader::new(chat_payload("bye"));
    match DisconnectReason::from_value_and_reader(8, &mut r).unwrap() {
        DisconnectReason::Custom { message } => assert_eq!(message, "bye"),
        other => panic!("unexpected reason {:?}", other),
    }
}

#[test]
fn disconnect_packet_parses_small_reason_words() {
    // the join/disconnect tag carries a reason when its first word is small
    let mut w = PacketWriter::new();
    w.start_message(0x01);
    w.write_i32(7);
    w.end_message();
    let mut r = PacketReader::new(w.finish());
    match Packet::deserialize(&mut r).unwrap() {
        Packet::Disconnected(DisconnectReason::Kicked) => (),
        other => panic!("unexpected packet {:?}", other),
    }
    // and a player-joined event otherwise
    let mut w = PacketWriter::new();
    w.start_message(0x01);
    w.write_i32(-2147483648 + 77);
    w.write_i32(5);
    w.write_i32(6);
    w.end_message();
    let mut r = PacketReader::new(w.finish());
    match Packet::deserialize(&mut r).unwrap() {
        Packet::PlayerJoined { game_id, player_id, host_id } => {
            assert_eq!(game_id.id, -2147483648 + 77);
            assert_eq!(player_id, 5);
            assert_eq!(host_id, 6);
        }
        other => panic!("unexpected packet {:?}", other),
    }
}

#[test]
fn world_update_applies_selected_doors_and_values() {
    let mut init = PacketWriter::new();
    init.write_u32(0);
    init.write_u32_encoded(0);
    init.write_u8(0);
    init.write_u8(0);
    init.write_u8(0);
    init.write_u32(0);
    init.write_u32_encoded(0);
    init.write_u32_encoded(0);
    init.write_bool(false);
    init.write_bool(false);
    for _ in 0..13 {
        init.write_bool(false);
    }
    init.write_u32(0);
    let mut r = PacketReader::new(init.finish());
    let mut w = World::initialize(9, -2, &mut r).unwrap();

    // select the reactor and the doors: both must take the decoded values
    let mut upd = PacketWriter::new();
    upd.write_u32_encoded((1 << 3) | (1 << 16));
    upd.write_u32(0x41200000);
    upd.write_u32_encoded(2);
    upd.write_u8(1);
    upd.write_u8(2);
    upd.write_u8(3);
    upd.write_u8(4);
    upd.write_u32_encoded(0b101);  // doors 0 and 2
    upd.write_bool(true);
    upd.write_bool(true);
    let mut ur = PacketReader::new(upd.finish());
    w.update_data(&mut ur).unwrap();
    assert_eq!(w.reactor_countdown, 0x41200000);
    assert_eq!(w.user_console_pairs, vec![(1, 2), (3, 4)]);
    assert!(w.door_open[0]);
    assert!(!w.door_open[1]);
    assert!(w.door_open[2]);
}

#[test]
fn batched_update_rpc_carries_only_dirty_records() {
    let mut init = PacketReader::new(vec![0x00]);
    let mut g = GameData::initialize(20, -2, &mut init).unwrap();
    let clean = PlayerData {
        name: "calm".to_string(),
        color: 1,
        hat_id: 0,
        skin_id: 0,
        pet_id: 0,
        disconnected: false,
        is_imposter: false,
        is_dead: false,
        tasks: vec![],
        dirty: false,
    };
    let mut dirty = clean.clone();
    dirty.name = "loud".to_string();
    dirty.dirty = true;
    g.insert_player(1, clean);
    g.insert_player(2, dirty);
    match g.rpc_update_player_info().unwrap() {
        GameInfo::RPC { net_id, call_id, data } => {
            assert_eq!(net_id, 20);
            assert_eq!(call_id, 0x1e);
            let Data::Bytes(b) = data;
            let mut r = PacketReader::new(b);
            let (tag, mut inner) = r.read_message().unwrap();
            assert_eq!(tag, 2);
            let record = PlayerData::deserialize(&mut inner).unwrap();
            assert_eq!(record.name, "loud");
            assert_eq!(r.remaining(), 0);
        }
        other => panic!("unexpected event {:?}", other),
    }
}

fn write_record(w: &mut PacketWriter, id: u8, name: &str, color: u8) {
    w.write_u8(id);
    w.write_string(name);
    w.write_u8(color);
    w.write_u32_encoded(0);
    w.write_u32_encoded(0);
    w.write_u32_encoded(0);
    w.write_u8(0);
    w.write_u8(0);
}

#[test]
fn game_data_initializer_keeps_the_last_duplicate_record() {
    let mut w = PacketWriter::new();
    w.write_u32_encoded(2);
    write_record(&mut w, 4, "early", 1);
    write_record(&mut w, 4, "late", 2);
    let mut r = PacketReader::new(w.finish());
    let g = GameData::initialize(20, -2, &mut r).unwrap();
    assert_eq!(g.players.len(), 1);
    assert_eq!(g.get_player(4).unwrap().name, "late");
    assert_eq!(g.get_player(4).unwrap().color, 2);
}
