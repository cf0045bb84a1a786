use hazelnet::codec::{CodecError, PacketReader, PacketWriter};
use hazelnet::objects::{
    Address, GameId, GameListing, GameOptions, PlayerData, ServerInfo, TaskInfo, Vector2,
    LANGUAGE_ENGLISH,
};

#[test]
fn test_known_gameid() {
    let code = "AQNKQQ";
    let id = GameId::from_chars(code);
    assert_eq!(&id.id.to_le_bytes(), &[0x19, 0xdc, 0x06, 0x80]);
}

#[test]
fn game_code_round_trips() {
    for code in ["AQNKQQ", "QQQQQQ", "MMMMMM", "WXRTYL", "AZERTY"] {
        let id = GameId::from_chars(code);
        assert!(id.id < -1);
        assert_eq!(id.to_code_string(), code);
    }
}

#[test]
fn four_char_codes_are_non_negative() {
    let id = GameId::from_chars("CODE");
    assert!(id.id >= 0);
    assert_eq!(id.to_code_string(), "CODE");
}

#[test]
fn negative_one_routes_to_four_char_branch() {
    // -1 is not below -1, so it renders as four raw characters
    let id = GameId { id: -1 };
    let s = id.to_code_string();
    assert_eq!(s.chars().count(), 4);
    let id = GameId { id: 0x41424344 };
    assert_eq!(id.to_code_string(), "DCBA");
}

#[test]
fn game_id_serializes_little_endian() {
    let id = GameId::from_chars("AQNKQQ");
    let mut w = PacketWriter::new();
    id.serialize(&mut w);
    assert_eq!(w.finish(), vec![0x19, 0xdc, 0x06, 0x80]);
}

#[test]
fn address_round_trips() {
    let a = Address { ip: [1, 2, 3, 4], port: 22023 };
    let mut w = PacketWriter::new();
    a.serialize(&mut w);
    let mut r = PacketReader::new(w.finish());
    let b = Address::deserialize(&mut r).unwrap();
    assert_eq!(a, b);
}

#[test]
fn vector2_round_trips_exactly() {
    let v = Vector2 { x: 12345, y: 65535 };
    let mut w = PacketWriter::new();
    v.serialize(&mut w);
    let mut r = PacketReader::new(w.finish());
    assert_eq!(Vector2::deserialize(&mut r), Ok(v));
}

#[test]
fn vector2_clamps_below_minus_forty() {
    // an axis at or below -40.0 world units stores as 0 in the normalized domain
    let v = Vector2::from_milli(-50000, 0);
    assert_eq!(v.x, 0);
    let v = Vector2::from_milli(-40000, 40000);
    assert_eq!(v.x, 0);
    assert_eq!(v.y, 65535);
}

#[test]
fn vector2_milli_round_trip_within_tolerance() {
    // quantization tolerance: 80/65535 world units, about 1.3 thousandths
    for t in [-40000i32, -20000, -1, 0, 1, 12345, 39999, 40000] {
        let v = Vector2::from_milli(t, t);
        let (x, y) = v.to_milli();
        assert!((x - t).abs() <= 2);
        assert!((y - t).abs() <= 2);
    }
}

#[test]
fn task_info_round_trips() {
    let t = TaskInfo { id: 300, complete: true };
    let mut w = PacketWriter::new();
    t.serialize(&mut w);
    let mut r = PacketReader::new(w.finish());
    assert_eq!(TaskInfo::deserialize(&mut r), Ok(t));
}

#[test]
fn player_data_round_trips() {
    let p = PlayerData {
        name: "oregano".to_string(),
        color: 3,
        hat_id: 300,
        skin_id: 7,
        pet_id: 130,
        disconnected: false,
        is_imposter: true,
        is_dead: false,
        tasks: vec![
            TaskInfo { id: 1, complete: false },
            TaskInfo { id: 200, complete: true },
        ],
        dirty: true,
    };
    let mut w = PacketWriter::new();
    p.serialize(&mut w);
    let mut r = PacketReader::new(w.finish());
    let q = PlayerData::deserialize(&mut r).unwrap();
    assert_eq!(q.name, p.name);
    assert_eq!(q.color, p.color);
    assert_eq!(q.hat_id, p.hat_id);
    assert_eq!(q.skin_id, p.skin_id);
    assert_eq!(q.pet_id, p.pet_id);
    assert_eq!(q.disconnected, p.disconnected);
    assert_eq!(q.is_imposter, p.is_imposter);
    assert_eq!(q.is_dead, p.is_dead);
    assert_eq!(q.tasks, p.tasks);
    // the dirty flag is local bookkeeping and never crosses the wire
    assert!(!q.dirty);
    assert_eq!(r.remaining(), 0);
}

#[test]
fn game_options_round_trips() {
    let o = GameOptions::default();
    let mut w = PacketWriter::new();
    o.serialize(&mut w);
    let bytes = w.finish();
    assert_eq!(bytes.len(), 42);
    let mut r = PacketReader::new(bytes);
    let p = GameOptions::deserialize(&mut r).unwrap();
    assert_eq!(o, p);
    assert_eq!(o.language, LANGUAGE_ENGLISH);
}

#[test]
fn game_options_rejects_unknown_language_bits() {
    let o = GameOptions::default();
    let mut w = PacketWriter::new();
    o.serialize(&mut w);
    let mut bytes = w.finish();
    bytes[4] = 0xFF;  // set language bits the protocol does not define
    let mut r = PacketReader::new(bytes);
    assert_eq!(GameOptions::deserialize(&mut r), Err(CodecError::InvalidDiscriminant));
}

#[test]
fn server_info_round_trips() {
    let s = ServerInfo {
        name: "Test-Server".to_string(),
        ip: [127, 0, 0, 1],
        port: 22023,
        connection_failures: 2,
    };
    let mut w = PacketWriter::new();
    s.serialize(&mut w);
    let mut r = PacketReader::new(w.finish());
    let t = ServerInfo::deserialize(&mut r).unwrap();
    assert_eq!(s, t);
    assert_eq!(r.remaining(), 0);
}

#[test]
fn game_listing_round_trips() {
    let g = GameListing {
        address: Address { ip: [10, 0, 0, 1], port: 22023 },
        id: GameId::from_chars("AQNKQQ"),
        host_username: "hostname".to_string(),
        player_count: 5,
        age: 1000,
        map_id: 2,
        num_imposters: 2,
        max_players: 10,
    };
    let mut w = PacketWriter::new();
    g.address.serialize(&mut w);
    g.id.serialize(&mut w);
    w.write_string(&g.host_username);
    w.write_u8(g.player_count);
    w.write_u32_encoded(g.age);
    w.write_u8(g.map_id);
    w.write_u8(g.num_imposters);
    w.write_u8(g.max_players);
    let mut r = PacketReader::new(w.finish());
    let h = GameListing::deserialize(&mut r).unwrap();
    assert_eq!(h.address, g.address);
    assert_eq!(h.id, g.id);
    assert_eq!(h.host_username, g.host_username);
    assert_eq!(h.player_count, g.player_count);
    assert_eq!(h.age, g.age);
    assert_eq!(h.map_id, g.map_id);
    assert_eq!(h.num_imposters, g.num_imposters);
    assert_eq!(h.max_players, g.max_players);
    assert_eq!(r.remaining(), 0);
}

#[test]
fn game_listing_rejects_unknown_map_bits() {
    let mut w = PacketWriter::new();
    Address { ip: [10, 0, 0, 1], port: 22023 }.serialize(&mut w);
    GameId::from_chars("AQNKQQ").serialize(&mut w);
    w.write_string("host");
    w.write_u8(1);
    w.write_u32_encoded(0);
    w.write_u8(0x80);  // map bits the protocol does not define
    w.write_u8(1);
    w.write_u8(10);
    let mut r = PacketReader::new(w.finish());
    assert!(GameListing::deserialize(&mut r).is_err());
}
