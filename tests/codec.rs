use telemetry::base40::{base40_decode, base40_encode};
use telemetry::crc32::crc32;
use telemetry::{
    Config, Field, PacketBuilder, PacketType, TelemError, TelemField, TelemFieldType,
    TelemetryPacket,
};

const TYPE_ID: u32 = 0x7777_7777;

fn example_config() -> Config {
    Config {
        pkgs: vec![PacketType {
            name: "telemetry".to_string(),
            id: TYPE_ID as usize,
            number_fields: 6,
            fields: vec![
                Field { name: "gps".to_string(), index: 4, ty: TelemFieldType::Int32 },
                Field { name: "barometer".to_string(), index: 5, ty: TelemFieldType::Float32 },
                Field { name: "callsign".to_string(), index: 3, ty: TelemFieldType::Base40Str },
            ],
        }],
    }
}

fn finished_packet(n_fields: usize, type_id: u32) -> PacketBuilder {
    let mut b = PacketBuilder::new(n_fields).unwrap();
    b.write_field(2, &TelemField::UInt32(type_id)).unwrap();
    b.update_checksum();
    b
}

fn be(bytes: &[u8], index: usize) -> u32 {
    u32::from_be_bytes([
        bytes[index * 4],
        bytes[index * 4 + 1],
        bytes[index * 4 + 2],
        bytes[index * 4 + 3],
    ])
}

#[test]
fn crc32_check_value() {
    assert_eq!(crc32(b"123456789"), 0xCBF4_3926);
    assert_eq!(crc32(&[]), 0);
    assert_eq!(crc32(&[0u8]), 0xD202_EF8D);
}

#[test]
fn crc32_is_deterministic() {
    let data: Vec<u8> = (0u8..=200).collect();
    assert_eq!(crc32(&data), crc32(&data));
    assert_eq!(crc32(&data), crc32(&data.clone()));
}

#[test]
fn base40_decode_boundaries() {
    assert_eq!(base40_decode(0), Some(String::new()));
    assert!(base40_decode(0xF423_FFFF).is_some());
    assert_eq!(base40_decode(0xF423_FFFF).unwrap().len(), 6);
    assert_eq!(base40_decode(0xF424_0000), None);
    assert_eq!(base40_decode(u32::MAX), None);
}

#[test]
fn base40_decode_digits() {
    assert_eq!(base40_decode(1), Some("0".to_string()));
    assert_eq!(base40_decode(10), Some("9".to_string()));
    assert_eq!(base40_decode(1 + 2 * 40 + 10 * 1600), Some("019".to_string()));
    assert_eq!(base40_decode(14), Some("A".to_string()));
    assert_eq!(base40_decode(39), Some("Z".to_string()));
    assert_eq!(base40_decode(11), Some("-".to_string()));
    assert_eq!(base40_decode(13), Some("-".to_string()));
    assert_eq!(base40_decode(40), Some("-0".to_string()));
    for d in 14u32..40 {
        let c = (b'A' + (d - 14) as u8) as char;
        assert_eq!(base40_decode(d), Some(c.to_string()));
    }
}

#[test]
fn base40_encode_values() {
    assert_eq!(base40_encode(""), Some(0));
    assert_eq!(base40_encode("A"), Some(14));
    assert_eq!(base40_encode("-0"), Some(40));
    assert_eq!(base40_encode("019"), Some(1 + 2 * 40 + 10 * 1600));
    assert_eq!(base40_encode("ZZZZZZ"), Some(0xF423_FFFF));
    assert_eq!(base40_encode("ABCDEFG"), None);
    assert_eq!(base40_encode("a"), None);
    assert_eq!(base40_encode("A B"), None);
}

#[test]
fn base40_reserved_digits_are_lossy() {
    let s = base40_decode(12).unwrap();
    assert_eq!(s, "-");
    assert_eq!(base40_encode(&s), Some(0));
    let code = 25 + 7 * 40 + 30 * 1600;
    assert_eq!(base40_encode(&base40_decode(code).unwrap()), Some(code));
}

#[test]
fn build_rejects_too_many_fields() {
    assert_eq!(PacketBuilder::new(63).unwrap_err(), TelemError::InvalidNumberOfFields(63));
    assert!(PacketBuilder::new(62).is_ok());
}

#[test]
fn build_layout_and_checksum() {
    for n in [0usize, 1, 4, 6, 62] {
        let b = PacketBuilder::new(n).unwrap();
        let raw = b.get_raw();
        assert_eq!(raw.len(), (n + 1) * 4);
        assert_eq!(be(raw, n), crc32(&raw[..n * 4]));
        if n > 0 {
            assert_eq!(be(raw, 0), n as u32);
        }
        assert!(raw[4.min(n * 4)..n * 4].iter().all(|x| *x == 0));
    }
    assert_eq!(PacketBuilder::new(0).unwrap().get_raw(), &[0, 0, 0, 0]);
}

#[test]
fn write_field_errors() {
    let mut b = PacketBuilder::new(6).unwrap();
    assert_eq!(
        b.write_field(7, &TelemField::UInt32(1)),
        Err(TelemError::InvalidFieldId(7, 28))
    );
    assert_eq!(
        b.write_field(3, &TelemField::Base40Str("lower".to_string())),
        Err(TelemError::Base40Encode)
    );
    assert_eq!(
        b.write_field(3, &TelemField::Base40Str("TOOLONG".to_string())),
        Err(TelemError::Base40Encode)
    );
}

#[test]
fn write_field_big_endian() {
    let mut b = PacketBuilder::new(6).unwrap();
    b.write_field(4, &TelemField::Int32(-2)).unwrap();
    b.write_field(5, &TelemField::UInt32(0x0102_0304)).unwrap();
    assert_eq!(&b.get_raw()[16..24], &[0xFF, 0xFF, 0xFF, 0xFE, 1, 2, 3, 4]);
}

#[test]
fn example_scenario_gps_and_barometer() {
    let cfg = example_config();
    let mut b = PacketBuilder::new(6).unwrap();
    b.write_field(2, &TelemField::UInt32(0x7777_7777)).unwrap();
    b.write_field(4, &TelemField::Int32(1234)).unwrap();
    b.write_field(5, &TelemField::Float32(25.5f32.to_bits())).unwrap();
    b.update_checksum();
    let frame = b.to_frame();
    assert_eq!(*frame.last().unwrap(), 0);
    let pkt = TelemetryPacket::from(frame, &cfg).unwrap();
    assert_eq!(pkt.read_field("gps").unwrap(), TelemField::Int32(1234));
    match pkt.read_field("barometer").unwrap() {
        TelemField::Float32(bits) => assert_eq!(f32::from_bits(bits), 25.5),
        other => panic!("unexpected {:?}", other),
    }
    assert_eq!(pkt.get_raw(), b.get_raw());
}

#[test]
fn round_trip_all_kinds() {
    let cfg = example_config();
    let mut b = PacketBuilder::new(8).unwrap();
    b.write_field(2, &TelemField::UInt32(TYPE_ID)).unwrap();
    b.write_field(3, &TelemField::Base40Str("AB12".to_string())).unwrap();
    b.write_field(4, &TelemField::Int32(-123456)).unwrap();
    b.write_field(5, &TelemField::Float32((-0.75f32).to_bits())).unwrap();
    b.write_field(6, &TelemField::UInt32(0)).unwrap();
    b.write_field(7, &TelemField::UInt32(0xDEAD_BEEF)).unwrap();
    b.update_checksum();
    let pkt = TelemetryPacket::from(b.to_frame(), &cfg).unwrap();
    assert_eq!(pkt.read_field("callsign").unwrap(), TelemField::Base40Str("AB12".to_string()));
    assert_eq!(pkt.read_field_by_id(4, TelemFieldType::Int32).unwrap(), TelemField::Int32(-123456));
    assert_eq!(
        pkt.read_field_by_id(5, TelemFieldType::Float32).unwrap(),
        TelemField::Float32((-0.75f32).to_bits())
    );
    assert_eq!(pkt.read_field_by_id(6, TelemFieldType::UInt32).unwrap(), TelemField::UInt32(0));
    assert_eq!(
        pkt.read_field_by_id(7, TelemFieldType::UInt32).unwrap(),
        TelemField::UInt32(0xDEAD_BEEF)
    );
    assert_eq!(pkt.read_field_by_id(0, TelemFieldType::UInt32).unwrap(), TelemField::UInt32(8));
}

#[test]
fn decode_short_frame() {
    let cfg = example_config();
    assert_eq!(
        TelemetryPacket::from(vec![1u8; 19], &cfg).unwrap_err(),
        TelemError::MissingBytes(19)
    );
    assert_eq!(TelemetryPacket::from(Vec::new(), &cfg).unwrap_err(), TelemError::MissingBytes(0));
}

#[test]
fn decode_malformed_stuffing() {
    let cfg = example_config();
    assert_eq!(TelemetryPacket::from(vec![0xFFu8; 20], &cfg).unwrap_err(), TelemError::CobsError);
}

#[test]
fn decode_unknown_type() {
    let cfg = example_config();
    let b = finished_packet(6, 0x1234);
    assert_eq!(
        TelemetryPacket::from(b.to_frame(), &cfg).unwrap_err(),
        TelemError::PkgTypeNotFound(0x1234)
    );
    let mut bad = b.get_raw().to_vec();
    bad[0] = 9;
    assert_eq!(
        TelemetryPacket::from_unstuffed(bad, &cfg).unwrap_err(),
        TelemError::PkgTypeNotFound(0x1234)
    );
}

#[test]
fn decode_length_mismatch() {
    let cfg = example_config();
    let mut b = finished_packet(6, TYPE_ID);
    b.write_field(0, &TelemField::UInt32(7)).unwrap();
    b.update_checksum();
    assert_eq!(TelemetryPacket::from(b.to_frame(), &cfg).unwrap_err(), TelemError::LengthError);
    let mut stale = finished_packet(6, TYPE_ID).get_raw().to_vec();
    stale[3] = 5;
    assert_eq!(TelemetryPacket::from_unstuffed(stale, &cfg).unwrap_err(), TelemError::LengthError);
}

#[test]
fn decode_flipped_bit() {
    let cfg = example_config();
    let mut b = finished_packet(6, TYPE_ID);
    b.write_field(4, &TelemField::Int32(1234)).unwrap();
    b.update_checksum();
    let good = b.get_raw().to_vec();
    assert!(TelemetryPacket::from_unstuffed(good.clone(), &cfg).is_ok());
    let mut bad = good.clone();
    bad[17] ^= 0x10;
    assert_eq!(TelemetryPacket::from_unstuffed(bad, &cfg).unwrap_err(), TelemError::CrcError);
    let mut bad_count = good.clone();
    bad_count[3] ^= 0x01;
    assert_eq!(TelemetryPacket::from_unstuffed(bad_count, &cfg).unwrap_err(), TelemError::LengthError);
    let mut bad_crc = good;
    bad_crc[27] ^= 0x01;
    assert_eq!(TelemetryPacket::from_unstuffed(bad_crc, &cfg).unwrap_err(), TelemError::CrcError);
}

#[test]
fn decode_payload_too_short() {
    let cfg = example_config();
    assert_eq!(
        TelemetryPacket::from_unstuffed(vec![0u8; 8], &cfg).unwrap_err(),
        TelemError::MissingBytes(8)
    );
    let small = finished_packet(3, TYPE_ID);
    assert_eq!(small.get_raw().len(), 16);
    assert_eq!(
        TelemetryPacket::from_unstuffed(small.get_raw().to_vec(), &cfg).unwrap_err(),
        TelemError::MissingBytes(16)
    );
    let frame = finished_packet(4, TYPE_ID).to_frame();
    assert_eq!(frame.len(), 22);
    assert!(TelemetryPacket::from(frame, &cfg).is_ok());
    let mut small_frame = finished_packet(3, TYPE_ID).to_frame();
    assert_eq!(
        TelemetryPacket::from(small_frame.clone(), &cfg).unwrap_err(),
        TelemError::MissingBytes(18)
    );
    small_frame.extend_from_slice(&[0, 0]);
    assert_eq!(
        TelemetryPacket::from(small_frame, &cfg).unwrap_err(),
        TelemError::MissingBytes(16)
    );
}

#[test]
fn decode_frame_without_delimiter() {
    let cfg = example_config();
    let mut frame = finished_packet(6, TYPE_ID).to_frame();
    frame.pop();
    assert!(frame.len() >= 20);
    assert_eq!(TelemetryPacket::from(frame, &cfg).unwrap_err(), TelemError::CobsError);
}

#[test]
fn write_without_checksum_update_fails_validation() {
    let cfg = example_config();
    let mut b = finished_packet(6, TYPE_ID);
    b.write_field(4, &TelemField::Int32(1)).unwrap();
    assert_eq!(TelemetryPacket::from(b.to_frame(), &cfg).unwrap_err(), TelemError::CrcError);
}

#[test]
fn read_errors() {
    let cfg = example_config();
    let mut b = finished_packet(6, TYPE_ID);
    b.write_field(3, &TelemField::UInt32(0xF424_0000)).unwrap();
    b.update_checksum();
    let pkt = TelemetryPacket::from(b.to_frame(), &cfg).unwrap();
    assert_eq!(
        pkt.read_field_by_id(7, TelemFieldType::UInt32).unwrap_err(),
        TelemError::InvalidFieldId(7, 28)
    );
    assert_eq!(
        pkt.read_field("altitude").unwrap_err(),
        TelemError::FieldNotFound("altitude".to_string())
    );
    assert_eq!(pkt.read_field("callsign").unwrap_err(), TelemError::Base40Decode);
    assert_eq!(
        pkt.read_field_by_id(6, TelemFieldType::UInt32).unwrap(),
        TelemField::UInt32(crc32(&pkt.get_raw()[..24]))
    );
}

#[test]
fn schema_lookup() {
    let mut cfg = example_config();
    cfg.pkgs.push(PacketType {
        name: "second".to_string(),
        id: TYPE_ID as usize,
        number_fields: 5,
        fields: Vec::new(),
    });
    let t = cfg.get_type(TYPE_ID as usize).unwrap();
    assert_eq!(t.get_name(), "telemetry");
    assert_eq!(cfg.get_type(5).unwrap_err(), TelemError::PkgTypeNotFound(5));
    let f = t.get_field("barometer").unwrap();
    assert_eq!(f.index, 5);
    assert_eq!(f.ty, TelemFieldType::Float32);
    assert_eq!(t.get_field("").unwrap_err(), TelemError::FieldNotFound(String::new()));
    let copy = t.duplicate();
    assert_eq!(copy.get_name(), "telemetry");
    assert_eq!(copy.fields.len(), 3);
}
