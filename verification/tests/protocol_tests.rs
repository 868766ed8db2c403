//! The protocol pieces: framing command lines, parsing commands, the RESP
//! reader and writer, and the server's replies.

use kvs::common::{parse_command, KvsCommand, RespData, RespMessage};
use kvs::resp::de::Deserializer;
use kvs::resp::ser::{Serializer, SeqSerializer};
use kvs::resp::{from_str, RespValue};
use kvs::server::KvsServer;
use kvs::store::KvStore;

#[test]
fn test_enum() -> Result<(), kvs::resp::error::RespError> {
    let x = RespValue::Array(Some(vec![
        RespValue::Integer(69),
        RespValue::SimpleString("OK".into()),
    ]));
    let resp_string = kvs::resp::ser::to_string(&x)?;
    println!("{:?}", resp_string);
    Ok(())
}

#[test]
fn serializes_array_of_scalars() {
    let x = RespValue::Array(Some(vec![
        RespValue::Integer(69),
        RespValue::SimpleString("OK".into()),
    ]));
    assert_eq!(kvs::resp::ser::to_string(&x).unwrap(), "*2\r\n:69\r\n+OK\r\n");
}

#[test]
fn serializer_scalars() {
    let ser = Serializer { output: String::new() };
    assert_eq!(ser.serialize_u64(42).unwrap(), ":42\r\n");
    assert_eq!(ser.serialize_i64(-7).unwrap(), ":-7\r\n");
    assert_eq!(ser.serialize_bool(true).unwrap(), "#t\r\n");
    assert_eq!(ser.serialize_bool(false).unwrap(), "#f\r\n");
    assert_eq!(ser.serialize_str("hello").unwrap(), "+hello\r\n");
    assert_eq!(ser.serialize_bytes(&vec![b'h', b'i']).unwrap(), "$2\r\nhi\r\n");
    assert_eq!(ser.serialize_none().unwrap(), "_\r\n");
    assert_eq!(ser.serialize_unit().unwrap(), "_\r\n");
    assert_eq!(ser.serialize_u32(9).unwrap(), ":9\r\n");
    assert_eq!(ser.serialize_u16(9).unwrap(), ":9\r\n");
    assert_eq!(ser.serialize_u8(9).unwrap(), ":9\r\n");
    assert_eq!(ser.serialize_i32(-9).unwrap(), ":-9\r\n");
    assert_eq!(ser.serialize_i16(-9).unwrap(), ":-9\r\n");
    assert_eq!(ser.serialize_i8(-9).unwrap(), ":-9\r\n");
}

#[test]
fn seq_serializer_frames_elements() {
    let mut seq = SeqSerializer { output: String::new(), elements: Vec::new() };
    seq.serialize_element(&RespValue::Integer(1)).unwrap();
    seq.serialize_element(&RespValue::SimpleString("a".into())).unwrap();
    assert_eq!(seq.end().unwrap(), "*2\r\n:1\r\n+a\r\n");
}

#[test]
fn deserializer_scalars() {
    let mut d = Deserializer::from_str("#t\r\n");
    assert!(d.parse_bool().unwrap());
    let mut d = Deserializer::from_str("#f\r\n");
    assert!(!d.parse_bool().unwrap());
    let mut d = Deserializer::from_str(":42x");
    assert_eq!(d.parse_unsigned().unwrap(), 42);
    let mut d = Deserializer::from_str(":+7\r\n");
    assert_eq!(d.parse_unsigned().unwrap(), 7);
    let mut d = Deserializer::from_str(":-7\r\n");
    assert_eq!(d.parse_signed().unwrap(), -7);
    let mut d = Deserializer::from_str("+hi\r\nrest");
    assert_eq!(d.parse_string().unwrap(), "hi");
    let mut d = Deserializer::from_str("$2\r\nok\r\n");
    assert_eq!(d.parse_bytes().unwrap(), vec![b'o', b'k']);
}

#[test]
fn deserializer_rejects_malformed() {
    let mut d = Deserializer::from_str("x42");
    assert!(d.parse_unsigned().is_err());
    let mut d = Deserializer::from_str("");
    assert!(matches!(d.peek_char(), Err(kvs::resp::error::RespError::Eof)));
    let mut d = Deserializer::from_str("#x\r\n");
    assert!(matches!(
        d.parse_bool(),
        Err(kvs::resp::error::RespError::ExpectedBoolean)
    ));
    let mut d = Deserializer::from_str("$2\r\no");
    assert!(d.parse_bytes().is_err());
}

#[test]
fn cursor_walks_characters() {
    let mut d = Deserializer::from_str("ab");
    assert_eq!(d.peek_char().unwrap(), 'a');
    assert_eq!(d.next_char().unwrap(), 'a');
    assert_eq!(d.next_char().unwrap(), 'b');
    assert!(d.next_char().is_err());
}

#[test]
fn from_str_reads_values() {
    match from_str(":123") {
        Ok(RespValue::Integer(n)) => assert_eq!(n, 123),
        other => panic!("unexpected {:?}", other),
    }
    match from_str("+OK\r\n") {
        Ok(RespValue::SimpleString(s)) => assert_eq!(s, "OK"),
        other => panic!("unexpected {:?}", other),
    }
    match from_str("$3\r\nabc\r\n") {
        Ok(RespValue::BulkString(Some(b))) => assert_eq!(b, b"abc".to_vec()),
        other => panic!("unexpected {:?}", other),
    }
    match from_str("*2\r\n$1\r\na\r\n$1\r\nb\r\n") {
        Ok(RespValue::Array(Some(elems))) => {
            assert_eq!(elems.len(), 2);
            assert!(matches!(&elems[0], RespValue::BulkString(Some(b)) if b == &vec![b'a']));
            assert!(matches!(&elems[1], RespValue::BulkString(Some(b)) if b == &vec![b'b']));
        }
        other => panic!("unexpected {:?}", other),
    }
    match from_str("*0\r\n") {
        Ok(RespValue::Array(Some(elems))) => assert!(elems.is_empty()),
        other => panic!("unexpected {:?}", other),
    }
    assert!(from_str("nonsense").is_err());
    assert!(from_str("").is_err());
}

#[test]
fn from_str_honours_the_array_count() {
    // fewer elements than announced: refused
    assert!(from_str("*2\r\n$1\r\na\r\n").is_err());
    // a non-scalar where an element is owed: refused
    assert!(from_str("*1\r\nx").is_err());
    // a malformed element: refused
    assert!(from_str("*1\r\n$9\r\nhi\r\n").is_err());
    // the exact count parses; trailing input is not an element's business
    match from_str("*1\r\n$1\r\na\r\nrest") {
        Ok(RespValue::Array(Some(elems))) => assert_eq!(elems.len(), 1),
        other => panic!("unexpected {:?}", other),
    }
}

#[test]
fn build_reply_frames_words() {
    let m = RespMessage::new("set foo bar".to_string());
    assert_eq!(m.build_reply(), "*3\r\n$3\r\nset\r\n$3\r\nfoo\r\n$3\r\nbar\r\n");
    let one = RespMessage::new("ping".to_string());
    assert_eq!(one.build_reply(), "*1\r\n$4\r\nping\r\n");
}

#[test]
fn parse_command_recognises_commands() {
    let set = RespData::Array(vec![
        RespData::BulkString("set".to_string()),
        RespData::BulkString("k".to_string()),
        RespData::BulkString("v".to_string()),
    ]);
    assert!(matches!(
        parse_command(&set),
        Some(KvsCommand::Put(k, v)) if k == "k" && v == "v"
    ));
    let get = RespData::Array(vec![
        RespData::BulkString("GET".to_string()),
        RespData::BulkString("k".to_string()),
    ]);
    assert!(matches!(parse_command(&get), Some(KvsCommand::Get(k)) if k == "k"));
    let rm = RespData::Array(vec![
        RespData::BulkString("rm".to_string()),
        RespData::BulkString("k".to_string()),
    ]);
    assert!(matches!(parse_command(&rm), Some(KvsCommand::Rm(k)) if k == "k"));
    let ping = RespData::SimpleString("ping".to_string());
    assert!(matches!(parse_command(&ping), Some(KvsCommand::Ping)));
    let version = RespData::BulkString("version".to_string());
    assert!(matches!(parse_command(&version), Some(KvsCommand::Version)));
    let unknown = RespData::BulkString("frobnicate".to_string());
    assert!(parse_command(&unknown).is_none());
    let empty = RespData::Array(Vec::new());
    assert!(parse_command(&empty).is_none());
    let wrong_arity = RespData::Array(vec![RespData::BulkString("set".to_string())]);
    assert!(parse_command(&wrong_arity).is_none());
}

#[test]
fn server_replies_follow_the_protocol() {
    let store = KvStore::open(Vec::new()).unwrap();
    let mut server = KvsServer::new(store);
    let r = server
        .handle_command(&KvsCommand::Put("foo".to_string(), "bar".to_string()))
        .unwrap();
    assert_eq!(r, "+OK\r\n");
    let r = server.handle_command(&KvsCommand::Get("foo".to_string())).unwrap();
    assert_eq!(r, "$3\r\nbar\r\n");
    let r = server.handle_command(&KvsCommand::Rm("foo".to_string())).unwrap();
    assert_eq!(r, "+OK\r\n");
    let r = server.handle_command(&KvsCommand::Get("foo".to_string())).unwrap();
    assert_eq!(r, "-Key not found\r\n");
    let r = server.handle_command(&KvsCommand::Rm("foo".to_string())).unwrap();
    assert_eq!(r, "-Key not found\r\n");
    let r = server.handle_command(&KvsCommand::Ping).unwrap();
    assert_eq!(r, "+PONG\r\n");
    let r = server.handle_command(&KvsCommand::Version).unwrap();
    assert_eq!(r, "0.1.0");
}

#[test]
fn codec_round_trips_records() {
    let cmd = kvs::codec::Command::Put { key: "k".to_string(), value: "value".to_string() };
    let enc = kvs::codec::encode_record(&cmd);
    let (back, end) = kvs::codec::decode_at(&enc, 0).unwrap();
    assert_eq!(end, enc.chars().count());
    match back {
        kvs::codec::Command::Put { key, value } => {
            assert_eq!(key, "k");
            assert_eq!(value, "value");
        }
        _ => panic!("wrong record kind"),
    }
    let rm = kvs::codec::Command::Rm { key: "gone".to_string() };
    let enc2 = kvs::codec::encode_record(&rm);
    let (back2, _) = kvs::codec::decode_at(&enc2, 0).unwrap();
    assert!(matches!(back2, kvs::codec::Command::Rm { key } if key == "gone"));
    assert!(kvs::codec::decode_at("junk", 0).is_none());
}

#[test]
fn decimal_rendering() {
    assert_eq!(kvs::codec::u64_to_string(0), "0");
    assert_eq!(kvs::codec::u64_to_string(1234), "1234");
    assert_eq!(kvs::codec::u64_to_string(u64::MAX), "18446744073709551615");
    assert_eq!(kvs::codec::u64_to_dec20(7).len(), 20);
    assert_eq!(kvs::codec::u64_to_dec20(7), "00000000000000000007");
}

#[test]
fn parse_address_checks_and_normalises() {
    assert_eq!(
        kvs::common::parse_address("127.0.0.1:4000".to_string()).unwrap(),
        "127.0.0.1:4000"
    );
    assert_eq!(
        kvs::common::parse_address("1.2.3.4:0069".to_string()).unwrap(),
        "1.2.3.4:69"
    );
    assert!(kvs::common::parse_address("a:b:c".to_string()).is_err());
    assert!(kvs::common::parse_address("nocolon".to_string()).is_err());
    assert!(kvs::common::parse_address("host:".to_string()).is_err());
    assert!(kvs::common::parse_address("host:12x".to_string()).is_err());
    assert!(kvs::common::parse_address("host:99999999999".to_string()).is_err());
}
