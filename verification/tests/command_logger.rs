use redis_cluster::command_logger::{
    after_direct_lookup, connection_id, effective_setting, format_timestamp, format_uuid,
    log_file_name, next_target, tee_targets, CommandLogger, GlobalConfig, TeeError, TeeLookup, DEFAULT_TEE_PORT,
};
use redis_cluster::resp_commands::{decode_commands, decode_one_command, quote_arg, read_count};
use xxhash_rust::xxh3::xxh3_128;

fn encode(commands: &[Vec<&[u8]>]) -> Vec<u8> {
    let mut out = Vec::new();
    for command in commands {
        out.extend_from_slice(format!("*{}\r\n", command.len()).as_bytes());
        for arg in command {
            out.extend_from_slice(format!("${}\r\n", arg.len()).as_bytes());
            out.extend_from_slice(arg);
            out.extend_from_slice(b"\r\n");
        }
    }
    out
}

#[test]
fn decodes_single_command() {
    let packed = b"*3\r\n$3\r\nSET\r\n$3\r\nfoo\r\n$3\r\nbar\r\n";
    assert_eq!(decode_commands(packed), vec![r#""SET" "foo" "bar""#]);
}

#[test]
fn decodes_pipeline_of_commands() {
    let packed = b"*1\r\n$4\r\nPING\r\n*2\r\n$3\r\nGET\r\n$1\r\nx\r\n";
    assert_eq!(
        decode_commands(packed),
        vec![r#""PING""#.to_string(), r#""GET" "x""#.to_string()]
    );
}

#[test]
fn escapes_binary_arguments() {
    let packed = b"*2\r\n$3\r\nSET\r\n$2\r\n\x00\xff\r\n";
    assert_eq!(decode_commands(packed), vec![r#""SET" "\x00\xff""#]);
}

#[test]
fn uuid_has_canonical_shape() {
    let uuid = format_uuid(0x0123456789abcdef0123456789abcdef);
    assert_eq!(uuid, "01234567-89ab-cdef-0123-456789abcdef");
}

#[test]
fn random_ids_differ() {
    assert_ne!(connection_id(1, 0, 2, 3), connection_id(1, 1, 2, 3));
}

#[test]
fn connection_ids_are_hashes_of_their_seeds() {
    assert_eq!(connection_id(0, 0, 0, 0), xxh3_128(&[0u8; 56]));
    let (nanos, count, pid, addr) = (0x0102_0304_0506_0708_090au128, 11u64, 12u32, 0x7fff_1234u64);
    let mut seed = [0u8; 56];
    seed[0..16].copy_from_slice(&nanos.to_le_bytes());
    seed[16..24].copy_from_slice(&count.to_le_bytes());
    seed[24..40].copy_from_slice(&u128::from(pid).to_le_bytes());
    seed[40..56].copy_from_slice(&u128::from(addr).to_le_bytes());
    assert_eq!(connection_id(nanos, count, pid, addr), xxh3_128(&seed));
}

#[test]
fn uuids_tell_values_apart() {
    assert_eq!(format_uuid(0), "00000000-0000-0000-0000-000000000000");
    assert_eq!(format_uuid(u128::MAX), "ffffffff-ffff-ffff-ffff-ffffffffffff");
    assert_ne!(format_uuid(1 << 48), format_uuid(1 << 64));
}

#[test]
fn timestamps_have_six_digits_behind_the_point() {
    assert_eq!(format_timestamp(Some((1718000000, 123456))), "1718000000.123456");
    assert_eq!(format_timestamp(Some((0, 7))), "0.000007");
    assert_eq!(format_timestamp(None), "0.000000");
    assert_eq!(format_timestamp(Some((u64::MAX, 1234567))), "18446744073709551615.1234567");
}

#[test]
fn commands_are_decoded_up_to_what_is_none() {
    let args: Vec<&[u8]> = vec![b"SET", b"k\r\n", b""];
    let mut packed = encode(&[args.clone(), vec![], vec![b"GET"]]);
    let lines = vec![r#""SET" "k\r\n" """#, "", r#""GET""#];
    assert_eq!(decode_commands(&packed), lines);
    packed.extend_from_slice(b"*1\r\n$3\r\nGE");
    let mut longer: Vec<String> = lines.iter().map(|line| line.to_string()).collect();
    longer.push("<unparsed 2 bytes>".to_string());
    assert_eq!(decode_commands(&packed), longer);
}

#[test]
fn markers_count_from_where_reading_stopped() {
    let cases: [(&[u8], &str); 10] = [
        (b"PING", "<unparsed 4 bytes>"),
        (b"*", "<unparsed 0 bytes>"),
        (b"*12", "<unparsed 0 bytes>"),
        (b"*x\r\nabc", "<unparsed 5 bytes>"),
        (b"*\r\n", "<unparsed 2 bytes>"),
        (b"*1\rx", "<unparsed 2 bytes>"),
        (b"*1\r\n$9\r\nabc", "<unparsed 3 bytes>"),
        (b"*1\r\n$3\r\nabcd\r\n", "<unparsed 3 bytes>"),
        (b"*1\r\n+3\r\n", "<unparsed 4 bytes>"),
        (b"*99999999999999999999999\r\n", "<unparsed 2 bytes>"),
    ];
    for (packed, marker) in cases {
        assert_eq!(decode_commands(packed), vec![marker]);
    }
    assert!(decode_commands(b"").is_empty());
}

#[test]
fn counts_may_have_a_plus_sign() {
    assert_eq!(decode_commands(b"*+1\r\n$+2\r\nab\r\n"), vec![r#""ab""#]);
    assert_eq!(decode_commands(b"*-1\r\n"), vec!["<unparsed 2 bytes>"]);
    assert_eq!(decode_commands(b"*+\r\n"), vec!["<unparsed 2 bytes>"]);
}

#[test]
fn headers_advance_past_what_was_read() {
    let mut pos = 1;
    assert_eq!(read_count(b"x*12\r\ny", &mut pos, b'*'), Some(12));
    assert_eq!(pos, 6);
    assert_eq!(read_count(b"x*12\r\ny", &mut pos, b'*'), None);
    assert_eq!(pos, 6);
    let mut beyond = 9;
    assert_eq!(read_count(b"x", &mut beyond, b'*'), None);
    assert_eq!(beyond, 9);
    let mut pos = 0;
    let packed = b"*1\r\n$1\r\na\r\n*";
    assert_eq!(decode_one_command(packed, &mut pos), Some(r#""a""#.to_string()));
    assert_eq!(pos, 11);
    assert_eq!(decode_one_command(packed, &mut pos), None);
    assert_eq!(pos, 12);
}

#[test]
fn every_byte_is_quoted_in_its_own_printable_way() {
    let mut seen: Vec<String> = Vec::new();
    for b in 0..=255u8 {
        let mut out = String::new();
        quote_arg(&[b], &mut out);
        let expected = match b {
            b'\\' => "\"\\\\\"".to_string(),
            b'"' => "\"\\\"\"".to_string(),
            b'\n' => "\"\\n\"".to_string(),
            b'\r' => "\"\\r\"".to_string(),
            b'\t' => "\"\\t\"".to_string(),
            0x20..=0x7e => format!("\"{}\"", b as char),
            _ => format!("\"\\x{b:02x}\""),
        };
        assert_eq!(out, expected);
        assert!(out.chars().all(|c| (' '..='~').contains(&c)));
        assert!(!seen.contains(&out));
        seen.push(out);
    }
}

#[test]
fn different_commands_have_different_lines() {
    let commands: [Vec<&[u8]>; 6] = [
        vec![],
        vec![b""],
        vec![b"", b""],
        vec![b"\" \""],
        vec![b"a b"],
        vec![b"a", b"b"],
    ];
    let lines = decode_commands(&encode(&commands));
    for i in 0..lines.len() {
        for j in 0..i {
            assert_ne!(lines[i], lines[j]);
        }
    }
    assert_eq!(lines[3], r#""\" \"""#);
}

#[test]
fn loggers_need_a_sink() {
    assert!(CommandLogger::<u8, u8>::from_sinks("id".to_string(), None, None).is_none());
    let logger = CommandLogger::<u8, u8>::from_sinks("id".to_string(), Some(1), None).unwrap();
    assert_eq!((logger.file(), logger.tee()), (Some(&1), None));
    let logger = CommandLogger::<u8, u8>::from_sinks("id".to_string(), None, Some(2)).unwrap();
    assert_eq!((logger.file(), logger.tee()), (None, Some(&2)));
}

#[test]
fn each_command_is_logged_to_each_sink() {
    let packed = b"*1\r\n$4\r\nPING\r\n*2\r\n$3\r\nGET\r\n$1\r\nx\r\n";
    let logger = CommandLogger::from_sinks("id".to_string(), Some(()), Some(())).unwrap();
    let entries = logger.log("1.000002", packed);
    assert_eq!(entries.len(), 2);
    assert_eq!(entries[0].line.as_deref(), Some("1.000002 \"PING\"\n"));
    assert_eq!(entries[0].datagram.as_deref(), Some("id:1.000002: \"PING\""));
    assert_eq!(entries[1].line.as_deref(), Some("1.000002 \"GET\" \"x\"\n"));
    assert_eq!(entries[1].datagram.as_deref(), Some("id:1.000002: \"GET\" \"x\""));

    let logger = CommandLogger::<(), ()>::from_sinks("id".to_string(), Some(()), None).unwrap();
    let entries = logger.log("1.000002", packed);
    assert_eq!(entries[1].line.as_deref(), Some("1.000002 \"GET\" \"x\"\n"));
    assert_eq!(entries[1].datagram, None);

    let logger = CommandLogger::<(), ()>::from_sinks("id".to_string(), None, Some(())).unwrap();
    let entries = logger.log("1.000002", packed);
    assert_eq!(entries[0].line, None);
    assert_eq!(entries[0].datagram.as_deref(), Some("id:1.000002: \"PING\""));
}

#[test]
fn configuration_is_enabled_by_either_sink() {
    let off = GlobalConfig::<u8, u8> { log_dir: None, tee_targets: None };
    assert!(!off.enabled());
    let file = GlobalConfig::<u8, u8> { log_dir: Some(1), tee_targets: None };
    assert!(file.enabled());
    let tee = GlobalConfig::<u8, u8> { log_dir: None, tee_targets: Some(1) };
    assert!(tee.enabled());
    assert_eq!(effective_setting(None), None);
    assert_eq!(effective_setting(Some(String::new())), None);
    assert_eq!(effective_setting(Some("x".to_string())), Some("x".to_string()));
    assert_eq!(log_file_name("ab-cd"), "redis-commands-ab-cd.log");
}

#[test]
fn endpoints_without_a_port_get_the_default_one() {
    assert_eq!(DEFAULT_TEE_PORT, 9999);
    let found: TeeLookup<u8> = after_direct_lookup(Ok::<Vec<u8>, ()>(vec![1]));
    assert!(matches!(found, TeeLookup::Resolved(addresses) if addresses == vec![1]));
    let retry: TeeLookup<u8> = after_direct_lookup(Err::<Vec<u8>, &str>("no port"));
    assert!(matches!(retry, TeeLookup::HostWithPort(9999)));
    assert_eq!(tee_targets(vec![1, 2]), Ok(vec![1, 2]));
    assert_eq!(tee_targets::<u8>(vec![]), Err(TeeError::NoAddress));
}

#[test]
fn destinations_are_tried_until_one_is_reached() {
    assert_eq!(next_target(true, 0, 3), None);
    assert_eq!(next_target(false, 0, 3), Some(1));
    assert_eq!(next_target(false, 2, 3), None);
    assert_eq!(next_target(false, usize::MAX, usize::MAX), None);
}
