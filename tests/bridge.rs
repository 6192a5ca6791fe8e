use memflow_core::arch::Architecture;
use memflow_core::bridge::{
    assemble, assemble_replies, chunk_plan, endpoint_from_parts, has_nodelay, parse_connect_url, split_payload, BridgeError, Chunk,
    Endpoint, UrlParts, CHUNK_MAX,
};

const MIB: u64 = 1024 * 1024;

#[test]
fn tcp_url_with_nodelay() {
    match parse_connect_url("tcp://127.0.0.1:12345,nodelay") {
        Ok(Endpoint::Tcp { host, port, nodelay }) => {
            assert_eq!(host, b"127.0.0.1".to_vec());
            assert_eq!(port, 12345);
            assert!(nodelay);
        }
        _ => panic!("expected a tcp endpoint"),
    }
}

#[test]
fn tcp_url_without_options() {
    match parse_connect_url("tcp://10.0.0.2:8000") {
        Ok(Endpoint::Tcp { host, port, nodelay }) => {
            assert_eq!(host, b"10.0.0.2".to_vec());
            assert_eq!(port, 8000);
            assert!(!nodelay);
        }
        _ => panic!("expected a tcp endpoint"),
    }
}

#[test]
fn unix_url_takes_the_path() {
    match parse_connect_url("unix:///tmp/bridge.sock,opt") {
        Ok(Endpoint::Unix { path }) => assert_eq!(path, b"/tmp/bridge.sock".to_vec()),
        _ => panic!("expected a unix endpoint"),
    }
}

#[test]
fn unsupported_scheme_is_invalid() {
    assert!(matches!(parse_connect_url("ftp://x"), Err(BridgeError::InvalidArgument)));
}

#[test]
fn malformed_url_is_invalid() {
    assert!(matches!(parse_connect_url("not a url"), Err(BridgeError::InvalidArgument)));
    assert!(matches!(parse_connect_url("tcp://127.0.0.1"), Err(BridgeError::InvalidArgument)));
}

#[test]
fn endpoint_from_given_parts() {
    let parts = UrlParts { scheme: b"tcp".to_vec(), host: Some(b"h".to_vec()), port: Some(1), path: vec![] };
    assert!(matches!(endpoint_from_parts(parts, true), Ok(Endpoint::Tcp { port: 1, nodelay: true, .. })));
    let parts = UrlParts { scheme: b"tcp".to_vec(), host: Some(b"h".to_vec()), port: None, path: vec![] };
    assert!(matches!(endpoint_from_parts(parts, false), Err(BridgeError::InvalidArgument)));
    let parts = UrlParts { scheme: b"unix".to_vec(), host: None, port: None, path: b"/s".to_vec() };
    assert!(matches!(endpoint_from_parts(parts, false), Ok(Endpoint::Unix { .. })));
    let parts = UrlParts { scheme: b"udp".to_vec(), host: None, port: None, path: vec![] };
    assert!(matches!(endpoint_from_parts(parts, false), Err(BridgeError::InvalidArgument)));
}

#[test]
fn nodelay_must_be_a_whole_option() {
    assert!(has_nodelay(b"tcp://a:1,nodelay"));
    assert!(has_nodelay(b"tcp://a:1,x,nodelay,y"));
    assert!(!has_nodelay(b"tcp://a:1,nodelayx"));
    assert!(!has_nodelay(b"tcp://a:1"));
    assert!(!has_nodelay(b"nodelay"));
}

#[test]
fn read_of_48_mib_is_split_in_two() {
    let v = 0xFFFF_F800_0000_0000u64;
    let plan = chunk_plan(v, 48 * MIB);
    assert_eq!(plan, vec![Chunk { addr: v, len: 32 * MIB }, Chunk { addr: v + 32 * MIB, len: 16 * MIB }]);
    let a: Vec<u8> = (0..32 * MIB).map(|i| (i % 253) as u8).collect();
    let b: Vec<u8> = (0..16 * MIB).map(|i| (i % 7) as u8).collect();
    let whole = assemble(48 * MIB, &vec![a.clone(), b.clone()]);
    let mut expect = a;
    expect.extend_from_slice(&b);
    assert_eq!(whole, expect);
}

#[test]
fn small_transfers_use_one_request() {
    assert_eq!(chunk_plan(0x1000, 32), vec![Chunk { addr: 0x1000, len: 32 }]);
    assert_eq!(chunk_plan(0x1000, 0), vec![Chunk { addr: 0x1000, len: 0 }]);
    assert_eq!(chunk_plan(0, CHUNK_MAX), vec![Chunk { addr: 0, len: CHUNK_MAX }]);
    assert_eq!(chunk_plan(0, CHUNK_MAX + 1).len(), 2);
}

#[test]
fn read_of_64_mib_is_two_reads_of_32() {
    let a0 = 0x4000_0000u64;
    let whole = chunk_plan(a0, 64 * MIB);
    let mut halves = chunk_plan(a0, 32 * MIB);
    halves.extend(chunk_plan(a0 + 32 * MIB, 32 * MIB));
    assert_eq!(whole, halves);
    let first = vec![1u8; (32 * MIB) as usize];
    let second = vec![2u8; (32 * MIB) as usize];
    let joined = assemble(64 * MIB, &vec![first.clone(), second.clone()]);
    let mut sep = assemble(32 * MIB, &vec![first]);
    sep.extend(assemble(32 * MIB, &vec![second]));
    assert_eq!(joined, sep);
}

#[test]
fn short_replies_leave_zeros() {
    let r = assemble(10, &vec![vec![9u8; 4]]);
    assert_eq!(r, vec![9, 9, 9, 9, 0, 0, 0, 0, 0, 0]);
}

#[test]
fn architecture_wire_ids() {
    assert_eq!(Architecture::X86.as_u8(), 1);
    assert_eq!(Architecture::X86Pae.as_u8(), 2);
    assert_eq!(Architecture::X64.as_u8(), 3);
}

/// Writes each part into a memory image at its chunk's address, then reads each
/// chunk back, as a server that echoes its memory would.
fn round_trip(addr: u64, data: &[u8]) -> Vec<u8> {
    let plan = chunk_plan(addr, data.len() as u64);
    let parts = split_payload(data);
    assert_eq!(plan.len(), parts.len());
    let mut image = vec![0u8; data.len()];
    for (c, p) in plan.iter().zip(parts.iter()) {
        assert_eq!(p.len() as u64, c.len);
        let at = (c.addr - addr) as usize;
        image[at..at + p.len()].copy_from_slice(p);
    }
    let replies: Vec<Vec<u8>> = plan
        .iter()
        .map(|c| {
            let at = (c.addr - addr) as usize;
            image[at..at + c.len as usize].to_vec()
        })
        .collect();
    assemble(data.len() as u64, &replies)
}

#[test]
fn write_then_read_round_trips_through_the_splitter() {
    let small: Vec<u8> = (0..32u8).collect();
    assert_eq!(round_trip(0x1000, &small), small);
    let big: Vec<u8> = (0..48 * MIB).map(|i| (i * 31 % 255) as u8).collect();
    assert_eq!(split_payload(&big).len(), 2);
    assert_eq!(round_trip(0x10_0000, &big), big);
}

#[test]
fn short_replies_are_zero_filled_and_long_ones_refused() {
    let ok = assemble_replies(0, 40 * MIB, &vec![vec![1u8; (32 * MIB) as usize], vec![2u8; (8 * MIB) as usize]]).unwrap();
    assert_eq!(ok.len() as u64, 40 * MIB);
    assert_eq!(ok[(32 * MIB) as usize], 2);
    // a short reply to a single request: its data, then zeros
    let short = assemble_replies(0, 16, &vec![vec![7u8; 15]]).unwrap();
    let mut expect = vec![7u8; 15];
    expect.push(0);
    assert_eq!(short, expect);
    // a 48 MiB read whose second reply is only 8 MiB
    let split = assemble_replies(0, 48 * MIB, &vec![vec![1u8; (32 * MIB) as usize], vec![2u8; (8 * MIB) as usize]]).unwrap();
    assert_eq!(split.len() as u64, 48 * MIB);
    assert_eq!(split[(40 * MIB - 1) as usize], 2);
    assert!(split[(40 * MIB) as usize..].iter().all(|&b| b == 0));
    // no reply at all: all zeros
    assert_eq!(assemble_replies(0, 4, &vec![]).unwrap(), vec![0u8; 4]);
    assert!(matches!(assemble_replies(0, 16, &vec![vec![0u8; 17]]), Err(BridgeError::ProtocolViolation)));
    assert!(matches!(assemble_replies(0, 16, &vec![vec![0u8; 16], vec![0u8; 1]]), Err(BridgeError::ProtocolViolation)));
    assert_eq!(assemble_replies(0, 4, &vec![vec![1, 2, 3, 4]]).unwrap(), vec![1, 2, 3, 4]);
}
