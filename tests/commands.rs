use resp_kv::resp::commands::{get_command_from_input, RespCommand, RespCommandError};

fn build(packet: &[u8]) -> Result<RespCommand, RespCommandError> {
    get_command_from_input(packet)
}

#[test]
fn ping_as_array_and_as_simple_string() {
    assert!(matches!(build(b"*1\r\n$4\r\nPING\r\n"), Ok(RespCommand::Ping)));
    assert!(matches!(build(b"+PING\r\n"), Ok(RespCommand::Ping)));
    assert!(matches!(build(b"+pInG\r\n"), Ok(RespCommand::Ping)));
    assert!(matches!(build(b"+PONG\r\n"), Err(RespCommandError::UnknownCommand)));
}

#[test]
fn echo_and_get_take_their_text_argument() {
    match build(b"*2\r\n$4\r\necho\r\n$5\r\nhello\r\n") {
        Ok(RespCommand::Echo(e)) => assert_eq!(e.value, "hello"),
        _ => panic!("expected ECHO"),
    }
    match build(b"*2\r\n$3\r\nGeT\r\n+key\r\n") {
        Ok(RespCommand::Get(g)) => assert_eq!(g.key, "key"),
        _ => panic!("expected GET"),
    }
    assert!(matches!(build(b"*1\r\n$4\r\nECHO\r\n"), Err(RespCommandError::ParsingError)));
    assert!(matches!(build(b"*1\r\n$3\r\nGET\r\n"), Err(RespCommandError::InvalidArgument)));
    assert!(matches!(build(b"*2\r\n$3\r\nGET\r\n:1\r\n"), Err(RespCommandError::InvalidArgument)));
    assert!(matches!(build(b"*2\r\n$3\r\nGET\r\n$1\r\n\xff\r\n"), Err(RespCommandError::ParsingError)));
}

#[test]
fn set_without_and_with_expiry() {
    match build(b"*3\r\n$3\r\nSET\r\n$3\r\nfoo\r\n$3\r\nbar\r\n") {
        Ok(RespCommand::SetKey(s)) => {
            assert_eq!(s.key, "foo");
            assert_eq!(s.value, b"bar".to_vec());
            assert_eq!(s.ttl, None);
        }
        _ => panic!("expected SET"),
    }
    match build(b"*5\r\n$3\r\nset\r\n$1\r\nk\r\n$1\r\nv\r\n$2\r\nEX\r\n:10\r\n") {
        Ok(RespCommand::SetKey(s)) => assert_eq!(s.ttl, Some(10)),
        _ => panic!("expected SET with EX"),
    }
    match build(b"*5\r\n$3\r\nSET\r\n$1\r\nk\r\n$1\r\nv\r\n$2\r\nEX\r\n:2147483647\r\n") {
        Ok(RespCommand::SetKey(s)) => assert_eq!(s.ttl, Some(2147483647)),
        _ => panic!("expected SET with EX"),
    }
}

#[test]
fn set_with_two_elements_is_invalid() {
    assert!(matches!(
        build(b"*2\r\n$3\r\nSET\r\n$3\r\nfoo\r\n"),
        Err(RespCommandError::InvalidArgument)
    ));
}

#[test]
fn set_with_non_positive_ttl_is_invalid() {
    assert!(matches!(
        build(b"*5\r\n$3\r\nSET\r\n$1\r\nk\r\n$1\r\nv\r\n$2\r\nEX\r\n:0\r\n"),
        Err(RespCommandError::InvalidArgument)
    ));
    assert!(matches!(
        build(b"*5\r\n$3\r\nSET\r\n$1\r\nk\r\n$1\r\nv\r\n$2\r\nEX\r\n:-5\r\n"),
        Err(RespCommandError::InvalidArgument)
    ));
}

#[test]
fn set_with_bad_option_is_invalid() {
    assert!(matches!(
        build(b"*5\r\n$3\r\nSET\r\n$1\r\nk\r\n$1\r\nv\r\n$2\r\nEX\r\n:2147483648\r\n"),
        Err(RespCommandError::InvalidArgument)
    ));
    assert!(matches!(
        build(b"*5\r\n$3\r\nSET\r\n$1\r\nk\r\n$1\r\nv\r\n$2\r\nex\r\n:5\r\n"),
        Err(RespCommandError::InvalidArgument)
    ));
    assert!(matches!(
        build(b"*5\r\n$3\r\nSET\r\n$1\r\nk\r\n$1\r\nv\r\n$2\r\nEX\r\n$1\r\n5\r\n"),
        Err(RespCommandError::InvalidArgument)
    ));
}

#[test]
fn unknown_command_name() {
    assert!(matches!(build(b"*1\r\n$5\r\nHELLO\r\n"), Err(RespCommandError::UnknownCommand)));
}

#[test]
fn malformed_requests() {
    assert!(matches!(build(b"*1\r\n$4\r\nP1NG\r\n"), Err(RespCommandError::ParsingError)));
    assert!(matches!(build(b":5\r\n"), Err(RespCommandError::ParsingError)));
    assert!(matches!(build(b"garbage"), Err(RespCommandError::ParsingError)));
    assert!(matches!(build(b"*1\r\n:1\r\n"), Err(RespCommandError::InvalidArgument)));
}
