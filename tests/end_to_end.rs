use resp_kv::resp::commands::{get_command_from_input, RespCommandError};
use resp_kv::resp::server::respond_to_request;
use resp_kv::store::Database;
use resp_kv::worker::{execute, execute_at};
use vstd::hash_map::StringHashMap;

#[test]
fn map_server_ping_set_get() {
    let mut store: StringHashMap<Vec<u8>> = StringHashMap::new();
    assert_eq!(respond_to_request(b"*1\r\n$4\r\nPING\r\n", &mut store).unwrap(), b"+PONG\r\n".to_vec());
    assert_eq!(
        respond_to_request(b"*3\r\n$3\r\nSET\r\n$3\r\nfoo\r\n$3\r\nbar\r\n", &mut store).unwrap(),
        b"+OK\r\n".to_vec()
    );
    assert_eq!(
        respond_to_request(b"*2\r\n$3\r\nGET\r\n$3\r\nfoo\r\n", &mut store).unwrap(),
        b"$3\r\nbar\r\n".to_vec()
    );
    assert_eq!(
        respond_to_request(b"*2\r\n$3\r\nGET\r\n$3\r\nbaz\r\n", &mut store).unwrap(),
        b"$-1\r\n".to_vec()
    );
    assert_eq!(
        respond_to_request(b"*2\r\n$4\r\nECHO\r\n$3\r\nhey\r\n", &mut store).unwrap(),
        b"$3\r\nhey\r\n".to_vec()
    );
    assert!(matches!(
        respond_to_request(b"*1\r\n$5\r\nHELLO\r\n", &mut store),
        Err(RespCommandError::InvalidArgument)
    ));
}

fn run(db: &mut Database, packet: &[u8], now: u64) -> Vec<u8> {
    let command = get_command_from_input(packet).expect("a valid command");
    execute_at(command, db, now).expect("a reply")
}

#[test]
fn database_ping_set_get() {
    let mut db = Database::new();
    assert_eq!(run(&mut db, b"*1\r\n$4\r\nPING\r\n", 0), b"+PONG\r\n".to_vec());
    assert_eq!(run(&mut db, b"+ping\r\n", 0), b"+PONG\r\n".to_vec());
    assert_eq!(run(&mut db, b"*3\r\n$3\r\nSET\r\n$3\r\nfoo\r\n$3\r\nbar\r\n", 0), b"+OK\r\n".to_vec());
    assert_eq!(run(&mut db, b"*2\r\n$3\r\nGET\r\n$3\r\nfoo\r\n", 0), b"$3\r\nbar\r\n".to_vec());
    assert_eq!(run(&mut db, b"*2\r\n$3\r\nGET\r\n$3\r\nbaz\r\n", 0), b"$-1\r\n".to_vec());
    assert_eq!(run(&mut db, b"*2\r\n$4\r\nECHO\r\n+hi there\r\n", 0), b"$8\r\nhi there\r\n".to_vec());
}

#[test]
fn database_set_with_expiry_then_get() {
    let mut db = Database::new();
    let set = b"*5\r\n$3\r\nSET\r\n$1\r\nk\r\n$1\r\nv\r\n$2\r\nEX\r\n:1\r\n";
    assert_eq!(run(&mut db, set, 0), b"+OK\r\n".to_vec());
    assert_eq!(run(&mut db, b"*2\r\n$3\r\nGET\r\n$1\r\nk\r\n", 999), b"$1\r\nv\r\n".to_vec());
    assert_eq!(run(&mut db, b"*2\r\n$3\r\nGET\r\n$1\r\nk\r\n", 1000), b"$-1\r\n".to_vec());
}

#[test]
fn database_execute_now() {
    let mut db = Database::new();
    let command = get_command_from_input(b"*3\r\n$3\r\nSET\r\n$1\r\na\r\n$1\r\nb\r\n").unwrap();
    assert_eq!(execute(command, &mut db).unwrap(), b"+OK\r\n".to_vec());
    let command = get_command_from_input(b"*2\r\n$3\r\nGET\r\n$1\r\na\r\n").unwrap();
    assert_eq!(execute(command, &mut db).unwrap(), b"$1\r\nb\r\n".to_vec());
}
