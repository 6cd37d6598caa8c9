use resp_cache::command::{DecodeError, CMD};
use resp_cache::reply::Reply;
use resp_cache::store::Store;

fn bytes(text: &str) -> Vec<u8> {
    text.as_bytes().to_vec()
}

#[test]
fn simple_strings_are_sent_on_one_line() {
    assert_eq!(Reply::SimpleString(bytes("PONG")).encode(), bytes("+PONG\r\n"));
    assert_eq!(Reply::SimpleString(bytes("")).encode(), bytes("+\r\n"));
}

#[test]
fn bulk_strings_are_sent_behind_their_length() {
    assert_eq!(Reply::BulkString(bytes("bar")).encode(), bytes("$3\r\nbar\r\n"));
    assert_eq!(Reply::BulkString(bytes("")).encode(), bytes("$0\r\n\r\n"));
    assert_eq!(
        Reply::BulkString(bytes("0123456789ab")).encode(),
        bytes("$12\r\n0123456789ab\r\n")
    );
    assert_eq!(
        Reply::BulkString(bytes("a\r\nb")).encode(),
        bytes("$4\r\na\r\nb\r\n")
    );
}

#[test]
fn nil_is_sent_as_a_length_of_minus_one() {
    assert_eq!(Reply::Nil.encode(), bytes("$-1\r\n"));
}

#[test]
fn errors_are_sent_on_one_line() {
    assert_eq!(Reply::Error(bytes("ERR oops")).encode(), bytes("-ERR oops\r\n"));
}

#[test]
fn each_failure_has_its_own_text() {
    assert_eq!(
        Reply::failure(DecodeError::Malformed),
        Reply::Error(bytes("ERR malformed frame"))
    );
    assert_eq!(
        Reply::failure(DecodeError::UnknownCommand),
        Reply::Error(bytes("ERR unknown command"))
    );
    assert_eq!(
        Reply::failure(DecodeError::InvalidArgument),
        Reply::Error(bytes("ERR invalid argument"))
    );
    assert_eq!(
        Reply::failure(DecodeError::Incomplete),
        Reply::Error(bytes("ERR incomplete frame"))
    );
}

#[test]
fn ping_is_answered_with_pong_and_changes_nothing() {
    let mut store = Store::new();
    store.set(bytes("k"), bytes("v"), None, 0);
    CMD::PING.run(&mut store, 5);
    assert_eq!(CMD::PING.reply(&store, 5), Reply::SimpleString(bytes("PONG")));
    assert_eq!(CMD::PING.response(&store, 5), bytes("+PONG\r\n"));
    assert_eq!(store.get(b"k", 5), Some(&bytes("v")));
}

#[test]
fn echo_is_answered_with_its_message() {
    let mut store = Store::new();
    let cmd = CMD::ECHO(bytes("hello world"));
    cmd.run(&mut store, 0);
    assert_eq!(cmd.reply(&store, 0), Reply::SimpleString(bytes("hello world")));
    assert_eq!(cmd.response(&store, 0), bytes("+hello world\r\n"));
}

#[test]
fn set_writes_and_is_answered_with_ok() {
    let mut store = Store::new();
    let cmd = CMD::SET(bytes("foo"), bytes("bar"), None);
    cmd.run(&mut store, 0);
    assert_eq!(store.get(b"foo", 0), Some(&bytes("bar")));
    assert_eq!(cmd.response(&store, 0), bytes("+OK\r\n"));
}

#[test]
fn get_is_answered_with_the_value_or_nil() {
    let mut store = Store::new();
    assert_eq!(CMD::GET(bytes("foo")).response(&store, 0), bytes("$-1\r\n"));
    CMD::SET(bytes("foo"), bytes("bar"), None).run(&mut store, 0);
    assert_eq!(
        CMD::GET(bytes("foo")).reply(&store, 0),
        Reply::BulkString(bytes("bar"))
    );
    assert_eq!(
        CMD::GET(bytes("foo")).response(&store, 0),
        bytes("$3\r\nbar\r\n")
    );
    assert_eq!(CMD::GET(bytes("fo")).response(&store, 0), bytes("$-1\r\n"));
}

#[test]
fn get_changes_nothing() {
    let mut store = Store::new();
    CMD::SET(bytes("foo"), bytes("bar"), Some(10)).run(&mut store, 0);
    CMD::GET(bytes("foo")).run(&mut store, 20);
    CMD::GET(bytes("other")).run(&mut store, 20);
    assert_eq!(store.get(b"foo", 9), Some(&bytes("bar")));
    assert_eq!(store.get(b"other", 9), None);
}

#[test]
fn a_set_with_a_time_to_live_expires() {
    let mut store = Store::new();
    CMD::SET(bytes("k"), bytes("v"), Some(50)).run(&mut store, 1000);
    assert_eq!(CMD::GET(bytes("k")).response(&store, 1000), bytes("$1\r\nv\r\n"));
    assert_eq!(CMD::GET(bytes("k")).response(&store, 1049), bytes("$1\r\nv\r\n"));
    assert_eq!(CMD::GET(bytes("k")).response(&store, 1050), bytes("$-1\r\n"));
    assert_eq!(CMD::GET(bytes("k")).response(&store, 9999), bytes("$-1\r\n"));
}
