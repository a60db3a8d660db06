use resp_store::commands::blpop::{
    blpop_request, blpop_start, blpop_start_at, blpop_timeout, blpop_woken, blpop_woken_at, BlpopStart,
};
use resp_store::commands::echo::echo;
use resp_store::commands::get::get;
use resp_store::commands::lpop::lpop;
use resp_store::commands::lpush::lpush;
use resp_store::commands::lrange::lrange;
use resp_store::commands::ping::ping;
use resp_store::commands::types::ResponseError;
use resp_store::resp::types::{MultiBulk, RESPValue};
use resp_store::store::store::Store;

fn bulk(s: &str) -> RESPValue {
    RESPValue::BulkString(s.to_string())
}

fn request(words: &[&str]) -> MultiBulk {
    MultiBulk(words.iter().map(|w| bulk(w)).collect())
}

fn bulk_array(words: &[&str]) -> RESPValue {
    RESPValue::Array(request(words))
}

#[test]
fn command_echo() {
    assert_eq!(echo(&MultiBulk(vec![])), Err(ResponseError::MalformedRequestError));
    assert_eq!(echo(&request(&["ECHO"])), Ok(bulk("")));
    assert_eq!(echo(&request(&["ECHO", "hi there"])), Ok(bulk("hi there")));
    assert_eq!(
        echo(&MultiBulk(vec![bulk("ECHO"), RESPValue::Integer(3)])),
        Err(ResponseError::MalformedRequestError)
    );
}

#[test]
fn command_ping() {
    assert_eq!(ping(), Ok(RESPValue::SimpleString("PONG".to_string())));
}

#[test]
fn command_set_then_get() {
    let mut store = Store::new();
    assert_eq!(
        resp_store::commands::set::set(&request(&["SET", "k", "v"]), &mut store),
        Ok(RESPValue::SimpleString("OK".to_string()))
    );
    assert_eq!(get(&request(&["GET", "k"]), &mut store), Ok(bulk("v")));
    assert_eq!(get(&request(&["GET", "nope"]), &mut store), Ok(RESPValue::NullBulkString));
}

#[test]
fn command_set_and_get_malformed() {
    let mut store = Store::new();
    assert_eq!(resp_store::commands::set::set(&request(&["SET", "k"]), &mut store), Err(ResponseError::MalformedRequestError));
    assert_eq!(
        resp_store::commands::set::set(&MultiBulk(vec![bulk("SET"), bulk("k"), RESPValue::Integer(1)]), &mut store),
        Err(ResponseError::MalformedRequestError)
    );
    assert_eq!(get(&request(&["GET"]), &mut store), Err(ResponseError::MalformedRequestError));
    assert_eq!(
        get(&MultiBulk(vec![bulk("GET"), RESPValue::Null]), &mut store),
        Err(ResponseError::MalformedRequestError)
    );
}

#[test]
fn command_get_of_a_list() {
    let mut store = Store::new();
    lpush(&request(&["LPUSH", "l", "a"]), &mut store).unwrap();
    assert_eq!(get(&request(&["GET", "l"]), &mut store), Err(ResponseError::InternalError));
}

#[test]
fn command_lpush_then_lrange() {
    let mut store = Store::new();
    assert_eq!(lpush(&request(&["LPUSH", "l", "a", "b"]), &mut store), Ok(RESPValue::Integer(2)));
    assert_eq!(lpush(&request(&["LPUSH", "l", "c"]), &mut store), Ok(RESPValue::Integer(3)));
    assert_eq!(
        lrange(&request(&["LRANGE", "l", "0", "-1"]), &mut store),
        Ok(bulk_array(&["c", "b", "a"]))
    );
    assert_eq!(lrange(&request(&["LRANGE", "l", "1", "1"]), &mut store), Ok(bulk_array(&["b"])));
    assert_eq!(lrange(&request(&["LRANGE", "none", "0", "-1"]), &mut store), Ok(bulk_array(&[])));
}

#[test]
fn command_lpush_malformed_and_taken() {
    let mut store = Store::new();
    assert_eq!(lpush(&request(&["LPUSH", "l"]), &mut store), Err(ResponseError::MalformedRequestError));
    assert_eq!(
        lpush(&MultiBulk(vec![bulk("LPUSH"), bulk("l"), bulk("a"), RESPValue::Null]), &mut store),
        Err(ResponseError::MalformedRequestError)
    );
    assert_eq!(lrange(&request(&["LRANGE", "l", "0", "-1"]), &mut store), Ok(bulk_array(&[])));
    resp_store::commands::set::set(&request(&["SET", "s", "v"]), &mut store).unwrap();
    assert_eq!(lpush(&request(&["LPUSH", "s", "a"]), &mut store), Err(ResponseError::InternalError));
}

#[test]
fn command_lrange_bad_arguments() {
    let mut store = Store::new();
    assert_eq!(lrange(&request(&["LRANGE", "l", "0"]), &mut store), Err(ResponseError::MalformedRequestError));
    assert_eq!(lrange(&request(&["LRANGE", "l", "x", "1"]), &mut store), Err(ResponseError::MalformedRequestError));
    assert_eq!(lrange(&request(&["LRANGE", "l", "0", "1.5"]), &mut store), Err(ResponseError::MalformedRequestError));
    assert_eq!(
        lrange(&MultiBulk(vec![bulk("LRANGE"), bulk("l"), RESPValue::Integer(0), bulk("1")]), &mut store),
        Err(ResponseError::MalformedRequestError)
    );
    resp_store::commands::set::set(&request(&["SET", "s", "v"]), &mut store).unwrap();
    assert_eq!(lrange(&request(&["LRANGE", "s", "0", "1"]), &mut store), Err(ResponseError::InternalError));
}

#[test]
fn command_lpop_replies() {
    let mut store = Store::new();
    lpush(&request(&["LPUSH", "l", "a", "b", "c", "d"]), &mut store).unwrap();
    assert_eq!(lpop(&request(&["LPOP", "l"]), &mut store), Ok(bulk("d")));
    assert_eq!(lpop(&request(&["LPOP", "l", "2"]), &mut store), Ok(bulk_array(&["c", "b"])));
    assert_eq!(lpop(&request(&["LPOP", "l", "+9"]), &mut store), Ok(bulk("a")));
    assert_eq!(lpop(&request(&["LPOP", "l"]), &mut store), Ok(RESPValue::NullBulkString));
    assert_eq!(lpop(&request(&["LPOP", "missing"]), &mut store), Ok(RESPValue::NullBulkString));
}

#[test]
fn command_lpop_malformed() {
    let mut store = Store::new();
    assert_eq!(lpop(&request(&["LPOP"]), &mut store), Err(ResponseError::MalformedRequestError));
    assert_eq!(lpop(&request(&["LPOP", "l", "1", "2"]), &mut store), Err(ResponseError::MalformedRequestError));
    assert_eq!(lpop(&request(&["LPOP", "l", "-1"]), &mut store), Err(ResponseError::MalformedRequestError));
    resp_store::commands::set::set(&request(&["SET", "s", "v"]), &mut store).unwrap();
    assert_eq!(lpop(&request(&["LPOP", "s"]), &mut store), Err(ResponseError::InternalError));
}

#[test]
fn command_blpop_request() {
    let ok = blpop_request(&request(&["BLPOP", "a", "b", "1.5"])).ok().unwrap();
    assert_eq!(ok.keys, vec!["a".to_string(), "b".to_string()]);
    assert_eq!(ok.timeout, "1.5".to_string());
    assert!(matches!(blpop_request(&request(&["BLPOP", "a"])), Err(ResponseError::MalformedRequestError)));
    assert!(matches!(
        blpop_request(&request(&["BLPOP", "a", "soon"])),
        Err(ResponseError::MalformedRequestError)
    ));
    assert!(matches!(
        blpop_request(&MultiBulk(vec![bulk("BLPOP"), RESPValue::Null, bulk("0")])),
        Err(ResponseError::MalformedRequestError)
    ));
    let inf = blpop_request(&request(&["BLPOP", "a", "INF"])).ok().unwrap();
    assert_eq!(inf.timeout, "INF".to_string());
}

#[test]
fn command_blpop_serves_first_nonempty_key() {
    let mut store = Store::new();
    lpush(&request(&["LPUSH", "second", "x", "y"]), &mut store).unwrap();
    let keys = vec!["first".to_string(), "second".to_string()];
    match blpop_start(&mut store, &keys) {
        BlpopStart::Served(v) => assert_eq!(v, bulk_array(&["second", "y"])),
        _ => panic!("expected an answer at once"),
    }
    assert_eq!(store.last_id(), 1);
    assert_eq!(lrange(&request(&["LRANGE", "second", "0", "-1"]), &mut store), Ok(bulk_array(&["x"])));
}

#[test]
fn command_blpop_fails_on_string() {
    let mut store = Store::new();
    resp_store::commands::set::set(&request(&["SET", "s", "v"]), &mut store).unwrap();
    let keys = vec!["empty".to_string(), "s".to_string()];
    match blpop_start(&mut store, &keys) {
        BlpopStart::Failed(e) => assert_eq!(e, ResponseError::MalformedRequestError),
        _ => panic!("expected a failure"),
    }
}

#[test]
fn command_blpop_blocks_then_wakes() {
    let mut store = Store::new();
    let keys = vec!["a".to_string(), "b".to_string()];
    let (id, mut receivers) = match blpop_start(&mut store, &keys) {
        BlpopStart::Blocked { id, receivers } => (id, receivers),
        _ => panic!("expected to block"),
    };
    assert_eq!(receivers.len(), 2);
    lpush(&request(&["LPUSH", "b", "z"]), &mut store).unwrap();
    assert!(receivers[0].try_recv().is_err());
    assert!(receivers[1].try_recv().is_ok());
    assert_eq!(blpop_woken(&mut store, id, &keys, 1), Ok(bulk_array(&["b", "z"])));
    assert_eq!(blpop_woken(&mut store, id, &keys, 1), Err(ResponseError::InternalError));
}

#[test]
fn command_blpop_times_out() {
    let mut store = Store::new();
    let keys = vec!["a".to_string()];
    let (id, mut receivers) = match blpop_start(&mut store, &keys) {
        BlpopStart::Blocked { id, receivers } => (id, receivers),
        _ => panic!("expected to block"),
    };
    assert_eq!(blpop_timeout(&mut store, id, &keys), RESPValue::NullArray);
    lpush(&request(&["LPUSH", "a", "late"]), &mut store).unwrap();
    assert!(receivers[0].try_recv().is_err());
    assert_eq!(lpop(&request(&["LPOP", "a"]), &mut store), Ok(bulk("late")));
}

#[test]
fn response_error_messages() {
    assert_eq!(ResponseError::MalformedRequestError.message(), "malformed request");
    assert_eq!(ResponseError::UnsupportedCommandError.message(), "unsupported command");
    assert_eq!(ResponseError::InternalError.message(), "internal error");
}

#[test]
fn command_blpop_start_at_follows_the_clock() {
    let mut store = Store::new();
    store.set("s".to_string(), "v".to_string(), Some(100));
    lpush(&request(&["LPUSH", "l", "x"]), &mut store).unwrap();
    let keys = vec!["s".to_string(), "l".to_string()];
    match blpop_start_at(&mut store, &keys, Some(50)) {
        BlpopStart::Failed(e) => assert_eq!(e, ResponseError::MalformedRequestError),
        _ => panic!("expected a failure while the string is live"),
    }
    match blpop_start_at(&mut store, &keys, Some(200)) {
        BlpopStart::Served(v) => assert_eq!(v, bulk_array(&["l", "x"])),
        _ => panic!("expected the expired string to be passed over"),
    }
    assert!(matches!(store.get_at("s", Some(200)), Ok(None)));
    lpush(&request(&["LPUSH", "l", "y"]), &mut store).unwrap();
    let one = vec!["l".to_string()];
    match blpop_start_at(&mut store, &one, None) {
        BlpopStart::Failed(e) => assert_eq!(e, ResponseError::MalformedRequestError),
        _ => panic!("expected a failure when the clock fails on a present key"),
    }
    let none = vec!["none".to_string()];
    match blpop_start_at(&mut store, &none, None) {
        BlpopStart::Blocked { receivers, .. } => assert_eq!(receivers.len(), 1),
        _ => panic!("expected absent keys to block"),
    }
}

#[test]
fn command_blpop_woken_at_pops_the_head() {
    let mut store = Store::new();
    let keys = vec!["a".to_string()];
    let (id, mut receivers) = match blpop_start_at(&mut store, &keys, Some(0)) {
        BlpopStart::Blocked { id, receivers } => (id, receivers),
        _ => panic!("expected to block"),
    };
    lpush(&request(&["LPUSH", "a", "z", "w"]), &mut store).unwrap();
    assert!(receivers[0].try_recv().is_ok());
    assert_eq!(blpop_woken_at(&mut store, id, &keys, 0, None), Err(ResponseError::InternalError));
    assert_eq!(blpop_woken_at(&mut store, id, &keys, 0, Some(0)), Ok(bulk_array(&["a", "w"])));
    assert_eq!(lrange(&request(&["LRANGE", "a", "0", "-1"]), &mut store), Ok(bulk_array(&["z"])));
}

#[test]
fn command_get_at_follows_the_clock() {
    let mut store = Store::new();
    store.set("k".to_string(), "v".to_string(), Some(100));
    assert_eq!(resp_store::commands::get::get_at(&request(&["GET", "k"]), &mut store, None), Err(ResponseError::InternalError));
    assert_eq!(resp_store::commands::get::get_at(&request(&["GET", "k"]), &mut store, Some(100)), Ok(bulk("v")));
    assert_eq!(
        resp_store::commands::get::get_at(&request(&["GET", "k"]), &mut store, Some(101)),
        Ok(RESPValue::NullBulkString)
    );
    assert_eq!(
        resp_store::commands::get::get_at(&request(&["GET", "k"]), &mut store, None),
        Ok(RESPValue::NullBulkString)
    );
    assert_eq!(
        resp_store::commands::get::get_at(&request(&["GET"]), &mut store, Some(0)),
        Err(ResponseError::MalformedRequestError)
    );
}

#[test]
fn command_lpop_at_follows_the_clock() {
    let mut store = Store::new();
    lpush(&request(&["LPUSH", "l", "a", "b", "c"]), &mut store).unwrap();
    let lpop_at = resp_store::commands::lpop::lpop_at;
    assert_eq!(lpop_at(&request(&["LPOP", "l"]), &mut store, None), Err(ResponseError::InternalError));
    assert_eq!(lpop_at(&request(&["LPOP", "l", "2"]), &mut store, Some(5)), Ok(bulk_array(&["c", "b"])));
    assert_eq!(lpop_at(&request(&["LPOP", "none"]), &mut store, None), Ok(RESPValue::NullBulkString));
    store.set("s".to_string(), "v".to_string(), Some(10));
    assert_eq!(lpop_at(&request(&["LPOP", "s"]), &mut store, Some(10)), Err(ResponseError::InternalError));
    assert_eq!(lpop_at(&request(&["LPOP", "s"]), &mut store, Some(11)), Ok(RESPValue::NullBulkString));
}

#[test]
fn command_lrange_at_follows_the_clock() {
    let mut store = Store::new();
    lpush(&request(&["LPUSH", "l", "a", "b"]), &mut store).unwrap();
    let lrange_at = resp_store::commands::lrange::lrange_at;
    assert_eq!(lrange_at(&request(&["LRANGE", "l", "0", "-1"]), &mut store, None), Err(ResponseError::InternalError));
    assert_eq!(lrange_at(&request(&["LRANGE", "l", "0", "-1"]), &mut store, Some(1)), Ok(bulk_array(&["b", "a"])));
    store.set("s".to_string(), "v".to_string(), Some(10));
    assert_eq!(lrange_at(&request(&["LRANGE", "s", "0", "-1"]), &mut store, Some(10)), Err(ResponseError::InternalError));
    assert_eq!(lrange_at(&request(&["LRANGE", "s", "0", "-1"]), &mut store, Some(11)), Ok(bulk_array(&[])));
}

#[test]
fn command_lrange_start_at_length_gives_last() {
    let mut store = Store::new();
    lpush(&request(&["LPUSH", "l", "a", "b"]), &mut store).unwrap();
    assert_eq!(lrange(&request(&["LRANGE", "l", "2", "5"]), &mut store), Ok(bulk_array(&["a"])));
    assert_eq!(lrange(&request(&["LRANGE", "l", "3", "5"]), &mut store), Ok(bulk_array(&[])));
}
