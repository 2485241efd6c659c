use protohackers::chat::{
    connected_message, deliver, disconnected_message, handle_msg, has_connected_message, users_message,
    validate_username, chat_message, Class, UsernameError,
};
use protohackers::client::{Client, ClientState, ClientType};
use protohackers::kv::Store;
use protohackers::prime::{is_prime, prime_answer, Answer};
use protohackers::proxy::{process_line, process_line_bytes, Matcher, BOGUSCOIN_PATTERN, TONY_ADDRESS};

#[test]
fn primes() {
    let primes: Vec<u64> = (0..50).filter(|n| is_prime(*n)).collect();
    assert_eq!(primes, vec![2, 3, 5, 7, 11, 13, 17, 19, 23, 29, 31, 37, 41, 43, 47]);
    assert!(is_prime(7919));
    assert!(!is_prime(7917));
    assert!(!is_prime(4294967291 * 3));
    assert!(is_prime(4294967291));
    assert!(is_prime(1000000007));
    assert!(!is_prime(1000003 * 1000033));
    assert!(!is_prime(u64::MAX));
}

#[test]
fn prime_requests() {
    assert_eq!(prime_answer("isPrime", Some(13)), Ok(true));
    assert_eq!(prime_answer("isPrime", Some(12)), Ok(false));
    assert_eq!(prime_answer("isPrime", None), Ok(false));
    assert_eq!(prime_answer("isprime", Some(13)), Err(Answer::Malformed));
}

#[test]
fn kv_insert_and_retrieve() {
    let mut store = Store::new();
    assert_eq!(store.handle_request(b"version"), Some(b"version=Phlegethon V1.0".to_vec()));
    assert_eq!(store.handle_request(b"foo=bar"), None);
    assert_eq!(store.handle_request(b"foo"), Some(b"foo=bar".to_vec()));
    assert_eq!(store.handle_request(b"foo=bar=baz"), None);
    assert_eq!(store.handle_request(b"foo"), Some(b"foo=bar=baz".to_vec()));
    assert_eq!(store.handle_request(b"=empty"), None);
    assert_eq!(store.handle_request(b""), Some(b"=empty".to_vec()));
    assert_eq!(store.handle_request(b"missing"), None);
}

#[test]
fn kv_version_is_kept() {
    let mut store = Store::new();
    assert_eq!(store.handle_request(b"version=hacked"), None);
    assert_eq!(store.get(b"version"), Some(&b"Phlegethon V1.0".to_vec()));
}

#[test]
fn kv_lossy_answer() {
    let mut store = Store::new();
    store.handle_request(b"k=\xff");
    assert_eq!(store.handle_request(b"k"), Some("k=\u{FFFD}".as_bytes().to_vec()));
}

#[test]
fn proxy_rewrites_addresses() {
    let m = Matcher::boguscoin().unwrap();
    let line = "Send to 7F1u3wSD5RbOHQmupo9nx4TnhQ please\n";
    assert_eq!(process_line(line, &m), format!("Send to {} please\n", TONY_ADDRESS));
    assert_eq!(process_line("hi  there", &m), "hi there");
    assert_eq!(process_line("7abc", &m), "7abc");
    assert_eq!(process_line("7LOrwbDlS8NujgjddyogWgIM93MV5N2VR", &m), TONY_ADDRESS);
    assert!(Matcher::new("(unclosed").is_err());
    assert_eq!(m.compiled_pattern(), BOGUSCOIN_PATTERN);
    assert_eq!(Matcher::new("a+b").unwrap().compiled_pattern(), "a+b");
}

#[test]
fn chat_usernames() {
    assert_eq!(validate_username("  alice\n"), Ok("alice".to_string()));
    assert_eq!(validate_username("   \n"), Err(UsernameError::Empty));
    assert_eq!(validate_username(&"a".repeat(33)), Err(UsernameError::TooLong));
    assert_eq!(validate_username(&"a".repeat(32)), Ok("a".repeat(32)));
    assert_eq!(validate_username("bob!"), Err(UsernameError::ProhibitedChars));
    assert_eq!(validate_username("bob smith"), Err(UsernameError::ProhibitedChars));
    assert_eq!(validate_username("ünïcode"), Ok("ünïcode".to_string()));
}

#[test]
fn chat_announcements() {
    let join = connected_message("bob");
    assert_eq!(join.contents, "* [bob] connected.\n");
    assert_eq!(deliver(&join, "bob", false), None);
    assert_eq!(deliver(&join, "alice", false), Some("* [bob] connected.\n".to_string()));
    assert_eq!(has_connected_message("bob").contents, "* [bob] has connected.\n");
    let left = disconnected_message("bob");
    assert_eq!(left.contents, "* bob disconnected.\n");
    assert_eq!(left.class, Class::Disconnect);
    assert_eq!(deliver(&left, "alice", false), Some("* bob disconnected.\n".to_string()));
}

#[test]
fn chat_member_list() {
    let names = vec!["alice".to_string(), "bob".to_string(), "carol".to_string()];
    let list = users_message("bob", &names);
    assert_eq!(list.contents, "* Users online: alice, bob, carol\n");
    assert_eq!(deliver(&list, "bob", false), Some("* Users online: alice, carol\n".to_string()));
    assert_eq!(deliver(&list, "alice", false), None);
}

#[test]
fn chat_lines() {
    assert!(chat_message("bob", "   \n").is_none());
    let msg = chat_message("bob", "  hello 7F1u3wSD5RbOHQmupo9nx4TnhQ \n").unwrap();
    assert_eq!(msg.contents, "[bob] hello 7F1u3wSD5RbOHQmupo9nx4TnhQ\n");
    assert_eq!(deliver(&msg, "bob", false), None);
    assert_eq!(deliver(&msg, "alice", false), Some(msg.contents.clone()));
    let rewritten = format!("[bob] hello {}", TONY_ADDRESS);
    assert_eq!(deliver(&msg, "alice", true), Some(rewritten.clone()));
    assert_eq!(handle_msg(msg).contents, rewritten);
}

#[test]
fn client_records() {
    let mut state = ClientState::new();
    assert!(!state.is_identified());
    assert!(state.to_client(3).is_none());
    state.set_client_type(ClientType::Dispatcher { roads: vec![1, 2] });
    assert!(state.is_identified());
    let client = state.to_client(3).unwrap();
    assert_eq!(client.get_id(), 3);
    assert_eq!(client.get_type(), &ClientType::Dispatcher { roads: vec![1, 2] });
    let c = Client::new(9, ClientType::Camera { road: 1, mile: 2, limit: 3 });
    assert_eq!(c.get_id(), 9);
}

#[test]
fn kv_version_survives_any_requests() {
    let mut store = Store::new();
    let requests: Vec<&[u8]> = vec![
        b"version=hacked", b"version", b"=x", b"version==", b"versio=n", b"a=b", b"version= ", b"",
    ];
    for r in requests {
        store.handle_request(r);
    }
    assert_eq!(store.handle_request(b"version"), Some(b"version=Phlegethon V1.0".to_vec()));
    assert_eq!(store.handle_request(b"versio"), Some(b"versio=n".to_vec()));
}

#[test]
fn rewrite_is_idempotent() {
    let texts = [
        "[bob] pay 7F1u3wSD5RbOHQmupo9nx4TnhQ now\n",
        "  7LOrwbDlS8NujgjddyogWgIM93MV5N2VR\t7iKDZEwPZSqIvDnHvVN2r0hUWXD5rHX  ",
        "no address here",
        "",
        "7short 7F1u3wSD5RbOHQmupo9nx4TnhQ-x",
    ];
    for t in texts {
        let msg = chat_message("bob", t).unwrap_or_else(|| chat_message("bob", "x").unwrap());
        let once = handle_msg(msg);
        let twice = handle_msg(once.clone());
        assert_eq!(twice.contents, once.contents);
        assert_eq!(twice.sender, once.sender);
    }
}

#[test]
fn proxy_rewrites_received_bytes() {
    let m = Matcher::boguscoin().unwrap();
    let line = b"Hi 7F1u3wSD5RbOHQmupo9nx4TnhQ\n";
    assert_eq!(process_line_bytes(line, &m), format!("Hi {}\n", TONY_ADDRESS).into_bytes());
    assert_eq!(process_line_bytes(b"a \xff b", &m), "a \u{FFFD} b".as_bytes().to_vec());
    assert_eq!(process_line_bytes(b"", &m), Vec::<u8>::new());
}
