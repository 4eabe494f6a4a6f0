use croco_server::config::{parse_count, parse_listen_arg, ListenArg};
use croco_server::dynamic_threading::DynamicThreading;
use croco_server::fields::Fields;
use croco_server::http_client::{HTTPClient, HTTPMethod};
use croco_server::php_executor::php_arguments;
use croco_server::text::{decimal_chars, parse_unsigned, white_space};

#[test]
fn php_arguments_list() {
    let client = HTTPClient::try_new(b"GET /s.php?a=1&b=x%20y HTTP/1.1\r\n\r\n", ".").unwrap().unwrap();
    let args = php_arguments("./s.php", HTTPMethod::Post, &client.args);
    assert_eq!(args, vec!["-c", "./php_config/php.ini", "./s.php", "POST", "a=1 ", "b=x y "]);
    let args = php_arguments("x.php", HTTPMethod::Get, &Fields::new());
    assert_eq!(args, vec!["-c", "./php_config/php.ini", "x.php", "GET"]);
}

#[test]
fn fields_insert_get_remove() {
    let mut f = Fields::new();
    f.insert("a".to_string(), "1".to_string());
    f.insert("b".to_string(), "2".to_string());
    f.insert("a".to_string(), "3".to_string());
    assert_eq!(f.len(), 2);
    assert_eq!(f.get("a").unwrap(), "3");
    let (k, v) = f.entry(0);
    assert_eq!((k.as_str(), v.as_str()), ("a", "3"));
    assert_eq!(f.remove("a").unwrap(), "3");
    assert!(f.get("a").is_none());
    assert!(f.remove("a").is_none());
    assert_eq!(f.len(), 1);
}

#[test]
fn client_threads_are_numbered_and_leave_the_pool() {
    let mut pool: DynamicThreading<&str> = DynamicThreading::new(4, 2048);
    let first = pool.next_client();
    assert_eq!(first.id, 0);
    assert_eq!(first.name, "C-0");
    assert_eq!(first.stack_size, 2048);
    pool.handle_client("zero");
    let second = pool.next_client();
    assert_eq!(second.id, 1);
    assert_eq!(second.name, "C-1");
    pool.handle_client("one");
    assert_eq!(pool.active_count(), 2);
    assert_eq!(pool.client_finished(0), Some("zero"));
    assert_eq!(pool.client_finished(0), None);
    assert_eq!(pool.active_count(), 1);
    assert_eq!(pool.next_client().name, "C-2");
}

#[test]
fn a_finished_client_leaves_the_pool_as_it_was() {
    let mut pool: DynamicThreading<u32> = DynamicThreading::new(0, 1);
    pool.handle_client(7);
    let next = pool.next_client();
    pool.handle_client(8);
    assert_eq!(pool.client_finished(next.id), Some(8));
    assert_eq!(pool.active_count(), 1);
    assert_eq!(pool.client_finished(0), Some(7));
    assert_eq!(pool.active_count(), 0);
}

#[test]
fn many_thread_names() {
    let mut pool: DynamicThreading<()> = DynamicThreading::new(0, 1);
    for i in 0..123usize {
        assert_eq!(pool.next_client().name, format!("C-{}", i));
        pool.handle_client(());
    }
}

#[test]
fn listen_arguments() {
    assert!(matches!(parse_listen_arg("192.168.0.1:80"), ListenArg::Address(192, 168, 0, 1, 80)));
    assert!(matches!(parse_listen_arg(" 1. 2.3 .4 : 81 "), ListenArg::Address(1, 2, 3, 4, 81)));
    assert!(matches!(parse_listen_arg("localhost"), ListenArg::Default));
    assert!(matches!(parse_listen_arg("1.2.3:80"), ListenArg::Default));
    assert!(matches!(parse_listen_arg("1.2.3:x"), ListenArg::Default));
    assert!(matches!(parse_listen_arg("a.b.c.d:80"), ListenArg::Invalid));
    assert!(matches!(parse_listen_arg("1.2.3.256:80"), ListenArg::Invalid));
    assert!(matches!(parse_listen_arg("1.2.3.4:x"), ListenArg::Invalid));
    assert!(matches!(parse_listen_arg("1.2.3.4:65536"), ListenArg::Invalid));
    assert!(matches!(parse_listen_arg("localhost:80"), ListenArg::Invalid));
}

#[test]
fn counts() {
    assert_eq!(parse_count("128"), Some(128));
    assert_eq!(parse_count("+7"), Some(7));
    assert_eq!(parse_count(""), None);
    assert_eq!(parse_count("+"), None);
    assert_eq!(parse_count("-1"), None);
    assert_eq!(parse_count(" 1"), None);
    assert_eq!(parse_count("18446744073709551615"), "18446744073709551615".parse::<usize>().ok());
    assert_eq!(parse_count("18446744073709551616"), None);
}

#[test]
fn parsing_agrees_with_std() {
    let samples = ["0", "007", "255", "256", "+1", "++1", "-0", "1a", "", "65535", "65536", "٣"];
    for s in samples {
        let chars: Vec<char> = s.chars().collect();
        assert_eq!(parse_unsigned(&chars, 255).map(|v| v as u8), s.parse::<u8>().ok(), "{}", s);
        assert_eq!(parse_unsigned(&chars, 65535).map(|v| v as u16), s.parse::<u16>().ok(), "{}", s);
    }
}

#[test]
fn decimal_round_trip() {
    for n in [0usize, 1, 9, 10, 99, 100, 12345, usize::MAX] {
        let d = decimal_chars(n);
        assert_eq!(d.iter().collect::<String>(), n.to_string());
        assert_eq!(parse_unsigned(&d, usize::MAX), Some(n));
    }
}

#[test]
fn white_space_agrees_with_std() {
    for c in (0u32..=0x10FFFF).filter_map(char::from_u32) {
        assert_eq!(white_space(c), c.is_whitespace(), "{:?}", c);
    }
}
