use virus_bot::proto::config::{connect_url, BotConfig, Rng};

#[test]
fn connect_url_appends_bot_flag_and_escaped_prefix() {
    let config = BotConfig {
        backend_url: "ws://host/ws".to_owned(),
        name_prefix: "Canary Bot".to_owned(),
        ..BotConfig::default()
    };
    assert_eq!(
        connect_url(&config),
        "ws://host/ws?bot=true&namePrefix=Canary%20Bot"
    );

    let with_query = BotConfig {
        backend_url: "ws://host/ws?x=1".to_owned(),
        name_prefix: String::new(),
        ..BotConfig::default()
    };
    assert_eq!(connect_url(&with_query), "ws://host/ws?x=1&bot=true");
}

#[test]
fn rng_is_deterministic_for_a_seed() {
    let a: Vec<u64> = (0..4).map(|_| Rng::new(7).next_u64()).collect();
    assert!(a.windows(2).all(|w| w[0] == w[1]));
    let mut stream = Rng::new(7);
    assert_ne!(stream.next_u64(), stream.next_u64());
    assert_eq!(Rng::new(1).below(0), None);
    assert!(Rng::new(1).below(5).is_some_and(|index| index < 5));
}

/// Escapes are told apart from what looks like them, so undoing them gives back
/// the bytes of the prefix.
#[test]
fn an_escaped_prefix_is_its_own() {
    let prefix_of = |prefix: &str| {
        let config = BotConfig {
            backend_url: "ws://host/ws".to_owned(),
            name_prefix: prefix.to_owned(),
            ..BotConfig::default()
        };
        let url = connect_url(&config);
        url.strip_prefix("ws://host/ws?bot=true&namePrefix=").expect("a prefix").to_owned()
    };
    let undo = |text: &str| {
        let bytes = text.as_bytes();
        let mut out = Vec::new();
        let mut at = 0;
        while at < bytes.len() {
            if bytes[at] == b'%' {
                out.push(u8::from_str_radix(&text[at + 1..at + 3], 16).expect("two digits"));
                at += 3;
            } else {
                out.push(bytes[at]);
                at += 1;
            }
        }
        out
    };
    assert_eq!(prefix_of("a b"), "a%20b");
    assert_eq!(prefix_of("a%20b"), "a%2520b");
    assert_eq!(prefix_of("\u{e9}~"), "%C3%A9~");
    for prefix in ["a b", "a%20b", "&=?#/", "\u{e9}~\u{1f9a0}", "\u{0}\u{7f}"] {
        assert_eq!(undo(&prefix_of(prefix)), prefix.as_bytes());
    }
}
