use hyparview::config::{Config, ConfigError};
use hyparview::peer::PeerId;

fn bytes(s: &str) -> Vec<u8> {
    s.as_bytes().to_vec()
}

#[test]
fn load_config_full() {
    let text = "127.0.0.1:9001\n\
                127.0.0.1:9002,127.0.0.1:9003\n\
                6,3\n\
                5,30\n\
                10\n\
                3,4\n\
                6\n";
    let c = Config::load_config(&bytes(text)).expect("well-formed config");
    assert_eq!(c.local_addr, PeerId::new(127, 0, 0, 1, 9001));
    assert_eq!(
        c.contact_nodes,
        vec![PeerId::new(127, 0, 0, 1, 9002), PeerId::new(127, 0, 0, 1, 9003)]
    );
    assert_eq!(c.active_random_walk_length, 6);
    assert_eq!(c.passive_random_walk_length, 3);
    assert_eq!(c.active_view_size, 5);
    assert_eq!(c.passive_view_size, 30);
    assert_eq!(c.shuffle_period_seconds, 10);
    assert_eq!(c.shuffle_active_view_count, 3);
    assert_eq!(c.shuffle_passive_view_count, 4);
    assert_eq!(c.shuffle_walk_length, 6);
}

#[test]
fn load_config_empty_contacts_and_crlf() {
    let text = "0.0.0.0:0\r\n\r\n6,3\r\n5,30\r\n10\r\n3,4\r\n6\r\n";
    let c = Config::load_config(&bytes(text)).expect("empty contact list is legal");
    assert_eq!(c.local_addr, PeerId::new(0, 0, 0, 0, 0));
    assert!(c.contact_nodes.is_empty());
}

#[test]
fn load_config_boundary_values() {
    let text = "255.255.255.255:65535\n1.2.3.4:1\n255,255\n255,255\n255\n1,1\n255\n";
    let c = Config::load_config(&bytes(text)).expect("boundary values parse");
    assert_eq!(c.local_addr, PeerId::new(255, 255, 255, 255, 65535));
    assert_eq!(c.active_view_size, 255);
}

#[test]
fn load_config_rejects_missing_lines() {
    let text = "127.0.0.1:9001\n\n6,3\n5,30\n10\n";
    assert_eq!(Config::load_config(&bytes(text)), Err(ConfigError::Malformed));
}

#[test]
fn load_config_rejects_bad_numbers() {
    let text = "127.0.0.1:9001\n\n6,3\n5,300\n10\n3,4\n6\n";
    assert_eq!(Config::load_config(&bytes(text)), Err(ConfigError::Malformed));
    let text2 = "127.0.0.1:9001\n\nx,3\n5,30\n10\n3,4\n6\n";
    assert_eq!(Config::load_config(&bytes(text2)), Err(ConfigError::Malformed));
    let text3 = "127.0.0.1:70000\n\n6,3\n5,30\n10\n3,4\n6\n";
    assert_eq!(Config::load_config(&bytes(text3)), Err(ConfigError::Malformed));
}

#[test]
fn load_config_rejects_unusable_sizes() {
    // a zero-sized active view cannot drive the protocol
    let text = "127.0.0.1:9001\n\n6,3\n0,30\n10\n3,4\n6\n";
    assert_eq!(Config::load_config(&bytes(text)), Err(ConfigError::Malformed));
    // a shuffle sample larger than its view
    let text2 = "127.0.0.1:9001\n\n6,3\n2,30\n10\n3,4\n6\n";
    assert_eq!(Config::load_config(&bytes(text2)), Err(ConfigError::Malformed));
}
