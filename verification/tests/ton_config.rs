use ton_client_util::ton_config::{Liteserver, LiteserverId, TonConfig};

fn server(typ: &str, key: &str, ip: i32, port: u16) -> Liteserver {
    Liteserver {
        id: LiteserverId { typ: typ.to_string(), key: key.to_string() },
        ip,
        port,
    }
}

#[test]
fn liteserver_id_joins_type_and_key_with_colon() {
    let ls = server("pub.ed25519", "n4VDnSCUuSpjnCyUk9e3QOOd6o0ItSWYbTnW3Wnn8wk=", 84478511, 19949);
    assert_eq!(ls.id(), "pub.ed25519:n4VDnSCUuSpjnCyUk9e3QOOd6o0ItSWYbTnW3Wnn8wk=");
}

#[test]
fn liteserver_id_with_empty_parts() {
    assert_eq!(server("", "", 0, 0).id(), ":");
    assert_eq!(server("a", "", 0, 0).id(), "a:");
    assert_eq!(server("", "b", 0, 0).id(), ":b");
}

#[test]
fn with_liteserver_keeps_only_that_server_and_the_other_fields() {
    let mut data = serde_json::Map::new();
    data.insert("@type".to_string(), serde_json::Value::String("config.global".to_string()));
    let config = TonConfig {
        liteservers: vec![server("t", "a", 1, 10), server("t", "b", 2, 20)],
        data: serde_json::Value::Object(data),
    };
    let chosen = server("t", "c", -5, 30);
    let narrowed = config.with_liteserver(&chosen);
    assert_eq!(narrowed.liteservers, vec![chosen.clone()]);
    assert_eq!(narrowed.data, config.data);
    assert_eq!(
        narrowed.data.get("@type"),
        Some(&serde_json::Value::String("config.global".to_string()))
    );
    assert_eq!(config.liteservers.len(), 2);
}

#[test]
fn with_liteserver_on_config_without_servers() {
    let config = TonConfig { liteservers: vec![], data: serde_json::Value::Null };
    let chosen = server("t", "x", 7, 7);
    let narrowed = config.with_liteserver(&chosen);
    assert_eq!(narrowed.liteservers.len(), 1);
    assert_eq!(narrowed.liteservers[0], chosen);
    assert_eq!(narrowed.data, serde_json::Value::Null);
}
