use eth_watch::client_layer::{ClientConfig, QueryEthClientLayer, WiringError};
use eth_watch::types::L1ChainId;

fn layer(key: Option<&str>) -> QueryEthClientLayer {
    let key = match key {
        Some(key) => Some(key.to_string()),
        None => None,
    };
    QueryEthClientLayer::new(L1ChainId(11_155_111), "https://node.example".to_string(), key)
}

fn wired(layer: QueryEthClientLayer) -> ClientConfig {
    match layer.wire() {
        Ok(config) => config,
        Err(error) => panic!("unexpected {:?}", error),
    }
}

#[test]
fn no_key_no_headers() {
    let config = wired(layer(None));
    assert!(config.headers.is_none());
    assert_eq!(config.l1_chain_id, L1ChainId(11_155_111));
    assert_eq!(config.l1_rpc_url, "https://node.example");
}

#[test]
fn key_is_sent_under_both_names() {
    let headers = wired(layer(Some("secret-key"))).headers.unwrap();
    assert_eq!(headers.len(), 2);
    assert_eq!(headers.get("x-goog-api-key").unwrap(), "secret-key");
    assert_eq!(headers.get("x-api-key").unwrap(), "secret-key");
}

#[test]
fn key_can_be_set_later() {
    let layer = layer(Some("old")).with_google_api_key("new");
    assert_eq!(layer.google_api_key.as_deref(), Some("new"));
    assert_eq!(layer.l1_chain_id, L1ChainId(11_155_111));
    assert_eq!(layer.l1_rpc_url, "https://node.example");
    let headers = wired(layer.with_google_api_key("newer".to_string())).headers.unwrap();
    assert_eq!(headers.get("x-api-key").unwrap(), "newer");
}

#[test]
fn key_with_control_characters_cannot_be_sent() {
    for key in ["line\nbreak", "\u{7f}", "\0"] {
        assert!(matches!(layer(Some(key)).wire(), Err(WiringError::InvalidApiKey)));
    }
}

#[test]
fn tabs_and_other_scripts_can_be_sent() {
    for key in ["a\tb", "schl\u{fc}ssel", ""] {
        let headers = wired(layer(Some(key))).headers.unwrap();
        assert_eq!(headers.get("x-goog-api-key").unwrap().as_bytes(), key.as_bytes());
    }
}

#[test]
fn layer_has_a_name() {
    assert_eq!(layer(None).layer_name(), "query_eth_client_layer");
}
