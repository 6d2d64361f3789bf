use blit::gateway::{destinations_json, gateway_config_json, gateway_route, GatewayRoute};

#[test]
fn routes() {
    assert_eq!(gateway_route("/vt/config", Some("WebSocket"), true), GatewayRoute::ConfigSocket);
    assert_eq!(gateway_route("/vt/config", Some("websocket"), false), GatewayRoute::Socket);
    assert_eq!(gateway_route("/vt", Some("websocket"), true), GatewayRoute::Socket);
    assert_eq!(gateway_route("/vt/config", None, true), GatewayRoute::ConfigJson);
    assert_eq!(gateway_route("/vt/config", Some("h2c"), true), GatewayRoute::ConfigJson);
    assert_eq!(gateway_route("/", None, false), GatewayRoute::Index);
    assert_eq!(gateway_route("/vt/nonexistent_file.js", None, true), GatewayRoute::Index);
}

#[test]
fn gateway_description() {
    assert_eq!(gateway_config_json(None), "{\"gateway\":true}");
    assert_eq!(gateway_config_json(Some("ab12")), "{\"gateway\":true,\"certHash\":\"ab12\"}");
}

#[test]
fn destinations_sorted_and_escaped() {
    let dests = vec![
        ("work".to_string(), "Work \"box\"".to_string()),
        ("home".to_string(), "Home".to_string()),
    ];
    assert_eq!(
        destinations_json(&dests),
        "{\"gateway\":true,\"destinations\":[{\"id\":\"home\",\"type\":\"gateway\",\"label\":\"Home\"},{\"id\":\"work\",\"type\":\"gateway\",\"label\":\"Work \\\"box\\\"\"}]}"
    );
    assert_eq!(destinations_json(&[]), "{\"gateway\":true,\"destinations\":[]}");
}
