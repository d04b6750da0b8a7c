use sensor_beam::config::EndpointConfig;

#[test]
fn missing_config_gives_the_defaults() {
    let c = EndpointConfig::resolve(None);
    assert_eq!(c.org, "myorg");
    assert_eq!(c.bucket, "mybucket");
    assert_eq!(c.url, "http://localhost:9999");
    assert_eq!(c.token, "my-token");
    assert_eq!(c, EndpointConfig::default());
}

#[test]
fn default_config_is_the_local_endpoint() {
    let c = EndpointConfig::default();
    assert_eq!(
        c,
        EndpointConfig {
            org: "myorg".to_string(),
            bucket: "mybucket".to_string(),
            url: "http://localhost:9999".to_string(),
            token: "my-token".to_string(),
        }
    );
}

#[test]
fn loaded_config_is_used_as_it_is() {
    let given = EndpointConfig {
        org: "acme".to_string(),
        bucket: "weather".to_string(),
        url: "https://example.org:8086".to_string(),
        token: "t0k3n".to_string(),
    };
    assert_eq!(EndpointConfig::resolve(Some(given.clone())), given);
}
