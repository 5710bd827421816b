use summdb::link::parse_link_next;
use summdb::registry::{
    bearer_header, first_response_action, manifest_response, media_type_essence, normalize_base,
    parse_bearer_challenge, pick_token, request_url, status_is_success, token_query, ResponseAction,
};

#[test]
fn bearer_challenge_with_all_fields() {
    let c = parse_bearer_challenge(
        "Bearer realm=\"https://auth.example.com/token\",service=\"registry.example.com\",scope=\"repository:app:pull\"",
    )
    .unwrap();
    assert_eq!(c.realm, "https://auth.example.com/token");
    assert_eq!(c.service.as_deref(), Some("registry.example.com"));
    assert_eq!(c.scope.as_deref(), Some("repository:app:pull"));
}

#[test]
fn bearer_challenge_lower_case_and_spaces() {
    let c = parse_bearer_challenge("bearer realm = \"r\" , unknown=\"x\"").unwrap();
    assert_eq!(c.realm, "r");
    assert_eq!(c.service, None);
    assert_eq!(c.scope, None);
}

#[test]
fn bearer_challenge_rejections() {
    assert!(parse_bearer_challenge("Basic realm=\"r\"").is_none());
    assert!(parse_bearer_challenge("Bearer service=\"s\"").is_none());
    assert!(parse_bearer_challenge("Bearer realm=\"r\",broken").is_none());
    assert!(parse_bearer_challenge("Bearer").is_none());
}

#[test]
fn bearer_challenge_last_value_wins() {
    let c = parse_bearer_challenge("Bearer realm=a,realm=b").unwrap();
    assert_eq!(c.realm, "b");
}

#[test]
fn token_query_lists_present_fields() {
    let c = parse_bearer_challenge("Bearer realm=\"r\",scope=\"s\"").unwrap();
    assert_eq!(token_query(&c), vec![("scope".to_string(), "s".to_string())]);
    let c = parse_bearer_challenge("Bearer realm=\"r\",service=\"v\",scope=\"s\"").unwrap();
    assert_eq!(
        token_query(&c),
        vec![("service".to_string(), "v".to_string()), ("scope".to_string(), "s".to_string())]
    );
}

#[test]
fn link_header_next() {
    assert_eq!(
        parse_link_next("</v2/_catalog?last=b&n=1000>; rel=\"next\""),
        Some("/v2/_catalog?last=b&n=1000".to_string())
    );
    assert_eq!(
        parse_link_next("<https://x/prev>; rel=prev, <https://x/next>; rel=next"),
        Some("https://x/next".to_string())
    );
    assert_eq!(parse_link_next("<https://x/prev>; rel=\"prev\""), None);
    assert_eq!(parse_link_next(""), None);
}

#[test]
fn link_header_next_without_brackets_is_none() {
    assert_eq!(parse_link_next("/v2/x; rel=\"next\""), None);
    assert_eq!(parse_link_next("</v2/x; rel=\"next\""), None);
}

#[test]
fn media_type_essence_drops_parameters() {
    assert_eq!(
        media_type_essence("application/vnd.oci.image.manifest.v1+json; charset=utf-8"),
        "application/vnd.oci.image.manifest.v1+json"
    );
    assert_eq!(media_type_essence("  text/plain  "), "text/plain");
    assert_eq!(media_type_essence(""), "");
}

#[test]
fn base_and_urls() {
    assert_eq!(normalize_base("https://r.example.com//"), "https://r.example.com");
    assert_eq!(normalize_base("https://r.example.com"), "https://r.example.com");
    assert_eq!(request_url("https://r", "/v2/_catalog"), "https://r/v2/_catalog");
    assert_eq!(request_url("https://r", "https://other/v2/x"), "https://other/v2/x");
    assert_eq!(bearer_header("tok"), "Bearer tok");
}

#[test]
fn token_choice() {
    assert_eq!(pick_token(Some("a".into()), Some("b".into())), Some("a".to_string()));
    assert_eq!(pick_token(None, Some("b".into())), Some("b".to_string()));
    assert_eq!(pick_token(None, None), None);
}

#[test]
fn response_actions() {
    assert!(matches!(first_response_action(200), ResponseAction::Accept));
    assert!(matches!(first_response_action(204), ResponseAction::Accept));
    assert!(matches!(first_response_action(401), ResponseAction::Authenticate));
    assert!(matches!(first_response_action(404), ResponseAction::Fail));
    assert!(matches!(first_response_action(302), ResponseAction::Fail));
    assert!(status_is_success(299));
    assert!(!status_is_success(300));
}

#[test]
fn manifest_response_from_headers() {
    let r = manifest_response(
        Some("sha256:abc".to_string()),
        Some("application/vnd.docker.distribution.manifest.v2+json; q=1".to_string()),
        vec![1, 2, 3],
    )
    .unwrap();
    assert_eq!(r.digest, "sha256:abc");
    assert_eq!(r.media_type, "application/vnd.docker.distribution.manifest.v2+json");
    assert_eq!(r.body, vec![1, 2, 3]);
    let r = manifest_response(Some("d".to_string()), None, vec![]).unwrap();
    assert_eq!(r.media_type, "");
    match manifest_response(None, None, vec![]) {
        Err(m) => assert_eq!(m, "missing Docker-Content-Digest header"),
        Ok(_) => panic!("expected an error"),
    }
}
