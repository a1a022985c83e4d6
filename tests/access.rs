use meilisearch_core::{authorize, ApiKeys, AuthDecision, Authentication, LoggingMiddleware};

fn keys() -> ApiKeys {
    ApiKeys {
        master: Some("master".to_string()),
        private: Some("private".to_string()),
        public: Some("public".to_string()),
    }
}

#[test]
fn no_master_key_opens_everything() {
    let open = ApiKeys { master: None, private: None, public: None };
    assert!(matches!(authorize(Authentication::Admin, &open, None), AuthDecision::Allow));
}

#[test]
fn missing_header_is_refused() {
    assert!(matches!(authorize(Authentication::Public, &keys(), None), AuthDecision::MissingAuthorizationHeader));
}

#[test]
fn keys_open_their_levels() {
    let k = keys();
    let m = "master".to_string();
    let p = "private".to_string();
    let u = "public".to_string();
    assert!(matches!(authorize(Authentication::Admin, &k, Some(&m)), AuthDecision::Allow));
    assert!(matches!(authorize(Authentication::Admin, &k, Some(&p)), AuthDecision::InvalidToken(ref t) if t == "private"));
    assert!(matches!(authorize(Authentication::Private, &k, Some(&p)), AuthDecision::Allow));
    assert!(matches!(authorize(Authentication::Private, &k, Some(&u)), AuthDecision::InvalidToken(_)));
    assert!(matches!(authorize(Authentication::Public, &k, Some(&u)), AuthDecision::Allow));
    assert!(matches!(authorize(Authentication::Public, &k, Some(&m)), AuthDecision::Allow));
    let bad = "SECRET-REDACTED".to_string();
    assert!(matches!(authorize(Authentication::Public, &k, Some(&bad)), AuthDecision::InvalidToken(ref t) if t == "SECRET-REDACTED"));
}

#[test]
fn middleware_uses_its_level() {
    let mw = LoggingMiddleware::new(Authentication::Private, 7u32);
    assert_eq!(mw.service, 7);
    let p = "private".to_string();
    assert!(matches!(mw.authorize(&keys(), Some(&p)), AuthDecision::Allow));
}
