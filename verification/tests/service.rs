use cran_incoming::config::{
    cran_host, cran_password, cran_root, cran_user, MAX_DEPTH, REMOTE_TIMEOUT_SECONDS,
    TIMEOUT_CACHE_SECONDS,
};
use cran_incoming::service::{index, CORS};

#[test]
fn index_greets() {
    assert_eq!(index(), "Hello, CRAN!");
}

#[test]
fn cors_announces_itself() {
    assert_eq!(CORS.info(), "Add CORS headers to responses");
}

#[test]
fn cors_sets_four_headers_in_order() {
    assert_eq!(
        CORS.on_response(),
        vec![
            ("Access-Control-Allow-Origin", "*"),
            ("Access-Control-Allow-Methods", "POST, GET, PATCH, OPTIONS"),
            ("Access-Control-Allow-Headers", "*"),
            ("Access-Control-Allow-Credentials", "true"),
        ]
    );
}

#[test]
fn settings_are_those_of_the_incoming_tree() {
    assert_eq!(cran_host(), "cran.r-project.org:21");
    assert_eq!(cran_root(), "/incoming");
    assert_eq!(cran_user(), "anonymous");
    assert_eq!(cran_password(), "anonymous");
    assert_eq!(MAX_DEPTH, 2);
    assert_eq!(TIMEOUT_CACHE_SECONDS, 600);
    assert_eq!(REMOTE_TIMEOUT_SECONDS, 30);
}
