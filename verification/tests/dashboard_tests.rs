use darkreach::dashboard::{classify_rate_limit, extract_client_ip, normalize_path, HttpMethod, RateLimitTier};
use darkreach::dashboard::{routes_agents, routes_audit, routes_releases};
use darkreach::dashboard::{
    rate_limited_body, retry_after_secs, tier_label, tier_quota_per_minute, GLOBAL_QUOTA_PER_MINUTE,
};

#[test]
fn normalize_path_preserves_api_routes() {
    assert_eq!(normalize_path("/api/status"), "/api/status");
    assert_eq!(normalize_path("/api/fleet"), "/api/fleet");
    assert_eq!(normalize_path("/metrics"), "/metrics");
}

#[test]
fn normalize_path_collapses_numeric_ids() {
    assert_eq!(normalize_path("/api/search_jobs/42"), "/api/search_jobs/:id");
    assert_eq!(normalize_path("/api/primes/12345/verify"), "/api/primes/:id/verify");
}

#[test]
fn normalize_path_collapses_uuids() {
    assert_eq!(
        normalize_path("/api/agents/tasks/550e8400-e29b-41d4-a716-446655440000"),
        "/api/agents/tasks/:uuid"
    );
}

#[test]
fn normalize_path_handles_empty_and_root() {
    assert_eq!(normalize_path("/"), "/");
    assert_eq!(normalize_path(""), "");
}

#[test]
fn normalize_path_counts_bytes_for_uuids() {
    // 35 ASCII characters plus one two-byte character: 36 bytes, four dashes.
    assert_eq!(normalize_path("/x/550e8400-e29b-41d4-a716-4466554400é"), "/x/:uuid");
    assert_eq!(normalize_path("/x/550e8400-e29b-41d4-a716-44665544000é"), "/x/550e8400-e29b-41d4-a716-44665544000é");
    assert_eq!(normalize_path("//7//"), "//:id//");
    assert_eq!(normalize_path("abc"), "abc");
}

#[test]
fn classify_public_read_endpoints() {
    assert_eq!(classify_rate_limit(HttpMethod::Get, "/api/primes"), RateLimitTier::PublicRead);
    assert_eq!(classify_rate_limit(HttpMethod::Get, "/api/primes/42"), RateLimitTier::PublicRead);
    assert_eq!(classify_rate_limit(HttpMethod::Get, "/api/stats"), RateLimitTier::PublicRead);
    assert_eq!(classify_rate_limit(HttpMethod::Get, "/api/stats/timeline"), RateLimitTier::PublicRead);
    assert_eq!(classify_rate_limit(HttpMethod::Get, "/healthz"), RateLimitTier::PublicRead);
    assert_eq!(classify_rate_limit(HttpMethod::Get, "/readyz"), RateLimitTier::PublicRead);
    assert_eq!(classify_rate_limit(HttpMethod::Get, "/metrics"), RateLimitTier::PublicRead);
}

#[test]
fn classify_public_write_endpoints() {
    assert_eq!(
        classify_rate_limit(HttpMethod::Post, "/api/v1/operators/register"),
        RateLimitTier::PublicWrite
    );
    assert_eq!(classify_rate_limit(HttpMethod::Post, "/api/v1/register"), RateLimitTier::PublicWrite);
}

#[test]
fn classify_auth_endpoints() {
    assert_eq!(classify_rate_limit(HttpMethod::Get, "/api/auth/profile"), RateLimitTier::Auth);
    assert_eq!(classify_rate_limit(HttpMethod::Get, "/api/auth/me"), RateLimitTier::Auth);
    assert_eq!(
        classify_rate_limit(HttpMethod::Post, "/api/v1/operators/rotate-key"),
        RateLimitTier::Auth
    );
}

#[test]
fn classify_operator_endpoints() {
    assert_eq!(classify_rate_limit(HttpMethod::Post, "/api/v1/nodes/heartbeat"), RateLimitTier::Operator);
    assert_eq!(classify_rate_limit(HttpMethod::Get, "/api/v1/nodes/work"), RateLimitTier::Operator);
    assert_eq!(classify_rate_limit(HttpMethod::Post, "/api/v1/nodes/result"), RateLimitTier::Operator);
    assert_eq!(classify_rate_limit(HttpMethod::Post, "/api/v1/worker/heartbeat"), RateLimitTier::Operator);
    assert_eq!(classify_rate_limit(HttpMethod::Get, "/api/v1/work"), RateLimitTier::Operator);
    assert_eq!(classify_rate_limit(HttpMethod::Post, "/api/v1/result"), RateLimitTier::Operator);
}

#[test]
fn classify_admin_endpoints() {
    assert_eq!(classify_rate_limit(HttpMethod::Get, "/api/fleet"), RateLimitTier::Admin);
    assert_eq!(classify_rate_limit(HttpMethod::Post, "/api/searches"), RateLimitTier::Admin);
    assert_eq!(classify_rate_limit(HttpMethod::Get, "/api/strategy/status"), RateLimitTier::Admin);
    assert_eq!(classify_rate_limit(HttpMethod::Get, "/api/projects"), RateLimitTier::Admin);
}

#[test]
fn classify_default_tier() {
    assert_eq!(classify_rate_limit(HttpMethod::Get, "/"), RateLimitTier::Default);
    assert_eq!(classify_rate_limit(HttpMethod::Get, "/ws"), RateLimitTier::Default);
    assert_eq!(classify_rate_limit(HttpMethod::Get, "/favicon.ico"), RateLimitTier::Default);
}

#[test]
fn classify_post_to_primes_is_admin_not_public_read() {
    assert_eq!(classify_rate_limit(HttpMethod::Post, "/api/primes/42/verify"), RateLimitTier::Admin);
}

#[test]
fn route_defaults() {
    assert_eq!(routes_agents::default_permission_level(), 1);
    assert_eq!(routes_agents::default_priority(), "normal");
    assert_eq!(routes_agents::default_source(), "manual");
    assert_eq!(routes_agents::default_memory_category(), "general");
    assert_eq!(routes_audit::default_limit(), 100);
    assert_eq!(routes_releases::default_limit(), 50);
    assert_eq!(routes_releases::default_active_hours(), 24);
    assert_eq!(routes_releases::default_rollout(), 100);
}

#[test]
fn client_ip_prefers_first_forwarded_entry() {
    let ip = extract_client_ip(Some(" 203.0.113.7 , 10.0.0.1"), Some("198.51.100.2"), Some("127.0.0.1"));
    assert_eq!(ip, "203.0.113.7");
}

#[test]
fn client_ip_skips_empty_forwarded_entry() {
    let ip = extract_client_ip(Some("  , 10.0.0.1"), Some("\t198.51.100.2 "), Some("127.0.0.1"));
    assert_eq!(ip, "198.51.100.2");
    let ip = extract_client_ip(Some(""), None, Some("127.0.0.1"));
    assert_eq!(ip, "127.0.0.1");
}

#[test]
fn client_ip_real_ip_is_trimmed_even_when_empty() {
    assert_eq!(extract_client_ip(None, Some("   "), Some("127.0.0.1")), "");
}

#[test]
fn client_ip_falls_back_to_peer_then_unknown() {
    assert_eq!(extract_client_ip(None, None, Some("::1")), "::1");
    assert_eq!(extract_client_ip(None, None, None), "unknown");
}

#[test]
fn client_ip_trims_unicode_white_space() {
    assert_eq!(extract_client_ip(Some("\u{a0}1.2.3.4\u{3000}"), None, None), "1.2.3.4");
    assert_eq!(extract_client_ip(Some("5.6.7.8"), None, None), "5.6.7.8");
}

#[test]
fn listing_bounds_are_clamped() {
    assert_eq!(routes_releases::release_list_limit(0), 1);
    assert_eq!(routes_releases::release_list_limit(50), 50);
    assert_eq!(routes_releases::release_list_limit(5000), 200);
    assert_eq!(routes_releases::release_health_window(-3), 1);
    assert_eq!(routes_releases::release_health_window(48), 48);
    assert_eq!(routes_releases::release_health_window(10_000), 720);
    assert_eq!(routes_audit::audit_page(0, -5), (1, 0));
    assert_eq!(routes_audit::audit_page(100, 20), (100, 20));
    assert_eq!(routes_audit::audit_page(1_000_000, 7), (1000, 7));
}

#[test]
fn rate_limit_quotas_and_answers() {
    assert_eq!(tier_quota_per_minute(RateLimitTier::PublicRead), 300);
    assert_eq!(tier_quota_per_minute(RateLimitTier::PublicWrite), 30);
    assert_eq!(tier_quota_per_minute(RateLimitTier::Auth), 60);
    assert_eq!(tier_quota_per_minute(RateLimitTier::Operator), 600);
    assert_eq!(tier_quota_per_minute(RateLimitTier::Admin), 180);
    assert_eq!(tier_quota_per_minute(RateLimitTier::Default), 120);
    assert_eq!(GLOBAL_QUOTA_PER_MINUTE, 1000);
    assert_eq!(tier_label(RateLimitTier::PublicRead), format!("{:?}", RateLimitTier::PublicRead));
    assert_eq!(tier_label(RateLimitTier::Default), "Default");
    assert_eq!(retry_after_secs(0), 1);
    assert_eq!(retry_after_secs(42), 42);
    let body = rate_limited_body("Auth", 7);
    let mut expected = serde_json::Map::new();
    expected.insert("error".to_string(), serde_json::Value::String("Too many requests".to_string()));
    expected.insert("tier".to_string(), serde_json::Value::String("Auth".to_string()));
    expected.insert("retry_after_secs".to_string(), serde_json::Value::from(7u64));
    assert_eq!(body, serde_json::Value::Object(expected).to_string());
}

#[test]
fn normalize_path_is_idempotent() {
    for p in [
        "/api/primes/12345/verify",
        "/api/agents/tasks/550e8400-e29b-41d4-a716-446655440000",
        "//a//7/",
        "/metrics",
    ] {
        let once = normalize_path(p);
        assert_eq!(normalize_path(&once), once);
    }
}

#[test]
fn agent_listing_limit_defaults_and_caps() {
    assert_eq!(routes_agents::agent_list_limit(None), 100);
    assert_eq!(routes_agents::agent_list_limit(Some(50)), 50);
    assert_eq!(routes_agents::agent_list_limit(Some(1000)), 1000);
    assert_eq!(routes_agents::agent_list_limit(Some(5000)), 1000);
}

#[test]
fn normalize_path_keeps_segments() {
    let p = "/api//12/550e8400-e29b-41d4-a716-446655440000/x/";
    let n = normalize_path(p);
    assert_eq!(n, "/api//:id/:uuid/x/");
    assert_eq!(n.split('/').count(), p.split('/').count());
}
