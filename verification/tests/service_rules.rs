use chrono::TimeZone;
use korucha_fund::config::{
    config_from_env_values, config_with_url, parse_port, ConfigError, EnvValues, UrlParts,
};
use korucha_fund::quota::{may_issue_card, request_allowance, requests_remaining};
use korucha_fund::schedule::{
    calculate_next_cron_execution, calculate_next_cron_execution_at, next_run_from_clock,
    summarize_next_run,
};

fn jst_timestamp(y: i32, mo: u32, d: u32, h: u32, mi: u32, s: u32) -> i64 {
    chrono::FixedOffset::east_opt(9 * 3600)
        .unwrap()
        .with_ymd_and_hms(y, mo, d, h, mi, s)
        .unwrap()
        .timestamp()
}

#[test]
fn calculates_full_cron_expression_in_jst() {
    let now = jst_timestamp(2026, 8, 24, 22, 30, 0);
    assert_eq!(
        calculate_next_cron_execution_at("0 0 23 * * *", now, 0),
        ("23:00".into(), 30)
    );
}

#[test]
fn respects_day_of_week_constraints() {
    let monday = jst_timestamp(2026, 8, 24, 23, 30, 0);
    assert_eq!(
        calculate_next_cron_execution_at("0 0 23 * * MON", monday, 0),
        ("08月31日 23:00".into(), 10_050)
    );
}

#[test]
fn unknown_patterns_and_partial_minutes() {
    let now = jst_timestamp(2026, 8, 24, 22, 30, 0);
    assert_eq!(calculate_next_cron_execution_at("not a cron", now, 0), ("不明".into(), 0));
    assert_eq!(
        calculate_next_cron_execution_at("0 0 23 * * *", now + 1, 500_000_000),
        ("23:00".into(), 30)
    );
    let (_, minutes) = calculate_next_cron_execution("0 0 23 * * *");
    assert!((0..=1440).contains(&minutes));
}

#[test]
fn quota_allows_requests_at_intervals() {
    let now = 1_800_000_000;
    assert_eq!(request_allowance(15, None, now, 0), (false, 0));
    assert_eq!(request_allowance(0, None, now, 0), (true, 0));
    assert_eq!(request_allowance(3, Some(now - 30 * 60), now, 0), (false, 66));
    assert_eq!(request_allowance(3, Some(now - 96 * 60), now, 0), (true, 0));
    assert_eq!(request_allowance(3, Some(now - 5_759), now, 999_999_999), (false, 1));
    assert_eq!(request_allowance(3, Some(now + 120), now, 0), (false, 98));
    assert_eq!(requests_remaining(0), 15);
    assert_eq!(requests_remaining(4), 11);
    assert_eq!(requests_remaining(20), 0);
}

fn env(base: Option<&str>, port: Option<&str>) -> EnvValues {
    EnvValues {
        admin_user: Some("admin".into()),
        admin_pass: Some("secret".into()),
        public_base_url: base.map(Into::into),
        database_url: Some("sqlite://fund.db".into()),
        port: port.map(Into::into),
        scheduler_cron: None,
    }
}

#[test]
fn settings_from_the_environment() {
    let config = config_from_env_values(&env(None, None)).unwrap();
    assert_eq!(config.public_base_url, "https://fund.korucha.com");
    assert_eq!(config.port, 3000);
    assert_eq!(config.scheduler_cron, "0 0 23 * * *");
    assert_eq!(config.database_url, "sqlite://fund.db");

    let local = config_from_env_values(&env(Some("http://localhost:8080/"), Some("+80"))).unwrap();
    assert_eq!(local.public_base_url, "http://localhost:8080");
    assert_eq!(local.port, 80);

    assert_eq!(
        config_from_env_values(&env(Some("ftp://example.com"), None)).err(),
        Some(ConfigError::BaseUrlScheme)
    );
    assert_eq!(
        config_from_env_values(&env(Some("https://example.com/app"), None)).err(),
        Some(ConfigError::BaseUrlNotOrigin)
    );
    assert_eq!(
        config_from_env_values(&env(Some("https://user@example.com"), None)).err(),
        Some(ConfigError::BaseUrlNotOrigin)
    );
    assert_eq!(
        config_from_env_values(&env(Some("not a url"), None)).err(),
        Some(ConfigError::BaseUrlInvalid)
    );
    assert_eq!(
        config_from_env_values(&env(None, Some("70000"))).err(),
        Some(ConfigError::PortInvalid)
    );
    let mut missing = env(None, None);
    missing.admin_pass = None;
    assert_eq!(config_from_env_values(&missing).err(), Some(ConfigError::AdminPassMissing));
    let mut empty = env(None, None);
    empty.admin_user = Some(String::new());
    assert_eq!(config_from_env_values(&empty).err(), Some(ConfigError::AdminUserEmpty));
    let mut no_db = env(None, None);
    no_db.database_url = None;
    assert_eq!(config_from_env_values(&no_db).err(), Some(ConfigError::DatabaseUrlMissing));
}

#[test]
fn ports_parse_like_u16() {
    assert_eq!(parse_port("3000"), Some(3000));
    assert_eq!(parse_port("+65535"), Some(65535));
    assert_eq!(parse_port("65536"), None);
    assert_eq!(parse_port("007"), Some(7));
    assert_eq!(parse_port("+"), None);
    assert_eq!(parse_port(""), None);
    assert_eq!(parse_port("-1"), None);
    assert_eq!(parse_port("80a"), None);
    assert_eq!(parse_port("99999999999999999999"), None);
}

#[test]
fn share_cards_are_spaced() {
    assert!(may_issue_card(None));
    assert!(!may_issue_card(Some(0)));
    assert!(!may_issue_card(Some(1_999)));
    assert!(may_issue_card(Some(2_000)));
    assert!(may_issue_card(Some(u64::MAX)));
}

#[test]
fn no_request_within_the_interval() {
    let last = 1_800_000_000;
    for elapsed in [0, 60, 5_699, 5_759] {
        let (allowed, minutes) = request_allowance(0, Some(last), last + elapsed, 999_999_999);
        assert!(!allowed);
        assert!((1..=96).contains(&minutes));
    }
    assert_eq!(request_allowance(14, Some(last), last + 5_760, 0), (true, 0));
    assert_eq!(request_allowance(15, Some(last), last + 100_000, 0), (false, 0));
}

#[test]
fn summaries_from_given_occurrences() {
    let now = jst_timestamp(2026, 8, 24, 22, 30, 0);
    assert_eq!(summarize_next_run(None, now, 0), ("不明".into(), 0));
    let next = jst_timestamp(2026, 8, 24, 23, 0, 0);
    assert_eq!(summarize_next_run(Some((next, 0, 8, 24)), now, 0), ("23:00".into(), 30));
    let later = jst_timestamp(2026, 8, 31, 23, 0, 0);
    assert_eq!(summarize_next_run(Some((later, 0, 8, 31)), now, 0), ("08月31日 23:00".into(), 10_110));
    assert_eq!(summarize_next_run(Some((now - 61, 0, 8, 24)), now, 0), ("22:28".into(), 0));
    assert_eq!(
        next_run_from_clock("0 0 23 * * *", Some((now as u64, 0))),
        ("23:00".into(), 30)
    );
    assert_eq!(next_run_from_clock("0 0 23 * * *", None), ("不明".into(), 0));
    assert_eq!(next_run_from_clock("0 0 23 * * *", Some((u64::MAX, 0))), ("不明".into(), 0));
}

#[test]
fn settings_from_given_url_parts() {
    let parts = |path: &str| UrlParts {
        scheme: "https".into(),
        host: Some("example.com".into()),
        username: String::new(),
        password: None,
        path: path.into(),
        query: None,
        fragment: None,
        origin: "https://example.com".into(),
    };
    let c = config_with_url(&env(None, None), Some(parts("/"))).unwrap();
    assert_eq!(c.public_base_url, "https://example.com");
    assert_eq!(c.port, 3000);
    assert_eq!(config_with_url(&env(None, None), None).err(), Some(ConfigError::BaseUrlInvalid));
    assert_eq!(
        config_with_url(&env(None, None), Some(parts("/app"))).err(),
        Some(ConfigError::BaseUrlNotOrigin)
    );
}
