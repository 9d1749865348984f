use korucha_fund::format::{
    composition_full_name, composition_label, decimal_string, group_thousands, share_id,
    ticker_image_name, ticker_title_name, truncate_name, xml_escape,
};
use korucha_fund::pages::{
    retry_card_id, ticker_history_needs_backfill, CreateShareResponse, CreateTickerShareResponse, MutationError, RefreshOutcome, SearchHit, Symbol,
    find_symbol, pick_display_name, symbol_names,
};
use korucha_fund::quota::api_status_message;
use korucha_fund::web::{
    check_credentials, credentials_in_decoded, parse_console_command, security_headers, write_origin_allowed, AppError,
    ConsoleCommand,
};

#[test]
fn basic_credentials() {
    let ok = Some("Basic YWRtaW46c2VjcmV0");
    assert!(check_credentials(ok, "admin", "secret"));
    assert!(check_credentials(Some("Basic  YWRtaW46c2VjcmV0 "), "admin", "secret"));
    assert!(!check_credentials(ok, "admin", "other"));
    assert!(!check_credentials(Some("basic YWRtaW46c2VjcmV0"), "admin", "secret"));
    assert!(!check_credentials(Some("Basic not-base64!"), "admin", "secret"));
    assert!(!check_credentials(Some("Basic /zo="), "admin", "secret"));
    assert!(!check_credentials(None, "admin", "secret"));
    assert!(check_credentials(Some("Basic YWRtaW46c2U6Y3JldA=="), "admin", "se:cret"));
}

#[test]
fn writes_need_the_own_origin() {
    let base = "https://fund.korucha.com";
    assert!(write_origin_allowed("GET", Some("cross-site"), Some("https://evil.example"), base));
    assert!(write_origin_allowed("POST", Some("same-origin"), Some("https://fund.korucha.com/"), base));
    assert!(write_origin_allowed("POST", Some("none"), None, base));
    assert!(!write_origin_allowed("POST", Some("cross-site"), None, base));
    assert!(!write_origin_allowed("DELETE", None, Some("https://evil.example"), base));
    assert!(write_origin_allowed("DELETE", None, None, base));
}

#[test]
fn security_headers_by_path_and_scheme() {
    let secure = security_headers("/static/app.css", "https://fund.korucha.com");
    assert_eq!(secure.len(), 8);
    assert_eq!(secure[0], ("x-content-type-options".to_string(), "nosniff".to_string()));
    assert_eq!(secure[6].0, "strict-transport-security");
    assert_eq!(secure[7], ("cache-control".to_string(), "public, max-age=3600".to_string()));
    let plain = security_headers("/", "http://localhost:3000");
    assert_eq!(plain.len(), 6);
    assert_eq!(plain[5], ("cross-origin-opener-policy".to_string(), "same-origin".to_string()));
}

#[test]
fn console_commands() {
    assert_eq!(parse_console_command("  "), ConsoleCommand::Blank);
    assert_eq!(parse_console_command("help\n"), ConsoleCommand::Help);
    assert_eq!(parse_console_command(" backfill "), ConsoleCommand::Backfill);
    assert_eq!(parse_console_command("exit"), ConsoleCommand::Quit);
    assert_eq!(parse_console_command("quit"), ConsoleCommand::Quit);
    assert_eq!(parse_console_command(" restart "), ConsoleCommand::Unknown("restart".into()));
}

#[test]
fn error_statuses() {
    assert_eq!(AppError::NotFound.status_code(), 404);
    assert_eq!(AppError::MethodNotAllowed.status_code(), 405);
    assert_eq!(AppError::Unauthorized.status_code(), 401);
    assert_eq!(AppError::Database("x".into()).status_code(), 500);
    assert_eq!(AppError::Other("y".into()).status_code(), 500);
}

#[test]
fn numbers_and_names_for_display() {
    assert_eq!(group_thousands("1234567"), "1,234,567");
    assert_eq!(group_thousands("-1234"), "-1,234");
    assert_eq!(group_thousands("999"), "999");
    assert_eq!(group_thousands("-100"), "-100");
    assert_eq!(group_thousands("0"), "0");
    assert_eq!(group_thousands("100000"), "100,000");
    assert_eq!(decimal_string(0), "0");
    assert_eq!(decimal_string(10_050), "10050");
    assert_eq!(xml_escape("A&B <\"x\">"), "A&amp;B &lt;&quot;x&quot;&gt;");
    assert_eq!(truncate_name("Toyota Motor Corporation"), "Toyota Motor…");
    assert_eq!(truncate_name("トヨタ自動車"), "トヨタ自動車");
    assert_eq!(composition_label("7203.T", "Toyota Motor Corporation"), "7203.T Toyota Motor…");
    assert_eq!(composition_label("AAPL", ""), "AAPL");
    assert_eq!(composition_full_name("AAPL", ""), "AAPL");
    assert_eq!(composition_full_name("AAPL", "Apple Inc."), "Apple Inc.");
    assert_eq!(ticker_title_name("Apple Inc.", "AAPL"), "Apple Inc. (AAPL)");
    assert_eq!(ticker_title_name("", "AAPL"), "AAPL");
    assert_eq!(ticker_image_name("A&W", "AW<"), "A&amp;W (AW&lt;)");
    assert_eq!(share_id(0x1a2b, 0x12345), "1396e");
    assert_eq!(share_id(0, 5), "5");
    assert_eq!(share_id(0, 0), "0");
    assert_eq!(share_id(u64::MAX, 0xffff), "ffffffffffff0000");
}

#[test]
fn page_data() {
    let r = CreateShareResponse::for_card("abc".into());
    assert_eq!((r.id.as_str(), r.url.as_str()), ("abc", "/share/abc"));
    let t = CreateTickerShareResponse::for_card("def".into());
    assert_eq!(t.url, "/ticker/def");
    let rows = vec![
        Symbol { symbol: "AAPL".into(), name: Some("Apple".into()), currency: "USD".into(), exchange: None },
        Symbol { symbol: "7203.T".into(), name: None, currency: "JPY".into(), exchange: None },
    ];
    assert_eq!(symbol_names(&rows), vec![("AAPL".to_string(), "Apple".to_string())]);
    assert_eq!(find_symbol(&rows, "7203.T"), Some(1));
    assert_eq!(find_symbol(&rows, "MSFT"), None);
    let o = RefreshOutcome::from_update(Some((true, true)), 14);
    assert!(o.updated_from_api && o.external_update_attempted);
    let o = RefreshOutcome::from_update(Some((false, true)), 14);
    assert!(!o.updated_from_api && o.external_update_attempted);
    let o = RefreshOutcome::from_update(None, 15);
    assert!(!o.updated_from_api && !o.external_update_attempted);
    assert_eq!(o.remaining_api_requests, 15);
}

#[test]
fn names_from_search_hits() {
    let hit = |s: &str, l: &str, sh: &str| SearchHit {
        symbol: s.into(),
        long_name: l.into(),
        short_name: sh.into(),
    };
    let hits = vec![
        hit("7203.T", "", "TOYOTA MOTOR"),
        hit("TM", "Toyota Motor Corporation", "Toyota"),
    ];
    assert_eq!(pick_display_name(&hits, "TM"), Some("Toyota Motor Corporation".into()));
    assert_eq!(pick_display_name(&hits, "7203.T"), Some("TOYOTA MOTOR".into()));
    assert_eq!(pick_display_name(&hits, "XYZ"), Some("TOYOTA MOTOR".into()));
    assert_eq!(pick_display_name(&vec![hit("A", "", "")], "A"), None);
    assert_eq!(pick_display_name(&vec![], "A"), None);
}

#[test]
fn quota_messages_and_mutation_statuses() {
    assert_eq!(api_status_message(true, 30), "外部APIリクエスト可能");
    assert_eq!(api_status_message(false, 42), "次回リクエストまで 42 分待機中");
    assert_eq!(api_status_message(false, 0), "本日のリクエスト上限に達しました");
    assert_eq!(MutationError::InvalidLedger("x".into()).status_on_create(), 400);
    assert_eq!(MutationError::InvalidLedger("x".into()).status_on_delete(), 409);
    assert_eq!(MutationError::NotFound.status_on_delete(), 404);
    assert_eq!(MutationError::Database("db".into()).status_on_create(), 500);
}

#[test]
fn escaping_splits_and_reads_back() {
    let a = "AT&T <b>";
    let b = "\"x\" & y";
    assert_eq!(xml_escape(&format!("{a}{b}")), xml_escape(a) + &xml_escape(b));
    let r = xml_escape(&format!("{a}{b}"));
    assert_eq!(r, "AT&amp;T &lt;b&gt;&quot;x&quot; &amp; y");
    let back = r.replace("&lt;", "<").replace("&gt;", ">").replace("&quot;", "\"").replace("&amp;", "&");
    assert_eq!(back, format!("{a}{b}"));
    assert_eq!(xml_escape("plain text 123"), "plain text 123");
}

#[test]
fn card_retries_and_ticker_backfill() {
    assert!(retry_card_id(1));
    assert!(retry_card_id(2));
    assert!(!retry_card_id(3));
    assert!(ticker_history_needs_backfill(0));
    assert!(ticker_history_needs_backfill(4));
    assert!(!ticker_history_needs_backfill(5));
}

#[test]
fn credentials_from_decoded_bytes() {
    assert!(credentials_in_decoded(Some(b"admin:secret"), "admin", "secret"));
    assert!(credentials_in_decoded(Some(b"admin:se:cret"), "admin", "se:cret"));
    assert!(!credentials_in_decoded(Some(b"admin:secret"), "admin", "other"));
    assert!(!credentials_in_decoded(Some(b"adminsecret"), "admin", "secret"));
    assert!(!credentials_in_decoded(Some(&[0xff, b':']), "", ""));
    assert!(!credentials_in_decoded(None, "admin", "secret"));
}
