use gov::catalog;
use gov::catalog::Value;
use gov::duration::Duration;
use gov::sql::{fmt_ratelimits_block, Expr, Literal, PermissionKind, RateLimit};

#[test]
fn scan_period_falls_back_to_limit_period_when_absent() {
    let ratelimit = RateLimit {
        actions: vec![PermissionKind::Select],
        condition: None,
        bucket: Expr::Literal(Literal::String("bucket".into())),
        limit: 10,
        period: Duration::from_secs(60),
        burst: None,
        scan: Some(100),
        scan_period: None,
        result: None,
    };

    assert_eq!(
        ratelimit.to_sql(),
        "RATELIMIT FOR SELECT BY 'bucket' LIMIT 10 PER 1m SCAN 100 PER 1m"
    );
}

fn full() -> RateLimit {
    RateLimit {
        actions: vec![PermissionKind::Create, PermissionKind::Update],
        condition: Some(Expr::Inline("$auth != NONE".into())),
        bucket: Expr::Statement("SELECT id FROM ONLY $auth".into()),
        limit: 1000,
        period: Duration::from_secs(3600),
        burst: Some(2000),
        scan: Some(7),
        scan_period: Some(Duration::from_parts(90_061, 1_002_003).unwrap()),
        result: Some(50),
    }
}

#[test]
fn every_part_of_a_clause_is_written() {
    assert_eq!(
        full().to_sql(),
        "RATELIMIT FOR CREATE, UPDATE WHERE $auth != NONE BY (SELECT id FROM ONLY $auth) \
         LIMIT 1000 PER 1h MAX 2000 SCAN 7 PER 1d1h1m1s1ms2\u{b5}s3ns RESULT 50"
    );
}

#[test]
fn a_bare_scan_quota_has_no_key() {
    let mut ratelimit = full();
    ratelimit.actions = vec![];
    assert_eq!(ratelimit.to_sql(), "RATELIMIT FOR SCAN 7 PER 1d1h1m1s1ms2\u{b5}s3ns");
    ratelimit.scan = None;
    assert_eq!(ratelimit.to_sql(), "RATELIMIT FOR ");
}

#[test]
fn blocks_join_clauses() {
    let mut out = "DEFINE TABLE post ".to_string();
    fmt_ratelimits_block(&mut out, &[]);
    assert_eq!(out, "DEFINE TABLE post ");
    let mut second = full();
    second.actions = vec![PermissionKind::Delete];
    second.condition = None;
    second.bucket = Expr::Literal(Literal::String("it's a \\".into()));
    second.burst = None;
    second.scan = None;
    second.result = None;
    fmt_ratelimits_block(&mut out, &[full(), second]);
    assert_eq!(
        out,
        format!(
            "DEFINE TABLE post {}, FOR DELETE BY 'it\\'s a \\\\' LIMIT 1000 PER 1h",
            full().to_sql()
        )
    );
    let mut one = String::new();
    fmt_ratelimits_block(&mut one, &[full()]);
    assert_eq!(one, full().to_sql());
}

#[test]
fn spans_are_written_in_units() {
    for (secs, nanos, text) in [
        (0, 0, "0ns"),
        (31_536_000 + 604_800 + 2 * 86_400, 0, "1y1w2d"),
        (59, 999_000_000, "59s999ms"),
        (u64::MAX, 0, "584942417355y3w5d7h15s"),
    ] {
        let mut ratelimit = full();
        ratelimit.actions = vec![];
        ratelimit.scan_period = Duration::from_parts(secs, nanos);
        assert_eq!(ratelimit.to_sql(), format!("RATELIMIT FOR SCAN 7 PER {text}"));
    }
}

#[test]
fn definitions_go_to_the_catalog_and_back() {
    let stored = catalog::RateLimit::from(full());
    assert_eq!(stored.to_sql_definition(), full());
    let mut out = String::new();
    stored.fmt_sql(&mut out);
    assert_eq!(out, full().to_sql());
    assert_eq!(RateLimit::from(stored.clone()), full());
    assert_eq!(catalog::RateLimit::from(full().clone()), stored);
}

#[test]
fn definitions_are_described_by_key() {
    let described = catalog::RateLimit::from(full()).structure();
    assert_eq!(
        described,
        vec![
            ("actions", Value::Strands(vec!["create".into(), "update".into()])),
            ("burst", Value::Number(2000)),
            ("by", Value::Strand("SELECT id FROM ONLY $auth".into())),
            ("condition", Value::Strand("$auth != NONE".into())),
            ("limit", Value::Number(1000)),
            ("period", Value::Duration(Duration::from_secs(3600))),
            ("result", Value::Number(50)),
            ("scan", Value::Number(7)),
        ]
    );
    let bare = RateLimit {
        actions: vec![PermissionKind::Select],
        condition: None,
        bucket: Expr::Literal(Literal::String("k".into())),
        limit: 1,
        period: Duration::from_secs(1),
        burst: None,
        scan: None,
        scan_period: None,
        result: None,
    };
    let keys: Vec<&str> =
        catalog::RateLimit::from(bare).structure().into_iter().map(|(key, _)| key).collect();
    assert_eq!(keys, vec!["actions", "by", "limit", "period"]);
}
