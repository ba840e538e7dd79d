use mini_dns::blocklist::Blocklist;

#[test]
fn exact_and_wildcard_match() {
    let bl = Blocklist::from_domains(vec![
        "ads.example.com".to_string(),
        "*.tracker.com".to_string(),
    ]);
    assert!(bl.is_blocked("ads.example.com"));
    assert!(bl.is_blocked("sub.tracker.com"));
    assert!(bl.is_blocked("a.b.tracker.com"));
    // Wildcard does not match the apex itself.
    assert!(!bl.is_blocked("tracker.com"));
    // Unrelated names are not blocked.
    assert!(!bl.is_blocked("example.com"));
}

#[test]
fn case_insensitive() {
    let bl = Blocklist::from_domains(vec!["Ads.Example.COM".to_string()]);
    assert!(bl.is_blocked("ads.example.com"));
    assert!(bl.is_blocked("ADS.EXAMPLE.COM"));
}

#[test]
fn empty_blocklist_blocks_nothing() {
    let bl = Blocklist::empty();
    assert!(!bl.is_blocked("anything.com"));
    assert!(!bl.is_active());
}
