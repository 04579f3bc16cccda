use web_blocker::domain::{get_domain_variants, validate_url};
use web_blocker::hosts::{probe_grants_permission, process_hosts_file};
use web_blocker::ops::parse_duration;
use web_blocker::store::BlockedSites;
use web_blocker::ValidationError;

#[test]
fn validate_bare_domain() {
    assert_eq!(validate_url("example.com"), Ok("example.com".to_string()));
}

#[test]
fn validate_http_domain() {
    assert_eq!(validate_url("http://example.com"), Ok("example.com".to_string()));
}

#[test]
fn validate_https_www_domain() {
    assert_eq!(
        validate_url("https://www.example.com"),
        Ok("example.com".to_string())
    );
}

#[test]
fn validate_trims_whitespace() {
    assert_eq!(validate_url("  example.com  "), Ok("example.com".to_string()));
}

#[test]
fn validate_lowercases_host() {
    assert_eq!(validate_url("EXAMPLE.com"), Ok("example.com".to_string()));
}

#[test]
fn validate_keeps_path_out_of_host() {
    assert_eq!(
        validate_url("https://www.example.com/some/page?q=1"),
        Ok("example.com".to_string())
    );
}

#[test]
fn validate_rejects_space_in_host() {
    assert_eq!(validate_url("exa mple.com"), Err(ValidationError::InvalidFormat));
}

#[test]
fn expand_returns_sorted_variants() {
    let v = get_domain_variants("example.com");
    assert_eq!(
        v,
        vec![
            "app.example.com".to_string(),
            "example.com".to_string(),
            "m.example.com".to_string(),
            "www.example.com".to_string(),
        ]
    );
}

#[test]
fn expand_of_z_domain_puts_bare_last() {
    let v = get_domain_variants("zebra.org");
    assert_eq!(
        v,
        vec![
            "app.zebra.org".to_string(),
            "m.zebra.org".to_string(),
            "www.zebra.org".to_string(),
            "zebra.org".to_string(),
        ]
    );
}

#[test]
fn duration_seconds() {
    assert_eq!(parse_duration("45s"), Some(45));
    assert_eq!(parse_duration("10m"), Some(600));
    assert_eq!(parse_duration("3h"), Some(10800));
    assert_eq!(parse_duration("2d"), Some(172800));
}

#[test]
fn duration_trims_and_accepts_upper_case() {
    assert_eq!(parse_duration(" 10M "), Some(600));
}

#[test]
fn duration_rejects_bad_text() {
    assert_eq!(parse_duration(""), None);
    assert_eq!(parse_duration("10"), None);
    assert_eq!(parse_duration("m"), None);
    assert_eq!(parse_duration("xym"), None);
    assert_eq!(parse_duration("10x"), None);
}

#[test]
fn store_round_trip_keeps_added_domain() {
    let mut s = BlockedSites::default();
    s.add_permanent("example.com");
    s.add_permanent("other.net");
    s.add_timed("timed.org", Some(12345));
    let text = s.serialize_blocked_sites();
    let back = web_blocker::codec::deserialize_blocked_sites(text.as_str());
    assert_eq!(back.permanent_sites, vec!["example.com".to_string(), "other.net".to_string()]);
    assert_eq!(back.timed_sites.len(), 1);
    assert_eq!(back.timed_sites[0].domain, "timed.org".to_string());
    assert_eq!(back.timed_sites[0].expiry, Some(12345));
    assert_eq!(back.is_blocking_enabled, false);
}

#[test]
fn store_round_trip_keeps_switch_and_big_expiry() {
    let mut s = BlockedSites::default();
    s.is_blocking_enabled = true;
    s.add_timed("a.com", Some(u64::MAX));
    let text = s.serialize_blocked_sites();
    let back = web_blocker::codec::deserialize_blocked_sites(text.as_str());
    assert!(back.is_blocking_enabled);
    assert_eq!(back.timed_sites[0].expiry, Some(u64::MAX));
}

#[test]
fn deserialize_of_garbage_is_empty_disabled() {
    let s = web_blocker::codec::deserialize_blocked_sites("not a store at all");
    assert!(s.permanent_sites.is_empty());
    assert!(s.timed_sites.is_empty());
    assert!(!s.is_blocking_enabled);
}

#[test]
fn deserialize_rejects_duplicate_domains() {
    let s = web_blocker::codec::deserialize_blocked_sites("enabled 1\nperm a.com\nperm a.com");
    assert!(s.permanent_sites.is_empty());
    assert!(!s.is_blocking_enabled);
}

#[test]
fn sweep_removes_exactly_expired() {
    let mut s = BlockedSites::default();
    s.add_timed("early.com", Some(5));
    s.add_timed("late.com", Some(10));
    s.add_timed("edge.com", Some(7));
    s.timed_sites.push(web_blocker::store::TimedSite {
        domain: "forever.com".to_string(),
        expiry: None,
    });
    s.clean_expired_sites(7);
    let left: Vec<String> = s.timed_sites.iter().map(|t| t.domain.clone()).collect();
    assert_eq!(left, vec!["late.com".to_string(), "forever.com".to_string()]);
}

#[test]
fn add_timed_without_expiry_becomes_permanent() {
    let mut s = BlockedSites::default();
    s.add_timed("x.com", None);
    assert_eq!(s.permanent_sites, vec!["x.com".to_string()]);
    assert!(s.timed_sites.is_empty());
}

#[test]
fn later_add_wins_across_collections() {
    let mut s = BlockedSites::default();
    s.add_permanent("x.com");
    s.add_timed("x.com", Some(99));
    assert!(s.permanent_sites.is_empty());
    assert_eq!(s.timed_sites.len(), 1);
    s.add_permanent("x.com");
    assert_eq!(s.permanent_sites, vec!["x.com".to_string()]);
    assert!(s.timed_sites.is_empty());
}

#[test]
fn remove_site_clears_both_collections() {
    let mut s = BlockedSites::default();
    s.add_permanent("a.com");
    s.add_timed("b.com", Some(5));
    assert!(s.remove_site("a.com"));
    assert!(s.remove_site("b.com"));
    assert!(!s.remove_site("c.com"));
    assert!(s.permanent_sites.is_empty());
    assert!(s.timed_sites.is_empty());
}

fn managed_region_lines(content: &str) -> Vec<String> {
    let lines: Vec<&str> = content.split('\n').collect();
    let start = lines
        .iter()
        .position(|l| *l == "# Website Blocker - Start")
        .expect("start marker");
    let end = lines
        .iter()
        .position(|l| *l == "# Website Blocker - End")
        .expect("end marker");
    lines[start + 1..end].iter().map(|l| l.to_string()).collect()
}

#[test]
fn enabling_with_two_domains_writes_sixteen_lines() {
    let mut s = BlockedSites::default();
    s.add_permanent("one.com");
    s.add_permanent("two.com");
    assert!(!s.is_blocking_enabled);
    let hosts = "127.0.0.1 localhost\n::1 localhost";
    let (saved, new_hosts) = s.toggle_blocking(hosts, 1000, true).expect("allowed");
    assert!(s.is_blocking_enabled);
    assert!(saved.contains("one.com"));
    let region = managed_region_lines(new_hosts.as_str());
    assert_eq!(region.len(), 16);
    assert!(region.contains(&"127.0.0.1 one.com".to_string()));
    assert!(region.contains(&"::1 app.two.com".to_string()));
    assert!(new_hosts.contains("127.0.0.1 localhost"));
}

#[test]
fn disabling_cleans_all_block_lines_and_markers() {
    let mut s = BlockedSites::default();
    s.add_permanent("one.com");
    s.is_blocking_enabled = true;
    let hosts = "127.0.0.1 localhost\n\n# Website Blocker - Start\n127.0.0.1 one.com\n::1 one.com\n127.0.0.1 www.one.com\n# Website Blocker - End";
    let (_saved, new_hosts) = s.toggle_blocking(hosts, 1000, true).expect("allowed");
    assert!(!s.is_blocking_enabled);
    assert!(!new_hosts.contains("# Website Blocker"));
    assert!(!new_hosts.contains("one.com"));
    assert!(new_hosts.contains("127.0.0.1 localhost"));
}

#[test]
fn denied_permission_changes_nothing() {
    let mut s = BlockedSites::default();
    s.add_permanent("keep.com");
    let before_perm = s.permanent_sites.clone();
    let before_enabled = s.is_blocking_enabled;
    let r = s.save_and_update_hosts("127.0.0.1 localhost", 10, false);
    assert_eq!(r, Err(web_blocker::SyncError::PermissionDenied));
    let r2 = s.toggle_blocking("127.0.0.1 localhost", 10, false);
    assert_eq!(r2, Err(web_blocker::SyncError::PermissionDenied));
    assert_eq!(s.permanent_sites, before_perm);
    assert_eq!(s.is_blocking_enabled, before_enabled);
}

#[test]
fn sync_sweeps_expired_before_writing() {
    let mut s = BlockedSites::default();
    s.is_blocking_enabled = true;
    s.add_timed("gone.com", Some(5));
    s.add_timed("still.com", Some(50));
    let (_saved, new_hosts) = s.save_and_update_hosts("", 10, true).expect("allowed");
    assert_eq!(s.timed_sites.len(), 1);
    assert!(!new_hosts.contains("gone.com"));
    assert!(new_hosts.contains("127.0.0.1 still.com"));
}

#[test]
fn startup_without_sentinel_is_refused() {
    let r = process_hosts_file("127.0.0.1 localhost\nsome other line");
    assert_eq!(r, Err(web_blocker::NormalizeError::DnsMarkerNotFound));
}

#[test]
fn startup_truncates_between_sentinel_and_region() {
    let content = "head\n# localhost name resolution is handled within DNS itself.\nuser junk 1\nuser junk 2\n# Website Blocker - Start\n127.0.0.1 x.com\n# Website Blocker - End";
    let out = process_hosts_file(content).expect("sentinel present");
    assert_eq!(
        out,
        "head\n# localhost name resolution is handled within DNS itself.\n# Website Blocker - Start\n127.0.0.1 x.com\n# Website Blocker - End"
    );
}

#[test]
fn startup_without_region_keeps_prefix_only() {
    let content = "head\n# localhost name resolution is handled within DNS itself.\ntrailing junk";
    let out = process_hosts_file(content).expect("sentinel present");
    assert_eq!(
        out,
        "head\n# localhost name resolution is handled within DNS itself.\n"
    );
}

#[test]
fn probe_output_decides_permission() {
    assert!(probe_grants_permission("0\n", false));
    assert!(!probe_grants_permission("1000\n", false));
    assert!(probe_grants_permission(
        "Privilege Name: SeTakeOwnershipPrivilege Enabled",
        true
    ));
    assert!(!probe_grants_permission("no privileges here", true));
}

#[test]
fn add_site_with_duration_blocks_until_expiry() {
    let mut s = BlockedSites::default();
    let r = s.add_site("https://www.example.com", "10m", 100);
    assert_eq!(r, Ok("example.com".to_string()));
    assert_eq!(s.timed_sites.len(), 1);
    assert_eq!(s.timed_sites[0].domain, "example.com".to_string());
    assert_eq!(s.timed_sites[0].expiry, Some(700));
    assert!(s.permanent_sites.is_empty());
}

#[test]
fn add_site_without_duration_blocks_permanently() {
    let mut s = BlockedSites::default();
    let r = s.add_site("example.com", "", 100);
    assert_eq!(r, Ok("example.com".to_string()));
    assert_eq!(s.permanent_sites, vec!["example.com".to_string()]);
    assert!(s.timed_sites.is_empty());
}

#[test]
fn add_site_reports_invalid_input() {
    let mut s = BlockedSites::default();
    let r = s.add_site("bad host!", "1h", 0);
    assert_eq!(r, Err(ValidationError::InvalidFormat));
    assert!(s.permanent_sites.is_empty());
    assert!(s.timed_sites.is_empty());
}
