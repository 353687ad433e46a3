use meow::geodata::{
    parse_geodata, resolve_url, unsupported_keys, GeoDataConfig, GeoDataError, RawGeoDataConfig,
    RawGeoXUrl, DEFAULT_ASN_URL, DEFAULT_GEOSITE_URL, DEFAULT_MMDB_URL,
};
use meow::path::UnixPath;

fn raw_defaults() -> RawGeoDataConfig {
    RawGeoDataConfig::default()
}

fn text(path: Option<UnixPath>) -> String {
    String::from_utf8(path.unwrap().bytes).unwrap()
}

#[test]
fn absent_block_returns_defaults() {
    let cfg = parse_geodata(None, None).unwrap();
    assert!(!cfg.auto_update);
    assert_eq!(cfg.auto_update_interval, 24);
    assert!(cfg.mmdb_path.is_none());
    assert!(cfg.asn_path.is_none());
    assert!(cfg.geosite_path.is_none());
    assert!(cfg.geo_ip_url.is_none());
    assert!(cfg.mmdb_url.contains("geoip.metadb"));
    assert!(cfg.asn_url.contains("GeoLite2-ASN"));
    assert!(cfg.geosite_url.contains("geosite.dat"));
}

#[test]
fn explicit_paths_override_discovery() {
    let raw = RawGeoDataConfig {
        mmdb_path: Some("/custom/Country.mmdb".to_string()),
        asn_path: Some("/custom/ASN.mmdb".to_string()),
        geosite_path: Some("/custom/geosite.mrs".to_string()),
        ..raw_defaults()
    };
    let cfg = parse_geodata(Some(&raw), None).unwrap();
    assert_eq!(text(cfg.mmdb_path), "/custom/Country.mmdb");
    assert_eq!(text(cfg.asn_path), "/custom/ASN.mmdb");
    assert_eq!(text(cfg.geosite_path), "/custom/geosite.mrs");
}

#[test]
fn geox_url_overrides_defaults() {
    let gx = RawGeoXUrl {
        mmdb: Some("https://example.com/geoip.metadb".to_string()),
        geosite: Some("https://example.com/geosite.mrs".to_string()),
        ..Default::default()
    };
    let cfg = parse_geodata(None, Some(&gx)).unwrap();
    assert_eq!(cfg.mmdb_url, "https://example.com/geoip.metadb");
    assert!(cfg.asn_url.contains("GeoLite2-ASN")); // default preserved
    assert_eq!(cfg.geosite_url, "https://example.com/geosite.mrs");
}

#[test]
fn interval_zero_is_hard_error() {
    let raw = RawGeoDataConfig {
        auto_update_interval: Some(0),
        ..raw_defaults()
    };
    let err = parse_geodata(Some(&raw), None).unwrap_err();
    let text = err.to_string();
    assert!(
        text.contains("at least 1 hour"),
        "error should mention minimum interval: {text}"
    );
}

#[test]
fn absent_interval_defaults_to_24() {
    let raw = RawGeoDataConfig {
        auto_update: true,
        auto_update_interval: None,
        ..raw_defaults()
    };
    let cfg = parse_geodata(Some(&raw), None).unwrap();
    assert_eq!(cfg.auto_update_interval, 24);
}

#[test]
fn upstream_only_fields_do_not_error() {
    // geodata-mode, geodata-loader, geoip-matcher accepted without error.
    let raw = RawGeoDataConfig {
        geodata_mode: Some(serde_yaml::Value::String("memconservative".to_string())),
        geodata_loader: Some(serde_yaml::Value::String("standard".to_string())),
        geoip_matcher: Some(serde_yaml::Value::String("succinct".to_string())),
        ..raw_defaults()
    };
    // Must not error, only be warned about.
    parse_geodata(Some(&raw), None).unwrap();
}

#[test]
fn geox_url_alone_provides_defaults() {
    // When geodata block is absent but geox-url is present.
    let gx = RawGeoXUrl {
        mmdb: Some("https://custom/mmdb".to_string()),
        ..Default::default()
    };
    let cfg = parse_geodata(None, Some(&gx)).unwrap();
    assert_eq!(cfg.mmdb_url, "https://custom/mmdb");
    assert!(cfg.asn_url.contains("GeoLite2-ASN")); // default
    assert!(cfg.geosite_url.contains("geosite.dat")); // default
    assert!(cfg.geo_ip_url.is_none());
}

#[test]
fn geox_url_geoip_field_stored() {
    let gx = RawGeoXUrl {
        geo_ip: Some("https://example/geoip.dat".to_string()),
        ..Default::default()
    };
    let cfg = parse_geodata(None, Some(&gx)).unwrap();
    assert_eq!(cfg.geo_ip_url.as_deref(), Some("https://example/geoip.dat"));
}

#[test]
fn absent_blocks_settle_the_defaults() {
    assert_eq!(parse_geodata(None, None), Ok(GeoDataConfig::default()));
    assert_eq!(GeoDataConfig::default().mmdb_url, DEFAULT_MMDB_URL);
    assert_eq!(GeoDataConfig::default().asn_url, DEFAULT_ASN_URL);
    assert_eq!(GeoDataConfig::default().geosite_url, DEFAULT_GEOSITE_URL);
    assert_eq!(
        parse_geodata(Some(&raw_defaults()), Some(&RawGeoXUrl::default())),
        Ok(GeoDataConfig::default())
    );
}

#[test]
fn both_blocks_are_settled_together() {
    let raw = RawGeoDataConfig {
        asn_path: Some("asn".to_string()),
        auto_update: true,
        auto_update_interval: Some(7),
        ..raw_defaults()
    };
    let gx = RawGeoXUrl {
        geo_ip: Some("ip".to_string()),
        asn: Some("as".to_string()),
        ..Default::default()
    };
    let expected = GeoDataConfig {
        asn_path: Some(UnixPath::from_text("asn")),
        auto_update: true,
        auto_update_interval: 7,
        geo_ip_url: Some("ip".to_string()),
        asn_url: "as".to_string(),
        ..GeoDataConfig::default()
    };
    assert_eq!(parse_geodata(Some(&raw), Some(&gx)), Ok(expected));
}

#[test]
fn accepted_interval_is_positive() {
    for (given, settled) in [
        (None, Ok(24)),
        (Some(0), Err(GeoDataError::ZeroInterval)),
        (Some(1), Ok(1)),
        (Some(u32::MAX), Ok(u32::MAX)),
    ] {
        let raw = RawGeoDataConfig {
            auto_update_interval: given,
            ..raw_defaults()
        };
        let interval = parse_geodata(Some(&raw), None).map(|cfg| cfg.auto_update_interval);
        assert_eq!(interval, settled);
    }
}

#[test]
fn ignored_keys_are_named_and_ignored() {
    let raw = RawGeoDataConfig {
        geodata_mode: Some(serde_yaml::Value::Bool(true)),
        geoip_matcher: Some(serde_yaml::Value::Null),
        ..raw_defaults()
    };
    assert_eq!(unsupported_keys(&raw), vec!["geodata-mode", "geoip-matcher"]);
    assert_eq!(parse_geodata(Some(&raw), None), Ok(GeoDataConfig::default()));
    assert!(unsupported_keys(&raw_defaults()).is_empty());
    let other = RawGeoDataConfig {
        geodata_loader: Some(serde_yaml::Value::Null),
        ..raw_defaults()
    };
    assert_eq!(unsupported_keys(&other), vec!["geodata-loader"]);
}

#[test]
fn error_text_is_exact() {
    assert_eq!(
        GeoDataError::ZeroInterval.to_string(),
        "geodata.auto-update-interval must be at least 1 hour (got 0)"
    );
}

#[test]
fn url_is_resolved() {
    assert_eq!(resolve_url(Some("a"), "b"), "a");
    assert_eq!(resolve_url(None, "b"), "b");
}

#[test]
fn urls_are_those_of_their_block() {
    let raw = RawGeoDataConfig {
        mmdb_path: Some("m".to_string()),
        auto_update: true,
        ..raw_defaults()
    };
    let gx = RawGeoXUrl {
        geosite: Some("site".to_string()),
        ..Default::default()
    };
    for block in [None, Some(&raw)] {
        let cfg = parse_geodata(block, Some(&gx)).unwrap();
        assert_eq!(cfg.geosite_url, "site");
        assert_eq!(cfg.mmdb_url, DEFAULT_MMDB_URL);
        assert_eq!(cfg.geo_ip_url, None);
    }
}
