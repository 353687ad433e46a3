use meow::hysteria2::{BandwidthConfig, Config, NegotiatedBandwidth, ServerRecvRate};

#[test]
fn negotiate_fixed_send_rate_against_server_limit() {
    let negotiated = BandwidthConfig {
        recv_bps: 100_000_000,
        send_bps: 30_000_000,
    }
    .negotiate(ServerRecvRate::Limited(20_000_000));

    assert_eq!(negotiated.client_recv_bps, 100_000_000);
    assert_eq!(negotiated.client_send_bps, 30_000_000);
    assert_eq!(negotiated.fixed_send_bps, Some(20_000_000));
}

#[test]
fn negotiate_auto_server_rx_uses_congestion_controller() {
    let negotiated = BandwidthConfig {
        recv_bps: 100_000_000,
        send_bps: 30_000_000,
    }
    .negotiate(ServerRecvRate::Auto);

    assert_eq!(negotiated.fixed_send_bps, None);
}

#[test]
fn negotiation_keeps_what_both_ends_said() {
    let negotiated = BandwidthConfig {
        recv_bps: 5,
        send_bps: 7,
    }
    .negotiate(ServerRecvRate::Unlimited);
    assert_eq!(
        negotiated,
        NegotiatedBandwidth {
            client_recv_bps: 5,
            client_send_bps: 7,
            server_recv: ServerRecvRate::Unlimited,
            fixed_send_bps: Some(7),
        }
    );
}

#[test]
fn fixed_rate_is_within_both_limits() {
    for (send_bps, server, fixed) in [
        (0, ServerRecvRate::Missing, None),
        (0, ServerRecvRate::Auto, None),
        (0, ServerRecvRate::Unlimited, None),
        (0, ServerRecvRate::Limited(9), None),
        (8, ServerRecvRate::Missing, None),
        (8, ServerRecvRate::Auto, None),
        (8, ServerRecvRate::Unlimited, Some(8)),
        (8, ServerRecvRate::Limited(0), Some(0)),
        (8, ServerRecvRate::Limited(7), Some(7)),
        (8, ServerRecvRate::Limited(8), Some(8)),
        (8, ServerRecvRate::Limited(9), Some(8)),
        (u64::MAX, ServerRecvRate::Limited(u64::MAX), Some(u64::MAX)),
    ] {
        let config = BandwidthConfig {
            recv_bps: 1,
            send_bps,
        };
        assert_eq!(config.negotiate(server).fixed_send_bps, fixed);
    }
}

#[test]
fn fixed_rate_grows_with_the_wish() {
    let rate = |send_bps| {
        BandwidthConfig {
            recv_bps: 0,
            send_bps,
        }
        .negotiate(ServerRecvRate::Limited(50))
        .fixed_send_bps
    };
    assert_eq!(rate(10), Some(10));
    assert_eq!(rate(40), Some(40));
    assert_eq!(rate(60), Some(50));
    assert_eq!(rate(70), Some(50));
}

#[test]
fn default_settings_are_empty() {
    let config = Config::default();
    assert_eq!(config.server_addr, "");
    assert_eq!(config.server_name, "");
    assert_eq!(config.auth, "");
    assert!(!config.insecure);
    assert_eq!(
        config.bandwidth,
        BandwidthConfig {
            recv_bps: 0,
            send_bps: 0
        }
    );
    assert_eq!(config.obfs_password, "");
    assert_eq!(config.hop_ports, "");
    assert_eq!(config.hop_interval_min_secs, 0);
    assert_eq!(config.hop_interval_max_secs, 0);
    assert_eq!(config.pin_sha256, "");
    assert!(!config.fast_open);
}
