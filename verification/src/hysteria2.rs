//! Settings of the Hysteria 2 protocol, and the transmit rate that the two ends agree on.
use vstd::prelude::*;

verus! {

/// The settings of a connection.
#[derive(Debug, Clone, PartialEq, Eq)]
pub struct Config {
    pub server_addr: String,
    pub server_name: String,
    pub auth: String,
    pub insecure: bool,
    pub bandwidth: BandwidthConfig,
    pub obfs_password: String,
    pub hop_ports: String,
    pub hop_interval_min_secs: u64,
    pub hop_interval_max_secs: u64,
    pub pin_sha256: String,
    pub fast_open: bool,
}

impl Default for Config {
    /// Settings in which every text is empty, every number 0 and everything switched off.
    fn default() -> (config: Config)
        ensures
            config.server_addr@ == Seq::<char>::empty(),
            config.server_name@ == Seq::<char>::empty(),
            config.auth@ == Seq::<char>::empty(),
            !config.insecure,
            config.bandwidth == (BandwidthConfig { recv_bps: 0, send_bps: 0 }),
            config.obfs_password@ == Seq::<char>::empty(),
            config.hop_ports@ == Seq::<char>::empty(),
            config.hop_interval_min_secs == 0,
            config.hop_interval_max_secs == 0,
            config.pin_sha256@ == Seq::<char>::empty(),
            !config.fast_open,
    {
        Config {
            server_addr: String::new(),
            server_name: String::new(),
            auth: String::new(),
            insecure: false,
            bandwidth: BandwidthConfig::default(),
            obfs_password: String::new(),
            hop_ports: String::new(),
            hop_interval_min_secs: 0,
            hop_interval_max_secs: 0,
            pin_sha256: String::new(),
            fast_open: false,
        }
    }
}

/// How fast this end wants to receive and send, in bytes per second; 0 where it does not
/// say.
#[derive(Debug, Clone, Copy, PartialEq, Eq, Structural)]
pub struct BandwidthConfig {
    pub recv_bps: u64,
    pub send_bps: u64,
}

impl Default for BandwidthConfig {
    /// Nothing is said.
    fn default() -> (config: BandwidthConfig)
        ensures
            config == (BandwidthConfig { recv_bps: 0, send_bps: 0 }),
    {
        BandwidthConfig { recv_bps: 0, send_bps: 0 }
    }
}

/// How fast the server wants to receive.
#[derive(Debug, Clone, Copy, PartialEq, Eq, Structural)]
pub enum ServerRecvRate {
    /// It does not say.
    Missing,
    /// It leaves it to the congestion controller.
    Auto,
    /// As fast as can be sent.
    Unlimited,
    /// So many bytes per second at most.
    Limited(u64),
}

/// What the two ends agreed on.
#[derive(Debug, Clone, Copy, PartialEq, Eq, Structural)]
pub struct NegotiatedBandwidth {
    pub client_recv_bps: u64,
    pub client_send_bps: u64,
    pub server_recv: ServerRecvRate,
    /// `None` means that the configured congestion controller decides, in place of a fixed
    /// transmit rate.
    pub fixed_send_bps: Option<u64>,
}

/// The fixed transmit rate of an end that wants to send `send_bps`: none where it does not
/// say, or the server says nothing or leaves it open; else the most that both allow.
pub open spec fn fixed_rate(send_bps: u64, server_recv: ServerRecvRate) -> Option<u64> {
    match server_recv {
        ServerRecvRate::Missing => None,
        ServerRecvRate::Auto => None,
        _ if send_bps == 0 => None,
        ServerRecvRate::Unlimited => Some(send_bps),
        ServerRecvRate::Limited(limit) => Some(
            if limit < send_bps {
                limit
            } else {
                send_bps
            },
        ),
    }
}

impl BandwidthConfig {
    /// What is agreed on with a server that wants to receive at `server_recv`.
    pub fn negotiate(self, server_recv: ServerRecvRate) -> (agreed: NegotiatedBandwidth)
        ensures
            agreed == (NegotiatedBandwidth {
                client_recv_bps: self.recv_bps,
                client_send_bps: self.send_bps,
                server_recv,
                fixed_send_bps: fixed_rate(self.send_bps, server_recv),
            }),
    {
        let fixed_send_bps = if self.send_bps == 0 {
            None
        } else {
            match server_recv {
                ServerRecvRate::Missing | ServerRecvRate::Auto => None,
                ServerRecvRate::Unlimited => Some(self.send_bps),
                ServerRecvRate::Limited(limit) => if limit < self.send_bps {
                    Some(limit)
                } else {
                    Some(self.send_bps)
                },
            }
        };
        NegotiatedBandwidth {
            client_recv_bps: self.recv_bps,
            client_send_bps: self.send_bps,
            server_recv,
            fixed_send_bps,
        }
    }
}

/// A fixed transmit rate is at most what this end wants to send and what the server wants
/// to receive, and is one of the two.
pub proof fn law_fixed_rate_is_within_both_limits(send_bps: u64, server_recv: ServerRecvRate)
    ensures
        match fixed_rate(send_bps, server_recv) {
            Some(rate) => {
                &&& rate <= send_bps
                &&& server_recv is Unlimited ==> rate == send_bps
                &&& server_recv matches ServerRecvRate::Limited(limit) ==> rate <= limit && (rate
                    == limit || rate == send_bps)
                &&& server_recv is Unlimited || server_recv is Limited
            },
            None => send_bps == 0 || server_recv is Missing || server_recv is Auto,
        },
{
}

/// An end that wants to send more never gets a lower fixed transmit rate.
pub proof fn law_fixed_rate_grows_with_the_wish(
    less: u64,
    more: u64,
    server_recv: ServerRecvRate,
)
    requires
        0 < less <= more,
    ensures
        match (fixed_rate(less, server_recv), fixed_rate(more, server_recv)) {
            (Some(a), Some(b)) => a <= b,
            (None, None) => true,
            _ => false,
        },
{
}

/// A transmit rate is fixed exactly where this end says how fast it wants to send, and the
/// server says how fast it wants to receive; no `wish` that both allow is higher.
pub proof fn law_rate_is_fixed_exactly_where_both_ends_say(
    send_bps: u64,
    server_recv: ServerRecvRate,
    wish: u64,
)
    ensures
        fixed_rate(send_bps, server_recv) is Some <==> send_bps > 0 && (server_recv is Unlimited
            || server_recv is Limited),
        fixed_rate(send_bps, server_recv) is Some && wish <= send_bps && (server_recv is Limited
            ==> wish <= server_recv->Limited_0) ==> wish <= fixed_rate(send_bps, server_recv)->0,
{
}

} // verus!
