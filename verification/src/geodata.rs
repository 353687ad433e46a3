//! The geographic databases: where they are, and how they are refreshed.
use crate::path::UnixPath;
use vstd::prelude::*;

verus! {

/// `serde_yaml::Value`: a piece of a configuration file that is not looked into.
#[verifier::external_type_specification]
#[verifier::external_body]
pub struct ExYamlValue(serde_yaml::Value);

/// Where the GeoIP database is downloaded from by default.
pub const DEFAULT_MMDB_URL: &'static str =
    "https://github.com/MetaCubeX/meta-rules-dat/releases/download/latest/geoip.metadb";

/// Where the ASN database is downloaded from by default.
pub const DEFAULT_ASN_URL: &'static str =
    "https://github.com/MetaCubeX/meta-rules-dat/releases/download/latest/GeoLite2-ASN.mmdb";

/// Where the database of sites is downloaded from by default.
pub const DEFAULT_GEOSITE_URL: &'static str =
    "https://github.com/MetaCubeX/meta-rules-dat/releases/download/latest/geosite.dat";

/// Hours between update checks by default.
pub const DEFAULT_INTERVAL: u32 = 24;

/// The `geodata:` block of a configuration file.
#[derive(Debug, Clone)]
pub struct RawGeoDataConfig {
    pub mmdb_path: Option<String>,
    pub asn_path: Option<String>,
    pub geosite_path: Option<String>,
    pub auto_update: bool,
    pub auto_update_interval: Option<u32>,
    /// Accepted, but not supported.
    pub geodata_mode: Option<serde_yaml::Value>,
    /// Accepted, but not supported.
    pub geodata_loader: Option<serde_yaml::Value>,
    /// Accepted, but not supported.
    pub geoip_matcher: Option<serde_yaml::Value>,
}

impl Default for RawGeoDataConfig {
    /// An empty block.
    fn default() -> (raw: RawGeoDataConfig)
        ensures
            raw.mmdb_path is None,
            raw.asn_path is None,
            raw.geosite_path is None,
            !raw.auto_update,
            raw.auto_update_interval is None,
            raw.geodata_mode is None,
            raw.geodata_loader is None,
            raw.geoip_matcher is None,
    {
        RawGeoDataConfig {
            mmdb_path: None,
            asn_path: None,
            geosite_path: None,
            auto_update: false,
            auto_update_interval: None,
            geodata_mode: None,
            geodata_loader: None,
            geoip_matcher: None,
        }
    }
}

/// The `geox-url:` block of a configuration file.
#[derive(Debug, Clone, PartialEq, Eq)]
pub struct RawGeoXUrl {
    pub geo_ip: Option<String>,
    pub mmdb: Option<String>,
    pub asn: Option<String>,
    pub geosite: Option<String>,
}

impl Default for RawGeoXUrl {
    /// An empty block.
    fn default() -> (raw: RawGeoXUrl)
        ensures
            raw.geo_ip is None,
            raw.mmdb is None,
            raw.asn is None,
            raw.geosite is None,
    {
        RawGeoXUrl { geo_ip: None, mmdb: None, asn: None, geosite: None }
    }
}

/// Validated settings, produced by [`parse_geodata`].
#[derive(Debug, Clone, PartialEq, Eq)]
pub struct GeoDataConfig {
    pub mmdb_path: Option<UnixPath>,
    pub asn_path: Option<UnixPath>,
    pub geosite_path: Option<UnixPath>,
    pub auto_update: bool,
    /// Hours between update checks, at least 1.
    pub auto_update_interval: u32,
    /// Accepted for the sake of other programs' configurations; not used.
    pub geo_ip_url: Option<String>,
    pub mmdb_url: String,
    pub asn_url: String,
    pub geosite_url: String,
}

/// What settings stand for.
pub struct GeoDataView {
    pub mmdb_path: Option<Seq<u8>>,
    pub asn_path: Option<Seq<u8>>,
    pub geosite_path: Option<Seq<u8>>,
    pub auto_update: bool,
    pub auto_update_interval: u32,
    pub geo_ip_url: Option<Seq<char>>,
    pub mmdb_url: Seq<char>,
    pub asn_url: Seq<char>,
    pub geosite_url: Seq<char>,
}

/// The bytes of a path, if there is one.
pub open spec fn path_view(path: Option<UnixPath>) -> Option<Seq<u8>> {
    match path {
        Some(some) => Some(some@),
        None => None,
    }
}

impl View for GeoDataConfig {
    type V = GeoDataView;

    open spec fn view(&self) -> GeoDataView {
        GeoDataView {
            mmdb_path: path_view(self.mmdb_path),
            asn_path: path_view(self.asn_path),
            geosite_path: path_view(self.geosite_path),
            auto_update: self.auto_update,
            auto_update_interval: self.auto_update_interval,
            geo_ip_url: crate::text::text_view(self.geo_ip_url),
            mmdb_url: self.mmdb_url@,
            asn_url: self.asn_url@,
            geosite_url: self.geosite_url@,
        }
    }
}

/// The settings where nothing is configured.
pub open spec fn default_settings() -> GeoDataView {
    GeoDataView {
        mmdb_path: None,
        asn_path: None,
        geosite_path: None,
        auto_update: false,
        auto_update_interval: DEFAULT_INTERVAL,
        geo_ip_url: None,
        mmdb_url: DEFAULT_MMDB_URL@,
        asn_url: DEFAULT_ASN_URL@,
        geosite_url: DEFAULT_GEOSITE_URL@,
    }
}

impl Default for GeoDataConfig {
    /// The settings where nothing is configured.
    fn default() -> (config: GeoDataConfig)
        ensures
            config@ == default_settings(),
    {
        GeoDataConfig {
            mmdb_path: None,
            asn_path: None,
            geosite_path: None,
            auto_update: false,
            auto_update_interval: DEFAULT_INTERVAL,
            geo_ip_url: None,
            mmdb_url: DEFAULT_MMDB_URL.to_owned(),
            asn_url: DEFAULT_ASN_URL.to_owned(),
            geosite_url: DEFAULT_GEOSITE_URL.to_owned(),
        }
    }
}

/// Why settings are refused.
#[derive(Debug, Clone, Copy, PartialEq, Eq, Structural)]
pub enum GeoDataError {
    /// The hours between update checks are 0.
    ZeroInterval,
}

impl GeoDataError {
    /// What is wrong, in words.
    pub fn to_string(&self) -> (text: String)
        ensures
            text@ == "geodata.auto-update-interval must be at least 1 hour (got 0)"@,
    {
        match self {
            GeoDataError::ZeroInterval => {
                "geodata.auto-update-interval must be at least 1 hour (got 0)".to_owned()
            },
        }
    }
}

/// The configured URL, or the default where there is none.
pub open spec fn url_or(url: Option<String>, default: Seq<char>) -> Seq<char> {
    match url {
        Some(some) => some@,
        None => default,
    }
}

/// The path that a text spells, if there is one.
pub open spec fn spelled_path(text: Option<String>) -> Option<Seq<u8>> {
    match text {
        Some(some) => Some(vstd::utf8::encode_utf8(some@)),
        None => None,
    }
}

/// The settings with the URLs of a `geox-url:` block, each where it is given.
pub open spec fn with_urls(settings: GeoDataView, urls: Option<RawGeoXUrl>) -> GeoDataView {
    match urls {
        None => settings,
        Some(block) => GeoDataView {
            geo_ip_url: crate::text::text_view(block.geo_ip),
            mmdb_url: url_or(block.mmdb, settings.mmdb_url),
            asn_url: url_or(block.asn, settings.asn_url),
            geosite_url: url_or(block.geosite, settings.geosite_url),
            ..settings
        },
    }
}

/// What the two blocks of a configuration file settle.
pub open spec fn settled(raw: Option<RawGeoDataConfig>, urls: Option<RawGeoXUrl>) -> Result<
    GeoDataView,
    GeoDataError,
> {
    let base = with_urls(default_settings(), urls);
    match raw {
        None => Ok(base),
        Some(block) => if block.auto_update_interval == Some(0u32) {
            Err(GeoDataError::ZeroInterval)
        } else {
            Ok(
                GeoDataView {
                    mmdb_path: spelled_path(block.mmdb_path),
                    asn_path: spelled_path(block.asn_path),
                    geosite_path: spelled_path(block.geosite_path),
                    auto_update: block.auto_update,
                    auto_update_interval: match block.auto_update_interval {
                        Some(hours) => hours,
                        None => base.auto_update_interval,
                    },
                    ..base
                },
            )
        },
    }
}

/// The configured URL, or the default where there is none.
pub fn resolve_url(geox_val: Option<&str>, default: &str) -> (url: String)
    ensures
        url@ == match geox_val {
            Some(given) => given@,
            None => default@,
        },
{
    match geox_val {
        Some(given) => given.to_owned(),
        None => default.to_owned(),
    }
}

/// A text to look at, if there is one.
fn as_text(text: &Option<String>) -> (res: Option<&str>)
    ensures
        match (*text, res) {
            (Some(own), Some(lent)) => lent@ == own@,
            (None, None) => true,
            _ => false,
        },
{
    match text {
        Some(own) => Some(own.as_str()),
        None => None,
    }
}

/// A copy of a text, if there is one.
fn copy_text(text: &Option<String>) -> (res: Option<String>)
    ensures
        crate::text::text_view(res) == crate::text::text_view(*text),
{
    match text {
        Some(own) => Some(own.clone()),
        None => None,
    }
}

/// The path that a text spells, if there is one.
fn to_path(text: &Option<String>) -> (res: Option<UnixPath>)
    ensures
        path_view(res) == spelled_path(*text),
{
    match text {
        Some(own) => Some(UnixPath::from_text(own.as_str())),
        None => None,
    }
}

/// Settles the `geodata:` and `geox-url:` blocks of a configuration file.
pub fn parse_geodata(raw: Option<&RawGeoDataConfig>, geox_url: Option<&RawGeoXUrl>) -> (res: Result<
    GeoDataConfig,
    GeoDataError,
>)
    ensures
        ({
            let block = match raw {
                Some(some) => Some(*some),
                None => None,
            };
            let urls = match geox_url {
                Some(some) => Some(*some),
                None => None,
            };
            match res {
                Ok(config) => settled(block, urls) == Ok::<_, GeoDataError>(config@),
                Err(error) => settled(block, urls) == Err::<GeoDataView, _>(error),
            }
        }),
{
    let default_geox = RawGeoXUrl::default();
    let gx: &RawGeoXUrl = match geox_url {
        Some(given) => given,
        None => &default_geox,
    };
    let mut config = GeoDataConfig::default();
    config.geo_ip_url = copy_text(&gx.geo_ip);
    config.mmdb_url = resolve_url(as_text(&gx.mmdb), DEFAULT_MMDB_URL);
    config.asn_url = resolve_url(as_text(&gx.asn), DEFAULT_ASN_URL);
    config.geosite_url = resolve_url(as_text(&gx.geosite), DEFAULT_GEOSITE_URL);
    let r: &RawGeoDataConfig = match raw {
        Some(given) => given,
        None => return Ok(config),
    };
    let interval: u32 = match r.auto_update_interval {
        Some(hours) => hours,
        None => DEFAULT_INTERVAL,
    };
    if interval == 0 {
        return Err(GeoDataError::ZeroInterval);
    }
    config.mmdb_path = to_path(&r.mmdb_path);
    config.asn_path = to_path(&r.asn_path);
    config.geosite_path = to_path(&r.geosite_path);
    config.auto_update = r.auto_update;
    config.auto_update_interval = interval;
    Ok(config)
}

/// The keys of a `geodata:` block that are accepted but not supported, in the order in
/// which they are warned about.
pub open spec fn ignored_keys(raw: RawGeoDataConfig) -> Seq<Seq<char>> {
    let first = if raw.geodata_mode is Some {
        seq!["geodata-mode"@]
    } else {
        Seq::empty()
    };
    let second = if raw.geodata_loader is Some {
        first.push("geodata-loader"@)
    } else {
        first
    };
    if raw.geoip_matcher is Some {
        second.push("geoip-matcher"@)
    } else {
        second
    }
}

/// The characters of texts.
pub open spec fn texts(list: Seq<&'static str>) -> Seq<Seq<char>> {
    list.map_values(|text: &'static str| text@)
}

/// The keys of a `geodata:` block that are accepted but not supported, to be warned about.
pub fn unsupported_keys(raw: &RawGeoDataConfig) -> (keys: Vec<&'static str>)
    ensures
        texts(keys@) == ignored_keys(*raw),
{
    let mut keys: Vec<&'static str> = Vec::new();
    if raw.geodata_mode.is_some() {
        keys.push("geodata-mode");
    }
    if raw.geodata_loader.is_some() {
        keys.push("geodata-loader");
    }
    if raw.geoip_matcher.is_some() {
        keys.push("geoip-matcher");
    }
    assert(texts(keys@) =~= ignored_keys(*raw));
    keys
}

/// Where nothing is configured the defaults hold.
pub proof fn law_absent_blocks_settle_the_defaults()
    ensures
        settled(None, None) == Ok::<_, GeoDataError>(default_settings()),
{
}

/// In settings that are accepted there is at least an hour between update checks; settings
/// are refused only where it is given as 0.
pub proof fn law_settled_interval_is_positive(
    raw: Option<RawGeoDataConfig>,
    urls: Option<RawGeoXUrl>,
)
    ensures
        match settled(raw, urls) {
            Ok(settings) => settings.auto_update_interval >= 1,
            Err(_) => raw is Some && raw->0.auto_update_interval == Some(0u32),
        },
{
}

/// The URLs are those of the `geox-url:` block, or the defaults, whatever the `geodata:` block
/// holds.
pub proof fn law_urls_are_those_of_their_block(
    raw: Option<RawGeoDataConfig>,
    urls: Option<RawGeoXUrl>,
)
    ensures
        match settled(raw, urls) {
            Ok(settings) => {
                let expected = with_urls(default_settings(), urls);
                &&& settings.geo_ip_url == expected.geo_ip_url
                &&& settings.mmdb_url == expected.mmdb_url
                &&& settings.asn_url == expected.asn_url
                &&& settings.geosite_url == expected.geosite_url
            },
            Err(_) => true,
        },
{
}

/// Keys that are not supported change nothing.
pub proof fn law_ignored_keys_are_ignored(
    raw: RawGeoDataConfig,
    other: RawGeoDataConfig,
    urls: Option<RawGeoXUrl>,
)
    requires
        raw == (RawGeoDataConfig {
            geodata_mode: raw.geodata_mode,
            geodata_loader: raw.geodata_loader,
            geoip_matcher: raw.geoip_matcher,
            ..other
        }),
    ensures
        settled(Some(raw), urls) == settled(Some(other), urls),
{
}

/// In accepted settings the flag is that of the `geodata:` block, the hours between update
/// checks are those given there, or 24, and each path is the one that its own key spells, or
/// none where that key is absent, whatever the other keys hold. A block is refused exactly
/// where the hours are given as 0.
pub proof fn law_each_key_settles_its_own_setting(
    block: RawGeoDataConfig,
    urls: Option<RawGeoXUrl>,
)
    ensures
        match settled(Some(block), urls) {
            Ok(settings) => {
                &&& block.auto_update_interval != Some(0u32)
                &&& settings.auto_update == block.auto_update
                &&& block.auto_update_interval is Some ==> settings.auto_update_interval
                    == block.auto_update_interval->0
                &&& block.auto_update_interval is None ==> settings.auto_update_interval == 24
                &&& settings.mmdb_path is Some <==> block.mmdb_path is Some
                &&& block.mmdb_path is Some ==> settings.mmdb_path->0 == vstd::utf8::encode_utf8(
                    block.mmdb_path->0@,
                )
                &&& settings.asn_path is Some <==> block.asn_path is Some
                &&& block.asn_path is Some ==> settings.asn_path->0 == vstd::utf8::encode_utf8(
                    block.asn_path->0@,
                )
                &&& settings.geosite_path is Some <==> block.geosite_path is Some
                &&& block.geosite_path is Some ==> settings.geosite_path->0
                    == vstd::utf8::encode_utf8(block.geosite_path->0@)
            },
            Err(_) => block.auto_update_interval == Some(0u32),
        },
{
}

/// Without a `geodata:` block settings are accepted, update checks are off, and no path is
/// settled, whatever the `geox-url:` block holds.
pub proof fn law_absent_block_settles_nothing_of_its_own(urls: Option<RawGeoXUrl>)
    ensures
        settled(None, urls) is Ok,
        !settled(None, urls)->Ok_0.auto_update,
        settled(None, urls)->Ok_0.auto_update_interval == 24,
        settled(None, urls)->Ok_0.mmdb_path is None,
        settled(None, urls)->Ok_0.asn_path is None,
        settled(None, urls)->Ok_0.geosite_path is None,
{
}

/// In accepted settings each URL is the one that its own key of the `geox-url:` block gives,
/// whole, or the default of that database where the key, or the block, is absent.
pub proof fn law_each_url_is_that_of_its_own_key(
    raw: Option<RawGeoDataConfig>,
    urls: Option<RawGeoXUrl>,
)
    ensures
        match settled(raw, urls) {
            Ok(settings) => {
                &&& settings.geo_ip_url is Some <==> urls is Some && urls->0.geo_ip is Some
                &&& settings.geo_ip_url is Some ==> settings.geo_ip_url->0 == urls->0.geo_ip->0@
                &&& settings.mmdb_url == match urls {
                    Some(block) if block.mmdb is Some => block.mmdb->0@,
                    _ =>
                        "https://github.com/MetaCubeX/meta-rules-dat/releases/download/latest/geoip.metadb"@,
                }
                &&& settings.asn_url == match urls {
                    Some(block) if block.asn is Some => block.asn->0@,
                    _ =>
                        "https://github.com/MetaCubeX/meta-rules-dat/releases/download/latest/GeoLite2-ASN.mmdb"@,
                }
                &&& settings.geosite_url == match urls {
                    Some(block) if block.geosite is Some => block.geosite->0@,
                    _ =>
                        "https://github.com/MetaCubeX/meta-rules-dat/releases/download/latest/geosite.dat"@,
                }
            },
            Err(_) => true,
        },
{
}

/// Each key that is present but not supported is warned about, once, the mode first and the
/// matcher last, and no other key is.
pub proof fn law_present_keys_are_warned_about(raw: RawGeoDataConfig)
    ensures
        ignored_keys(raw).contains("geodata-mode"@) <==> raw.geodata_mode is Some,
        ignored_keys(raw).contains("geodata-loader"@) <==> raw.geodata_loader is Some,
        ignored_keys(raw).contains("geoip-matcher"@) <==> raw.geoip_matcher is Some,
        ignored_keys(raw).no_duplicates(),
        forall|i: int|
            0 <= i < ignored_keys(raw).len() ==> {
                let key = #[trigger] ignored_keys(raw)[i];
                key == "geodata-mode"@ || key == "geodata-loader"@ || key == "geoip-matcher"@
            },
        forall|i: int, j: int|
            0 <= i < j < ignored_keys(raw).len() ==> #[trigger] ignored_keys(raw)[i]
                != "geoip-matcher"@ && #[trigger] ignored_keys(raw)[j] != "geodata-mode"@,
{
    reveal_strlit("geodata-mode");
    reveal_strlit("geodata-loader");
    reveal_strlit("geoip-matcher");
    assert("geodata-mode"@.len() == 12 && "geodata-loader"@.len() == 14);
    assert("geoip-matcher"@.len() == 13);
    let keys = ignored_keys(raw);
    if raw.geodata_mode is Some {
        assert(keys[0] == "geodata-mode"@);
    }
    if raw.geodata_loader is Some {
        let at: int = if raw.geodata_mode is Some {
            1
        } else {
            0
        };
        assert(keys[at] == "geodata-loader"@);
    }
    if raw.geoip_matcher is Some {
        assert(keys[keys.len() - 1] == "geoip-matcher"@);
    }
}

/// Settings stand for what they hold: the same flag, hours, paths and URLs, whole.
pub proof fn law_settings_stand_for_what_they_hold(config: GeoDataConfig)
    ensures
        config@.auto_update == config.auto_update,
        config@.auto_update_interval == config.auto_update_interval,
        config@.mmdb_path is Some <==> config.mmdb_path is Some,
        config.mmdb_path is Some ==> config@.mmdb_path->0 == config.mmdb_path->0.bytes@,
        config@.asn_path is Some <==> config.asn_path is Some,
        config.asn_path is Some ==> config@.asn_path->0 == config.asn_path->0.bytes@,
        config@.geosite_path is Some <==> config.geosite_path is Some,
        config.geosite_path is Some ==> config@.geosite_path->0 == config.geosite_path->0.bytes@,
        config@.geo_ip_url is Some <==> config.geo_ip_url is Some,
        config.geo_ip_url is Some ==> config@.geo_ip_url->0 == config.geo_ip_url->0@,
        config@.mmdb_url == config.mmdb_url@,
        config@.asn_url == config.asn_url@,
        config@.geosite_url == config.geosite_url@,
{
}

/// Texts stand for their characters, each of them, in their order.
pub proof fn law_every_text_is_there(list: Seq<&'static str>, i: int)
    requires
        0 <= i < list.len(),
    ensures
        texts(list).len() == list.len(),
        texts(list)[i] == list[i]@,
{
}

} // verus!
