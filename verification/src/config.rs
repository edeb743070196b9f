//! The settings that a user can change.

use crate::text::{decimal, decimal_string, lemma_decimal_value, parse_u64, parse_usize,
    unsigned_value};
use vstd::prelude::*;

verus! {

/// The settings, but for the seed ratio, which is no whole number. Rates are in
/// bytes in a second, intervals in seconds; a rate or a number of downloads of
/// zero is no limit.
#[derive(Debug, Clone)]
pub struct Config {
    pub download_dir: String,
    pub max_connections: usize,
    pub max_connections_per_torrent: usize,
    pub max_upload_rate: u64,
    pub max_download_rate: u64,
    pub listen_port: u16,
    pub dht_enabled: bool,
    pub pex_enabled: bool,
    pub enable_encryption: bool,
    pub cache_size_mb: usize,
    pub prealloc_files: bool,
    pub endgame_mode: bool,
    pub accept_incoming: bool,
    pub choke_interval: u64,
    pub upload_slots: usize,
    pub optimistic_unchoke_interval: u64,
    pub seed_ratio_enabled: bool,
    pub auto_resume: bool,
    pub pipeline_depth: u32,
    pub max_active_downloads: usize,
    pub upnp_enabled: bool,
    pub minimize_to_tray: bool,
    pub webseed_enabled: bool,
}

/// The settings as they are typed in.
#[derive(Debug, Clone)]
pub struct SettingsInput {
    pub listen_port: String,
    pub max_connections: String,
    pub max_connections_per_torrent: String,
    pub pipeline_depth: String,
    pub upload_slots: String,
    pub max_download_rate: String,
    pub max_upload_rate: String,
    pub cache_size_mb: String,
    pub choke_interval: String,
    pub optimistic_unchoke_interval: String,
}

/// The number that a text writes, if it is at most `max`, else the old one.
pub open spec fn typed(text: Seq<char>, max: int, before: int) -> int {
    match unsigned_value(text) {
        Some(n) => if n <= max {
            n
        } else {
            before
        },
        None => before,
    }
}

fn typed_u64(text: &String, max: u64, before: u64) -> (r: u64)
    ensures
        r == typed(text@, max as int, before as int),
{
    match parse_u64(text.as_str()) {
        Ok(n) => if n <= max {
            n
        } else {
            before
        },
        Err(_) => before,
    }
}

fn typed_usize(text: &String, before: usize) -> (r: usize)
    ensures
        r == typed(text@, usize::MAX as int, before as int),
{
    match parse_usize(text.as_str()) {
        Ok(n) => n,
        Err(_) => before,
    }
}

impl Config {
    /// The settings before the user has changed any.
    pub fn with_dir(download_dir: String) -> (r: Config)
        ensures
            r == (Config {
                download_dir,
                max_connections: 800,
                max_connections_per_torrent: 150,
                max_upload_rate: 0,
                max_download_rate: 0,
                listen_port: 6881,
                dht_enabled: true,
                pex_enabled: true,
                enable_encryption: false,
                cache_size_mb: 256,
                prealloc_files: true,
                endgame_mode: true,
                accept_incoming: true,
                choke_interval: 10,
                upload_slots: 4,
                optimistic_unchoke_interval: 30,
                seed_ratio_enabled: false,
                auto_resume: true,
                pipeline_depth: 32,
                max_active_downloads: 0,
                upnp_enabled: true,
                minimize_to_tray: false,
                webseed_enabled: true,
            }),
    {
        Config {
            download_dir,
            max_connections: 800,
            max_connections_per_torrent: 150,
            max_upload_rate: 0,
            max_download_rate: 0,
            listen_port: 6881,
            dht_enabled: true,
            pex_enabled: true,
            enable_encryption: false,
            cache_size_mb: 256,
            prealloc_files: true,
            endgame_mode: true,
            accept_incoming: true,
            choke_interval: 10,
            upload_slots: 4,
            optimistic_unchoke_interval: 30,
            seed_ratio_enabled: false,
            auto_resume: true,
            pipeline_depth: 32,
            max_active_downloads: 0,
            upnp_enabled: true,
            minimize_to_tray: false,
            webseed_enabled: true,
        }
    }

    /// The settings as texts.
    pub fn inputs(&self) -> (r: SettingsInput)
        ensures
            r.listen_port@ == decimal(self.listen_port as nat),
            r.max_connections@ == decimal(self.max_connections as nat),
            r.max_connections_per_torrent@ == decimal(self.max_connections_per_torrent as nat),
            r.pipeline_depth@ == decimal(self.pipeline_depth as nat),
            r.upload_slots@ == decimal(self.upload_slots as nat),
            r.max_download_rate@ == decimal(self.max_download_rate as nat),
            r.max_upload_rate@ == decimal(self.max_upload_rate as nat),
            r.cache_size_mb@ == decimal(self.cache_size_mb as nat),
            r.choke_interval@ == decimal(self.choke_interval as nat),
            r.optimistic_unchoke_interval@ == decimal(self.optimistic_unchoke_interval as nat),
    {
        SettingsInput {
            listen_port: decimal_string(self.listen_port as u64),
            max_connections: decimal_string(self.max_connections as u64),
            max_connections_per_torrent: decimal_string(self.max_connections_per_torrent as u64),
            pipeline_depth: decimal_string(self.pipeline_depth as u64),
            upload_slots: decimal_string(self.upload_slots as u64),
            max_download_rate: decimal_string(self.max_download_rate),
            max_upload_rate: decimal_string(self.max_upload_rate),
            cache_size_mb: decimal_string(self.cache_size_mb as u64),
            choke_interval: decimal_string(self.choke_interval),
            optimistic_unchoke_interval: decimal_string(self.optimistic_unchoke_interval),
        }
    }

    /// Takes over the settings that were typed in; what is no number in range
    /// leaves its setting as it was.
    pub fn apply_inputs(&mut self, i: &SettingsInput)
        ensures
            *final(self) == (Config {
                listen_port: typed(i.listen_port@, 65535, old(self).listen_port as int) as u16,
                max_connections: typed(
                    i.max_connections@,
                    usize::MAX as int,
                    old(self).max_connections as int,
                ) as usize,
                max_connections_per_torrent: typed(
                    i.max_connections_per_torrent@,
                    usize::MAX as int,
                    old(self).max_connections_per_torrent as int,
                ) as usize,
                pipeline_depth: typed(
                    i.pipeline_depth@,
                    u32::MAX as int,
                    old(self).pipeline_depth as int,
                ) as u32,
                upload_slots: typed(
                    i.upload_slots@,
                    usize::MAX as int,
                    old(self).upload_slots as int,
                ) as usize,
                max_download_rate: typed(
                    i.max_download_rate@,
                    u64::MAX as int,
                    old(self).max_download_rate as int,
                ) as u64,
                max_upload_rate: typed(
                    i.max_upload_rate@,
                    u64::MAX as int,
                    old(self).max_upload_rate as int,
                ) as u64,
                cache_size_mb: typed(
                    i.cache_size_mb@,
                    usize::MAX as int,
                    old(self).cache_size_mb as int,
                ) as usize,
                choke_interval: typed(
                    i.choke_interval@,
                    u64::MAX as int,
                    old(self).choke_interval as int,
                ) as u64,
                optimistic_unchoke_interval: typed(
                    i.optimistic_unchoke_interval@,
                    u64::MAX as int,
                    old(self).optimistic_unchoke_interval as int,
                ) as u64,
                ..*old(self)
            }),
    {
        self.listen_port = typed_u64(&i.listen_port, 65535, self.listen_port as u64) as u16;
        self.max_connections = typed_usize(&i.max_connections, self.max_connections);
        self.max_connections_per_torrent = typed_usize(
            &i.max_connections_per_torrent,
            self.max_connections_per_torrent,
        );
        self.pipeline_depth = typed_u64(
            &i.pipeline_depth,
            u32::MAX as u64,
            self.pipeline_depth as u64,
        ) as u32;
        self.upload_slots = typed_usize(&i.upload_slots, self.upload_slots);
        self.max_download_rate = typed_u64(&i.max_download_rate, u64::MAX, self.max_download_rate);
        self.max_upload_rate = typed_u64(&i.max_upload_rate, u64::MAX, self.max_upload_rate);
        self.cache_size_mb = typed_usize(&i.cache_size_mb, self.cache_size_mb);
        self.choke_interval = typed_u64(&i.choke_interval, u64::MAX, self.choke_interval);
        self.optimistic_unchoke_interval = typed_u64(
            &i.optimistic_unchoke_interval,
            u64::MAX,
            self.optimistic_unchoke_interval,
        );
    }
}

/// Settings that are shown as texts and typed in again unchanged stay as they
/// are.
pub proof fn law_settings_kept(n: nat, max: int, before: int)
    requires
        n <= max,
    ensures
        typed(decimal(n), max, before) == n,
{
    lemma_decimal_value(n);
}

} // verus!
