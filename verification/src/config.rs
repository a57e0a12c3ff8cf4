//! The gateway's configuration: recognized keys, their defaults, and the
//! effective-region fallbacks.  Reading and writing the file on disk lives
//! outside the library.

use vstd::prelude::*;

use crate::outside::random_bool;

verus! {

#[derive(Debug, Clone, Copy, PartialEq, Eq, Structural)]
pub enum TlsBackend {
    Rustls,
    NativeTls,
}

impl Default for TlsBackend {
    fn default() -> (r: Self)
        ensures
            r == TlsBackend::Rustls,
    {
        TlsBackend::Rustls
    }
}

pub struct Config {
    pub host: String,
    pub port: u16,
    pub region: String,
    pub auth_region: Option<String>,
    pub api_region: Option<String>,
    pub kiro_version: String,
    pub machine_id: Option<String>,
    pub api_key: Option<String>,
    pub system_version: String,
    pub node_version: String,
    pub tls_backend: TlsBackend,
    pub count_tokens_api_url: Option<String>,
    pub count_tokens_api_key: Option<String>,
    pub count_tokens_auth_type: String,
    pub proxy_url: Option<String>,
    pub proxy_username: Option<String>,
    pub proxy_password: Option<String>,
    pub admin_api_key: Option<String>,
    pub admin_username: Option<String>,
    pub admin_password: Option<String>,
    pub load_balancing_mode: String,
    pub max_concurrent_per_credential: u32,
    pub max_concurrent_per_key: u32,
    pub sticky_expiry_minutes: u32,
    pub zombie_stream_timeout_minutes: u32,
    pub config_path: Option<String>,
}

pub fn default_host() -> (r: String)
    ensures
        r@ == "127.0.0.1"@,
{
    String::from_str("127.0.0.1")
}

pub fn default_port() -> (r: u16)
    ensures
        r == 8080,
{
    8080
}

pub fn default_region() -> (r: String)
    ensures
        r@ == "us-east-1"@,
{
    String::from_str("us-east-1")
}

pub fn default_kiro_version() -> (r: String)
    ensures
        r@ == "0.10.0"@,
{
    String::from_str("0.10.0")
}

/// One of the two system-version labels, picked at random.
pub fn default_system_version() -> (r: String)
    ensures
        r@ == "darwin#24.6.0"@ || r@ == "win32#10.0.22631"@,
{
    if random_bool() {
        String::from_str("darwin#24.6.0")
    } else {
        String::from_str("win32#10.0.22631")
    }
}

pub fn default_node_version() -> (r: String)
    ensures
        r@ == "22.21.1"@,
{
    String::from_str("22.21.1")
}

pub fn default_count_tokens_auth_type() -> (r: String)
    ensures
        r@ == "x-api-key"@,
{
    String::from_str("x-api-key")
}

pub fn default_tls_backend() -> (r: TlsBackend)
    ensures
        r == TlsBackend::Rustls,
{
    TlsBackend::Rustls
}

pub fn default_load_balancing_mode() -> (r: String)
    ensures
        r@ == "priority"@,
{
    String::from_str("priority")
}

pub fn default_max_concurrent_per_credential() -> (r: u32)
    ensures
        r == 2,
{
    2
}

pub fn default_max_concurrent_per_key() -> (r: u32)
    ensures
        r == 5,
{
    5
}

pub fn default_sticky_expiry_minutes() -> (r: u32)
    ensures
        r == 30,
{
    30
}

pub fn default_zombie_stream_timeout_minutes() -> (r: u32)
    ensures
        r == 15,
{
    15
}

impl Default for Config {
    /// A configuration with every recognized key at its default.
    fn default() -> (r: Self)
        ensures
            r.host@ == "127.0.0.1"@,
            r.port == 8080,
            r.region@ == "us-east-1"@,
            r.auth_region is None,
            r.api_region is None,
            r.load_balancing_mode@ == "priority"@,
            r.max_concurrent_per_credential == 2,
            r.max_concurrent_per_key == 5,
            r.sticky_expiry_minutes == 30,
            r.zombie_stream_timeout_minutes == 15,
            r.tls_backend == TlsBackend::Rustls,
            r.spec_config_path() is None,
    {
        Config {
            host: default_host(),
            port: default_port(),
            region: default_region(),
            auth_region: None,
            api_region: None,
            kiro_version: default_kiro_version(),
            machine_id: None,
            api_key: None,
            system_version: default_system_version(),
            node_version: default_node_version(),
            tls_backend: default_tls_backend(),
            count_tokens_api_url: None,
            count_tokens_api_key: None,
            count_tokens_auth_type: default_count_tokens_auth_type(),
            proxy_url: None,
            proxy_username: None,
            proxy_password: None,
            admin_api_key: None,
            admin_username: None,
            admin_password: None,
            load_balancing_mode: default_load_balancing_mode(),
            max_concurrent_per_credential: default_max_concurrent_per_credential(),
            max_concurrent_per_key: default_max_concurrent_per_key(),
            sticky_expiry_minutes: default_sticky_expiry_minutes(),
            zombie_stream_timeout_minutes: default_zombie_stream_timeout_minutes(),
            config_path: None,
        }
    }
}

impl Config {
    pub open spec fn spec_config_path(self) -> Option<String> {
        self.config_path
    }

    /// Where the configuration file sits by default.
    pub fn default_config_path() -> (r: &'static str)
        ensures
            r@ == "config.json"@,
    {
        "config.json"
    }

    /// The region used for token refresh: `auth_region` if set, else the
    /// general region.
    pub fn effective_auth_region(&self) -> (r: &str)
        ensures
            self.auth_region matches Some(s) ==> r@ == s@,
            self.auth_region is None ==> r@ == self.region@,
    {
        match &self.auth_region {
            Some(s) => s.as_str(),
            None => self.region.as_str(),
        }
    }

    /// The region used for API calls: `api_region` if set, else the
    /// general region.
    pub fn effective_api_region(&self) -> (r: &str)
        ensures
            self.api_region matches Some(s) ==> r@ == s@,
            self.api_region is None ==> r@ == self.region@,
    {
        match &self.api_region {
            Some(s) => s.as_str(),
            None => self.region.as_str(),
        }
    }

    /// Remembers where this configuration was loaded from.
    pub fn set_config_path(&mut self, path: String)
        ensures
            final(self).spec_config_path() == Some(path),
            final(self).host == old(self).host,
            final(self).port == old(self).port,
            final(self).region == old(self).region,
            final(self).load_balancing_mode == old(self).load_balancing_mode,
            final(self).max_concurrent_per_credential == old(self).max_concurrent_per_credential,
            final(self).max_concurrent_per_key == old(self).max_concurrent_per_key,
            final(self).sticky_expiry_minutes == old(self).sticky_expiry_minutes,
            final(self).zombie_stream_timeout_minutes == old(self).zombie_stream_timeout_minutes,
    {
        self.config_path = Some(path);
    }

    /// The remembered file path, if any.
    pub fn config_path(&self) -> (r: Option<&String>)
        ensures
            r matches Some(p) ==> self.spec_config_path() == Some(*p),
            r is None ==> self.spec_config_path() is None,
    {
        match &self.config_path {
            Some(p) => Some(p),
            None => None,
        }
    }
}

} // verus!
