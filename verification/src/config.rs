//! Configuration model, defaults and validation rules.
use vstd::prelude::*;

use crate::net::{default_allowed_networks, IpAddress, IpNetwork, SocketAddress};
use crate::text::{str_chars, str_is, string_from_chars, trim, trim_str};

verus! {

/// Command-line arguments: the configuration file and whether only to check it.
#[derive(Debug)]
pub struct Cli {
    pub config: String,
    pub check_config: bool,
}

/// What part of the submitted message is encrypted.
#[derive(Debug, Clone, Copy, PartialEq, Eq, Structural)]
pub enum EncryptionMode {
    /// Only the MIME body (content headers and body); outer headers stay readable.
    PgpMimeBody,
    /// The whole message.
    FullMessage,
}

impl EncryptionMode {
    /// The default mode: PGP/MIME body.
    pub fn default_mode() -> (r: EncryptionMode)
        ensures
            r == EncryptionMode::PgpMimeBody,
    {
        EncryptionMode::PgpMimeBody
    }
}

/// How the remote SMTP connection is protected.
#[derive(Debug, Clone, Copy, PartialEq, Eq, Structural)]
pub enum RemoteTlsMode {
    /// Plain connection upgraded with STARTTLS.
    Starttls,
    /// TLS from the first byte (SMTPS).
    Wrapper,
}

impl RemoteTlsMode {
    /// The default mode: STARTTLS.
    pub fn default_mode() -> (r: RemoteTlsMode)
        ensures
            r == RemoteTlsMode::Starttls,
    {
        RemoteTlsMode::Starttls
    }
}

/// Credentials that local clients must present with AUTH PLAIN.
#[derive(Debug)]
pub struct InboundAuthConfig {
    pub username: String,
    pub password: String,
}

/// How the relay authenticates to the remote SMTP server.
#[derive(Debug)]
pub enum RemoteAuthConfig {
    Plain { username: String, password: String },
    Oauthbearer { username: String, access_token: String, authzid: Option<String> },
    Xoauth2 { username: String, access_token: String },
}

/// The remote SMTP server that encrypted mail is relayed to.
#[derive(Debug)]
pub struct RemoteSmtpConfig {
    pub host: String,
    pub port: u16,
    pub tls_mode: RemoteTlsMode,
    pub hello_name: String,
    pub auth: RemoteAuthConfig,
    pub connect_timeout_secs: u64,
    pub command_timeout_secs: u64,
}

/// Extra PEM files with root certificates for outbound TLS.
#[derive(Debug)]
pub struct TlsConfig {
    pub extra_root_certificates: Vec<String>,
}

impl TlsConfig {
    /// No extra roots.
    pub fn default_config() -> (r: TlsConfig)
        ensures
            r.extra_root_certificates@.len() == 0,
    {
        TlsConfig { extra_root_certificates: Vec::new() }
    }
}

/// Where public keys come from and how messages are encrypted.
#[derive(Debug)]
pub struct OpenPgpConfig {
    pub local_key_files: Vec<String>,
    pub local_key_directories: Vec<String>,
    pub enable_wkd: bool,
    pub enable_keys_openpgp_org: bool,
    pub key_cache_ttl_secs: u64,
    pub http_timeout_secs: u64,
    pub encryption_mode: EncryptionMode,
}

/// Log filter directive.
#[derive(Debug)]
pub struct LoggingConfig {
    pub filter: String,
}

/// The local SMTP listener.
#[derive(Debug)]
pub struct ListenConfig {
    pub bind: SocketAddress,
    pub banner: String,
    pub auth: InboundAuthConfig,
    pub allowed_networks: Vec<IpNetwork>,
    pub message_size_limit_bytes: usize,
}

/// The whole configuration.
#[derive(Debug)]
pub struct AppConfig {
    pub listen: ListenConfig,
    pub remote_smtp: RemoteSmtpConfig,
    pub tls: TlsConfig,
    pub openpgp: OpenPgpConfig,
    pub logging: LoggingConfig,
}

/// Default listen address: 0.0.0.0:2525.
pub fn default_listen_bind() -> (r: SocketAddress)
    ensures
        r.ip == IpAddress::V4(0),
        r.port == 2525,
{
    SocketAddress { ip: IpAddress::V4(0), port: 2525 }
}

/// Default banner: "sendmail-sec".
pub fn default_listen_banner() -> (r: String)
    ensures
        r@ == "sendmail-sec"@,
{
    let v = str_chars("sendmail-sec");
    string_from_chars(&v)
}

/// Default message size limit: 25 MiB.
pub fn default_message_size_limit() -> (r: usize)
    ensures
        r == 25 * 1024 * 1024,
{
    25 * 1024 * 1024
}

/// Default remote port: 587 (submission).
pub fn default_remote_port() -> (r: u16)
    ensures
        r == 587,
{
    587
}

/// Default EHLO name: "localhost".
pub fn default_hello_name() -> (r: String)
    ensures
        r@ == "localhost"@,
{
    let v = str_chars("localhost");
    string_from_chars(&v)
}

/// Default connect timeout: 15 seconds.
pub fn default_connect_timeout_secs() -> (r: u64)
    ensures
        r == 15,
{
    15
}

/// Default command timeout: 30 seconds.
pub fn default_command_timeout_secs() -> (r: u64)
    ensures
        r == 30,
{
    30
}

/// Default key cache lifetime: one hour.
pub fn default_key_cache_ttl_secs() -> (r: u64)
    ensures
        r == 3600,
{
    3600
}

/// Default HTTP timeout for key lookups: 10 seconds.
pub fn default_http_timeout_secs() -> (r: u64)
    ensures
        r == 10,
{
    10
}

/// Default log filter: "info".
pub fn default_log_filter() -> (r: String)
    ensures
        r@ == "info"@,
{
    let v = str_chars("info");
    string_from_chars(&v)
}

/// Default for the key source switches: enabled.
pub fn default_true() -> (r: bool)
    ensures
        r,
{
    true
}

impl ListenConfig {
    /// Defaults for every field but the credentials, which are empty (and must be set).
    pub fn default_config() -> (r: ListenConfig)
        ensures
            r.bind.ip == IpAddress::V4(0),
            r.bind.port == 2525,
            r.banner@ == "sendmail-sec"@,
            r.auth.username@.len() == 0,
            r.auth.password@.len() == 0,
            r.message_size_limit_bytes == 25 * 1024 * 1024,
            r.allowed_networks@ == crate::net::default_networks_spec(),
    {
        ListenConfig {
            bind: default_listen_bind(),
            banner: default_listen_banner(),
            auth: InboundAuthConfig { username: String::new(), password: String::new() },
            allowed_networks: default_allowed_networks(),
            message_size_limit_bytes: default_message_size_limit(),
        }
    }
}

impl OpenPgpConfig {
    /// No local keys, both network sources on, one hour cache, 10 s HTTP timeout, PGP/MIME
    /// body mode.
    pub fn default_config() -> (r: OpenPgpConfig)
        ensures
            r.local_key_files@.len() == 0,
            r.local_key_directories@.len() == 0,
            r.enable_wkd,
            r.enable_keys_openpgp_org,
            r.key_cache_ttl_secs == 3600,
            r.http_timeout_secs == 10,
            r.encryption_mode == EncryptionMode::PgpMimeBody,
    {
        OpenPgpConfig {
            local_key_files: Vec::new(),
            local_key_directories: Vec::new(),
            enable_wkd: default_true(),
            enable_keys_openpgp_org: default_true(),
            key_cache_ttl_secs: default_key_cache_ttl_secs(),
            http_timeout_secs: default_http_timeout_secs(),
            encryption_mode: EncryptionMode::default_mode(),
        }
    }
}

impl LoggingConfig {
    /// The "info" filter.
    pub fn default_config() -> (r: LoggingConfig)
        ensures
            r.filter@ == "info"@,
    {
        LoggingConfig { filter: default_log_filter() }
    }
}

/// A configuration rule that does not hold.
#[derive(Debug, PartialEq, Eq, Structural)]
pub enum ConfigError {
    EmptyListenUsername,
    EmptyListenPassword,
    ZeroMessageSizeLimit,
    NoAllowedNetworks,
    EmptyRemoteHost,
    EmptyHelloName,
    ZeroRemotePort,
    ZeroConnectTimeout,
    ZeroCommandTimeout,
    IncompletePlainCredentials,
    IncompleteOauthCredentials,
    NoKeySource,
}

impl ConfigError {
    /// The message that explains the error.
    pub open spec fn message_spec(self) -> Seq<char> {
        match self {
            ConfigError::EmptyListenUsername => "listen.auth.username must not be empty"@,
            ConfigError::EmptyListenPassword => "listen.auth.password must not be empty"@,
            ConfigError::ZeroMessageSizeLimit => "listen.message_size_limit_bytes must be greater than zero"@,
            ConfigError::NoAllowedNetworks => "listen.allowed_networks must not be empty"@,
            ConfigError::EmptyRemoteHost => "remote_smtp.host must not be empty"@,
            ConfigError::EmptyHelloName => "remote_smtp.hello_name must not be empty"@,
            ConfigError::ZeroRemotePort => "remote_smtp.port must be greater than zero"@,
            ConfigError::ZeroConnectTimeout => "remote_smtp.connect_timeout_secs must be greater than zero"@,
            ConfigError::ZeroCommandTimeout => "remote_smtp.command_timeout_secs must be greater than zero"@,
            ConfigError::IncompletePlainCredentials => "remote_smtp.auth PLAIN requires non-empty username and password"@,
            ConfigError::IncompleteOauthCredentials => "remote_smtp.auth OAuth mechanisms require non-empty username and access_token"@,
            ConfigError::NoKeySource => "at least one OpenPGP key source must be enabled"@,
        }
    }

    /// The message that explains the error.
    pub fn message(&self) -> (r: &'static str)
        ensures
            r@ == self.message_spec(),
    {
        match self {
            ConfigError::EmptyListenUsername => "listen.auth.username must not be empty",
            ConfigError::EmptyListenPassword => "listen.auth.password must not be empty",
            ConfigError::ZeroMessageSizeLimit =>
                "listen.message_size_limit_bytes must be greater than zero",
            ConfigError::NoAllowedNetworks => "listen.allowed_networks must not be empty",
            ConfigError::EmptyRemoteHost => "remote_smtp.host must not be empty",
            ConfigError::EmptyHelloName => "remote_smtp.hello_name must not be empty",
            ConfigError::ZeroRemotePort => "remote_smtp.port must be greater than zero",
            ConfigError::ZeroConnectTimeout =>
                "remote_smtp.connect_timeout_secs must be greater than zero",
            ConfigError::ZeroCommandTimeout =>
                "remote_smtp.command_timeout_secs must be greater than zero",
            ConfigError::IncompletePlainCredentials =>
                "remote_smtp.auth PLAIN requires non-empty username and password",
            ConfigError::IncompleteOauthCredentials =>
                "remote_smtp.auth OAuth mechanisms require non-empty username and access_token",
            ConfigError::NoKeySource => "at least one OpenPGP key source must be enabled",
        }
    }
}

/// The first configuration rule that `c` breaks, checked in a fixed order.
pub open spec fn validate_spec(c: AppConfig) -> Result<(), ConfigError> {
    if c.listen.auth.username@.len() == 0 {
        Err(ConfigError::EmptyListenUsername)
    } else if c.listen.auth.password@.len() == 0 {
        Err(ConfigError::EmptyListenPassword)
    } else if c.listen.message_size_limit_bytes == 0 {
        Err(ConfigError::ZeroMessageSizeLimit)
    } else if c.listen.allowed_networks@.len() == 0 {
        Err(ConfigError::NoAllowedNetworks)
    } else if trim(c.remote_smtp.host@).len() == 0 {
        Err(ConfigError::EmptyRemoteHost)
    } else if trim(c.remote_smtp.hello_name@).len() == 0 {
        Err(ConfigError::EmptyHelloName)
    } else if c.remote_smtp.port == 0 {
        Err(ConfigError::ZeroRemotePort)
    } else if c.remote_smtp.connect_timeout_secs == 0 {
        Err(ConfigError::ZeroConnectTimeout)
    } else if c.remote_smtp.command_timeout_secs == 0 {
        Err(ConfigError::ZeroCommandTimeout)
    } else if (match c.remote_smtp.auth {
        RemoteAuthConfig::Plain { username, password } => username@.len() == 0 || password@.len()
            == 0,
        _ => false,
    }) {
        Err(ConfigError::IncompletePlainCredentials)
    } else if (match c.remote_smtp.auth {
        RemoteAuthConfig::Oauthbearer { username, access_token, .. } => username@.len() == 0
            || access_token@.len() == 0,
        RemoteAuthConfig::Xoauth2 { username, access_token } => username@.len() == 0
            || access_token@.len() == 0,
        _ => false,
    }) {
        Err(ConfigError::IncompleteOauthCredentials)
    } else if !c.openpgp.enable_wkd && !c.openpgp.enable_keys_openpgp_org
        && c.openpgp.local_key_files@.len() == 0 && c.openpgp.local_key_directories@.len() == 0 {
        Err(ConfigError::NoKeySource)
    } else {
        Ok(())
    }
}

/// A configuration is refused for having no key source only when it has none at all: WKD
/// and keys.openpgp.org are off and there is no local key file and no local key directory;
/// so a configuration that passes has at least one of them.
pub proof fn law_key_source_required(c: AppConfig)
    ensures
        validate_spec(c) == Err::<(), ConfigError>(ConfigError::NoKeySource) ==> !c.openpgp.enable_wkd
            && !c.openpgp.enable_keys_openpgp_org && c.openpgp.local_key_files@.len() == 0
            && c.openpgp.local_key_directories@.len() == 0,
        validate_spec(c) is Ok ==> c.openpgp.enable_wkd || c.openpgp.enable_keys_openpgp_org
            || c.openpgp.local_key_files@.len() > 0 || c.openpgp.local_key_directories@.len() > 0,
{
}

fn is_blank(s: &String) -> (r: bool)
    ensures
        r == (trim(s@).len() == 0),
{
    let t = trim_str(s.as_str());
    t.as_str().is_empty()
}

impl AppConfig {
    /// Checks the configuration rules in order and reports the first that fails.
    pub fn validate(&self) -> (r: Result<(), ConfigError>)
        ensures
            r == validate_spec(*self),
    {
        if self.listen.auth.username.as_str().is_empty() {
            return Err(ConfigError::EmptyListenUsername);
        }
        if self.listen.auth.password.as_str().is_empty() {
            return Err(ConfigError::EmptyListenPassword);
        }
        if self.listen.message_size_limit_bytes == 0 {
            return Err(ConfigError::ZeroMessageSizeLimit);
        }
        if self.listen.allowed_networks.len() == 0 {
            return Err(ConfigError::NoAllowedNetworks);
        }
        if is_blank(&self.remote_smtp.host) {
            return Err(ConfigError::EmptyRemoteHost);
        }
        if is_blank(&self.remote_smtp.hello_name) {
            return Err(ConfigError::EmptyHelloName);
        }
        if self.remote_smtp.port == 0 {
            return Err(ConfigError::ZeroRemotePort);
        }
        if self.remote_smtp.connect_timeout_secs == 0 {
            return Err(ConfigError::ZeroConnectTimeout);
        }
        if self.remote_smtp.command_timeout_secs == 0 {
            return Err(ConfigError::ZeroCommandTimeout);
        }
        match &self.remote_smtp.auth {
            RemoteAuthConfig::Plain { username, password } => {
                if username.as_str().is_empty() || password.as_str().is_empty() {
                    return Err(ConfigError::IncompletePlainCredentials);
                }
            },
            RemoteAuthConfig::Oauthbearer { username, access_token, .. } => {
                if username.as_str().is_empty() || access_token.as_str().is_empty() {
                    return Err(ConfigError::IncompleteOauthCredentials);
                }
            },
            RemoteAuthConfig::Xoauth2 { username, access_token } => {
                if username.as_str().is_empty() || access_token.as_str().is_empty() {
                    return Err(ConfigError::IncompleteOauthCredentials);
                }
            },
        }
        if !self.openpgp.enable_wkd && !self.openpgp.enable_keys_openpgp_org
            && self.openpgp.local_key_files.len() == 0
            && self.openpgp.local_key_directories.len() == 0 {
            return Err(ConfigError::NoKeySource);
        }
        Ok(())
    }
}


/// Whether `std::path::Path::is_relative` holds: on Unix, a path is absolute when it starts
/// with the root '/'.
pub open spec fn is_relative_path(p: Seq<char>) -> bool {
    !(p.len() > 0 && p[0] == '/')
}

/// What `Path::parent` yields for a path.
pub uninterp spec fn path_parent_of(p: Seq<char>) -> Option<Seq<char>>;

/// What `Path::join` yields for a base directory and a relative path.
pub uninterp spec fn path_joined(base: Seq<char>, p: Seq<char>) -> Seq<char>;

/// What `Path::extension` yields for a path, as text.
pub uninterp spec fn path_extension_of(p: Seq<char>) -> Option<Seq<char>>;

/// Calls `Path::is_relative`, which on Unix holds unless the path starts with '/'.
#[verifier::external_body]
fn path_is_relative(p: &str) -> (r: bool)
    ensures
        r == is_relative_path(p@),
{
    std::path::Path::new(p).is_relative()
}

/// Calls `Path::parent`. Claims that the result is a function of the path (named
/// `path_parent_of`); how components are split is not stated.
#[verifier::external_body]
fn path_parent(p: &str) -> (r: Option<String>)
    ensures
        r is Some <==> path_parent_of(p@) is Some,
        r matches Some(b) ==> b@ == path_parent_of(p@)->Some_0,
{
    std::path::Path::new(p).parent().map(|b| b.to_string_lossy().into_owned())
}

/// Calls `Path::join`. Claims that the result is a function of the two paths (named
/// `path_joined`) and, as `Path::join` and `PathBuf::push` document it, that an absolute path
/// replaces the base and a relative one is adjoined to a base that does not end with the
/// separator after a '/'. What an empty base gives is left to the name.
#[verifier::external_body]
fn path_join(base: &str, p: &str) -> (r: String)
    ensures
        r@ == path_joined(base@, p@),
        !is_relative_path(p@) ==> r@ == p@,
        is_relative_path(p@) && base@.len() > 0 && base@.last() != '/' ==> r@ == base@ + seq!['/']
            + p@,
{
    std::path::Path::new(base).join(p).to_string_lossy().into_owned()
}

/// Calls `Path::extension` and `OsStr::to_str`. Claims that the result is a function of the
/// path (named `path_extension_of`).
#[verifier::external_body]
fn path_extension(p: &str) -> (r: Option<String>)
    ensures
        r is Some <==> path_extension_of(p@) is Some,
        r matches Some(e) ==> e@ == path_extension_of(p@)->Some_0,
{
    std::path::Path::new(p).extension().and_then(|e| e.to_str()).map(|e| e.to_string())
}

/// A configured path as read relative to the configuration file's directory `base`.
pub open spec fn resolved_path(base: Seq<char>, p: Seq<char>) -> Seq<char> {
    if is_relative_path(p) {
        path_joined(base, p)
    } else {
        p
    }
}

pub open spec fn resolved_paths(base: Seq<char>, ps: Seq<Seq<char>>) -> Seq<Seq<char>> {
    ps.map_values(|p: Seq<char>| resolved_path(base, p))
}

fn resolve_all(paths: &mut Vec<String>, base: &str)
    ensures
        final(paths).deep_view() == resolved_paths(base@, old(paths).deep_view()),
{
    let ghost start = paths.deep_view();
    let mut out: Vec<String> = Vec::new();
    let mut i: usize = 0;
    while i < paths.len()
        invariant
            i <= paths@.len(),
            start == paths.deep_view(),
            out.deep_view() == resolved_paths(base@, start).take(i as int),
        decreases paths@.len() - i,
    {
        let p = paths[i].as_str();
        let next = if path_is_relative(p) {
            path_join(base, p)
        } else {
            p.to_string()
        };
        let ghost before = out.deep_view();
        out.push(next);
        assert(out.deep_view() =~= before.push(resolved_path(base@, start[i as int])));
        i = i + 1;
        assert(out.deep_view() =~= resolved_paths(base@, start).take(i as int));
    }
    assert(resolved_paths(base@, start).take(i as int) =~= resolved_paths(base@, start));
    *paths = out;
}

/// How a configuration file is parsed.
#[derive(Debug, Clone, Copy, PartialEq, Eq, Structural)]
pub enum ConfigFormat {
    Json,
    Yaml,
    /// Unknown extension: YAML, and JSON when YAML fails.
    YamlOrJson,
}

/// ".json" is JSON, ".yaml" and ".yml" are YAML, anything else is tried as both.
pub open spec fn config_format_spec(path: Seq<char>) -> ConfigFormat {
    match path_extension_of(path) {
        Some(e) => if e == "json"@ {
            ConfigFormat::Json
        } else if e == "yaml"@ || e == "yml"@ {
            ConfigFormat::Yaml
        } else {
            ConfigFormat::YamlOrJson
        },
        None => ConfigFormat::YamlOrJson,
    }
}

/// The format of a configuration file, by its extension.
pub fn config_format(path: &str) -> (r: ConfigFormat)
    ensures
        r == config_format_spec(path@),
{
    match path_extension(path) {
        Some(e) => {
            if str_is(e.as_str(), "json") {
                ConfigFormat::Json
            } else if str_is(e.as_str(), "yaml") || str_is(e.as_str(), "yml") {
                ConfigFormat::Yaml
            } else {
                ConfigFormat::YamlOrJson
            }
        },
        None => ConfigFormat::YamlOrJson,
    }
}

/// `new` is `old` with its relative paths read against the directory of the configuration
/// file at `path` (see `AppConfig::resolve_relative_paths`); with no such directory, they
/// stay as they were.
pub open spec fn resolved_config(old: AppConfig, path: Seq<char>, new: AppConfig) -> bool {
    &&& match path_parent_of(path) {
        None => {
            &&& new.tls.extra_root_certificates.deep_view()
                == old.tls.extra_root_certificates.deep_view()
            &&& new.openpgp.local_key_files.deep_view() == old.openpgp.local_key_files.deep_view()
            &&& new.openpgp.local_key_directories.deep_view()
                == old.openpgp.local_key_directories.deep_view()
        },
        Some(base) => {
            &&& new.tls.extra_root_certificates.deep_view() == resolved_paths(
                base,
                old.tls.extra_root_certificates.deep_view(),
            )
            &&& new.openpgp.local_key_files.deep_view() == resolved_paths(
                base,
                old.openpgp.local_key_files.deep_view(),
            )
            &&& new.openpgp.local_key_directories.deep_view() == resolved_paths(
                base,
                old.openpgp.local_key_directories.deep_view(),
            )
        },
    }
    &&& new.listen == old.listen
    &&& new.remote_smtp == old.remote_smtp
    &&& new.logging == old.logging
    &&& new.openpgp.enable_wkd == old.openpgp.enable_wkd
    &&& new.openpgp.enable_keys_openpgp_org == old.openpgp.enable_keys_openpgp_org
    &&& new.openpgp.key_cache_ttl_secs == old.openpgp.key_cache_ttl_secs
    &&& new.openpgp.http_timeout_secs == old.openpgp.http_timeout_secs
    &&& new.openpgp.encryption_mode == old.openpgp.encryption_mode
}

impl AppConfig {
    /// Reads every relative root certificate, key file and key directory relative to the
    /// directory of the configuration file at `path`; with no such directory, nothing
    /// changes.
    pub fn resolve_relative_paths(&mut self, path: &str)
        ensures
            resolved_config(*old(self), path@, *final(self)),
    {
        let base = match path_parent(path) {
            Some(b) => b,
            None => {
                return;
            },
        };
        resolve_all(&mut self.tls.extra_root_certificates, base.as_str());
        resolve_all(&mut self.openpgp.local_key_files, base.as_str());
        resolve_all(&mut self.openpgp.local_key_directories, base.as_str());
    }
}

/// Finishes loading a parsed configuration read from the file at `path`: its relative paths
/// are read against the file's directory, and the result is the configuration only when it
/// passes `validate`, else the first rule it breaks.
pub fn finish_loading(config: AppConfig, path: &str) -> (r: Result<AppConfig, ConfigError>)
    ensures
        exists|c: AppConfig|
            #[trigger] resolved_config(config, path@, c) && match validate_spec(c) {
                Ok(()) => r matches Ok(loaded) && loaded == c,
                Err(e) => r == Err::<AppConfig, ConfigError>(e),
            },
{
    let mut c = config;
    c.resolve_relative_paths(path);
    match c.validate() {
        Ok(()) => Ok(c),
        Err(e) => Err(e),
    }
}

} // verus!
