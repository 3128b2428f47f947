use sendmail_sec::config::{
    config_format, default_command_timeout_secs, default_connect_timeout_secs, default_hello_name,
    default_http_timeout_secs, default_key_cache_ttl_secs, default_listen_banner, default_listen_bind,
    default_log_filter, default_message_size_limit, default_remote_port, default_true, finish_loading, AppConfig,
    ConfigError, ConfigFormat, EncryptionMode, InboundAuthConfig, ListenConfig, LoggingConfig,
    OpenPgpConfig, RemoteAuthConfig, RemoteSmtpConfig, RemoteTlsMode, TlsConfig,
};
use sendmail_sec::net::{
    default_allowed_networks, is_allowed_peer, network_contains, IpAddress, IpNetwork,
};

fn valid_config() -> AppConfig {
    let mut listen = ListenConfig::default_config();
    listen.auth = InboundAuthConfig { username: "relay".to_string(), password: "secret".to_string() };
    AppConfig {
        listen,
        remote_smtp: RemoteSmtpConfig {
            host: "smtp.example.net".to_string(),
            port: 587,
            tls_mode: RemoteTlsMode::default_mode(),
            hello_name: "localhost".to_string(),
            auth: RemoteAuthConfig::Plain { username: "u".to_string(), password: "p".to_string() },
            connect_timeout_secs: 15,
            command_timeout_secs: 30,
        },
        tls: TlsConfig::default_config(),
        openpgp: OpenPgpConfig::default_config(),
        logging: LoggingConfig::default_config(),
    }
}

#[test]
fn defaults() {
    let bind = default_listen_bind();
    assert_eq!(bind.ip, IpAddress::V4(0));
    assert_eq!(bind.port, 2525);
    assert_eq!(default_listen_banner(), "sendmail-sec");
    assert_eq!(default_message_size_limit(), 25 * 1024 * 1024);
    assert_eq!(default_remote_port(), 587);
    assert_eq!(default_hello_name(), "localhost");
    assert_eq!(default_connect_timeout_secs(), 15);
    assert_eq!(default_command_timeout_secs(), 30);
    assert_eq!(default_key_cache_ttl_secs(), 3600);
    assert_eq!(default_http_timeout_secs(), 10);
    assert_eq!(default_log_filter(), "info");
    assert!(default_true());
    assert_eq!(EncryptionMode::default_mode(), EncryptionMode::PgpMimeBody);
    assert_eq!(RemoteTlsMode::default_mode(), RemoteTlsMode::Starttls);
    let p = OpenPgpConfig::default_config();
    assert!(p.enable_wkd && p.enable_keys_openpgp_org);
    assert!(p.local_key_files.is_empty());
    assert_eq!(LoggingConfig::default_config().filter, "info");
    assert!(TlsConfig::default_config().extra_root_certificates.is_empty());
}

#[test]
fn default_networks_match_their_cidr_text() {
    let expected = [
        "127.0.0.0/8",
        "::1/128",
        "10.0.0.0/8",
        "172.16.0.0/12",
        "192.168.0.0/16",
        "fc00::/7",
        "fe80::/10",
    ];
    let nets = default_allowed_networks();
    assert_eq!(nets.len(), expected.len());
    for (net, text) in nets.iter().zip(expected.iter()) {
        let parsed: ipnet::IpNet = text.parse().unwrap();
        let converted = match parsed {
            ipnet::IpNet::V4(n) => IpNetwork::V4 { addr: u32::from(n.addr()), prefix_len: n.prefix_len() },
            ipnet::IpNet::V6(n) => IpNetwork::V6 { addr: u128::from(n.addr()), prefix_len: n.prefix_len() },
        };
        assert_eq!(*net, converted);
    }
}

#[test]
fn network_membership() {
    let nets = default_allowed_networks();
    assert!(is_allowed_peer(&nets, &IpAddress::V4(0x7f00_0001)));
    assert!(is_allowed_peer(&nets, &IpAddress::V4(0xac1f_ffff)));
    assert!(!is_allowed_peer(&nets, &IpAddress::V4(0xac20_0000)));
    assert!(!is_allowed_peer(&nets, &IpAddress::V4(0x0808_0808)));
    assert!(is_allowed_peer(&nets, &IpAddress::V6(1)));
    assert!(!is_allowed_peer(&nets, &IpAddress::V6(2)));
    assert!(is_allowed_peer(&nets, &IpAddress::V6(0xfd00_0000_0000_0000_0000_0000_0000_0001)));
    let everything = IpNetwork::V4 { addr: 0, prefix_len: 0 };
    assert!(network_contains(&everything, &IpAddress::V4(0xffff_ffff)));
    assert!(!network_contains(&everything, &IpAddress::V6(0)));
    let host = IpNetwork::V4 { addr: 0x0a00_0001, prefix_len: 32 };
    assert!(network_contains(&host, &IpAddress::V4(0x0a00_0001)));
    assert!(!network_contains(&host, &IpAddress::V4(0x0a00_0002)));
}

#[test]
fn validation_accepts_a_complete_configuration() {
    assert_eq!(valid_config().validate(), Ok(()));
}

#[test]
fn validation_reports_the_first_broken_rule() {
    let mut c = valid_config();
    c.listen.auth.username = String::new();
    assert_eq!(c.validate(), Err(ConfigError::EmptyListenUsername));
    let mut c = valid_config();
    c.listen.auth.password = String::new();
    assert_eq!(c.validate(), Err(ConfigError::EmptyListenPassword));
    let mut c = valid_config();
    c.listen.message_size_limit_bytes = 0;
    assert_eq!(c.validate(), Err(ConfigError::ZeroMessageSizeLimit));
    let mut c = valid_config();
    c.listen.allowed_networks.clear();
    assert_eq!(c.validate(), Err(ConfigError::NoAllowedNetworks));
    let mut c = valid_config();
    c.remote_smtp.host = "  ".to_string();
    assert_eq!(c.validate(), Err(ConfigError::EmptyRemoteHost));
    let mut c = valid_config();
    c.remote_smtp.hello_name = "\t".to_string();
    assert_eq!(c.validate(), Err(ConfigError::EmptyHelloName));
    let mut c = valid_config();
    c.remote_smtp.port = 0;
    assert_eq!(c.validate(), Err(ConfigError::ZeroRemotePort));
    let mut c = valid_config();
    c.remote_smtp.connect_timeout_secs = 0;
    assert_eq!(c.validate(), Err(ConfigError::ZeroConnectTimeout));
    let mut c = valid_config();
    c.remote_smtp.command_timeout_secs = 0;
    assert_eq!(c.validate(), Err(ConfigError::ZeroCommandTimeout));
    let mut c = valid_config();
    c.remote_smtp.auth = RemoteAuthConfig::Plain { username: "u".to_string(), password: String::new() };
    assert_eq!(c.validate(), Err(ConfigError::IncompletePlainCredentials));
    let mut c = valid_config();
    c.remote_smtp.auth = RemoteAuthConfig::Xoauth2 { username: "u".to_string(), access_token: String::new() };
    assert_eq!(c.validate(), Err(ConfigError::IncompleteOauthCredentials));
    let mut c = valid_config();
    c.remote_smtp.auth =
        RemoteAuthConfig::Oauthbearer { username: String::new(), access_token: "t".to_string(), authzid: None };
    assert_eq!(c.validate(), Err(ConfigError::IncompleteOauthCredentials));
    let mut c = valid_config();
    c.openpgp.enable_wkd = false;
    c.openpgp.enable_keys_openpgp_org = false;
    assert_eq!(c.validate(), Err(ConfigError::NoKeySource));
    assert_eq!(ConfigError::NoKeySource.message(), "at least one OpenPGP key source must be enabled");
    c.openpgp.local_key_files.push("keys.asc".to_string());
    assert_eq!(c.validate(), Ok(()));
}

#[test]
fn relative_paths_follow_the_configuration_file() {
    let mut c = valid_config();
    c.tls.extra_root_certificates = vec!["ca.pem".to_string(), "/etc/ssl/root.pem".to_string()];
    c.openpgp.local_key_files = vec!["keys/a.asc".to_string()];
    c.openpgp.local_key_directories = vec!["keyring".to_string()];
    c.resolve_relative_paths("/etc/sendmail-sec/config.yaml");
    assert_eq!(
        c.tls.extra_root_certificates,
        vec!["/etc/sendmail-sec/ca.pem".to_string(), "/etc/ssl/root.pem".to_string()]
    );
    assert_eq!(c.openpgp.local_key_files, vec!["/etc/sendmail-sec/keys/a.asc".to_string()]);
    assert_eq!(c.openpgp.local_key_directories, vec!["/etc/sendmail-sec/keyring".to_string()]);

    let mut c = valid_config();
    c.openpgp.local_key_files = vec!["a.asc".to_string()];
    c.resolve_relative_paths("config.yaml");
    assert_eq!(c.openpgp.local_key_files, vec!["a.asc".to_string()]);
    c.resolve_relative_paths("");
    assert_eq!(c.openpgp.local_key_files, vec!["a.asc".to_string()]);
}

#[test]
fn configuration_format_follows_extension() {
    assert_eq!(config_format("/etc/a.json"), ConfigFormat::Json);
    assert_eq!(config_format("a.yaml"), ConfigFormat::Yaml);
    assert_eq!(config_format("a.yml"), ConfigFormat::Yaml);
    assert_eq!(config_format("a.conf"), ConfigFormat::YamlOrJson);
    assert_eq!(config_format("config"), ConfigFormat::YamlOrJson);
}

#[test]
fn loading_resolves_paths_then_validates() {
    let mut c = valid_config();
    c.openpgp.local_key_files = vec!["keys/a.asc".to_string(), "/abs/b.asc".to_string()];
    let loaded = finish_loading(c, "/etc/sendmail/config.yaml").unwrap();
    assert_eq!(loaded.openpgp.local_key_files, vec!["/etc/sendmail/keys/a.asc".to_string(), "/abs/b.asc".to_string()]);
    let mut bad = valid_config();
    bad.listen.auth.username = String::new();
    assert_eq!(finish_loading(bad, "/etc/sendmail/config.yaml").err(), Some(ConfigError::EmptyListenUsername));
}
