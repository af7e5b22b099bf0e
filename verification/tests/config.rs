use cjdns_admin::config::{ConfigFile, DEFAULT_CONFIG_FILE_NAME};
use cjdns_admin::options::{ConnectionEndpoint, ConnectionOptions};
use cjdns_admin::{EndpointType, Error, FileError, Opts};

#[test]
fn test_build_connection_options() {
    let s = |s: &str| -> String { s.to_string() };
    let ss = |s: &str| -> Option<String> { Some(s.to_string()) };
    let udp = |a: &str, p: u16| -> ConnectionEndpoint { ConnectionEndpoint::Udp { addr: s(a), port: p } };
    let pipe = |p: &str| -> ConnectionEndpoint { ConnectionEndpoint::Pipe { path: s(p) } };

    assert_eq!(
        Opts::default().build_connection_options(None),
        ConnectionOptions {
            endpoint: udp("127.0.0.1", 11234),
            password: s("NONE"),
            used_config_file: None,
        }
    );

    assert_eq!(
        Opts { anon: true, ..Opts::default() }.build_connection_options(None),
        ConnectionOptions {
            endpoint: udp("127.0.0.1", 11234),
            password: s(""),
            used_config_file: None,
        }
    );

    assert_eq!(
        Opts {
            addr: ss("192.168.1.1"),
            ..Opts::default()
        }
        .build_connection_options(None),
        ConnectionOptions {
            endpoint: udp("192.168.1.1", 11234),
            password: s("NONE"),
            used_config_file: None,
        }
    );

    assert_eq!(
        Opts {
            port: Some(1234),
            ..Opts::default()
        }
        .build_connection_options(None),
        ConnectionOptions {
            endpoint: udp("127.0.0.1", 1234),
            password: s("NONE"),
            used_config_file: None,
        }
    );

    assert_eq!(
        Opts {
            typ: Some(EndpointType::Pipe),
            ..Opts::default()
        }
        .build_connection_options(None),
        ConnectionOptions {
            endpoint: pipe("cjdroute.sock"),
            password: s("NONE"),
            used_config_file: None,
        }
    );

    assert_eq!(
        Opts {
            typ: Some(EndpointType::Pipe),
            path: ss("foobar.sock"),
            ..Opts::default()
        }
        .build_connection_options(None),
        ConnectionOptions {
            endpoint: pipe("foobar.sock"),
            password: s("NONE"),
            used_config_file: None,
        }
    );

    assert_eq!(
        Opts {
            password: ss("secret"),
            ..Opts::default()
        }
        .build_connection_options(None),
        ConnectionOptions {
            endpoint: udp("127.0.0.1", 11234),
            password: s("secret"),
            used_config_file: None,
        }
    );
}

#[test]
fn config_file_is_on_record() {
    let opts = Opts::default().build_connection_options(Some("/etc/cjdnsadmin".to_string()));
    assert_eq!(opts.used_config_file, Some("/etc/cjdnsadmin".to_string()));
    assert_eq!(opts.password, "NONE");
}

#[test]
fn anonymous_connection_uses_no_password() {
    let opts = Opts {
        password: Some("secret".to_string()),
        anon: true,
        ..Opts::default()
    };
    assert_eq!(opts.build_connection_options(None).password, "");
    let conf = Opts {
        password: Some("secret".to_string()),
        anon: true,
        ..Opts::default()
    };
    assert_eq!(Opts::default().into_connection_options(Some(("/conf".to_string(), conf))).password, "");
}

#[test]
fn config_file_is_read_unless_configured() {
    let none = Opts::default();
    assert!(!none.is_configured());
    assert_eq!(none.config_file_to_read(true), Some(ConfigFile::InHome(DEFAULT_CONFIG_FILE_NAME)));
    assert_eq!(none.config_file_to_read(false), None);

    let named = Opts {
        addr: Some("10.0.0.1".to_string()),
        config_file_path: Some("conf".to_string()),
        ..Opts::default()
    };
    assert!(!named.is_configured());
    assert_eq!(named.config_file_to_read(false), Some(ConfigFile::At("conf".to_string())));
    assert_eq!(named.get_config_file_location(true), Some(ConfigFile::At("conf".to_string())));

    let configured = Opts {
        port: Some(1),
        ..Opts::default()
    };
    assert!(configured.is_configured());
    assert_eq!(configured.config_file_to_read(true), None);

    let anon = Opts {
        anon: true,
        ..Opts::default()
    };
    assert!(!anon.is_configured());
}

#[test]
fn missing_config_file_is_no_error() {
    let missing = Error::ConfigFileRead(FileError {
        not_found: true,
        text: "no such file".to_string(),
    });
    assert_eq!(Opts::read_optional_config_file(Err(missing)), Ok(None));

    let denied = Error::ConfigFileRead(FileError {
        not_found: false,
        text: "permission denied".to_string(),
    });
    assert_eq!(
        Opts::read_optional_config_file(Err(denied)),
        Err(Error::ConfigFileRead(FileError {
            not_found: false,
            text: "permission denied".to_string(),
        }))
    );

    assert_eq!(
        Opts::read_optional_config_file(Err(Error::BadConfigFile("eof".to_string()))),
        Err(Error::BadConfigFile("eof".to_string()))
    );
    assert_eq!(Opts::read_optional_config_file(Ok(Opts::default())), Ok(Some(Opts::default())));
}

#[test]
fn config_file_replaces_options() {
    let conf = Opts {
        port: Some(77),
        ..Opts::default()
    };
    let opts = Opts::default().into_connection_options(Some(("/conf".to_string(), conf)));
    assert_eq!(
        opts,
        ConnectionOptions {
            endpoint: ConnectionEndpoint::Udp {
                addr: "127.0.0.1".to_string(),
                port: 77
            },
            password: "NONE".to_string(),
            used_config_file: Some("/conf".to_string()),
        }
    );
    assert_eq!(Opts::default().into_connection_options(None), ConnectionOptions::default());
    assert_eq!(EndpointType::default(), EndpointType::Udp);
}
