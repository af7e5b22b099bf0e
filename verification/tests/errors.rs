use std::any::TypeId;
use std::sync::Arc;

use cjdns_admin::options::{ConnectionEndpoint, ConnectionOptions};
use cjdns_admin::{ConnOptions, DispatchError, Error, FileError, PanicPayload};

fn options() -> ConnOptions {
    ConnOptions::wrap(&ConnectionOptions {
        endpoint: ConnectionEndpoint::Udp {
            addr: "10.0.0.1".to_owned(),
            port: 77,
        },
        password: "secret".to_owned(),
        used_config_file: Some("/conf".to_owned()),
    })
}

#[test]
fn options_are_described() {
    assert_eq!(options().descr(), "(10.0.0.1:77) using cjdnsadmin file at [/conf]");
    assert_eq!(ConnOptions::default().descr(), "(127.0.0.1:11234)");
    let pipe = ConnOptions::wrap(&ConnectionOptions {
        endpoint: ConnectionEndpoint::Pipe { path: "a.sock".to_owned() },
        password: String::new(),
        used_config_file: None,
    });
    assert_eq!(pipe.descr(), "(a.sock)");
    assert_eq!(pipe.clone(), pipe);
}

#[test]
fn errors_say_what_happened() {
    assert_eq!(
        Error::ConnectError(options()).message(),
        "Could not find cjdns (10.0.0.1:77) using cjdnsadmin file at [/conf], see: https://github.com/cjdelisle/cjdnsadmin#connecting"
    );
    assert_eq!(
        Error::AuthError(ConnOptions::default()).message(),
        "Could not authenticate with CJDNS (127.0.0.1:11234), see: https://github.com/cjdelisle/cjdnsadmin#authentication-issues"
    );
    let file = FileError {
        not_found: false,
        text: "denied".to_owned(),
    };
    assert_eq!(Error::ConfigFileRead(file).message(), "Error reading config file: denied");
    assert_eq!(Error::BadConfigFile("eof".to_owned()).message(), "Bad config file: JSON parse error: eof");
    assert_eq!(Error::BadNetworkAddress("bad".to_owned()).message(), "Address parse error: bad");
    assert_eq!(Error::ConnectionClosed.message(), "Connection is closed");
    assert_eq!(Error::NetworkOperation("down".to_owned()).message(), "Network error: down");
    assert_eq!(Error::Protocol("odd".to_owned()).message(), "Encoding error: odd");
    assert_eq!(Error::RemoteError("no".to_owned()).message(), "Remote call error: no");
    assert_eq!(Error::RepeatingTx { txid: "1".to_owned() }.message(), "Repeating txid: 1");
    assert_eq!(Error::TimeOut(10_000).message(), "Timeout occured: 10s");
    assert_eq!(Error::TimeOut(1_500).message(), "Timeout occured: 1.5s");
    assert_eq!(Error::DispatchDestination("gone").message(), "Dispatch destination error: gone");
}

#[test]
fn dispatch_errors_say_what_happened() {
    let says = |e: DispatchError| Error::DispatchError(e).message();
    assert_eq!(says(DispatchError::Unresponsive), "Dispatch task unresponsive");
    assert_eq!(says(DispatchError::Canceled), "Dispatch task canceled");
    assert_eq!(says(DispatchError::Poisoned), "Dispatch handle is poisoned");
    assert_eq!(says(DispatchError::FatalError(Arc::new(Error::ConnectionClosed))), "Connection is closed");
    assert_eq!(
        says(DispatchError::Panicked(PanicPayload::StaticText("ouch"))),
        "Dispatch task panicked with: ouch"
    );
    assert_eq!(
        says(DispatchError::Panicked(PanicPayload::Text(Arc::new("ouch 2".to_owned())))),
        "Dispatch task panicked with: ouch 2"
    );
    let id = TypeId::of::<u32>();
    assert_eq!(
        PanicPayload::UnsupportedType(id).message(),
        format!("Unsupported payload type: {id:?}")
    );
}
