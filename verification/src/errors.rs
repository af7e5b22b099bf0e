//! Errors.

use std::any::TypeId;
use std::sync::Arc;

use vstd::prelude::*;

use crate::options;
use crate::options::{ConnectionEndpoint, ConnectionOptions};
use crate::text;

verus! {

/// Connection parameters for an error message.
#[derive(PartialEq, Eq, Debug)]
pub struct ConnOptions(ConnectionOptions);

/// What a failed connection is described by: the endpoint, and the config file it
/// came from.
pub open spec fn description(opts: ConnectionOptions) -> Seq<char> {
    let place = match opts.endpoint {
        ConnectionEndpoint::Udp { addr, port } => "("@ + addr@ + ":"@ + text::decimal_text(
            port as nat,
        ) + ")"@,
        ConnectionEndpoint::Pipe { path } => "("@ + path@ + ")"@,
    };
    match opts.used_config_file {
        Some(file) => place + " using cjdnsadmin file at ["@ + file@ + "]"@,
        None => place,
    }
}

impl ConnOptions {
    /// The wrapped parameters.
    pub closed spec fn options(&self) -> ConnectionOptions {
        self.0
    }

    /// Wraps a copy of connection parameters.
    pub fn wrap(opts: &ConnectionOptions) -> (r: ConnOptions)
        ensures
            r.options() == *opts,
    {
        ConnOptions(opts.clone())
    }

    /// Describes the endpoint, and the config file if one was used.
    pub fn descr(&self) -> (r: String)
        ensures
            r@ == description(self.options()),
    {
        let mut msg: String = "(".to_owned();
        match &self.0.endpoint {
            ConnectionEndpoint::Udp { addr, port } => {
                msg.append(addr.as_str());
                msg.append(":");
                msg.append(text::number_text(*port as u64).as_str());
            },
            ConnectionEndpoint::Pipe { path } => {
                msg.append(path.as_str());
            },
        }
        msg.append(")");
        match &self.0.used_config_file {
            Some(file) => {
                msg.append(" using cjdnsadmin file at [");
                msg.append(file.as_str());
                msg.append("]");
            },
            None => {},
        }
        msg
    }
}

impl Clone for ConnOptions {
    fn clone(&self) -> (r: ConnOptions)
        ensures
            r == *self,
    {
        ConnOptions(self.0.clone())
    }
}

impl Default for ConnOptions {
    fn default() -> (r: ConnOptions)
        ensures
            options::is_udp(
                r.options().endpoint,
                options::DEFAULT_ADDR@,
                options::DEFAULT_PORT,
            ),
            r.options().password@ == options::DEFAULT_PASSWORD@,
            r.options().used_config_file is None,
    {
        ConnOptions(ConnectionOptions::default())
    }
}

/// Error type for all cjdns admin operations.
#[derive(Debug, PartialEq, Eq)]
#[non_exhaustive]
pub enum Error {
    /// Connection error - check the remote IP address and port.
    ConnectError(ConnOptions),
    /// Authentication error - check the password.
    AuthError(ConnOptions),
    /// Failed to read cjdnsadmin config file (`~/.cjdnsadmin` by default).
    ConfigFileRead(FileError),
    /// Error parsing cjdnsadmin config file (`~/.cjdnsadmin` by default) - must be a valid JSON file.
    BadConfigFile(String),
    /// Failed to parse IPv4/IPv6 address.
    BadNetworkAddress(String),
    /// Server has closed the connection.
    ConnectionClosed,
    /// Network I/O error.
    NetworkOperation(String),
    /// Failed to serialize/deserialize protocol message.
    Protocol(String),
    /// Remote invocation failed and returned `error` message.
    RemoteError(String),
    /// Repeating transaction id within the same session. Supposed to be internal error.
    RepeatingTx {
        /// The repeated transaction id.
        txid: String,
    },
    /// Network timeout error, with the timeout in milliseconds.
    TimeOut(u64),
    /// Error on dispatch task side.
    DispatchError(DispatchError),
    /// Dispatch task failed to deliver incoming message to its destination.
    DispatchDestination(&'static str),
}

/// Why a file could not be read.
#[derive(Debug, PartialEq, Eq)]
pub struct FileError {
    /// Whether there is no such file.
    pub not_found: bool,
    /// What the system says.
    pub text: String,
}

/// Error type for dispatch-specific unrecoverable connection states.
#[derive(Debug, PartialEq, Eq)]
#[non_exhaustive]
pub enum DispatchError {
    /// Dispatch task is unresponsive.
    /// This likely means that the task itself registers as active, however its request queue is in an invalid state.
    Unresponsive,
    /// Dispatch task was canceled.
    Canceled,
    /// Dispatch task has panicked.
    Panicked(PanicPayload),
    /// Dispatch task has encountered a fatal error.
    FatalError(Arc<Error>),
    /// Refreshing the state of the dispatch task has panicked for some reason.
    Poisoned,
}

/// The identity of a type in an unsupported panic payload.
#[verifier::external_type_specification]
#[verifier::external_body]
pub struct ExTypeId(TypeId);

/// Information about the panic payload.
#[derive(Debug, PartialEq, Eq)]
#[non_exhaustive]
pub enum PanicPayload {
    /// The payload is an owned dynamic string message, likely constructed using argument formatting.
    Text(Arc<String>),
    /// The payload is a static string message, likely represented as a string literal.
    StaticText(&'static str),
    /// The payload is something unsupported.
    UnsupportedType(TypeId),
}

impl Clone for PanicPayload {
    fn clone(&self) -> (r: PanicPayload)
        ensures
            r == *self,
    {
        match self {
            PanicPayload::Text(t) => PanicPayload::Text(Arc::clone(t)),
            PanicPayload::StaticText(t) => PanicPayload::StaticText(*t),
            PanicPayload::UnsupportedType(id) => PanicPayload::UnsupportedType(*id),
        }
    }
}

impl Clone for DispatchError {
    fn clone(&self) -> (r: DispatchError)
        ensures
            r == *self,
    {
        match self {
            DispatchError::Unresponsive => DispatchError::Unresponsive,
            DispatchError::Canceled => DispatchError::Canceled,
            DispatchError::Panicked(p) => DispatchError::Panicked(p.clone()),
            DispatchError::FatalError(e) => DispatchError::FatalError(Arc::clone(e)),
            DispatchError::Poisoned => DispatchError::Poisoned,
        }
    }
}

/// How `std::time::Duration` writes a number of milliseconds.
pub uninterp spec fn duration_text(millis: u64) -> Seq<char>;

/// Calls the `Debug` formatting of `std::time::Duration`, whose text depends on the
/// duration alone.
#[verifier::external_body]
fn write_duration(millis: u64) -> (r: String)
    ensures
        r@ == duration_text(millis),
{
    format!("{:?}", std::time::Duration::from_millis(millis))
}

/// Calls the `Debug` formatting of `std::any::TypeId`. Nothing is said of the text,
/// which differs between builds.
#[verifier::external_body]
fn write_type_id(id: &TypeId) -> (r: String) {
    format!("{:?}", id)
}

/// `msg` is the text of the panic payload.
pub open spec fn payload_says(payload: PanicPayload, msg: Seq<char>) -> bool {
    match payload {
        PanicPayload::Text(t) => msg == t@,
        PanicPayload::StaticText(t) => msg == t@,
        PanicPayload::UnsupportedType(_) => exists|id: Seq<char>|
            msg == #[trigger] ("Unsupported payload type: "@ + id),
    }
}

/// `msg` is the text of the dispatch error.
pub open spec fn dispatch_says(e: DispatchError, msg: Seq<char>) -> bool
    decreases e,
{
    match e {
        DispatchError::Unresponsive => msg == "Dispatch task unresponsive"@,
        DispatchError::Canceled => msg == "Dispatch task canceled"@,
        DispatchError::Panicked(payload) => exists|t: Seq<char>| #[trigger]
            payload_says(payload, t) && msg == "Dispatch task panicked with: "@ + t,
        DispatchError::FatalError(inner) => error_says(*inner, msg),
        DispatchError::Poisoned => msg == "Dispatch handle is poisoned"@,
    }
}

/// `msg` is the text of the error.
pub open spec fn error_says(e: Error, msg: Seq<char>) -> bool
    decreases e,
{
    match e {
        Error::ConnectError(opts) => msg == "Could not find cjdns "@ + description(opts.options())
            + ", see: https://github.com/cjdelisle/cjdnsadmin#connecting"@,
        Error::AuthError(opts) => msg == "Could not authenticate with CJDNS "@ + description(
            opts.options(),
        ) + ", see: https://github.com/cjdelisle/cjdnsadmin#authentication-issues"@,
        Error::ConfigFileRead(file) => msg == "Error reading config file: "@ + file.text@,
        Error::BadConfigFile(t) => msg == "Bad config file: JSON parse error: "@ + t@,
        Error::BadNetworkAddress(t) => msg == "Address parse error: "@ + t@,
        Error::ConnectionClosed => msg == "Connection is closed"@,
        Error::NetworkOperation(t) => msg == "Network error: "@ + t@,
        Error::Protocol(t) => msg == "Encoding error: "@ + t@,
        Error::RemoteError(t) => msg == "Remote call error: "@ + t@,
        Error::RepeatingTx { txid } => msg == "Repeating txid: "@ + txid@,
        Error::TimeOut(millis) => msg == "Timeout occured: "@ + duration_text(millis),
        Error::DispatchError(inner) => dispatch_says(inner, msg),
        Error::DispatchDestination(t) => msg == "Dispatch destination error: "@ + t@,
    }
}

/// The text of a timeout, given how the timeout is written.
pub fn timeout_message(duration: &str) -> (r: String)
    ensures
        r@ == "Timeout occured: "@ + duration@,
{
    "Timeout occured: ".to_owned().concat(duration)
}

impl PanicPayload {
    /// The text of the panic payload.
    pub fn message(&self) -> (r: String)
        ensures
            payload_says(*self, r@),
    {
        match self {
            PanicPayload::Text(t) => t.as_str().to_owned(),
            PanicPayload::StaticText(t) => (*t).to_owned(),
            PanicPayload::UnsupportedType(id) => {
                let id: String = write_type_id(id);
                let r: String = "Unsupported payload type: ".to_owned().concat(id.as_str());
                assert(r@ == "Unsupported payload type: "@ + id@);
                r
            },
        }
    }
}

impl DispatchError {
    /// The text of the error.
    pub fn message(&self) -> (r: String)
        ensures
            dispatch_says(*self, r@),
        decreases self,
    {
        match self {
            DispatchError::Unresponsive => "Dispatch task unresponsive".to_owned(),
            DispatchError::Canceled => "Dispatch task canceled".to_owned(),
            DispatchError::Panicked(payload) => {
                let t: String = payload.message();
                assert(payload_says(*payload, t@));
                "Dispatch task panicked with: ".to_owned().concat(t.as_str())
            },
            DispatchError::FatalError(inner) => (&**inner).message(),
            DispatchError::Poisoned => "Dispatch handle is poisoned".to_owned(),
        }
    }
}

impl Error {
    /// The text of the error.
    pub fn message(&self) -> (r: String)
        ensures
            error_says(*self, r@),
        decreases self,
    {
        match self {
            Error::ConnectError(opts) => {
                let mut msg: String = "Could not find cjdns ".to_owned();
                msg.append(opts.descr().as_str());
                msg.append(", see: https://github.com/cjdelisle/cjdnsadmin#connecting");
                msg
            },
            Error::AuthError(opts) => {
                let mut msg: String = "Could not authenticate with CJDNS ".to_owned();
                msg.append(opts.descr().as_str());
                msg.append(", see: https://github.com/cjdelisle/cjdnsadmin#authentication-issues");
                msg
            },
            Error::ConfigFileRead(file) => {
                "Error reading config file: ".to_owned().concat(file.text.as_str())
            },
            Error::BadConfigFile(t) => {
                "Bad config file: JSON parse error: ".to_owned().concat(t.as_str())
            },
            Error::BadNetworkAddress(t) => "Address parse error: ".to_owned().concat(t.as_str()),
            Error::ConnectionClosed => "Connection is closed".to_owned(),
            Error::NetworkOperation(t) => "Network error: ".to_owned().concat(t.as_str()),
            Error::Protocol(t) => "Encoding error: ".to_owned().concat(t.as_str()),
            Error::RemoteError(t) => "Remote call error: ".to_owned().concat(t.as_str()),
            Error::RepeatingTx { txid } => "Repeating txid: ".to_owned().concat(txid.as_str()),
            Error::TimeOut(millis) => timeout_message(write_duration(*millis).as_str()),
            Error::DispatchError(inner) => inner.message(),
            Error::DispatchDestination(t) => "Dispatch destination error: ".to_owned().concat(*t),
        }
    }
}

/// A description names the whole endpoint, and the config file where one was used.
pub proof fn law_description_is_complete(opts: ConnectionOptions)
    ensures
        ({
            let file = match opts.used_config_file {
                Some(file) => " using cjdnsadmin file at ["@ + file@ + "]"@,
                None => Seq::empty(),
            };
            match opts.endpoint {
                ConnectionEndpoint::Udp { addr, port } => description(opts) == "("@ + addr@ + ":"@
                    + text::decimal_text(port as nat) + ")"@ + file,
                ConnectionEndpoint::Pipe { path } => description(opts) == "("@ + path@ + ")"@ + file,
            }
        }),
{
    let d = description(opts);
    match opts.used_config_file {
        Some(file) => {
            match opts.endpoint {
                ConnectionEndpoint::Udp { addr, port } => {
                    let place = "("@ + addr@ + ":"@ + text::decimal_text(port as nat) + ")"@;
                    assert(d =~= place + (" using cjdnsadmin file at ["@ + file@ + "]"@));
                },
                ConnectionEndpoint::Pipe { path } => {
                    let place = "("@ + path@ + ")"@;
                    assert(d =~= place + (" using cjdnsadmin file at ["@ + file@ + "]"@));
                },
            }
        },
        None => {
            assert(d + Seq::<char>::empty() =~= d);
        },
    }
}

/// The text of an error says what kind of error it is, and ends with all that it carries.
pub proof fn law_error_text_carries_the_cause(e: Error, msg: Seq<char>)
    requires
        error_says(e, msg),
    ensures
        e matches Error::ConnectError(o) ==> msg == "Could not find cjdns "@ + description(
            o.options(),
        ) + ", see: https://github.com/cjdelisle/cjdnsadmin#connecting"@,
        e matches Error::AuthError(o) ==> msg == "Could not authenticate with CJDNS "@
            + description(o.options())
            + ", see: https://github.com/cjdelisle/cjdnsadmin#authentication-issues"@,
        e matches Error::ConfigFileRead(f) ==> msg == "Error reading config file: "@ + f.text@,
        e matches Error::BadConfigFile(t) ==> msg == "Bad config file: JSON parse error: "@ + t@,
        e matches Error::BadNetworkAddress(t) ==> msg == "Address parse error: "@ + t@,
        e is ConnectionClosed ==> msg == "Connection is closed"@,
        e matches Error::NetworkOperation(t) ==> msg == "Network error: "@ + t@,
        e matches Error::Protocol(t) ==> msg == "Encoding error: "@ + t@,
        e matches Error::RemoteError(t) ==> msg == "Remote call error: "@ + t@,
        e matches Error::RepeatingTx { txid } ==> msg == "Repeating txid: "@ + txid@,
        e matches Error::TimeOut(n) ==> msg == "Timeout occured: "@ + duration_text(n),
        e matches Error::DispatchDestination(t) ==> msg == "Dispatch destination error: "@ + t@,
        e matches Error::DispatchError(DispatchError::Unresponsive) ==> msg
            == "Dispatch task unresponsive"@,
        e matches Error::DispatchError(DispatchError::Canceled) ==> msg
            == "Dispatch task canceled"@,
        e matches Error::DispatchError(DispatchError::Poisoned) ==> msg
            == "Dispatch handle is poisoned"@,
        e matches Error::DispatchError(DispatchError::Panicked(PanicPayload::Text(t))) ==> msg
            == "Dispatch task panicked with: "@ + t@,
        e matches Error::DispatchError(DispatchError::Panicked(PanicPayload::StaticText(t)))
            ==> msg == "Dispatch task panicked with: "@ + t@,
        e matches Error::DispatchError(DispatchError::Panicked(PanicPayload::UnsupportedType(_)))
            ==> exists|id: Seq<char>|
            msg == #[trigger] ("Dispatch task panicked with: "@ + ("Unsupported payload type: "@ + id)),
        e matches Error::DispatchError(DispatchError::FatalError(inner)) ==> error_says(*inner, msg),
{
    reveal_with_fuel(dispatch_says, 2);
    match e {
        Error::DispatchError(DispatchError::Panicked(PanicPayload::UnsupportedType(id))) => {
            let p = PanicPayload::UnsupportedType(id);
            let t = choose|t: Seq<char>| #[trigger]
                payload_says(p, t) && msg == "Dispatch task panicked with: "@ + t;
            let id = choose|id: Seq<char>| t == #[trigger] ("Unsupported payload type: "@ + id);
            assert(msg == "Dispatch task panicked with: "@ + ("Unsupported payload type: "@ + id));
        },
        _ => {},
    }
}

} // verus!
