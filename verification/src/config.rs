//! Configuration options.

use vstd::prelude::*;

use crate::errors::{Error, FileError};
use crate::options;
use crate::options::{
    ConnectionEndpoint, ConnectionOptions, DEFAULT_ADDR, DEFAULT_PASSWORD, DEFAULT_PIPE_PATH,
    DEFAULT_PORT,
};

verus! {

/// Name of the config file in the home directory.
pub const DEFAULT_CONFIG_FILE_NAME: &'static str = ".cjdnsadmin";

/// Connection options. Can be loaded from a config file.
#[derive(Clone, PartialEq, Eq, Debug)]
pub struct Opts {
    /// Endpoint type. If `None`, default `Udp` is used.
    pub typ: Option<EndpointType>,
    /// Remote IP address (either IPv4 or IPv6) for `Udp` endpoint.
    pub addr: Option<String>,
    /// Remote UDP port for `Udp` endpoint.
    pub port: Option<u16>,
    /// Local path to Unix domain socket or Windows named pipe for `Pipe` endpoint,
    /// can be either absolute or relative to default pipe path for the target system.
    pub path: Option<String>,
    /// Password for authentication. If `None`, default "NONE" password is used.
    pub password: Option<String>,
    /// Optional path to config file (`~/.cjdnsadmin` used by default).
    pub config_file_path: Option<String>,
    /// Anonymous connection - do not use password.
    pub anon: bool,
}

/// Connection endpoint type.
#[derive(Debug, Clone, Copy, PartialEq, Eq, PartialOrd, Ord, Hash)]
#[non_exhaustive]
pub enum EndpointType {
    /// Represents remote UDP `addr:port` endpoint.
    Udp,
    /// Represents local Unix domain socket / Windows named pipe endpoint.
    Pipe,
}

/// Where a config file is to be looked for.
#[derive(Debug, PartialEq, Eq)]
pub enum ConfigFile {
    /// At this path.
    At(String),
    /// In the home directory, under this name.
    InHome(&'static str),
}

impl Default for EndpointType {
    fn default() -> (r: EndpointType)
        ensures
            r == EndpointType::Udp,
    {
        EndpointType::Udp
    }
}

impl Default for Opts {
    fn default() -> (r: Opts)
        ensures
            r.typ is None,
            r.addr is None,
            r.port is None,
            r.path is None,
            r.password is None,
            r.config_file_path is None,
            !r.anon,
    {
        Opts {
            typ: None,
            addr: None,
            port: None,
            path: None,
            password: None,
            config_file_path: None,
            anon: false,
        }
    }
}

/// The text, or the default where there is none.
pub open spec fn text_or(t: Option<String>, default: Seq<char>) -> Seq<char> {
    match t {
        Some(t) => t@,
        None => default,
    }
}

/// The connection parameters are those that `opts` asks for, with defaults for what it
/// leaves out; `conf_file` is on record as their source.
pub open spec fn built_from(
    r: ConnectionOptions,
    opts: Opts,
    conf_file: Option<Seq<char>>,
) -> bool {
    &&& match opts.typ {
        Some(EndpointType::Pipe) => options::is_pipe(
            r.endpoint,
            text_or(opts.path, DEFAULT_PIPE_PATH@),
        ),
        _ => options::is_udp(
            r.endpoint,
            text_or(opts.addr, DEFAULT_ADDR@),
            match opts.port {
                Some(port) => port,
                None => DEFAULT_PORT,
            },
        ),
    }
    &&& r.password@ == (if opts.anon {
        Seq::empty()
    } else {
        text_or(opts.password, DEFAULT_PASSWORD@)
    })
    &&& match r.used_config_file {
        Some(file) => conf_file == Some(file@),
        None => conf_file is None,
    }
}

/// The text, or the default where there is none.
fn text_or_default(t: Option<String>, default: &str) -> (r: String)
    ensures
        r@ == text_or(t, default@),
{
    match t {
        Some(t) => t,
        None => default.to_owned(),
    }
}

impl Opts {
    /// The options say where or how to connect, and name no config file.
    pub open spec fn configured(&self) -> bool {
        &&& self.typ is Some || self.addr is Some || self.port is Some || self.path is Some
            || self.password is Some
        &&& self.config_file_path is None
    }

    /// Whether the options say where or how to connect, and name no config file. A config
    /// file is then not read.
    pub fn is_configured(&self) -> (r: bool)
        ensures
            r == self.configured(),
    {
        (self.typ.is_some() || self.addr.is_some() || self.port.is_some() || self.path.is_some()
            || self.password.is_some()) && self.config_file_path.is_none()
    }

    /// The config file to use: the one named, else the one in the home directory, if there
    /// is a home directory.
    pub fn get_config_file_location(&self, has_home: bool) -> (r: Option<ConfigFile>)
        ensures
            match self.config_file_path {
                Some(path) => r matches Some(ConfigFile::At(p)) && p@ == path@,
                None => if has_home {
                    r == Some(ConfigFile::InHome(DEFAULT_CONFIG_FILE_NAME))
                } else {
                    r is None
                },
            },
    {
        match &self.config_file_path {
            Some(path) => Some(ConfigFile::At(path.clone())),
            None => if has_home {
                Some(ConfigFile::InHome(DEFAULT_CONFIG_FILE_NAME))
            } else {
                None
            },
        }
    }

    /// The config file that is to be read before connecting, if any.
    pub fn config_file_to_read(&self, has_home: bool) -> (r: Option<ConfigFile>)
        ensures
            self.configured() ==> r is None,
            !self.configured() ==> match self.config_file_path {
                Some(path) => r matches Some(ConfigFile::At(p)) && p@ == path@,
                None => if has_home {
                    r == Some(ConfigFile::InHome(DEFAULT_CONFIG_FILE_NAME))
                } else {
                    r is None
                },
            },
    {
        if self.is_configured() {
            None
        } else {
            self.get_config_file_location(has_home)
        }
    }

    /// What reading a config file that need not exist comes to: a missing file is no error.
    pub fn read_optional_config_file(read: Result<Opts, Error>) -> (r: Result<Option<Opts>, Error>)
        ensures
            match read {
                Ok(conf) => r == Ok::<Option<Opts>, Error>(Some(conf)),
                Err(Error::ConfigFileRead(FileError { not_found: true, text: _ })) => r == Ok::<
                    Option<Opts>,
                    Error,
                >(None),
                Err(e) => r == Err::<Option<Opts>, Error>(e),
            },
    {
        match read {
            Ok(conf) => Ok(Some(conf)),
            Err(Error::ConfigFileRead(FileError { not_found: true, text: _ })) => Ok(None),
            Err(e) => Err(e),
        }
    }

    /// The parameters to connect with, given what reading the config file gave: the options
    /// of a file that was read take the place of these options.
    pub fn into_connection_options(self, file: Option<(String, Opts)>) -> (r: ConnectionOptions)
        ensures
            match file {
                Some((path, conf)) => if self.configured() {
                    built_from(r, self, None)
                } else {
                    built_from(r, conf, Some(path@))
                },
                None => built_from(r, self, None),
            },
    {
        if self.is_configured() {
            return self.build_connection_options(None);
        }
        match file {
            Some((path, conf)) => conf.build_connection_options(Some(path)),
            None => self.build_connection_options(None),
        }
    }

    /// Fills in defaults for what the options leave out.
    pub fn build_connection_options(self, conf_file: Option<String>) -> (r: ConnectionOptions)
        ensures
            built_from(
                r,
                self,
                match conf_file {
                    Some(file) => Some(file@),
                    None => None,
                },
            ),
    {
        let typ: EndpointType = match self.typ {
            Some(typ) => typ,
            None => EndpointType::Udp,
        };
        ConnectionOptions {
            endpoint: match typ {
                EndpointType::Udp => ConnectionEndpoint::Udp {
                    addr: text_or_default(self.addr, DEFAULT_ADDR),
                    port: match self.port {
                        Some(port) => port,
                        None => DEFAULT_PORT,
                    },
                },
                EndpointType::Pipe => ConnectionEndpoint::Pipe {
                    path: text_or_default(self.path, DEFAULT_PIPE_PATH),
                },
            },
            password: if self.anon {
                String::new()
            } else {
                text_or_default(self.password, DEFAULT_PASSWORD)
            },
            used_config_file: conf_file,
        }
    }
}

/// Options that leave everything out ask for the default connection parameters.
pub proof fn law_empty_options_mean_defaults(opts: Opts, r: ConnectionOptions)
    requires
        opts.typ is None,
        opts.addr is None,
        opts.port is None,
        opts.password is None,
        !opts.anon,
        built_from(r, opts, None),
    ensures
        options::is_udp(r.endpoint, DEFAULT_ADDR@, DEFAULT_PORT),
        r.password@ == DEFAULT_PASSWORD@,
        r.used_config_file is None,
{
}

/// An anonymous connection uses no password, not even one that is given: its password is
/// empty, and so it makes no authenticated calls.
pub proof fn law_anonymous_without_password(opts: Opts, r: ConnectionOptions, file: Option<Seq<char>>)
    requires
        opts.anon,
        built_from(r, opts, file),
    ensures
        r.password@ == Seq::<char>::empty(),
{
}

/// What is asked for is what is used, each part without regard to the others; what is left
/// out has its default.
pub proof fn law_given_options_are_used(opts: Opts, r: ConnectionOptions, file: Option<Seq<char>>)
    requires
        built_from(r, opts, file),
    ensures
        r.endpoint is Pipe <==> opts.typ == Some(EndpointType::Pipe),
        r.endpoint matches ConnectionEndpoint::Pipe { path } ==> match opts.path {
            Some(p) => path@ == p@,
            None => path@ == "cjdroute.sock"@,
        },
        r.endpoint matches ConnectionEndpoint::Udp { port, .. } ==> match opts.port {
            Some(p) => port == p,
            None => port == 11234,
        },
        r.endpoint matches ConnectionEndpoint::Udp { addr, .. } ==> match opts.addr {
            Some(a) => addr@ == a@,
            None => addr@ == "127.0.0.1"@,
        },
        opts.anon ==> r.password@.len() == 0,
        !opts.anon && opts.password is Some ==> r.password@ == opts.password->Some_0@,
        !opts.anon && opts.password is None ==> r.password@ == "NONE"@,
        file is None <==> r.used_config_file is None,
        file matches Some(f) ==> r.used_config_file->Some_0@ == f,
{
    options::law_endpoint_is_what_it_says(r.endpoint, text_or(opts.path, DEFAULT_PIPE_PATH@), 0);
}

/// Two sets of options that differ in one part give parameters that differ at most in what
/// that part decides.
pub proof fn law_options_do_not_interfere(
    a: Opts,
    b: Opts,
    ra: ConnectionOptions,
    rb: ConnectionOptions,
    file: Option<Seq<char>>,
)
    requires
        built_from(ra, a, file),
        built_from(rb, b, file),
    ensures
        a.password == b.password && a.anon == b.anon ==> ra.password@ == rb.password@,
        a.port == b.port && ra.endpoint is Udp && rb.endpoint is Udp ==> ra.endpoint->port
            == rb.endpoint->port,
        a.addr == b.addr && ra.endpoint is Udp && rb.endpoint is Udp ==> ra.endpoint->addr@
            == rb.endpoint->addr@,
        a.path == b.path && ra.endpoint is Pipe && rb.endpoint is Pipe ==> ra.endpoint->path@
            == rb.endpoint->path@,
        a.typ == b.typ ==> (ra.endpoint is Pipe <==> rb.endpoint is Pipe),
{
    law_given_options_are_used(a, ra, file);
    law_given_options_are_used(b, rb, file);
}

/// Options are complete without a config file as soon as one of the parts that say where or
/// how to connect is given, whichever it is, unless they name a config file.
pub proof fn law_any_part_makes_options_complete(opts: Opts)
    ensures
        opts.config_file_path is Some ==> !opts.configured(),
        opts.config_file_path is None && opts.typ is Some ==> opts.configured(),
        opts.config_file_path is None && opts.addr is Some ==> opts.configured(),
        opts.config_file_path is None && opts.port is Some ==> opts.configured(),
        opts.config_file_path is None && opts.path is Some ==> opts.configured(),
        opts.config_file_path is None && opts.password is Some ==> opts.configured(),
        opts.typ is None && opts.addr is None && opts.port is None && opts.path is None
            && opts.password is None ==> !opts.configured(),
{
}

} // verus!
