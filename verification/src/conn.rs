//! Calls of remote functions, and what a connection asks of the router when it is made.

use vstd::prelude::*;
use vstd::utf8::*;

use crate::bencode;
use crate::crypto;
use crate::dispatch::{Dispatch, DispatchState, Response, TaskEnd};
use crate::dispatch;
use crate::errors::{ConnOptions, DispatchError, Error};
use crate::func_list::Funcs;
use crate::func_list;
use crate::number;
use crate::object::{Dict, EntryError, Object, Value};
use crate::object;
use crate::options::ConnectionOptions;
use crate::order;
use crate::text;

verus! {

/// How long the answer to the first ping may take, in milliseconds.
pub const PING_TIMEOUT: u64 = 1_000;

/// How long any other call may take, in milliseconds.
pub const DEFAULT_TIMEOUT: u64 = 10_000;

/// Text as a value of a message.
pub open spec fn text_value(t: Seq<char>) -> Value {
    Value::Bytes(encode_utf8(t))
}

/// The request that calls a function without authentication.
pub open spec fn plain_request(
    txid: Seq<char>,
    name: Seq<char>,
    args: Map<Seq<u8>, Value>,
) -> Map<Seq<u8>, Value> {
    Map::<Seq<u8>, Value>::empty().insert(object::key("txid"@), text_value(txid)).insert(
        object::key("q"@),
        text_value(name),
    ).insert(object::key("args"@), Value::Dict(args))
}

/// The request that calls a function with authentication, with the given hash in it.
pub open spec fn hashed_request(
    txid: Seq<char>,
    name: Seq<char>,
    args: Map<Seq<u8>, Value>,
    cookie: Seq<char>,
    hash: Seq<char>,
) -> Map<Seq<u8>, Value> {
    Map::<Seq<u8>, Value>::empty().insert(object::key("txid"@), text_value(txid)).insert(
        object::key("q"@),
        text_value("auth"@),
    ).insert(object::key("aq"@), text_value(name)).insert(
        object::key("args"@),
        Value::Dict(args),
    ).insert(object::key("cookie"@), text_value(cookie)).insert(
        object::key("hash"@),
        text_value(hash),
    )
}

/// The hash of the password with the cookie as salt.
pub open spec fn password_hash(password: Seq<char>, cookie: Seq<char>) -> Seq<char> {
    crypto::hash_text(encode_utf8(password + cookie))
}

/// The request that calls a function with authentication. Its hash is that of the whole
/// request with the hash of the password in it.
pub open spec fn auth_request(
    txid: Seq<char>,
    name: Seq<char>,
    args: Map<Seq<u8>, Value>,
    cookie: Seq<char>,
    password: Seq<char>,
) -> Map<Seq<u8>, Value> {
    let initial = hashed_request(txid, name, args, cookie, password_hash(password, cookie));
    initial.insert(
        object::key("hash"@),
        text_value(crypto::hash_text(bencode::encode(Value::Dict(initial)))),
    )
}

/// Makes the request that calls a function without authentication.
pub fn make_plain_request(txid: &str, name: &str, args: Dict) -> (r: Dict)
    ensures
        r@ == plain_request(txid@, name@, args@),
{
    let mut req: Dict = Dict::new();
    req.insert("txid", Object::text(txid));
    req.insert("q", Object::text(name));
    req.insert("args", Object::Dict(args));
    req
}

/// Makes the request that calls a function with authentication, with the given hash in it.
pub fn make_hashed_request(txid: &str, name: &str, args: Dict, cookie: &str, hash: &str) -> (r: Dict)
    ensures
        r@ == hashed_request(txid@, name@, args@, cookie@, hash@),
{
    let mut req: Dict = Dict::new();
    req.insert("txid", Object::text(txid));
    req.insert("q", Object::text("auth"));
    req.insert("aq", Object::text(name));
    req.insert("args", Object::Dict(args));
    req.insert("cookie", Object::text(cookie));
    req.insert("hash", Object::text(hash));
    req
}

/// Puts a new hash into a request.
pub fn replace_hash(req: Dict, hash: &str) -> (r: Dict)
    ensures
        r@ == req@.insert(object::key("hash"@), text_value(hash@)),
{
    let mut req: Dict = req;
    req.insert("hash", Object::text(hash));
    req
}

/// Makes the request that calls a function with authentication.
pub fn make_auth_request(txid: &str, name: &str, args: Dict, cookie: &str, password: &str) -> (r: Dict)
    ensures
        r@ == auth_request(txid@, name@, args@, cookie@, password@),
{
    let salted: String = password.to_owned().concat(cookie);
    let passwd_hash: String = crypto::hash_hex(salted.as_str().as_bytes());
    let req: Dict = make_hashed_request(txid, name, args, cookie, passwd_hash.as_str());
    let bytes: Vec<u8> = bencode::serialize(&req);
    let msg_hash: String = crypto::hash_hex(bytes.as_slice());
    replace_hash(req, msg_hash.as_str())
}

/// The two hashes of an authenticated request leave everything else in it alone: it says
/// what it would say with any other hash in it.
pub proof fn law_hash_is_the_only_change(
    txid: Seq<char>,
    name: Seq<char>,
    args: Map<Seq<u8>, Value>,
    cookie: Seq<char>,
    password: Seq<char>,
    hash: Seq<char>,
)
    ensures
        auth_request(txid, name, args, cookie, password).remove(object::key("hash"@))
            == hashed_request(txid, name, args, cookie, hash).remove(object::key("hash"@)),
{
    assert(auth_request(txid, name, args, cookie, password).remove(object::key("hash"@))
        =~= hashed_request(txid, name, args, cookie, hash).remove(object::key("hash"@)));
}

/// The cookie in the reply to a request for one, or why there is none.
pub open spec fn cookie_in(reply: Map<Seq<u8>, Value>) -> Result<Seq<char>, Seq<char>> {
    match object::text_at(reply, "cookie"@) {
        Ok(cookie) => Ok(cookie),
        Err(EntryError::Missing) => Err("cookie missing"@),
        Err(EntryError::WrongType) => Err("Error getting cookie: not a text"@),
    }
}

/// Reads the cookie in the reply to a request for one.
pub fn read_cookie(reply: &Dict) -> (r: Result<String, Error>)
    ensures
        match cookie_in(reply@) {
            Ok(cookie) => r is Ok && r->Ok_0@ == cookie,
            Err(t) => r is Err && dispatch::is_protocol_error(r->Err_0, t),
        },
{
    match reply.get_text("cookie") {
        Ok(cookie) => Ok(cookie.to_owned()),
        Err(EntryError::Missing) => Err(Error::Protocol("cookie missing".to_owned())),
        Err(EntryError::WrongType) => Err(
            Error::Protocol("Error getting cookie: not a text".to_owned()),
        ),
    }
}

/// What a call in progress waits for.
pub enum CallState {
    /// The reply to a request for a cookie, with which the function is to be called.
    AwaitCookie {
        /// The function.
        name: String,
        /// Its arguments.
        args: Dict,
        /// The password.
        password: String,
    },
    /// The reply of the function.
    AwaitReply,
}

/// How a call goes on.
pub enum CallStep<R> {
    /// Send another request and wait for its reply.
    Send {
        /// The request.
        request: Dict,
        /// Its transaction id.
        txid: String,
        /// What the call then waits for.
        then_wait: CallState,
    },
    /// The call is over.
    Done(Result<Response<R>, Error>),
}

/// Starts a call: gives the first request to send, and what the call then waits for. A
/// call is authenticated if there is a password and authentication is not switched off.
pub fn begin_call(name: String, args: Dict, password: String, disable_auth: bool, txid: &str) -> (r: (
    Dict,
    CallState,
))
    ensures
        if disable_auth || password@.len() == 0 {
            r.0@ == plain_request(txid@, name@, args@) && r.1 is AwaitReply
        } else {
            r.0@ == plain_request(txid@, "cookie"@, Map::<Seq<u8>, Value>::empty()) && r.1 == (
            CallState::AwaitCookie { name, args, password })
        },
{
    if disable_auth || password.as_str().unicode_len() == 0 {
        (make_plain_request(txid, name.as_str(), args), CallState::AwaitReply)
    } else {
        let req: Dict = make_plain_request(txid, "cookie", Dict::new());
        (req, CallState::AwaitCookie { name, args, password })
    }
}

/// `r` is how a call goes on after a reply. A new transaction id comes from `next_txid`.
pub open spec fn continued<R, F: FnOnce() -> String>(
    state: CallState,
    reply: Result<Response<R>, Error>,
    next_txid: F,
    r: CallStep<R>,
) -> bool {
    match (state, reply) {
        (CallState::AwaitCookie { name, args, password }, Ok(resp)) => match cookie_in(
            resp.message@,
        ) {
            Ok(cookie) => {
                &&& r matches CallStep::Send { request, txid, then_wait }
                &&& call_ensures(next_txid, (), txid)
                &&& request@ == auth_request(txid@, name@, args@, cookie, password@)
                &&& then_wait is AwaitReply
            },
            Err(t) => r matches CallStep::Done(Err(e)) && dispatch::is_protocol_error(e, t),
        },
        (_, reply) => r == CallStep::Done(reply),
    }
}

/// Goes on with a call after a reply.
pub fn continue_call<R, F: FnOnce() -> String>(
    state: CallState,
    reply: Result<Response<R>, Error>,
    next_txid: F,
) -> (r: CallStep<R>)
    requires
        call_requires(next_txid, ()),
    ensures
        continued(state, reply, next_txid, r),
{
    match (state, reply) {
        (CallState::AwaitCookie { name, args, password }, Ok(resp)) => {
            match read_cookie(&resp.message) {
                Ok(cookie) => {
                    let txid: String = next_txid();
                    let request: Dict = make_auth_request(
                        txid.as_str(),
                        name.as_str(),
                        args,
                        cookie.as_str(),
                        password.as_str(),
                    );
                    CallStep::Send { request, txid, then_wait: CallState::AwaitReply }
                },
                Err(e) => CallStep::Done(Err(e)),
            }
        },
        (_, reply) => CallStep::Done(reply),
    }
}

/// A call takes at most two requests: the reply to the function ends it, and so does the
/// reply to a request for a cookie, unless a cookie is in it.
pub proof fn law_call_takes_two_requests<R, F: FnOnce() -> String>(
    state: CallState,
    reply: Result<Response<R>, Error>,
    next_txid: F,
    r: CallStep<R>,
)
    requires
        continued(state, reply, next_txid, r),
    ensures
        state is AwaitReply ==> r == CallStep::Done(reply),
        r matches CallStep::Send { then_wait, .. } ==> state is AwaitCookie && then_wait is AwaitReply
            && reply is Ok && cookie_in(reply->Ok_0.message@) is Ok,
{
}

/// What comes of a call that may have taken too long.
pub fn within_timeout<R>(outcome: Option<Result<Response<R>, Error>>, timeout: u64) -> (r: Result<
    Response<R>,
    Error,
>)
    ensures
        match outcome {
            Some(result) => r == result,
            None => r == Err::<Response<R>, Error>(Error::TimeOut(timeout)),
        },
{
    match outcome {
        Some(result) => result,
        None => Err(Error::TimeOut(timeout)),
    }
}

/// How far a request got.
pub enum Exchange<R> {
    /// The dispatch task did not take it.
    NotRegistered,
    /// It could not be sent, for the given reason.
    NotSent(String),
    /// It was answered.
    Answered(Result<Response<R>, Error>),
    /// The dispatch task gave it up.
    Abandoned,
}

/// What comes of a request. Where the dispatch task failed it, the state of the task says
/// why.
pub fn request_outcome<R, J>(exchange: Exchange<R>, dispatch: &mut Dispatch<J>, end: Option<TaskEnd>) -> (r:
    Result<Response<R>, Error>)
    ensures
        final(dispatch).abort_on_drop == old(dispatch).abort_on_drop,
        match exchange {
            Exchange::Answered(result) => r == result && *final(dispatch) == *old(dispatch),
            Exchange::NotSent(t) => r == Err::<Response<R>, Error>(Error::NetworkOperation(t))
                && *final(dispatch) == *old(dispatch),
            _ => {
                &&& dispatch::refreshed(old(dispatch).state, end, final(dispatch).state)
                &&& r == Err::<Response<R>, Error>(
                    match final(dispatch).state {
                        DispatchState::Pending(_) => Error::DispatchError(
                            DispatchError::Unresponsive,
                        ),
                        DispatchState::Completed => Error::ConnectionClosed,
                        DispatchState::Aborted(e) => Error::DispatchError(e),
                    },
                )
            },
        },
{
    match exchange {
        Exchange::Answered(result) => result,
        Exchange::NotSent(t) => Err(Error::NetworkOperation(t)),
        Exchange::NotRegistered | Exchange::Abandoned => Err(dispatch.query_error(end)),
    }
}

/// The transaction id for a value of the counter.
pub fn txid_text(counter: u64) -> (r: String)
    ensures
        r@ == text::decimal_text(counter as nat),
{
    text::number_text(counter)
}

/// Different values of the counter give different transaction ids.
pub proof fn law_txids_are_distinct(a: nat, b: nat)
    requires
        text::decimal_text(a) == text::decimal_text(b),
    ensures
        a == b,
{
    number::lemma_decimal_reads_back(a);
    number::lemma_decimal_reads_back(b);
    let (s, t) = (number::decimal(a), number::decimal(b));
    assert(s.len() == t.len()) by {
        assert(text::as_chars(s).len() == s.len());
        assert(text::as_chars(t).len() == t.len());
    }
    assert forall|i: int| 0 <= i < s.len() implies s[i] == t[i] by {
        assert(text::as_chars(s)[i] == s[i] as char);
        assert(text::as_chars(t)[i] == t[i] as char);
    }
    assert(s =~= t);
}

/// The local address to bind to for a remote address of the given kind.
pub fn local_address(remote_is_ipv4: bool) -> (r: &'static str)
    ensures
        r@ == (if remote_is_ipv4 {
            "0.0.0.0:0"@
        } else {
            "[::]:0"@
        }),
{
    if remote_is_ipv4 {
        "0.0.0.0:0"
    } else {
        "[::]:0"
    }
}

/// What a new connection still has to find out.
pub enum Phase {
    /// Whether the router answers at all.
    Ping,
    /// Whether it accepts the password.
    Passwords,
    /// Which functions it offers, from the given page on.
    Functions {
        /// The page.
        page: i64,
        /// The functions on the pages before it.
        functions: Funcs,
    },
}

/// A connection that is being set up.
pub struct Startup {
    /// Where and how to connect.
    pub opts: ConnectionOptions,
    /// What is to be found out next.
    pub phase: Phase,
}

/// A call of a remote function.
pub struct FnCall {
    /// Name of the function.
    pub name: &'static str,
    /// Its arguments.
    pub args: Dict,
    /// Whether to call it without authentication in any case.
    pub disable_auth: bool,
    /// How long the call may take, in milliseconds.
    pub timeout: u64,
}

/// How the set up of a connection goes on.
pub enum StartupStep {
    /// Make the next call.
    Call(Startup),
    /// The connection is ready, and these are the functions that the router offers.
    Ready(Funcs),
    /// There is no connection.
    Fail(Error),
}

/// The functions of a page of the list of functions, or why they cannot be read.
pub open spec fn page_in(reply: Map<Seq<u8>, Value>) -> Result<Map<Seq<u8>, Value>, Seq<char>> {
    match object::dict_at(reply, "availableFunctions"@) {
        Ok(m) => Ok(m),
        Err(EntryError::Missing) => Err("Failed getting availableFunctions entry is missing"@),
        Err(EntryError::WrongType) => Err("Failed getting availableFunctions entry is not a dict"@),
    }
}

/// `r` is how the set up goes on after a page of the list of functions.
pub open spec fn listed(
    opts: ConnectionOptions,
    page: i64,
    functions: Seq<func_list::FuncModel>,
    m: Map<Seq<u8>, Value>,
    r: StartupStep,
) -> bool {
    let (parsed, flaw) = func_list::parse_funcs(m, object::sorted_keys(m));
    if m == Map::<Seq<u8>, Value>::empty() {
        r matches StartupStep::Ready(all) && all@ == functions
    } else {
        match flaw {
            Some(t) => r matches StartupStep::Fail(e) && dispatch::is_protocol_error(e, t),
            None => {
                &&& r matches StartupStep::Call(next)
                &&& next.opts == opts
                &&& next.phase matches Phase::Functions { page: next_page, functions: all }
                &&& next_page == page + 1
                &&& all@ == order::stable_sort_of(functions + parsed, func_list::func_ranking())
                &&& order::stably_sorted(functions + parsed, func_list::func_ranking(), all@)
                &&& func_list::funcs_in_order(all@)
            },
        }
    }
}

/// The next step is to ask for the first page of the list of functions.
pub open spec fn lists_functions(opts: ConnectionOptions, r: StartupStep) -> bool {
    &&& r matches StartupStep::Call(next)
    &&& next.opts == opts
    &&& next.phase matches Phase::Functions { page, functions }
    &&& page == 0
    &&& functions@ == Seq::<func_list::FuncModel>::empty()
}

/// `r` is how the set up goes on after the reply to a call.
pub open spec fn advanced(startup: Startup, reply: Result<Dict, Error>, r: StartupStep) -> bool {
    match (startup.phase, reply) {
        (Phase::Ping, Err(_)) => r matches StartupStep::Fail(Error::ConnectError(o)) && o.options()
            == startup.opts,
        (Phase::Ping, Ok(_)) => if startup.opts.password@.len() == 0 {
            lists_functions(startup.opts, r)
        } else {
            r == StartupStep::Call(Startup { opts: startup.opts, phase: Phase::Passwords })
        },
        (Phase::Passwords, Err(_)) => r matches StartupStep::Fail(Error::AuthError(o))
            && o.options() == startup.opts,
        (Phase::Passwords, Ok(_)) => lists_functions(startup.opts, r),
        (Phase::Functions { .. }, Err(e)) => r == StartupStep::Fail(e),
        (Phase::Functions { page, functions }, Ok(reply)) => match page_in(reply@) {
            Ok(m) => listed(startup.opts, page, functions@, m, r),
            Err(t) => r matches StartupStep::Fail(e) && dispatch::is_protocol_error(e, t),
        },
    }
}

impl Startup {
    /// Nothing is known of the router yet.
    pub fn new(opts: ConnectionOptions) -> (r: Startup)
        ensures
            r == (Startup { opts, phase: Phase::Ping }),
    {
        Startup { opts, phase: Phase::Ping }
    }

    /// The call to make.
    pub fn next_call(&self) -> (r: FnCall)
        ensures
            match self.phase {
                Phase::Ping => r.name@ == "ping"@ && r.args@ == Map::<Seq<u8>, Value>::empty()
                    && r.disable_auth && r.timeout == PING_TIMEOUT,
                Phase::Passwords => r.name@ == "AuthorizedPasswords_list"@ && r.args@ == Map::<
                    Seq<u8>,
                    Value,
                >::empty() && !r.disable_auth && r.timeout == DEFAULT_TIMEOUT,
                Phase::Functions { page, .. } => r.name@ == "Admin_availableFunctions"@ && r.args@
                    == Map::<Seq<u8>, Value>::empty().insert(object::key("page"@), Value::Int(page))
                    && !r.disable_auth && r.timeout == DEFAULT_TIMEOUT,
            },
            self.phase is Ping ==> r.timeout == 1_000,
            !(self.phase is Ping) ==> r.timeout == 10_000,
    {
        match &self.phase {
            Phase::Ping => FnCall {
                name: "ping",
                args: Dict::new(),
                disable_auth: true,
                timeout: PING_TIMEOUT,
            },
            Phase::Passwords => FnCall {
                name: "AuthorizedPasswords_list",
                args: Dict::new(),
                disable_auth: false,
                timeout: DEFAULT_TIMEOUT,
            },
            Phase::Functions { page, .. } => {
                let mut args: Dict = Dict::new();
                args.insert("page", Object::Int(*page));
                FnCall {
                    name: "Admin_availableFunctions",
                    args,
                    disable_auth: false,
                    timeout: DEFAULT_TIMEOUT,
                }
            },
        }
    }

    /// Goes on after the reply to the call.
    pub fn advance(self, reply: Result<Dict, Error>) -> (r: StartupStep)
        requires
            self.phase matches Phase::Functions { page, .. } ==> page < i64::MAX,
        ensures
            advanced(self, reply, r),
    {
        match (self.phase, reply) {
            (Phase::Ping, Err(_)) => StartupStep::Fail(
                Error::ConnectError(ConnOptions::wrap(&self.opts)),
            ),
            (Phase::Ping, Ok(_)) => if self.opts.password.as_str().unicode_len() == 0 {
                list_functions(self.opts)
            } else {
                StartupStep::Call(Startup { opts: self.opts, phase: Phase::Passwords })
            },
            (Phase::Passwords, Err(_)) => StartupStep::Fail(
                Error::AuthError(ConnOptions::wrap(&self.opts)),
            ),
            (Phase::Passwords, Ok(_)) => list_functions(self.opts),
            (Phase::Functions { .. }, Err(e)) => StartupStep::Fail(e),
            (Phase::Functions { page, functions }, Ok(reply)) => {
                match reply.get_dict("availableFunctions") {
                    Err(EntryError::Missing) => StartupStep::Fail(
                        Error::Protocol("Failed getting availableFunctions entry is missing".to_owned()),
                    ),
                    Err(EntryError::WrongType) => StartupStep::Fail(
                        Error::Protocol("Failed getting availableFunctions entry is not a dict".to_owned()),
                    ),
                    Ok(fns) => {
                        let mut functions: Funcs = functions;
                        if fns.is_empty() {
                            return StartupStep::Ready(functions);
                        }
                        match functions.add_funcs(fns) {
                            Ok(()) => StartupStep::Call(
                                Startup {
                                    opts: self.opts,
                                    phase: Phase::Functions { page: page + 1, functions },
                                },
                            ),
                            Err(t) => StartupStep::Fail(Error::Protocol(t)),
                        }
                    },
                }
            },
        }
    }
}

fn list_functions(opts: ConnectionOptions) -> (r: StartupStep)
    ensures
        lists_functions(opts, r),
{
    let phase: Phase = Phase::Functions { page: 0, functions: Funcs::new() };
    StartupStep::Call(Startup { opts, phase })
}

/// The functions that are known at a step of the set up are in alphabetical order.
pub open spec fn known_in_order(startup: Startup) -> bool {
    startup.phase matches Phase::Functions { functions, .. } ==> func_list::funcs_in_order(
        functions@,
    )
}

/// The functions that a connection ends up with are in alphabetical order: those known at
/// the start are, and every step keeps them so.
pub proof fn law_functions_are_in_order(startup: Startup, reply: Result<Dict, Error>, r: StartupStep)
    requires
        advanced(startup, reply, r),
        known_in_order(startup),
    ensures
        r matches StartupStep::Call(next) ==> known_in_order(next),
        r matches StartupStep::Ready(all) ==> func_list::funcs_in_order(all@),
        known_in_order(Startup { opts: startup.opts, phase: Phase::Ping }),
{
}

/// No function gets lost: after a page is read, the functions that are known are those that
/// were known before and those on the page.
pub proof fn law_listed_functions_are_kept(
    opts: ConnectionOptions,
    page: i64,
    functions: Seq<func_list::FuncModel>,
    m: Map<Seq<u8>, Value>,
    next: Startup,
)
    requires
        listed(opts, page, functions, m, StartupStep::Call(next)),
    ensures
        next.phase is Functions,
        next.phase->page == page + 1,
        forall|f: func_list::FuncModel| #[trigger]
            next.phase->functions@.contains(f) <==> functions.contains(f) || func_list::parse_funcs(
                m,
                object::sorted_keys(m),
            ).0.contains(f),
{
    let parsed = func_list::parse_funcs(m, object::sorted_keys(m)).0;
    let all = next.phase->functions@;
    let items = functions + parsed;
    order::law_stable_sort_keeps_items(items, func_list::func_ranking(), all);
    assert forall|f: func_list::FuncModel| #[trigger] all.contains(f) <==> functions.contains(f)
        || parsed.contains(f) by {
        if items.contains(f) {
            let i = choose|i: int| 0 <= i < items.len() && items[i] == f;
            if i < functions.len() {
                assert(functions[i] == f);
            } else {
                assert(parsed[i - functions.len()] == f);
            }
        }
        if functions.contains(f) {
            let i = choose|i: int| 0 <= i < functions.len() && functions[i] == f;
            assert(items[i] == f);
        }
        if parsed.contains(f) {
            let i = choose|i: int| 0 <= i < parsed.len() && parsed[i] == f;
            assert(items[functions.len() + i] == f);
        }
    }
}

/// The functions on the page that a reply holds.
pub open spec fn functions_on_page(reply: Map<Seq<u8>, Value>) -> Seq<func_list::FuncModel> {
    let m = page_in(reply)->Ok_0;
    func_list::parse_funcs(m, object::sorted_keys(m)).0
}

/// The functions on the pages that replies hold, page after page.
pub open spec fn functions_on_pages(replies: Seq<Dict>) -> Seq<func_list::FuncModel>
    decreases replies.len(),
{
    if replies.len() == 0 {
        Seq::empty()
    } else {
        functions_on_pages(replies.drop_last()) + functions_on_page(replies.last()@)
    }
}

/// A set up went through these states, from the first ping on, with these replies between
/// them.
pub open spec fn is_run(states: Seq<Startup>, replies: Seq<Dict>) -> bool {
    &&& states.len() == replies.len() + 1
    &&& states[0].phase is Ping
    &&& forall|i: int|
        0 <= i < replies.len() ==> advanced(
            states[i],
            Ok(#[trigger] replies[i]),
            StartupStep::Call(states[i + 1]),
        )
}

/// How many calls a set up makes before it asks for functions.
pub open spec fn probes(opts: ConnectionOptions) -> int {
    if opts.password@.len() == 0 {
        1
    } else {
        2
    }
}

proof fn lemma_probes(states: Seq<Startup>, replies: Seq<Dict>)
    requires
        is_run(states, replies),
        replies.len() >= probes(states[0].opts),
    ensures
        lists_functions(states[0].opts, StartupStep::Call(states[probes(states[0].opts)])),
{
    assert(advanced(states[0], Ok(replies[0]), StartupStep::Call(states[1])));
    if states[0].opts.password@.len() > 0 {
        assert(advanced(states[1], Ok(replies[1]), StartupStep::Call(states[2])));
    }
}

proof fn lemma_listing(states: Seq<Startup>, replies: Seq<Dict>, i: int)
    requires
        is_run(states, replies),
        probes(states[0].opts) <= i <= replies.len(),
    ensures
        states[i].phase matches Phase::Functions { page, functions } && page == i - probes(
            states[0].opts,
        ) && order::stably_sorted(
            functions_on_pages(replies.subrange(probes(states[0].opts), i)),
            func_list::func_ranking(),
            functions@,
        ),
    decreases i,
{
    let k = probes(states[0].opts);
    let le = func_list::func_ranking();
    lemma_probes(states, replies);
    if i == k {
        let none = Seq::<func_list::FuncModel>::empty();
        assert(order::arranged_by(none, le, none, Seq::<int>::empty()));
        assert(replies.subrange(k, i).len() == 0);
    } else {
        lemma_listing(states, replies, i - 1);
        assert(advanced(states[i - 1], Ok(replies[i - 1]), StartupStep::Call(states[i])));
        let read = replies.subrange(k, i);
        assert(read.drop_last() =~= replies.subrange(k, i - 1));
        assert(read.last() == replies[i - 1]);
        order::law_stable_sort_in_steps(
            functions_on_pages(replies.subrange(k, i - 1)),
            functions_on_page(replies[i - 1]@),
            le,
            states[i - 1].phase->functions@,
            states[i].phase->functions@,
        );
    }
}

/// A connection ends up with all functions of all pages, in alphabetical order: the pages
/// are asked for one after another from the first on, up to one that is empty, and what is
/// known in the end is the stable sort of what stands on them.
pub proof fn law_connection_knows_all_functions(
    states: Seq<Startup>,
    replies: Seq<Dict>,
    last: Dict,
    all: Funcs,
)
    requires
        is_run(states, replies),
        advanced(states.last(), Ok(last), StartupStep::Ready(all)),
    ensures
        replies.len() >= probes(states[0].opts),
        page_in(last@) == Ok::<Map<Seq<u8>, Value>, Seq<char>>(Map::empty()),
        forall|i: int|
            probes(states[0].opts) <= i <= replies.len() ==> (#[trigger] states[i]).phase is Functions
                && states[i].phase->page == i - probes(states[0].opts),
        order::stably_sorted(
            functions_on_pages(replies.skip(probes(states[0].opts))),
            func_list::func_ranking(),
            all@,
        ),
        all@ == order::stable_sort_of(
            functions_on_pages(replies.skip(probes(states[0].opts))),
            func_list::func_ranking(),
        ),
        func_list::funcs_in_order(all@),
{
    let k = probes(states[0].opts);
    let n = replies.len() as int;
    let le = func_list::func_ranking();
    assert(n >= k) by {
        if n == 1 && k == 2 {
            assert(advanced(states[0], Ok(replies[0]), StartupStep::Call(states[1])));
        }
    }
    assert forall|i: int| k <= i <= n implies (#[trigger] states[i]).phase is Functions
        && states[i].phase->page == i - k by {
        lemma_listing(states, replies, i);
    }
    lemma_listing(states, replies, n);
    let read = functions_on_pages(replies.skip(k));
    assert(replies.subrange(k, n) =~= replies.skip(k));
    order::law_stable_sort_is_unique(read, le, all@, all@);
    order::law_stable_sort_is_ranked(read, le, all@);
    assert forall|i: int, j: int|
        #![trigger all@[i], all@[j]]
        0 <= i < j < all@.len() implies func_list::name_le(all@[i].name, all@[j].name) by {
        assert(le(all@[i], all@[j]));
    }
}

/// The password is tried before anything but a ping is asked, and only if there is one; a
/// router that answers neither ping nor password ends the set up.
pub proof fn law_password_is_tried_first(startup: Startup, reply: Result<Dict, Error>, r: StartupStep)
    requires
        advanced(startup, reply, r),
        startup.phase is Ping,
    ensures
        reply is Err ==> r is Fail,
        reply is Ok && startup.opts.password@.len() > 0 ==> r is Call && r->Call_0.phase is Passwords,
        reply is Ok && startup.opts.password@.len() == 0 ==> r is Call
            && r->Call_0.phase is Functions,
        r is Call ==> r->Call_0.opts == startup.opts,
{
}

proof fn lemma_request_keys()
    ensures
        object::key("txid"@) != object::key("q"@),
        object::key("txid"@) != object::key("aq"@),
        object::key("txid"@) != object::key("args"@),
        object::key("txid"@) != object::key("cookie"@),
        object::key("txid"@) != object::key("hash"@),
        object::key("q"@) != object::key("aq"@),
        object::key("q"@) != object::key("args"@),
        object::key("q"@) != object::key("cookie"@),
        object::key("q"@) != object::key("hash"@),
        object::key("aq"@) != object::key("args"@),
        object::key("aq"@) != object::key("cookie"@),
        object::key("aq"@) != object::key("hash"@),
        object::key("args"@) != object::key("cookie"@),
        object::key("args"@) != object::key("hash"@),
        object::key("cookie"@) != object::key("hash"@),
{
    reveal_strlit("txid");
    reveal_strlit("q");
    reveal_strlit("aq");
    reveal_strlit("args");
    reveal_strlit("cookie");
    reveal_strlit("hash");
    assert("txid"@.len() == 4 && "q"@.len() == 1 && "aq"@.len() == 2 && "args"@.len() == 4 && "cookie"@.len() == 6 && "hash"@.len() == 4);
    assert("txid"@[0] == 't' && "args"@[0] == 'a' && "hash"@[0] == 'h');
    object::law_names_are_distinct_keys("txid"@, "q"@);
    object::law_names_are_distinct_keys("txid"@, "aq"@);
    object::law_names_are_distinct_keys("txid"@, "args"@);
    object::law_names_are_distinct_keys("txid"@, "cookie"@);
    object::law_names_are_distinct_keys("txid"@, "hash"@);
    object::law_names_are_distinct_keys("q"@, "aq"@);
    object::law_names_are_distinct_keys("q"@, "args"@);
    object::law_names_are_distinct_keys("q"@, "cookie"@);
    object::law_names_are_distinct_keys("q"@, "hash"@);
    object::law_names_are_distinct_keys("aq"@, "args"@);
    object::law_names_are_distinct_keys("aq"@, "cookie"@);
    object::law_names_are_distinct_keys("aq"@, "hash"@);
    object::law_names_are_distinct_keys("args"@, "cookie"@);
    object::law_names_are_distinct_keys("args"@, "hash"@);
    object::law_names_are_distinct_keys("cookie"@, "hash"@);
}

/// Reading the entries of a request without authentication gives what the call was made with,
/// and there are no other entries.
pub proof fn law_plain_request_says_what_is_called(
    txid: Seq<char>,
    name: Seq<char>,
    args: Map<Seq<u8>, Value>,
)
    ensures
        ({
            let r = plain_request(txid, name, args);
            &&& object::text_at(r, "txid"@) == Ok::<Seq<char>, EntryError>(txid)
            &&& object::text_at(r, "q"@) == Ok::<Seq<char>, EntryError>(name)
            &&& object::dict_at(r, "args"@) == Ok::<Map<Seq<u8>, Value>, EntryError>(args)
            &&& forall|k: Seq<u8>| #[trigger]
                r.dom().contains(k) ==> k == encode_utf8("txid"@) || k == encode_utf8("q"@) || k
                    == encode_utf8("args"@)
        }),
{
    lemma_request_keys();
    let r = plain_request(txid, name, args);
    text::lemma_text_reads_back(txid);
    text::lemma_text_reads_back(name);
    assert(r[object::key("txid"@)] == Value::Bytes(encode_utf8(txid)));
    assert(r[object::key("q"@)] == Value::Bytes(encode_utf8(name)));
    assert(r[object::key("args"@)] == Value::Dict(args));
}

/// Reading the entries of a request with authentication gives what the call was made with and
/// the cookie. Its hash is that of the request with the hash of password and cookie in the
/// place of its own. There are no other entries.
pub proof fn law_auth_request_says_what_is_called(
    txid: Seq<char>,
    name: Seq<char>,
    args: Map<Seq<u8>, Value>,
    cookie: Seq<char>,
    password: Seq<char>,
)
    ensures
        ({
            let r = auth_request(txid, name, args, cookie, password);
            let inner = crypto::hex_text(crypto::sha256_digest(encode_utf8(password + cookie)));
            let before = r.insert(encode_utf8("hash"@), Value::Bytes(encode_utf8(inner)));
            &&& object::text_at(r, "txid"@) == Ok::<Seq<char>, EntryError>(txid)
            &&& object::text_at(r, "q"@) == Ok::<Seq<char>, EntryError>("auth"@)
            &&& object::text_at(r, "aq"@) == Ok::<Seq<char>, EntryError>(name)
            &&& object::dict_at(r, "args"@) == Ok::<Map<Seq<u8>, Value>, EntryError>(args)
            &&& object::text_at(r, "cookie"@) == Ok::<Seq<char>, EntryError>(cookie)
            &&& object::text_at(r, "hash"@) == Ok::<Seq<char>, EntryError>(
                crypto::hex_text(crypto::sha256_digest(bencode::encode(Value::Dict(before)))),
            )
            &&& forall|k: Seq<u8>| #[trigger]
                r.dom().contains(k) ==> k == encode_utf8("txid"@) || k == encode_utf8("q"@) || k
                    == encode_utf8("aq"@) || k == encode_utf8("args"@) || k == encode_utf8(
                    "cookie"@,
                ) || k == encode_utf8("hash"@)
        }),
{
    lemma_request_keys();
    let r = auth_request(txid, name, args, cookie, password);
    let inner = crypto::hex_text(crypto::sha256_digest(encode_utf8(password + cookie)));
    let before = r.insert(encode_utf8("hash"@), Value::Bytes(encode_utf8(inner)));
    let hash = crypto::hex_text(crypto::sha256_digest(bencode::encode(Value::Dict(before))));
    assert(before =~= hashed_request(txid, name, args, cookie, inner));
    text::lemma_text_reads_back(txid);
    text::lemma_text_reads_back("auth"@);
    text::lemma_text_reads_back(name);
    text::lemma_text_reads_back(cookie);
    text::lemma_text_reads_back(hash);
    assert(r[object::key("txid"@)] == Value::Bytes(encode_utf8(txid)));
    assert(r[object::key("q"@)] == Value::Bytes(encode_utf8("auth"@)));
    assert(r[object::key("aq"@)] == Value::Bytes(encode_utf8(name)));
    assert(r[object::key("args"@)] == Value::Dict(args));
    assert(r[object::key("cookie"@)] == Value::Bytes(encode_utf8(cookie)));
    assert(r[object::key("hash"@)] == Value::Bytes(encode_utf8(hash)));
}

/// A request that is made with a given hash carries that hash, and says otherwise what any
/// request of the same call says.
pub proof fn law_hashed_request_carries_its_hash(
    txid: Seq<char>,
    name: Seq<char>,
    args: Map<Seq<u8>, Value>,
    cookie: Seq<char>,
    password: Seq<char>,
    hash: Seq<char>,
)
    ensures
        hashed_request(txid, name, args, cookie, hash) == auth_request(
            txid,
            name,
            args,
            cookie,
            password,
        ).insert(encode_utf8("hash"@), Value::Bytes(encode_utf8(hash))),
{
    assert(hashed_request(txid, name, args, cookie, hash) =~= auth_request(
        txid,
        name,
        args,
        cookie,
        password,
    ).insert(encode_utf8("hash"@), Value::Bytes(encode_utf8(hash))));
}

/// A text stands in a message as its bytes.
pub proof fn law_text_value_is_its_bytes(t: Seq<char>)
    ensures
        text_value(t) == Value::Bytes(encode_utf8(t)),
{
}

/// The cookie is whatever text the reply holds under that name; where there is none, the error
/// says whether it is missing.
pub proof fn law_cookie_is_read(reply: Map<Seq<u8>, Value>, cookie: Seq<char>)
    ensures
        cookie_in(reply.insert(encode_utf8("cookie"@), Value::Bytes(encode_utf8(cookie)))) == Ok::<
            Seq<char>,
            Seq<char>,
        >(cookie),
        cookie_in(reply) is Ok ==> reply.dom().contains(encode_utf8("cookie"@)) && reply[encode_utf8(
            "cookie"@,
        )] == Value::Bytes(encode_utf8(cookie_in(reply)->Ok_0)),
        cookie_in(reply) is Err ==> cookie_in(reply)->Err_0 == (if reply.dom().contains(
            encode_utf8("cookie"@),
        ) {
            "Error getting cookie: not a text"@
        } else {
            "cookie missing"@
        }),
{
    object::law_written_text_is_read(reply, "cookie"@, cookie);
    if reply.dom().contains(encode_utf8("cookie"@)) {
        let v = reply[encode_utf8("cookie"@)];
        assert(reply.insert(encode_utf8("cookie"@), v) =~= reply);
        object::law_written_entry_is_read(reply, "cookie"@, v);
    } else {
        object::law_absent_entry_is_missing(reply, "cookie"@);
    }
}

/// A reply with a cookie leads to a request that names the function, its arguments, that
/// cookie and a new transaction id; a reply without one ends the call with what is wrong, and
/// so does a failure.
pub proof fn law_cookie_leads_to_the_call<R, F: FnOnce() -> String>(
    name: String,
    args: Dict,
    password: String,
    reply: Result<Response<R>, Error>,
    next_txid: F,
    r: CallStep<R>,
)
    requires
        continued((CallState::AwaitCookie { name, args, password }), reply, next_txid, r),
    ensures
        reply matches Err(e) ==> r == CallStep::<R>::Done(Err(e)),
        reply is Ok && cookie_in(reply->Ok_0.message@) is Ok ==> {
            &&& r is Send
            &&& call_ensures(next_txid, (), r->txid)
            &&& object::text_at(r->request@, "txid"@) == Ok::<Seq<char>, EntryError>(r->txid@)
            &&& object::text_at(r->request@, "q"@) == Ok::<Seq<char>, EntryError>("auth"@)
            &&& object::text_at(r->request@, "aq"@) == Ok::<Seq<char>, EntryError>(name@)
            &&& object::dict_at(r->request@, "args"@) == Ok::<Map<Seq<u8>, Value>, EntryError>(
                args@,
            )
            &&& object::text_at(r->request@, "cookie"@) == Ok::<Seq<char>, EntryError>(
                cookie_in(reply->Ok_0.message@)->Ok_0,
            )
            &&& r->request@ == auth_request(
                r->txid@,
                name@,
                args@,
                cookie_in(reply->Ok_0.message@)->Ok_0,
                password@,
            )
            &&& r->then_wait is AwaitReply
        },
        reply is Ok && cookie_in(reply->Ok_0.message@) is Err ==> {
            &&& r is Done
            &&& r->Done_0 is Err
            &&& r->Done_0->Err_0 is Protocol
            &&& r->Done_0->Err_0->Protocol_0@ == cookie_in(reply->Ok_0.message@)->Err_0
        },
{
    if reply is Ok && cookie_in(reply->Ok_0.message@) is Ok {
        law_auth_request_says_what_is_called(
            r->txid@,
            name@,
            args@,
            cookie_in(reply->Ok_0.message@)->Ok_0,
            password@,
        );
    }
}

/// A page of functions is whatever dictionary the reply holds under that name; where there is
/// none, the error says whether it is missing.
pub proof fn law_page_is_read(reply: Map<Seq<u8>, Value>, page: Map<Seq<u8>, Value>)
    ensures
        page_in(reply.insert(encode_utf8("availableFunctions"@), Value::Dict(page))) == Ok::<
            Map<Seq<u8>, Value>,
            Seq<char>,
        >(page),
        page_in(reply) matches Ok(m) ==> reply.dom().contains(encode_utf8("availableFunctions"@))
            && reply[encode_utf8("availableFunctions"@)] == Value::Dict(m),
        page_in(reply) matches Err(t) ==> t == (if reply.dom().contains(
            encode_utf8("availableFunctions"@),
        ) {
            "Failed getting availableFunctions entry is not a dict"@
        } else {
            "Failed getting availableFunctions entry is missing"@
        }),
{
    let k = encode_utf8("availableFunctions"@);
    object::law_written_entry_is_read(reply, "availableFunctions"@, Value::Dict(page));
    if reply.dom().contains(k) {
        assert(reply.insert(k, reply[k]) =~= reply);
        object::law_written_entry_is_read(reply, "availableFunctions"@, reply[k]);
    } else {
        object::law_absent_entry_is_missing(reply, "availableFunctions"@);
    }
}

/// Every failure ends the set up and is told for what it is: no answer to the ping, a refused
/// password, or what went wrong with a page of functions.
pub proof fn law_startup_tells_failures(startup: Startup, reply: Result<Dict, Error>, r: StartupStep)
    requires
        advanced(startup, reply, r),
    ensures
        startup.phase is Ping && reply is Err ==> (r matches StartupStep::Fail(
            Error::ConnectError(o),
        ) && o.options() == startup.opts),
        startup.phase is Passwords && reply is Err ==> (r matches StartupStep::Fail(
            Error::AuthError(o),
        ) && o.options() == startup.opts),
        startup.phase is Functions && reply is Err ==> r == StartupStep::Fail(reply->Err_0),
        startup.phase is Functions && reply is Ok && page_in(reply->Ok_0@) is Err
            ==> (r matches StartupStep::Fail(Error::Protocol(t)) && t@ == page_in(
            reply->Ok_0@,
        )->Err_0),
        startup.phase is Functions && reply is Ok && page_in(reply->Ok_0@) is Ok ==> ({
            let m = page_in(reply->Ok_0@)->Ok_0;
            let flaw = func_list::parse_funcs(m, object::sorted_keys(m)).1;
            &&& m =~= Map::<Seq<u8>, Value>::empty() <==> r is Ready
            &&& !(m =~= Map::<Seq<u8>, Value>::empty()) && flaw is Some ==> (r matches
                StartupStep::Fail(Error::Protocol(t)) && t@ == flaw->Some_0)
            &&& !(m =~= Map::<Seq<u8>, Value>::empty()) && flaw is None ==> r is Call
        }),
{
}

/// The set up goes on as it should after an answer: nothing but the phase changes, and no
/// function that is known is lost.
pub proof fn law_startup_goes_on(startup: Startup, reply: Dict, r: StartupStep)
    requires
        advanced(startup, Ok(reply), r),
    ensures
        r matches StartupStep::Call(next) ==> next.opts == startup.opts,
        !(startup.phase is Functions) ==> r is Call && !(r->Call_0.phase is Ping),
        startup.phase is Passwords || startup.opts.password@.len() == 0 ==> !(r is Call
            && r->Call_0.phase is Passwords),
        !(startup.phase is Functions) && r->Call_0.phase is Functions ==> r->Call_0.phase->page == 0
            && r->Call_0.phase->functions@.len() == 0,
        startup.phase is Functions && r is Ready ==> r->Ready_0@ == startup.phase->functions@,
        startup.phase is Functions && r is Call ==> r->Call_0.phase is Functions
            && r->Call_0.phase->page == startup.phase->page + 1 && order::stably_sorted(
            startup.phase->functions@ + functions_on_page(reply@),
            func_list::func_ranking(),
            r->Call_0.phase->functions@,
        ),
{
}

} // verus!
