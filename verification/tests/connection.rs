use cjdns_admin::bencode::serialize;
use cjdns_admin::conn::{
    begin_call, continue_call, local_address, make_auth_request, make_hashed_request, make_plain_request, read_cookie,
    replace_hash, request_outcome, txid_text, within_timeout, CallState, CallStep, Exchange, Phase, Startup, StartupStep,
};
use cjdns_admin::crypto::{digest_text, hash_hex};
use cjdns_admin::dispatch::{Dispatch, DispatchState, TaskEnd};
use cjdns_admin::object::{Dict, Object};
use cjdns_admin::options::ConnectionOptions;
use cjdns_admin::{ConnOptions, DispatchError, Error, Response};

fn dict(entries: Vec<(&str, Object)>) -> Dict {
    let mut d = Dict::new();
    for (name, value) in entries {
        d.insert(name, value);
    }
    d
}

fn response(entries: Vec<(&str, Object)>) -> Result<Response<u8>, Error> {
    Ok(Response {
        message: dict(entries),
        stream: None,
    })
}

#[test]
fn hashes_are_hexadecimal_sha256() {
    assert_eq!(hash_hex(b""), "e3b0c44298fc1c149afbf4c8996fb92427ae41e4649b934ca495991b7852b855");
    assert_eq!(hash_hex(b"abc"), "ba7816bf8f01cfea414140de5dae2223b00361a396177a9cb410ff61f20015ad");
    assert_eq!(digest_text(&[1, 2, 3, 15, 16, 0xab]), "0102030f10ab");
    assert_ne!(digest_text(&[1]), digest_text(&[16]));
}

#[test]
fn plain_request_names_the_function() {
    let req = make_plain_request("7", "ping", Dict::new());
    assert_eq!(serialize(&req), b"d4:argsde1:q4:ping4:txid1:7e".to_vec());
}

#[test]
fn auth_request_is_hashed_twice() {
    let args = || dict(vec![("page", Object::Int(0))]);
    let initial = make_hashed_request("8", "fn", args(), "1234", &hash_hex(b"secret1234"));
    let hash = hash_hex(&serialize(&initial));
    let req = make_auth_request("8", "fn", args(), "1234", "secret");
    assert_eq!(req.get_text("hash"), Ok(hash.as_str()));
    assert_eq!(req.get_text("q"), Ok("auth"));
    assert_eq!(req.get_text("aq"), Ok("fn"));
    assert_eq!(req.get_text("cookie"), Ok("1234"));
    assert_eq!(req.get_text("txid"), Ok("8"));
    assert_eq!(req.get_dict("args"), Ok(&args()));
    assert_eq!(replace_hash(req, &hash_hex(b"secret1234")), initial);
}

#[test]
fn call_without_password_is_not_authenticated() {
    let (req, state) = begin_call("ping".to_owned(), Dict::new(), String::new(), false, "1");
    assert_eq!(req, make_plain_request("1", "ping", Dict::new()));
    assert!(matches!(state, CallState::AwaitReply));
    let (req, state) = begin_call("ping".to_owned(), Dict::new(), "secret".to_owned(), true, "1");
    assert_eq!(req, make_plain_request("1", "ping", Dict::new()));
    match continue_call(state, response(vec![("ok", Object::Int(1))]), || unreachable!()) {
        CallStep::Done(Ok(r)) => assert_eq!(r.message.get_int("ok"), Ok(1)),
        _ => panic!("call should be over"),
    }
}

#[test]
fn call_with_password_asks_for_a_cookie() {
    let (req, state) = begin_call("fn".to_owned(), Dict::new(), "secret".to_owned(), false, "1");
    assert_eq!(req, make_plain_request("1", "cookie", Dict::new()));
    match continue_call(state, response(vec![("cookie", Object::text("99"))]), || "2".to_owned()) {
        CallStep::Send { request, txid, then_wait } => {
            assert_eq!(request, make_auth_request("2", "fn", Dict::new(), "99", "secret"));
            assert_eq!(txid, "2");
            assert!(matches!(then_wait, CallState::AwaitReply));
        }
        _ => panic!("request expected"),
    }
}

#[test]
fn call_fails_without_cookie() {
    let fail = |reply: Result<Response<u8>, Error>| {
        let state = begin_call("fn".to_owned(), Dict::new(), "secret".to_owned(), false, "1").1;
        match continue_call(state, reply, || unreachable!()) {
            CallStep::Done(Err(e)) => e,
            _ => panic!("failure expected"),
        }
    };
    assert_eq!(fail(Err(Error::ConnectionClosed)), Error::ConnectionClosed);
    assert_eq!(fail(response(vec![])), Error::Protocol("cookie missing".to_owned()));
    assert_eq!(
        fail(response(vec![("cookie", Object::Int(1))])),
        Error::Protocol("Error getting cookie: not a text".to_owned())
    );
    assert_eq!(read_cookie(&dict(vec![("cookie", Object::text("c"))])), Ok("c".to_owned()));
}

#[test]
fn late_answers_time_out() {
    assert_eq!(within_timeout::<u8>(None, 10_000).err(), Some(Error::TimeOut(10_000)));
    assert!(within_timeout(Some(response(vec![])), 10_000).is_ok());
}

#[test]
fn failed_requests_say_why() {
    let mut disp = Dispatch::start((), false);
    let outcome = request_outcome::<u8, ()>(Exchange::NotSent("down".to_owned()), &mut disp, None);
    assert_eq!(outcome.err(), Some(Error::NetworkOperation("down".to_owned())));
    assert!(request_outcome(Exchange::Answered(response(vec![])), &mut disp, None).is_ok());
    let outcome = request_outcome::<u8, ()>(Exchange::NotRegistered, &mut disp, None);
    assert_eq!(outcome.err(), Some(Error::DispatchError(DispatchError::Unresponsive)));
    let outcome = request_outcome::<u8, ()>(Exchange::Abandoned, &mut disp, Some(TaskEnd::Returned(Ok(()))));
    assert_eq!(outcome.err(), Some(Error::ConnectionClosed));
    assert!(matches!(disp.state, DispatchState::Completed));
}

#[test]
fn transaction_ids_are_decimal() {
    assert_eq!(txid_text(0), "0");
    assert_eq!(txid_text(1207), "1207");
    assert_eq!(local_address(true), "0.0.0.0:0");
    assert_eq!(local_address(false), "[::]:0");
}

fn advance(startup: Startup, reply: Result<Dict, Error>) -> Startup {
    match startup.advance(reply) {
        StartupStep::Call(next) => next,
        _ => panic!("call expected"),
    }
}

fn functions(names: Vec<&str>) -> Result<Dict, Error> {
    let funcs = names.into_iter().map(|n| (n, Object::Dict(Dict::new()))).collect();
    Ok(dict(vec![("availableFunctions", Object::Dict(dict(funcs)))]))
}

#[test]
fn startup_lists_functions() {
    let startup = Startup::new(ConnectionOptions::default());
    let call = startup.next_call();
    assert_eq!((call.name, call.disable_auth, call.timeout), ("ping", true, 1_000));
    let startup = advance(startup, Ok(Dict::new()));
    let call = startup.next_call();
    assert_eq!((call.name, call.disable_auth, call.timeout), ("AuthorizedPasswords_list", false, 10_000));
    let startup = advance(startup, Ok(Dict::new()));
    let call = startup.next_call();
    assert_eq!((call.name, call.disable_auth, call.timeout), ("Admin_availableFunctions", false, 10_000));
    assert_eq!(call.args, dict(vec![("page", Object::Int(0))]));
    let startup = advance(startup, functions(vec!["ping", "memory"]));
    assert_eq!(startup.next_call().args, dict(vec![("page", Object::Int(1))]));
    let startup = advance(startup, functions(vec!["auth"]));
    match startup.advance(functions(vec![])) {
        StartupStep::Ready(funcs) => assert_eq!(funcs.to_text(), "auth()\nmemory()\nping()\n"),
        _ => panic!("should be ready"),
    }
}

#[test]
fn startup_without_password_skips_the_probe() {
    let opts = ConnectionOptions {
        password: String::new(),
        ..ConnectionOptions::default()
    };
    let startup = advance(Startup::new(opts), Ok(Dict::new()));
    assert!(matches!(startup.phase, Phase::Functions { page: 0, .. }));
}

#[test]
fn startup_fails_as_the_router_does() {
    let fail = |startup: Startup, reply: Result<Dict, Error>| match startup.advance(reply) {
        StartupStep::Fail(e) => e,
        _ => panic!("failure expected"),
    };
    let new = || Startup::new(ConnectionOptions::default());
    assert_eq!(fail(new(), Err(Error::TimeOut(1_000))), Error::ConnectError(ConnOptions::default()));
    let probe = || advance(new(), Ok(Dict::new()));
    assert_eq!(
        fail(probe(), Err(Error::RemoteError("Auth failed.".to_owned()))),
        Error::AuthError(ConnOptions::default())
    );
    let list = || advance(probe(), Ok(Dict::new()));
    assert_eq!(fail(list(), Err(Error::ConnectionClosed)), Error::ConnectionClosed);
    assert_eq!(
        fail(list(), Ok(Dict::new())),
        Error::Protocol("Failed getting availableFunctions entry is missing".to_owned())
    );
    assert_eq!(
        fail(list(), Ok(dict(vec![("availableFunctions", Object::Int(0))]))),
        Error::Protocol("Failed getting availableFunctions entry is not a dict".to_owned())
    );
    let bad = dict(vec![("availableFunctions", Object::Dict(dict(vec![("f", Object::Int(0))])))]);
    assert!(matches!(fail(list(), Ok(bad)), Error::Protocol(_)));
}
