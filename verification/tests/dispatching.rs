use std::any::TypeId;
use std::sync::mpsc::{channel, Receiver, Sender};
use std::sync::Arc;

use cjdns_admin::bencode::serialize;
use cjdns_admin::dispatch::{
    decode_message, finish_response, Delivery, Dispatch, DispatchState, Dispatcher, Event, MessageMetadata, State, Step, TaskEnd,
};
use cjdns_admin::object::{Dict, Object};
use cjdns_admin::{DispatchError, Error, PanicPayload, Response};

type Stream = Receiver<Dict>;
type Slot = Sender<Result<Response<Stream>, Error>>;

fn dict(entries: Vec<(&str, Object)>) -> Dict {
    let mut d = Dict::new();
    for (name, value) in entries {
        d.insert(name, value);
    }
    d
}

fn register(disp: &mut Dispatcher<Slot, Sender<Dict>>, txid: &str) -> Receiver<Result<Response<Stream>, Error>> {
    let (slot, receiver) = channel();
    let request = Event::Request {
        txid: txid.to_owned(),
        slot,
    };
    match disp.step(request, || channel()) {
        Step::Registered => receiver,
        _ => panic!("not registered"),
    }
}

fn receive(disp: &mut Dispatcher<Slot, Sender<Dict>>, msg: &Dict) -> Result<(), Error> {
    match disp.step(Event::Received(serialize(msg)), || channel()) {
        Step::Deliver(Delivery::Respond { slot, response }) => finish_response(slot.send(response).is_ok()),
        Step::Deliver(Delivery::Forward { stream_id, message }) => {
            let sent = disp.state.find_stream(&stream_id).unwrap().send(message).is_ok();
            disp.state.finish_forward(&stream_id, sent)
        }
        Step::Report(e) => Err(e),
        _ => panic!("unexpected step"),
    }
}

#[test]
fn test_dispatch() {
    const ERROR_MSG: &str = "everything went wrong exactly as planned";
    const MOTD: &str = "Code works on my machine. Good luck.";

    let mut disp = Dispatcher::new();

    let foo_res = register(&mut disp, "foo");
    let bar_res = register(&mut disp, "bar");
    let baz_res = register(&mut disp, "baz");

    let value = |i: i64| {
        dict(vec![
            ("txid", Object::text("foo")),
            ("streamId", Object::text("fooStream")),
            ("value", Object::Int(i)),
        ])
    };
    let msgs = [
        dict(vec![
            ("txid", Object::text("foo")),
            ("streamId", Object::text("fooStream")),
            ("status", Object::text("ok")),
            ("error", Object::text("none")),
        ]),
        value(1),
        value(2),
        value(3),
        dict(vec![("txid", Object::text("baz")), ("error", Object::text(ERROR_MSG))]),
        value(42),
        dict(vec![
            ("txid", Object::text("bar")),
            ("status", Object::text("ok")),
            ("motd", Object::text(MOTD)),
        ]),
    ];

    for msg in msgs {
        receive(&mut disp, &msg).unwrap();
    }

    let foo = foo_res.try_recv().unwrap().unwrap();
    let bar = bar_res.try_recv().unwrap().unwrap();
    let baz_err = baz_res.try_recv().unwrap().unwrap_err();

    for res in [&foo, &bar] {
        assert_eq!(res.message.get_text("status").unwrap(), "ok");
    }

    assert_eq!(format!("{baz_err:?}"), format!("{:?}", Error::RemoteError(ERROR_MSG.to_owned())));

    let foo_stream = foo.stream.unwrap();
    let mut values = [1, 2, 3, 42].iter().copied();
    while let Ok(msg) = foo_stream.try_recv() {
        assert_eq!(msg.get_int("value").unwrap(), values.next().unwrap());
    }
    assert!(values.next().is_none());

    assert!(bar.stream.is_none());

    assert_eq!(bar.message.get_text("motd").unwrap(), MOTD.to_owned());
}

#[test]
fn request_is_answered_once() {
    let mut disp = Dispatcher::new();
    let res = register(&mut disp, "1");
    let msg = dict(vec![("txid", Object::text("1"))]);
    receive(&mut disp, &msg).unwrap();
    assert!(res.try_recv().unwrap().is_ok());
    assert_eq!(receive(&mut disp, &msg), Err(Error::DispatchDestination("Unknown txid in incoming message")));
}

#[test]
fn repeated_txid_is_refused() {
    let mut disp: Dispatcher<u32, ()> = Dispatcher::new();
    let request = |slot| Event::Request {
        txid: "1".to_owned(),
        slot,
    };
    assert!(matches!(disp.step(request(1), || ((), ())), Step::Registered));
    match disp.step(request(2), || ((), ())) {
        Step::Refuse { slot, error } => {
            assert_eq!(slot, 2);
            assert_eq!(error, Error::RepeatingTx { txid: "1".to_owned() });
        }
        _ => panic!("refusal expected"),
    }
    match disp.step(Event::Received(b"d4:txid1:1e".to_vec()), || ((), ())) {
        Step::Deliver(Delivery::Respond { slot, .. }) => assert_eq!(slot, 1),
        _ => panic!("response expected"),
    }
}

#[test]
fn error_opens_no_stream() {
    let mut disp = Dispatcher::new();
    let res = register(&mut disp, "1");
    let msg = dict(vec![
        ("txid", Object::text("1")),
        ("streamId", Object::text("s")),
        ("error", Object::Int(7)),
    ]);
    receive(&mut disp, &msg).unwrap();
    match res.try_recv().unwrap() {
        Err(e) => assert_eq!(e, Error::RemoteError("unrecognized error".to_owned())),
        Ok(_) => panic!("error expected"),
    }
    assert!(disp.state.find_stream("s").is_none());
    assert_eq!(receive(&mut disp, &msg), Err(Error::DispatchDestination("Unknown streamId in incoming message")));
}

#[test]
fn closed_recipients_are_reported() {
    let mut disp = Dispatcher::new();
    drop(register(&mut disp, "1"));
    let msg = dict(vec![("txid", Object::text("1")), ("streamId", Object::text("s"))]);
    assert_eq!(
        receive(&mut disp, &msg),
        Err(Error::DispatchDestination("Recipient for response message is closed"))
    );
    assert!(disp.state.find_stream("s").is_some());
    assert_eq!(
        receive(&mut disp, &msg),
        Err(Error::DispatchDestination("Failed to handle stream message, unsubscribing"))
    );
    assert!(disp.state.find_stream("s").is_none());
}

#[test]
fn cleanup_drops_what_is_closed() {
    let mut state: State<bool, bool> = State::new();
    assert!(state.handle_request("open".to_owned(), false).is_none());
    assert!(state.handle_request("closed".to_owned(), true).is_none());
    state.cleanup(|closed: &bool| *closed, |closed: &bool| *closed);
    assert!(matches!(state.dispatch_message::<(), _>(b"d4:txid4:opene", || (false, ())), Ok(Delivery::Respond { slot: false, .. })));
    assert!(matches!(
        state.dispatch_message::<(), _>(b"d4:txid6:closede", || (false, ())),
        Err(Error::DispatchDestination(_))
    ));
}

#[test]
fn cleanup_is_due_every_period() {
    let mut disp: Dispatcher<(), ()> = Dispatcher::new();
    let due: Vec<u32> = (1..=600).filter(|_| disp.end_round()).collect();
    assert_eq!(due, vec![256, 512]);
    disp.rounds = u64::MAX;
    assert!(disp.end_round());
    assert_eq!(disp.rounds, 0);
}

#[test]
fn task_stops_when_a_side_closes() {
    let mut disp: Dispatcher<(), ()> = Dispatcher::new();
    assert!(matches!(disp.step(Event::RemoteClosed, || ((), ())), Step::Stop(Ok(()))));
    assert!(matches!(disp.step(Event::QueueClosed, || ((), ())), Step::Stop(Ok(()))));
    match disp.step(Event::ReceiveFailed("broken".to_owned()), || ((), ())) {
        Step::Stop(Err(e)) => assert_eq!(e, Error::NetworkOperation("broken".to_owned())),
        _ => panic!("failure expected"),
    }
}

#[test]
fn unreadable_messages_are_reported() {
    assert_eq!(
        decode_message(b"nonsense"),
        Err(Error::Protocol("Error parsing incoming message: malformed bencode".to_owned()))
    );
    assert_eq!(decode_message(b"le"), Err(Error::Protocol("Incoming message is not a dict".to_owned())));
    let read = |msg: &[u8]| MessageMetadata::read_from(&decode_message(msg).unwrap());
    assert_eq!(read(b"de").err(), Some(Error::Protocol("txid missing".to_owned())));
    assert_eq!(read(b"d4:txidi1ee").err(), Some(Error::Protocol("Error getting txid: not a text".to_owned())));
}

#[test]
fn metadata_are_read() {
    let read = |error: &str| {
        let d = dict(vec![("txid", Object::text("t")), ("error", Object::text(error)), ("streamId", Object::Int(3))]);
        let meta = MessageMetadata::read_from(&d).unwrap();
        assert_eq!(meta.txid, "t");
        assert_eq!(meta.stream_id, None);
        meta.error
    };
    assert_eq!(read(""), None);
    assert_eq!(read("none"), None);
    assert_eq!(read("NoNe"), None);
    assert_eq!(read("nine"), Some("nine".to_owned()));
    assert_eq!(read("none "), Some("none ".to_owned()));
}

#[test]
fn deeply_nested_messages_are_refused() {
    let nested = |n: usize| {
        let mut msg = b"d1:a".to_vec();
        msg.extend(vec![b'l'; n]);
        msg.extend(vec![b'e'; n]);
        msg.extend_from_slice(b"4:txid1:te");
        msg
    };
    assert!(decode_message(&nested(31)).is_ok());
    assert!(decode_message(&nested(32)).is_err());
}

#[test]
fn end_of_task_explains_failures() {
    let query = |end: Option<TaskEnd>| {
        let mut d = Dispatch::start(1u8, true);
        assert_eq!(d.abort(), Some(&1));
        assert_eq!(d.abort_when_dropped(), Some(&1));
        let first = d.query_error(end);
        let again = d.query_error(Some(TaskEnd::Canceled));
        (first, again)
    };
    let unresponsive = || Error::DispatchError(DispatchError::Unresponsive);
    let canceled = || Error::DispatchError(DispatchError::Canceled);
    assert_eq!(query(None), (unresponsive(), canceled()));
    assert_eq!(query(Some(TaskEnd::Returned(Ok(())))), (Error::ConnectionClosed, Error::ConnectionClosed));
    assert_eq!(query(Some(TaskEnd::Canceled)), (canceled(), canceled()));

    let fatal = || Error::DispatchError(DispatchError::FatalError(Arc::new(Error::ConnectionClosed)));
    assert_eq!(query(Some(TaskEnd::Returned(Err(Error::ConnectionClosed)))), (fatal(), fatal()));

    let panicked = |static_text, text: Option<&str>| {
        query(Some(TaskEnd::Panicked {
            static_text,
            text: text.map(str::to_owned),
            type_id: TypeId::of::<u8>(),
        }))
        .0
    };
    let payload = |p| Error::DispatchError(DispatchError::Panicked(p));
    assert_eq!(panicked(Some("a"), Some("b")), payload(PanicPayload::StaticText("a")));
    assert_eq!(panicked(None, Some("b")), payload(PanicPayload::Text(Arc::new("b".to_owned()))));
    assert_eq!(panicked(None, None), payload(PanicPayload::UnsupportedType(TypeId::of::<u8>())));
}

#[test]
fn dropped_owner_aborts_only_if_told() {
    let d = Dispatch::start(1u8, false);
    assert_eq!(d.abort_when_dropped(), None);
    assert_eq!(d.abort(), Some(&1));
    let done: Dispatch<u8> = Dispatch {
        state: DispatchState::Completed,
        abort_on_drop: true,
    };
    assert_eq!(done.abort(), None);
    assert_eq!(done.register_request(true, 5), Ok(5));
    assert_eq!(done.register_request(false, 5), Err(DispatchError::Unresponsive));
}
