//! Dispatch of incoming messages to pending requests and open streams, by their `txid`
//! and `streamId`.

use std::any::TypeId;
use std::sync::Arc;

use vstd::prelude::*;
use vstd::utf8::*;

use crate::bencode;
use crate::errors::{DispatchError, Error, PanicPayload};
use crate::object::{Dict, EntryError, Object, Value};
use crate::object;
use crate::text_map::TextMap;
use crate::text_map;

verus! {

/// How many requests may wait to be registered.
pub const REQUEST_QUEUE_BOUND: usize = 0x10;

/// How many messages of a stream may wait to be read.
pub const STREAM_QUEUE_BOUND: usize = 0x100;

/// After how many rounds closed requests and streams are dropped.
pub const STATE_CLEANUP_PERIOD: u64 = 0x100;

/// How deep values of a message may be nested.
pub const BENCODE_MAX_RECURSION: u32 = 0x20;

/// The immediate response to a request, and the stream that the request opened, if any.
#[derive(Debug)]
pub struct Response<R> {
    /// Response message.
    pub message: Dict,
    /// Where the messages of the stream arrive, if a stream id was specified.
    pub stream: Option<R>,
}

/// The parts of a message by which it is dispatched.
pub struct MessageMetadata {
    /// Transaction id.
    pub txid: String,
    /// What went wrong, if anything did.
    pub error: Option<String>,
    /// Stream id, if there is one.
    pub stream_id: Option<String>,
}

/// What [`MessageMetadata`] stands for.
pub struct MetadataModel {
    /// Transaction id.
    pub txid: Seq<char>,
    /// What went wrong, if anything did.
    pub error: Option<Seq<char>>,
    /// Stream id, if there is one.
    pub stream_id: Option<Seq<char>>,
}

/// What an optional text says.
pub open spec fn optional_text(t: Option<String>) -> Option<Seq<char>> {
    match t {
        Some(t) => Some(t@),
        None => None,
    }
}

impl MessageMetadata {
    /// What the metadata say.
    pub open spec fn view(&self) -> MetadataModel {
        MetadataModel {
            txid: self.txid@,
            error: optional_text(self.error),
            stream_id: optional_text(self.stream_id),
        }
    }
}

/// The error is a protocol error with the given text.
pub open spec fn is_protocol_error(e: Error, text: Seq<char>) -> bool {
    e matches Error::Protocol(t) && t@ == text
}

/// The error is a failed delivery with the given text.
pub open spec fn is_destination_error(e: Error, text: Seq<char>) -> bool {
    e matches Error::DispatchDestination(t) && t@ == text
}

/// The dictionary that a message holds, or why it cannot be read.
pub open spec fn decoded(msg: Seq<u8>) -> Result<Map<Seq<u8>, Value>, Seq<char>> {
    match bencode::parse_value(msg, 0, BENCODE_MAX_RECURSION as nat) {
        Some((Value::Dict(m), _)) => Ok(m),
        Some(_) => Err("Incoming message is not a dict"@),
        None => Err("Error parsing incoming message: malformed bencode"@),
    }
}

/// Reads the dictionary that a message holds.
pub fn decode_message(msg: &[u8]) -> (r: Result<Dict, Error>)
    ensures
        match decoded(msg@) {
            Ok(m) => r is Ok && r->Ok_0@ == m,
            Err(t) => r is Err && is_protocol_error(r->Err_0, t),
        },
{
    match bencode::parse(msg, BENCODE_MAX_RECURSION) {
        Some(Object::Dict(d)) => Ok(d),
        Some(_) => Err(Error::Protocol("Incoming message is not a dict".to_owned())),
        None => Err(
            Error::Protocol("Error parsing incoming message: malformed bencode".to_owned()),
        ),
    }
}

/// Whether a text is the word "none", in upper or lower case.
pub open spec fn is_none_word(t: Seq<char>) -> bool {
    t.len() == 4 && forall|i: int| 0 <= i < 4 ==> #[trigger] t[i] == "none"@[i] || t[i] == "NONE"@[i]
}

/// What the `error` entry of a message reports.
pub open spec fn reported_error(m: Map<Seq<u8>, Value>) -> Option<Seq<char>> {
    match object::text_at(m, "error"@) {
        Ok(t) => if t.len() == 0 || is_none_word(t) {
            None
        } else {
            Some(t)
        },
        Err(EntryError::Missing) => None,
        Err(EntryError::WrongType) => Some("unrecognized error"@),
    }
}

/// The parts of a message by which it is dispatched, or why they cannot be read.
pub open spec fn metadata_of(m: Map<Seq<u8>, Value>) -> Result<MetadataModel, Seq<char>> {
    match object::text_at(m, "txid"@) {
        Ok(txid) => Ok(
            MetadataModel {
                txid,
                error: reported_error(m),
                stream_id: match object::text_at(m, "streamId"@) {
                    Ok(id) => Some(id),
                    Err(_) => None,
                },
            },
        ),
        Err(EntryError::Missing) => Err("txid missing"@),
        Err(EntryError::WrongType) => Err("Error getting txid: not a text"@),
    }
}

fn says_none(t: &str) -> (r: bool)
    ensures
        r == is_none_word(t@),
{
    proof {
        reveal_strlit("none");
        reveal_strlit("NONE");
    }
    if t.unicode_len() != 4 {
        return false;
    }
    let (c0, c1, c2, c3): (char, char, char, char) = (
        t.get_char(0),
        t.get_char(1),
        t.get_char(2),
        t.get_char(3),
    );
    (c0 == 'n' || c0 == 'N') && (c1 == 'o' || c1 == 'O') && (c2 == 'n' || c2 == 'N') && (c3 == 'e'
        || c3 == 'E')
}

impl MessageMetadata {
    /// Reads the metadata of a message.
    pub fn read_from(src: &Dict) -> (r: Result<MessageMetadata, Error>)
        ensures
            match metadata_of(src@) {
                Ok(m) => r is Ok && r->Ok_0@ == m,
                Err(t) => r is Err && is_protocol_error(r->Err_0, t),
            },
    {
        let txid: String = match src.get_text("txid") {
            Ok(txid) => txid.to_owned(),
            Err(EntryError::Missing) => {
                return Err(Error::Protocol("txid missing".to_owned()));
            },
            Err(EntryError::WrongType) => {
                return Err(Error::Protocol("Error getting txid: not a text".to_owned()));
            },
        };
        let error: Option<String> = match src.get_text("error") {
            Ok(emsg) => if emsg.unicode_len() == 0 || says_none(emsg) {
                None
            } else {
                Some(emsg.to_owned())
            },
            Err(EntryError::Missing) => None,
            Err(EntryError::WrongType) => Some("unrecognized error".to_owned()),
        };
        let stream_id: Option<String> = match src.get_text("streamId") {
            Ok(id) => Some(id.to_owned()),
            Err(_) => None,
        };
        Ok(MessageMetadata { txid, error, stream_id })
    }
}

/// The pending requests and the open streams, with what leads to those who wait for
/// their messages.
pub struct State<S, T> {
    requests: TextMap<S>,
    streams: TextMap<T>,
}

/// What a [`State`] stands for.
#[verifier::ext_equal]
pub struct StateModel<S, T> {
    /// Pending requests by transaction id.
    pub requests: Map<Seq<char>, S>,
    /// Open streams by stream id.
    pub streams: Map<Seq<char>, T>,
}

/// Where an incoming message goes.
pub enum Route {
    /// To the pending request with this transaction id.
    Request(MetadataModel, Map<Seq<u8>, Value>),
    /// To the open stream with this id.
    Stream(Seq<char>, Map<Seq<u8>, Value>),
    /// Nowhere: no stream with its stream id is open.
    UnknownStream,
    /// Nowhere: no request with its transaction id is pending.
    UnknownTxid,
    /// Nowhere: the message cannot be read.
    Unreadable(Seq<char>),
}

/// Where an incoming message goes. A pending request comes before an open stream.
pub open spec fn route<S, T>(state: StateModel<S, T>, msg: Seq<u8>) -> Route {
    match decoded(msg) {
        Err(t) => Route::Unreadable(t),
        Ok(m) => match metadata_of(m) {
            Err(t) => Route::Unreadable(t),
            Ok(meta) => if state.requests.dom().contains(meta.txid) {
                Route::Request(meta, m)
            } else {
                match meta.stream_id {
                    Some(id) => if state.streams.dom().contains(id) {
                        Route::Stream(id, m)
                    } else {
                        Route::UnknownStream
                    },
                    None => Route::UnknownTxid,
                }
            },
        },
    }
}

/// What is to be done with an incoming message.
pub enum Delivery<S, R> {
    /// Hand the response to the one who waits for it.
    Respond {
        /// Leads to the one who waits.
        slot: S,
        /// The response, or the error that the remote side reported.
        response: Result<Response<R>, Error>,
    },
    /// Hand the message to the subscriber of the stream.
    Forward {
        /// Stream id.
        stream_id: String,
        /// The message.
        message: Dict,
    },
}

/// The response answers a request with the given message: with the error that it
/// reports, or else with the message itself and with the receiving end of a new stream
/// where the message names one.
pub open spec fn answers<R>(
    response: Result<Response<R>, Error>,
    meta: MetadataModel,
    m: Map<Seq<u8>, Value>,
) -> bool {
    match meta.error {
        Some(t) => response matches Err(Error::RemoteError(e)) && e@ == t,
        None => response matches Ok(resp) && resp.message@ == m && (resp.stream is Some
            == meta.stream_id is Some),
    }
}

/// The streams after a request was answered: one more where the response names a stream.
/// The ends of a new stream come from `open`.
pub open spec fn subscribed<T, R, F: FnOnce() -> (T, R)>(
    before: Map<Seq<char>, T>,
    after: Map<Seq<char>, T>,
    meta: MetadataModel,
    response: Result<Response<R>, Error>,
    open: F,
) -> bool {
    if meta.error is None && meta.stream_id is Some {
        exists|tx: T| #[trigger]
            call_ensures(open, (), (tx, response->Ok_0.stream->Some_0)) && after == before.insert(
                meta.stream_id->Some_0,
                tx,
            )
    } else {
        after == before
    }
}

/// `r` is what is to be done with the message, and `after` the state that it leaves.
pub open spec fn dispatched<S, T, R, F: FnOnce() -> (T, R)>(
    before: StateModel<S, T>,
    after: StateModel<S, T>,
    msg: Seq<u8>,
    open: F,
    r: Result<Delivery<S, R>, Error>,
) -> bool {
    match route(before, msg) {
        Route::Request(meta, m) => {
            &&& r matches Ok(Delivery::Respond { slot, response })
            &&& slot == before.requests[meta.txid]
            &&& answers(response, meta, m)
            &&& after.requests == before.requests.remove(meta.txid)
            &&& subscribed(before.streams, after.streams, meta, response, open)
        },
        Route::Stream(id, m) => {
            &&& r matches Ok(Delivery::Forward { stream_id, message })
            &&& stream_id@ == id
            &&& message@ == m
            &&& after == before
        },
        Route::UnknownStream => {
            &&& r matches Err(e) && is_destination_error(e, "Unknown streamId in incoming message"@)
            &&& after == before
        },
        Route::UnknownTxid => {
            &&& r matches Err(e) && is_destination_error(e, "Unknown txid in incoming message"@)
            &&& after == before
        },
        Route::Unreadable(t) => {
            &&& r matches Err(e) && is_protocol_error(e, t)
            &&& after == before
        },
    }
}

impl<S, T> State<S, T> {
    /// The pending requests and the open streams.
    pub closed spec fn view(&self) -> StateModel<S, T> {
        StateModel { requests: self.requests@, streams: self.streams@ }
    }

    /// No request is pending and no stream is open.
    pub fn new() -> (r: State<S, T>)
        ensures
            r@.requests == Map::<Seq<char>, S>::empty(),
            r@.streams == Map::<Seq<char>, T>::empty(),
    {
        State { requests: TextMap::new(), streams: TextMap::new() }
    }

    /// The open stream with the given id.
    pub fn find_stream(&self, id: &str) -> (r: Option<&T>)
        ensures
            match r {
                Some(tx) => self@.streams.dom().contains(id@) && self@.streams[id@] == *tx,
                None => !self@.streams.dom().contains(id@),
            },
    {
        self.streams.get(id)
    }

    /// Drops the requests and the streams that nobody waits for any more, and no others.
    pub fn cleanup<F: Fn(&S) -> bool, G: Fn(&T) -> bool>(&mut self, slot_closed: F, stream_closed: G)
        requires
            forall|s: &S| call_requires(slot_closed, (s,)),
            forall|t: &T| call_requires(stream_closed, (t,)),
        ensures
            text_map::retained(old(self)@.requests, final(self)@.requests, slot_closed),
            text_map::retained(old(self)@.streams, final(self)@.streams, stream_closed),
    {
        self.requests.retain_open(slot_closed);
        self.streams.retain_open(stream_closed);
    }

    /// Finds out where an incoming message goes. A request that is answered is no longer
    /// pending; a stream that the answer names is open from then on, with the ends that
    /// `open` makes.
    pub fn dispatch_message<R, F: FnOnce() -> (T, R)>(&mut self, msg: &[u8], open: F) -> (r: Result<
        Delivery<S, R>,
        Error,
    >)
        requires
            call_requires(open, ()),
        ensures
            dispatched(old(self)@, final(self)@, msg@, open, r),
    {
        let message: Dict = match decode_message(msg) {
            Ok(message) => message,
            Err(e) => {
                return Err(e);
            },
        };
        let meta: MessageMetadata = match MessageMetadata::read_from(&message) {
            Ok(meta) => meta,
            Err(e) => {
                return Err(e);
            },
        };
        let ghost model = meta@;
        let ghost m = message@;
        assert(!self@.requests.dom().contains(model.txid) ==> self@.requests.remove(model.txid)
            =~= self@.requests);
        match self.requests.remove(meta.txid.as_str()) {
            Some(slot) => {
                let ghost mut opened: Option<T> = None;
                let response: Result<Response<R>, Error> = match meta.error {
                    Some(emsg) => Err(Error::RemoteError(emsg)),
                    None => {
                        let stream: Option<R> = match meta.stream_id {
                            Some(id) => {
                                let (tx, rx): (T, R) = open();
                                self.streams.insert(id, tx);
                                proof {
                                    opened = Some(tx);
                                }
                                Some(rx)
                            },
                            None => None,
                        };
                        Ok(Response { message, stream })
                    },
                };
                assert(answers(response, model, m));
                assert(model.error is None && model.stream_id is Some ==> call_ensures(
                    open,
                    (),
                    (opened->Some_0, response->Ok_0.stream->Some_0),
                ));
                assert(subscribed(old(self)@.streams, self@.streams, model, response, open));
                Ok(Delivery::Respond { slot, response })
            },
            None => match meta.stream_id {
                Some(stream_id) => match self.streams.get(stream_id.as_str()) {
                    Some(_) => Ok(Delivery::Forward { stream_id, message }),
                    None => Err(Error::DispatchDestination("Unknown streamId in incoming message")),
                },
                None => Err(Error::DispatchDestination("Unknown txid in incoming message")),
            },
        }
    }

    /// What to make of the delivery of a message to a stream. A subscriber that cannot
    /// take the message loses the stream.
    pub fn finish_forward(&mut self, stream_id: &str, sent: bool) -> (r: Result<(), Error>)
        ensures
            final(self)@.requests == old(self)@.requests,
            sent ==> r is Ok && final(self)@.streams == old(self)@.streams,
            !sent ==> final(self)@.streams == old(self)@.streams.remove(stream_id@) && r is Err
                && is_destination_error(
                r->Err_0,
                "Failed to handle stream message, unsubscribing"@,
            ),
    {
        if sent {
            Ok(())
        } else {
            let _ = self.streams.remove(stream_id);
            Err(Error::DispatchDestination("Failed to handle stream message, unsubscribing"))
        }
    }

    /// Registers a request. Where a request with the same transaction id is pending, that
    /// one stays, and the new one is given back with the error to answer it with.
    pub fn handle_request(&mut self, txid: String, slot: S) -> (r: Option<(S, Error)>)
        ensures
            final(self)@.streams == old(self)@.streams,
            if old(self)@.requests.dom().contains(txid@) {
                final(self)@ == old(self)@ && r == Some((slot, Error::RepeatingTx { txid }))
            } else {
                final(self)@.requests == old(self)@.requests.insert(txid@, slot) && r is None
            },
    {
        if self.requests.get(txid.as_str()).is_some() {
            Some((slot, Error::RepeatingTx { txid }))
        } else {
            self.requests.insert(txid, slot);
            None
        }
    }
}

/// What to make of the delivery of a response.
pub fn finish_response(sent: bool) -> (r: Result<(), Error>)
    ensures
        sent ==> r is Ok,
        !sent ==> r is Err && is_destination_error(
            r->Err_0,
            "Recipient for response message is closed"@,
        ),
{
    if sent {
        Ok(())
    } else {
        Err(Error::DispatchDestination("Recipient for response message is closed"))
    }
}

/// A message that was written can be read: what it holds is what was written, whatever
/// follows it, unless its values are nested too deep.
pub proof fn law_written_message_is_read(m: Map<Seq<u8>, Value>, rest: Seq<u8>)
    requires
        bencode::nests_within(Value::Dict(m), BENCODE_MAX_RECURSION as nat),
    ensures
        decoded(bencode::encode(Value::Dict(m)) + rest) == Ok::<Map<Seq<u8>, Value>, Seq<char>>(m),
{
    bencode::law_parse_undoes_serialize(Value::Dict(m), rest, BENCODE_MAX_RECURSION as nat);
}

/// A request that was registered is pending, and the next message with its transaction
/// id goes to it.
pub proof fn law_registered_request_is_answered<S, T>(
    before: StateModel<S, T>,
    txid: Seq<char>,
    slot: S,
    msg: Seq<u8>,
    m: Map<Seq<u8>, Value>,
    meta: MetadataModel,
)
    requires
        decoded(msg) == Ok::<Map<Seq<u8>, Value>, Seq<char>>(m),
        metadata_of(m) == Ok::<MetadataModel, Seq<char>>(meta),
        meta.txid == txid,
    ensures
        ({
            let after = StateModel { requests: before.requests.insert(txid, slot), ..before };
            route(after, msg) == Route::Request(meta, m) && after.requests[txid] == slot
        }),
{
}

/// A request is answered at most once: after the answer no message is an answer to it,
/// until its transaction id is registered again.
pub proof fn law_request_is_answered_once<S, T, R, F: FnOnce() -> (T, R)>(
    before: StateModel<S, T>,
    after: StateModel<S, T>,
    msg: Seq<u8>,
    open: F,
    r: Result<Delivery<S, R>, Error>,
    later: Seq<u8>,
)
    requires
        dispatched(before, after, msg, open, r),
        route(before, msg) is Request,
    ensures
        !after.requests.dom().contains(route(before, msg)->Request_0.txid),
        route(after, later) is Request ==> route(after, later)->Request_0.txid != route(
            before,
            msg,
        )->Request_0.txid,
{
}

/// A stream that an answer names is open from then on: messages with its stream id go to
/// it, unless they answer a pending request.
pub proof fn law_stream_follows_answer<S, T, R, F: FnOnce() -> (T, R)>(
    before: StateModel<S, T>,
    after: StateModel<S, T>,
    msg: Seq<u8>,
    open: F,
    r: Result<Delivery<S, R>, Error>,
    later: Seq<u8>,
    m: Map<Seq<u8>, Value>,
    meta: MetadataModel,
)
    requires
        dispatched(before, after, msg, open, r),
        route(before, msg) is Request,
        route(before, msg)->Request_0.error is None,
        route(before, msg)->Request_0.stream_id is Some,
        decoded(later) == Ok::<Map<Seq<u8>, Value>, Seq<char>>(m),
        metadata_of(m) == Ok::<MetadataModel, Seq<char>>(meta),
        meta.stream_id == route(before, msg)->Request_0.stream_id,
        !after.requests.dom().contains(meta.txid),
    ensures
        route(after, later) == Route::Stream(meta.stream_id->Some_0, m),
        call_ensures(
            open,
            (),
            (
                after.streams[meta.stream_id->Some_0],
                r->Ok_0->Respond_response->Ok_0.stream->Some_0,
            ),
        ),
{
}

/// No message takes a request or a stream away from anyone but the one that it answers:
/// the other requests stay pending, and every stream stays open.
pub proof fn law_dispatch_keeps_the_others<S, T, R, F: FnOnce() -> (T, R)>(
    before: StateModel<S, T>,
    after: StateModel<S, T>,
    msg: Seq<u8>,
    open: F,
    r: Result<Delivery<S, R>, Error>,
)
    requires
        dispatched(before, after, msg, open, r),
    ensures
        forall|id: Seq<char>| #[trigger]
            before.requests.dom().contains(id) && !(route(before, msg) is Request && route(
                before,
                msg,
            )->Request_0.txid == id) ==> after.requests.dom().contains(id)
                && after.requests[id] == before.requests[id],
        forall|id: Seq<char>| #[trigger]
            after.requests.dom().contains(id) ==> before.requests.dom().contains(id),
        forall|id: Seq<char>| #[trigger]
            before.streams.dom().contains(id) ==> after.streams.dom().contains(id),
        forall|id: Seq<char>| #[trigger]
            before.streams.dom().contains(id) && !(route(before, msg) is Request && route(
                before,
                msg,
            )->Request_0.stream_id == Some(id)) ==> after.streams[id] == before.streams[id],
{
}

/// A message that reports an error opens no stream.
pub proof fn law_error_opens_no_stream<S, T, R, F: FnOnce() -> (T, R)>(
    before: StateModel<S, T>,
    after: StateModel<S, T>,
    msg: Seq<u8>,
    open: F,
    r: Result<Delivery<S, R>, Error>,
)
    requires
        dispatched(before, after, msg, open, r),
        route(before, msg) is Request,
        route(before, msg)->Request_0.error is Some,
    ensures
        after.streams == before.streams,
        r->Ok_0->Respond_response is Err,
{
}

/// The dispatch task: its state and how many rounds it has made.
pub struct Dispatcher<S, T> {
    /// Pending requests and open streams.
    pub state: State<S, T>,
    /// Rounds made so far.
    pub rounds: u64,
}

/// What the dispatch task waits for.
pub enum Event<S> {
    /// A message came in.
    Received(Vec<u8>),
    /// The remote side closed the connection.
    RemoteClosed,
    /// Receiving failed, for the given reason.
    ReceiveFailed(String),
    /// A request is to be registered.
    Request {
        /// Transaction id of the request.
        txid: String,
        /// Leads to the one who waits for the response.
        slot: S,
    },
    /// There will be no more requests.
    QueueClosed,
}

/// What the dispatch task does next.
pub enum Step<S, R> {
    /// Deliver a message.
    Deliver(Delivery<S, R>),
    /// Report a message that goes nowhere.
    Report(Error),
    /// Tell the one who made the request that it is registered.
    Registered,
    /// Answer the one who made the request with the error, and then tell them as above.
    Refuse {
        /// Leads to the one who waits for the response.
        slot: S,
        /// The error.
        error: Error,
    },
    /// End with the given result.
    Stop(Result<(), Error>),
}

/// `r` is what the dispatch task does on an event, and `after` the state that it leaves.
pub open spec fn stepped<S, T, R, F: FnOnce() -> (T, R)>(
    before: StateModel<S, T>,
    after: StateModel<S, T>,
    event: Event<S>,
    open: F,
    r: Step<S, R>,
) -> bool {
    match event {
        Event::Received(msg) => match r {
            Step::Deliver(d) => dispatched(before, after, msg@, open, Ok(d)),
            Step::Report(e) => dispatched(before, after, msg@, open, Err::<Delivery<S, R>, Error>(e)),
            _ => false,
        },
        Event::RemoteClosed => after == before && r == Step::<S, R>::Stop(Ok(())),
        Event::ReceiveFailed(t) => after == before && r == Step::<S, R>::Stop(
            Err(Error::NetworkOperation(t)),
        ),
        Event::Request { txid, slot } => if before.requests.dom().contains(txid@) {
            after == before && r == (Step::<S, R>::Refuse {
                slot,
                error: Error::RepeatingTx { txid },
            })
        } else {
            after.streams == before.streams && after.requests == before.requests.insert(txid@, slot)
                && r == Step::<S, R>::Registered
        },
        Event::QueueClosed => after == before && r == Step::<S, R>::Stop(Ok(())),
    }
}

impl<S, T> Dispatcher<S, T> {
    /// Nothing has happened yet.
    pub fn new() -> (r: Dispatcher<S, T>)
        ensures
            r.state@.requests == Map::<Seq<char>, S>::empty(),
            r.state@.streams == Map::<Seq<char>, T>::empty(),
            r.rounds == 0,
    {
        Dispatcher { state: State::new(), rounds: 0 }
    }

    /// Decides what to do on an event.
    pub fn step<R, F: FnOnce() -> (T, R)>(&mut self, event: Event<S>, open: F) -> (r: Step<S, R>)
        requires
            call_requires(open, ()),
        ensures
            stepped(old(self).state@, final(self).state@, event, open, r),
            final(self).rounds == old(self).rounds,
    {
        match event {
            Event::Received(msg) => match self.state.dispatch_message(msg.as_slice(), open) {
                Ok(d) => Step::Deliver(d),
                Err(e) => Step::Report(e),
            },
            Event::RemoteClosed => Step::Stop(Ok(())),
            Event::ReceiveFailed(t) => Step::Stop(Err(Error::NetworkOperation(t))),
            Event::Request { txid, slot } => match self.state.handle_request(txid, slot) {
                Some((slot, error)) => Step::Refuse { slot, error },
                None => Step::Registered,
            },
            Event::QueueClosed => Step::Stop(Ok(())),
        }
    }

    /// Counts a round that did not end the task, and says whether a cleanup is due.
    pub fn end_round(&mut self) -> (r: bool)
        ensures
            final(self).state == old(self).state,
            final(self).rounds == (old(self).rounds + 1) % 0x1_0000_0000_0000_0000,
            r == (final(self).rounds % STATE_CLEANUP_PERIOD == 0),
            r <==> final(self).rounds % 0x100 == 0,
    {
        self.rounds = self.rounds.wrapping_add(1);
        self.rounds % STATE_CLEANUP_PERIOD == 0
    }
}

/// How the dispatch task ended.
pub enum TaskEnd {
    /// It returned.
    Returned(Result<(), Error>),
    /// It panicked, with a payload that may be a static text or an owned one.
    Panicked {
        /// The payload as a static text, if it is one.
        static_text: Option<&'static str>,
        /// The payload as an owned text, if it is one.
        text: Option<String>,
        /// The type of the payload.
        type_id: TypeId,
    },
    /// It was canceled.
    Canceled,
}

/// State of the dispatch task, with a handle of the task while it is not known to have
/// ended.
pub enum DispatchState<J> {
    /// The task handle is present. The task itself may have ended meanwhile.
    Pending(J),
    /// The task is completed, as the connection is closed.
    Completed,
    /// The task is aborted due to an internal error.
    Aborted(DispatchError),
}

/// What becomes of the state when the end of the task is known.
pub open spec fn ended_as<J>(end: TaskEnd, after: DispatchState<J>) -> bool {
    match end {
        TaskEnd::Returned(Ok(_)) => after is Completed,
        TaskEnd::Returned(Err(e)) => after matches DispatchState::Aborted(
            DispatchError::FatalError(inner),
        ) && *inner == e,
        TaskEnd::Panicked { static_text: Some(t), .. } => after
            == DispatchState::<J>::Aborted(DispatchError::Panicked(PanicPayload::StaticText(t))),
        TaskEnd::Panicked { static_text: None, text: Some(t), .. } => after matches
            DispatchState::Aborted(DispatchError::Panicked(PanicPayload::Text(u))) && *u == t,
        TaskEnd::Panicked { static_text: None, text: None, type_id } => after
            == DispatchState::<J>::Aborted(
            DispatchError::Panicked(PanicPayload::UnsupportedType(type_id)),
        ),
        TaskEnd::Canceled => after == DispatchState::<J>::Aborted(DispatchError::Canceled),
    }
}

/// What becomes of the state when one looks at the task, which may have ended.
pub open spec fn refreshed<J>(
    before: DispatchState<J>,
    end: Option<TaskEnd>,
    after: DispatchState<J>,
) -> bool {
    match (before, end) {
        (DispatchState::Pending(_), Some(end)) => ended_as(end, after),
        _ => after == before,
    }
}

impl<J> DispatchState<J> {
    /// Takes note of how the task ended, if it did since it was last looked at.
    pub fn refresh(self, end: Option<TaskEnd>) -> (r: DispatchState<J>)
        ensures
            refreshed(self, end, r),
    {
        match (self, end) {
            (DispatchState::Pending(_), Some(end)) => match end {
                TaskEnd::Returned(Ok(_)) => DispatchState::Completed,
                TaskEnd::Returned(Err(e)) => DispatchState::Aborted(
                    DispatchError::FatalError(Arc::new(e)),
                ),
                TaskEnd::Panicked { static_text, text, type_id } => {
                    let payload: PanicPayload = match (static_text, text) {
                        (Some(t), _) => PanicPayload::StaticText(t),
                        (None, Some(t)) => PanicPayload::Text(Arc::new(t)),
                        (None, None) => PanicPayload::UnsupportedType(type_id),
                    };
                    DispatchState::Aborted(DispatchError::Panicked(payload))
                },
                TaskEnd::Canceled => DispatchState::Aborted(DispatchError::Canceled),
            },
            (other, _) => other,
        }
    }
}

/// Owner of a dispatch task.
pub struct Dispatch<J> {
    /// State of the task.
    pub state: DispatchState<J>,
    /// Whether the task is aborted once its owner is dropped.
    pub abort_on_drop: bool,
}

impl<J> Dispatch<J> {
    /// Takes hold of a task that was started.
    pub fn start(task: J, abort_on_drop: bool) -> (r: Dispatch<J>)
        ensures
            r.state == DispatchState::Pending(task),
            r.abort_on_drop == abort_on_drop,
    {
        Dispatch { state: DispatchState::Pending(task), abort_on_drop }
    }

    /// The task to abort, if it is not known to have ended.
    pub fn abort(&self) -> (r: Option<&J>)
        ensures
            match self.state {
                DispatchState::Pending(j) => r == Some(&j),
                _ => r is None,
            },
    {
        match &self.state {
            DispatchState::Pending(j) => Some(j),
            _ => None,
        }
    }

    /// The task to abort when its owner is dropped, if any.
    pub fn abort_when_dropped(&self) -> (r: Option<&J>)
        ensures
            match self.state {
                DispatchState::Pending(j) => r == (if self.abort_on_drop {
                    Some(&j)
                } else {
                    None
                }),
                _ => r is None,
            },
    {
        if self.abort_on_drop {
            self.abort()
        } else {
            None
        }
    }

    /// Why requests fail, as far as the end of the task tells.
    pub fn query_error(&mut self, end: Option<TaskEnd>) -> (r: Error)
        ensures
            refreshed(old(self).state, end, final(self).state),
            final(self).abort_on_drop == old(self).abort_on_drop,
            r == (match final(self).state {
                DispatchState::Pending(_) => Error::DispatchError(DispatchError::Unresponsive),
                DispatchState::Completed => Error::ConnectionClosed,
                DispatchState::Aborted(e) => Error::DispatchError(e),
            }),
    {
        let mut state: DispatchState<J> = DispatchState::Aborted(DispatchError::Poisoned);
        std::mem::swap(&mut self.state, &mut state);
        self.state = state.refresh(end);
        match &self.state {
            DispatchState::Pending(_) => Error::DispatchError(DispatchError::Unresponsive),
            DispatchState::Completed => Error::ConnectionClosed,
            DispatchState::Aborted(e) => Error::DispatchError(e.clone()),
        }
    }

    /// What comes of registering a request: the receiver of its response, unless the
    /// dispatch task no longer accepts requests.
    pub fn register_request<R>(&self, accepted: bool, receiver: R) -> (r: Result<R, DispatchError>)
        ensures
            r == (if accepted {
                Ok::<R, DispatchError>(receiver)
            } else {
                Err::<R, DispatchError>(DispatchError::Unresponsive)
            }),
    {
        if accepted {
            Ok(receiver)
        } else {
            Err(DispatchError::Unresponsive)
        }
    }
}

/// Once a task is known to have ended, looking at it again changes nothing.
pub proof fn law_end_is_final<J>(
    before: DispatchState<J>,
    first: Option<TaskEnd>,
    between: DispatchState<J>,
    second: Option<TaskEnd>,
    after: DispatchState<J>,
)
    requires
        refreshed(before, first, between),
        refreshed(between, second, after),
        first is Some || !(before is Pending),
    ensures
        after == between,
        !(after is Pending),
{
}

/// An error of the given kind with the given text is that and no other.
pub proof fn law_errors_have_their_text(e: Error, t: Seq<char>)
    ensures
        is_protocol_error(e, t) <==> e is Protocol && e->Protocol_0@ == t,
        is_destination_error(e, t) <==> e is DispatchDestination && e->DispatchDestination_0@ == t,
{
}

/// A message is what stands at its start, if that is a dictionary; otherwise the error says
/// whether anything could be read at all.
pub proof fn law_message_is_the_dictionary_it_starts_with(msg: Seq<u8>)
    ensures
        decoded(msg) is Ok <==> bencode::parse_value(msg, 0, 32) is Some && bencode::parse_value(
            msg,
            0,
            32,
        )->Some_0.0 is Dict,
        decoded(msg) matches Ok(m) ==> bencode::parse_value(msg, 0, 32)->Some_0.0 == Value::Dict(m),
        decoded(msg) matches Err(t) ==> t == (if bencode::parse_value(msg, 0, 32) is Some {
            "Incoming message is not a dict"@
        } else {
            "Error parsing incoming message: malformed bencode"@
        }),
{
}

/// The word "none" is recognized in any mix of cases, and no other word is.
pub proof fn law_none_in_any_case(t: Seq<char>)
    ensures
        is_none_word(t) <==> t.len() == 4 && (t[0] == 'n' || t[0] == 'N') && (t[1] == 'o' || t[1]
            == 'O') && (t[2] == 'n' || t[2] == 'N') && (t[3] == 'e' || t[3] == 'E'),
{
    reveal_strlit("none");
    reveal_strlit("NONE");
    if t.len() == 4 {
        assert(is_none_word(t) ==> (t[0] == 'n' || t[0] == 'N'));
        assert(is_none_word(t) ==> (t[1] == 'o' || t[1] == 'O'));
        assert(is_none_word(t) ==> (t[2] == 'n' || t[2] == 'N'));
        assert(is_none_word(t) ==> (t[3] == 'e' || t[3] == 'E'));
    }
}

/// Every error text but an empty one and "none" is reported as it is; what is no text is
/// reported as unrecognized, and nothing is reported where there is no such entry.
pub proof fn law_error_texts_are_reported(m: Map<Seq<u8>, Value>, t: Seq<char>, v: Value)
    ensures
        ({
            let n = m.insert(encode_utf8("error"@), Value::Bytes(encode_utf8(t)));
            if t.len() == 0 || is_none_word(t) {
                reported_error(n) is None
            } else {
                reported_error(n) == Some(t)
            }
        }),
        reported_error(m.remove(encode_utf8("error"@))) is None,
        (forall|u: Seq<char>| v != Value::Bytes(#[trigger] encode_utf8(u)))
            ==> reported_error(m.insert(encode_utf8("error"@), v)) == Some(
            "unrecognized error"@,
        ),
{
    object::law_written_text_is_read(m, "error"@, t);
    object::law_absent_entry_is_missing(m.remove(encode_utf8("error"@)), "error"@);
    object::law_written_entry_is_read(m, "error"@, v);
}

/// The transaction id of a message is the text under that name, and a message without one is
/// refused; its stream id is the text under that name, if there is one.
pub proof fn law_metadata_are_what_the_message_says(m: Map<Seq<u8>, Value>)
    ensures
        metadata_of(m) is Ok <==> object::text_at(m, "txid"@) is Ok,
        metadata_of(m) matches Ok(meta) ==> Ok::<Seq<char>, EntryError>(meta.txid)
            == object::text_at(m, "txid"@) && meta.error == reported_error(m) && (
        meta.stream_id is Some <==> object::text_at(m, "streamId"@) is Ok) && (meta.stream_id is Some
            ==> Ok::<Seq<char>, EntryError>(meta.stream_id->Some_0) == object::text_at(
            m,
            "streamId"@,
        )),
        metadata_of(m) matches Err(t) ==> t == (if object::value_at(m, "txid"@) is Ok {
            "Error getting txid: not a text"@
        } else {
            "txid missing"@
        }),
{
}

/// Metadata stand for the texts they hold.
pub proof fn law_metadata_stand_for_their_texts(meta: MessageMetadata)
    ensures
        meta@.txid == meta.txid@,
        meta@.error is Some <==> meta.error is Some,
        meta.error is Some ==> meta@.error->Some_0 == meta.error->Some_0@,
        meta@.stream_id is Some <==> meta.stream_id is Some,
        meta.stream_id is Some ==> meta@.stream_id->Some_0 == meta.stream_id->Some_0@,
{
}

/// The ids of a message decide where it goes, and nothing else does: to the request that has its
/// transaction id, or else to the stream that has its stream id.
pub proof fn law_ids_decide_the_way<S, T>(
    state: StateModel<S, T>,
    msg: Seq<u8>,
    m: Map<Seq<u8>, Value>,
    meta: MetadataModel,
)
    requires
        decoded(msg) == Ok::<Map<Seq<u8>, Value>, Seq<char>>(m),
        metadata_of(m) == Ok::<MetadataModel, Seq<char>>(meta),
    ensures
        state.requests.dom().contains(meta.txid) ==> route(state, msg) == Route::Request(meta, m),
        !state.requests.dom().contains(meta.txid) && meta.stream_id is Some
            && state.streams.dom().contains(meta.stream_id->Some_0) ==> route(state, msg)
            == Route::Stream(meta.stream_id->Some_0, m),
        !state.requests.dom().contains(meta.txid) && meta.stream_id is Some
            && !state.streams.dom().contains(meta.stream_id->Some_0) ==> route(state, msg)
            is UnknownStream,
        !state.requests.dom().contains(meta.txid) && meta.stream_id is None ==> route(state, msg)
            is UnknownTxid,
{
}

/// A message that cannot be read goes nowhere, and the reason is told.
pub proof fn law_unreadable_goes_nowhere<S, T>(state: StateModel<S, T>, msg: Seq<u8>)
    ensures
        decoded(msg) matches Err(t) ==> route(state, msg) == Route::Unreadable(t),
        decoded(msg) is Ok && metadata_of(decoded(msg)->Ok_0) is Err ==> route(state, msg)
            == Route::Unreadable(metadata_of(decoded(msg)->Ok_0)->Err_0),
{
}

/// The one who made a request gets the whole answer to it, or the error that the remote side
/// reports, and nobody else gets it. A stream is opened exactly where the answer names one.
pub proof fn law_answer_reaches_the_request<S, T, R, F: FnOnce() -> (T, R)>(
    before: StateModel<S, T>,
    after: StateModel<S, T>,
    msg: Seq<u8>,
    open: F,
    r: Result<Delivery<S, R>, Error>,
)
    requires
        dispatched(before, after, msg, open, r),
        route(before, msg) is Request,
    ensures
        ({
            let meta = route(before, msg)->Request_0;
            let m = route(before, msg)->Request_1;
            let response = r->Ok_0->Respond_response;
            &&& r is Ok && r->Ok_0 is Respond
            &&& r->Ok_0->slot == before.requests[meta.txid]
            &&& after.requests == before.requests.remove(meta.txid)
            &&& meta.error is Some ==> response is Err && response->Err_0 is RemoteError
                && response->Err_0->RemoteError_0@ == meta.error->Some_0 && after.streams
                == before.streams
            &&& meta.error is None ==> response is Ok && response->Ok_0.message@ == m && (
            response->Ok_0.stream is Some <==> meta.stream_id is Some)
            &&& meta.stream_id is None ==> after.streams == before.streams
            &&& meta.error is None && meta.stream_id is Some ==> after.streams
                == before.streams.insert(
                meta.stream_id->Some_0,
                after.streams[meta.stream_id->Some_0],
            )
        }),
{
    let meta = route(before, msg)->Request_0;
    if meta.error is None && meta.stream_id is Some {
        let id = meta.stream_id->Some_0;
        assert(after.streams =~= before.streams.insert(id, after.streams[id]));
    }
}

/// A message of a stream is handed on whole to that stream; a message that goes nowhere is
/// reported for what it is. Neither changes anything.
pub proof fn law_other_messages_change_nothing<S, T, R, F: FnOnce() -> (T, R)>(
    before: StateModel<S, T>,
    after: StateModel<S, T>,
    msg: Seq<u8>,
    open: F,
    r: Result<Delivery<S, R>, Error>,
)
    requires
        dispatched(before, after, msg, open, r),
        !(route(before, msg) is Request),
    ensures
        after == before,
        route(before, msg) matches Route::Stream(id, m) ==> r is Ok && r->Ok_0 is Forward
            && r->Ok_0->stream_id@ == id && r->Ok_0->Forward_message@ == m,
        route(before, msg) is UnknownStream ==> r is Err && r->Err_0 is DispatchDestination
            && r->Err_0->DispatchDestination_0@ == "Unknown streamId in incoming message"@,
        route(before, msg) is UnknownTxid ==> r is Err && r->Err_0 is DispatchDestination
            && r->Err_0->DispatchDestination_0@ == "Unknown txid in incoming message"@,
        route(before, msg) matches Route::Unreadable(t) ==> r is Err && r->Err_0 is Protocol
            && r->Err_0->Protocol_0@ == t,
{
}

/// The task takes every request whose transaction id is free and refuses every other, passes
/// every message on, and ends when either side closes or receiving fails, but not before.
pub proof fn law_task_does_what_happens<S, T, R, F: FnOnce() -> (T, R)>(
    before: StateModel<S, T>,
    after: StateModel<S, T>,
    event: Event<S>,
    open: F,
    r: Step<S, R>,
)
    requires
        stepped(before, after, event, open, r),
    ensures
        r is Stop <==> event is RemoteClosed || event is ReceiveFailed || event is QueueClosed,
        event is RemoteClosed || event is QueueClosed ==> r->Stop_0 is Ok,
        event matches Event::ReceiveFailed(t) ==> r->Stop_0 == Err::<(), Error>(
            Error::NetworkOperation(t),
        ),
        r is Stop ==> after == before,
        event matches Event::Request { txid, slot } ==> if before.requests.dom().contains(txid@) {
            after == before && r is Refuse && r->Refuse_slot == slot && r->error is RepeatingTx
                && r->error->txid@ == txid@
        } else {
            r is Registered && after.streams == before.streams && after.requests
                == before.requests.insert(txid@, slot)
        },
        event matches Event::Received(msg) ==> (r is Deliver && dispatched(
            before,
            after,
            msg@,
            open,
            Ok::<Delivery<S, R>, Error>(r->Deliver_0),
        )) || (r is Report && dispatched(
            before,
            after,
            msg@,
            open,
            Err::<Delivery<S, R>, Error>(r->Report_0),
        )),
{
}

/// The end of a task is told for what it was: by itself, with an error, with a panic or by being
/// canceled. The text of a panic is kept, the static one first.
pub proof fn law_end_is_told<J>(j: J, end: TaskEnd, after: DispatchState<J>)
    requires
        refreshed(DispatchState::Pending(j), Some(end), after),
    ensures
        after is Completed <==> end matches TaskEnd::Returned(Ok(_)),
        !(after is Completed) ==> after is Aborted,
        end matches TaskEnd::Returned(Err(e)) ==> after->Aborted_0 is FatalError
            && *after->Aborted_0->FatalError_0 == e,
        end is Canceled <==> after is Aborted && after->Aborted_0 is Canceled,
        end matches TaskEnd::Panicked { static_text, text, type_id } ==> after->Aborted_0 is Panicked
            && match (static_text, text) {
            (Some(t), _) => after->Aborted_0->Panicked_0 == PanicPayload::StaticText(t),
            (None, Some(t)) => after->Aborted_0->Panicked_0 is Text
                && *after->Aborted_0->Panicked_0->Text_0 == t,
            (None, None) => after->Aborted_0->Panicked_0 == PanicPayload::UnsupportedType(type_id),
        },
{
}

/// A task that has not ended, or whose end is known, is left as it is.
pub proof fn law_nothing_new_changes_nothing<J>(
    before: DispatchState<J>,
    end: Option<TaskEnd>,
    after: DispatchState<J>,
)
    requires
        refreshed(before, end, after),
        end is None || !(before is Pending),
    ensures
        after == before,
{
}

/// A message is read whatever it holds, as long as its values nest no more than 32 deep, and
/// nothing that nests deeper is read.
pub proof fn law_messages_nest_up_to_a_limit(m: Map<Seq<u8>, Value>, rest: Seq<u8>, msg: Seq<u8>)
    ensures
        bencode::nests_within(Value::Dict(m), 32) ==> decoded(
            bencode::encode(Value::Dict(m)) + rest,
        ) == Ok::<Map<Seq<u8>, Value>, Seq<char>>(m),
        decoded(msg) matches Ok(read) ==> bencode::parse_value(msg, 0, 32) is Some
            && bencode::parse_value(msg, 0, 32)->Some_0.0 == Value::Dict(read),
{
    if bencode::nests_within(Value::Dict(m), 32) {
        bencode::law_parse_undoes_serialize(Value::Dict(m), rest, 32);
    }
}

} // verus!
