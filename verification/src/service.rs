//! How a route server answers the messages of its local node.

use vstd::prelude::*;
use vstd::utf8::*;

use crate::object::{Dict, EntryError, Object, Value};
use crate::object;
use crate::order;

verus! {

/// Seconds between two checks whether the connection is alive.
pub const CHECK_CONNECTION_DELAY: u64 = 5;

/// Bytes of an error text that a reply carries at most.
pub const MAX_ERROR_BYTES: usize = 128;

/// Bytes of a state hash.
pub const STATE_HASH_BYTES: usize = 64;

/// Where a message came from, as far as the service looks at it.
pub struct RouteHeader<X> {
    /// Public key of the sender, where known.
    pub public_key: Option<Vec<u8>>,
    /// Address of the sender, where known.
    pub ip6: Option<Vec<u8>>,
    /// Protocol version of the sender, or zero.
    pub version: u32,
    /// How far the label of the switch header is shifted.
    pub label_shift: u32,
    /// The rest of the header.
    pub rest: X,
}

/// What a message holds.
pub enum Content {
    /// A dictionary.
    Benc(Dict),
    /// Anything else.
    Other,
}

/// A message from or to the local node.
pub struct Message<X> {
    /// Where it comes from or goes to.
    pub route_header: RouteHeader<X>,
    /// Number of the content type.
    pub content_type: u32,
    /// What it holds.
    pub content: Content,
}

/// What optional bytes are.
pub open spec fn optional_bytes(b: Option<Vec<u8>>) -> Option<Seq<u8>> {
    match b {
        Some(b) => Some(b@),
        None => None,
    }
}

/// What the service remembers between messages.
pub struct ServiceState {
    /// Address of the node whose message is being handled.
    pub current_node: Option<Vec<u8>>,
    /// Address of the node whose messages are to be logged.
    pub debug_node: Option<Vec<u8>>,
    /// Protocol version of this node, once it is known.
    pub self_version: Option<u32>,
}

/// What a [`ServiceState`] stands for.
pub struct StateModel {
    /// Address of the node whose message is being handled.
    pub current_node: Option<Seq<u8>>,
    /// Address of the node whose messages are to be logged.
    pub debug_node: Option<Seq<u8>>,
    /// Protocol version of this node, once it is known.
    pub self_version: Option<u32>,
}

impl ServiceState {
    /// What the state stands for.
    pub open spec fn view(&self) -> StateModel {
        StateModel {
            current_node: optional_bytes(self.current_node),
            debug_node: optional_bytes(self.debug_node),
            self_version: self.self_version,
        }
    }
}

/// What a message asks for.
pub enum Query {
    /// A route between two addresses.
    Route {
        /// Address of the source.
        src: Vec<u8>,
        /// Address of the target.
        tar: Vec<u8>,
    },
    /// To take an announcement.
    Announce(Vec<u8>),
    /// The state hash that is known of the sender.
    StateHash,
    /// To take credentials.
    Credentials(Vec<u8>),
    /// Something unknown.
    Unknown,
}

/// What a [`Query`] stands for.
pub enum QueryModel {
    /// A route between two addresses.
    Route(Seq<u8>, Seq<u8>),
    /// To take an announcement.
    Announce(Seq<u8>),
    /// The state hash that is known of the sender.
    StateHash,
    /// To take credentials.
    Credentials(Seq<u8>),
    /// Something unknown.
    Unknown,
}

impl Query {
    /// What the query stands for.
    pub open spec fn view(&self) -> QueryModel {
        match self {
            Query::Route { src, tar } => QueryModel::Route(src@, tar@),
            Query::Announce(ann) => QueryModel::Announce(ann@),
            Query::StateHash => QueryModel::StateHash,
            Query::Credentials(pc) => QueryModel::Credentials(pc@),
            Query::Unknown => QueryModel::Unknown,
        }
    }
}

/// A message that is to be answered.
pub struct Request {
    /// What it asks for.
    pub query: Query,
    /// Address of the sender.
    pub node: Vec<u8>,
    /// Protocol version of the sender.
    pub version: u32,
    /// Whether the messages of the sender are to be logged.
    pub debug_noisy: bool,
    /// The reply so far.
    pub reply: Dict,
}

/// What a [`Request`] stands for.
pub struct RequestModel {
    /// What it asks for.
    pub query: QueryModel,
    /// Address of the sender.
    pub node: Seq<u8>,
    /// Protocol version of the sender.
    pub version: u32,
    /// Whether the messages of the sender are to be logged.
    pub debug_noisy: bool,
    /// The reply so far.
    pub reply: Map<Seq<u8>, Value>,
}

impl Request {
    /// What the request stands for.
    pub open spec fn view(&self) -> RequestModel {
        RequestModel {
            query: self.query@,
            node: self.node@,
            version: self.version,
            debug_noisy: self.debug_noisy,
            reply: self.reply@,
        }
    }
}

/// The protocol version of the sender of a message: that of the header, or else that in
/// the message, if there is one.
pub open spec fn message_version(header_version: u32, m: Map<Seq<u8>, Value>) -> Result<
    Option<u32>,
    Seq<char>,
> {
    if header_version > 0 {
        Ok(Some(header_version))
    } else {
        match object::int_at(m, "p"@) {
            Ok(p) => if p < 0 {
                Err("bad message: 'p' expected to be positive int"@)
            } else {
                Ok(Some(p as u32))
            },
            Err(_) => Ok(None),
        }
    }
}

/// What a message says of itself before one looks at what it asks for.
pub struct Admission {
    /// Name of what it asks for.
    pub sq: Seq<char>,
    /// Protocol version of the sender.
    pub version: u32,
    /// Address of the sender.
    pub node: Seq<u8>,
    /// Transaction id.
    pub txid: Seq<u8>,
}

/// Whether a message is one for this service to answer: `None` where it is to be ignored.
pub open spec fn admission<X>(header: RouteHeader<X>, m: Map<Seq<u8>, Value>) -> Result<
    Option<Admission>,
    Seq<char>,
> {
    match object::text_at(m, "sq"@) {
        Err(EntryError::Missing) => Ok(None),
        Err(EntryError::WrongType) => Err("'sq' string entry expected in root dict"@),
        Ok(sq) => match message_version(header.version, m) {
            Err(t) => Err(t),
            Ok(None) => Ok(None),
            Ok(Some(version)) => match (header.public_key, header.ip6) {
                (Some(_), Some(ip6)) => match object::bytes_at(m, "txid"@) {
                    Ok(txid) => Ok(Some(Admission { sq, version, node: ip6@, txid })),
                    Err(_) => Err("Txid is required"@),
                },
                _ => Ok(None),
            },
        },
    }
}

/// What a message asks for under the given name, or what it lacks.
pub open spec fn query_in(sq: Seq<char>, m: Map<Seq<u8>, Value>) -> Result<QueryModel, Seq<char>> {
    if sq == "gr"@ {
        match object::bytes_at(m, "src"@) {
            Err(_) => Err("bad message: 'src' bytes entry expected in root dict"@),
            Ok(src) => match object::bytes_at(m, "tar"@) {
                Err(_) => Err("bad message: 'tar' bytes entry expected in root dict"@),
                Ok(tar) => Ok(QueryModel::Route(src, tar)),
            },
        }
    } else if sq == "ann"@ {
        match object::bytes_at(m, "ann"@) {
            Err(_) => Err("expected benc 'ann' entry to be bytes"@),
            Ok(ann) => Ok(QueryModel::Announce(ann)),
        }
    } else if sq == "pn"@ {
        Ok(QueryModel::StateHash)
    } else if sq == "pc"@ {
        match object::bytes_at(m, "pc"@) {
            Err(_) => Err("expected benc 'pc' entry to be bytes"@),
            Ok(pc) => Ok(QueryModel::Credentials(pc)),
        }
    } else {
        Ok(QueryModel::Unknown)
    }
}

/// What every reply holds.
pub open spec fn common_reply(txid: Seq<u8>, self_version: u32, recv_time: u64) -> Map<
    Seq<u8>,
    Value,
> {
    Map::<Seq<u8>, Value>::empty().insert(object::key("txid"@), Value::Bytes(txid)).insert(
        object::key("p"@),
        Value::Int(self_version as i64),
    ).insert(object::key("recvTime"@), Value::Int(recv_time as i64))
}

/// `r` is what becomes of a message before it is answered, and `after` the state that it
/// leaves.
pub open spec fn begun<X>(
    before: StateModel,
    header: RouteHeader<X>,
    m: Map<Seq<u8>, Value>,
    recv_time: u64,
    after: StateModel,
    r: Result<Option<Request>, String>,
) -> bool {
    match admission(header, m) {
        Err(t) => after == before && r is Err && r->Err_0@ == t,
        Ok(None) => after == before && r == Ok::<Option<Request>, String>(None),
        Ok(Some(a)) => {
            &&& after == (StateModel { current_node: Some(a.node), ..before })
            &&& match before.self_version {
                None => r is Err && r->Err_0@ == "self node isn't set"@,
                Some(self_version) => match query_in(a.sq, m) {
                    Err(t) => r is Err && r->Err_0@ == t,
                    Ok(query) => r matches Ok(Some(req)) && req@ == (RequestModel {
                        query,
                        node: a.node,
                        version: a.version,
                        debug_noisy: before.debug_node == Some(a.node),
                        reply: common_reply(a.txid, self_version, recv_time),
                    }),
                },
            }
        },
    }
}

fn read_version(header_version: u32, content: &Dict) -> (r: Result<Option<u32>, String>)
    ensures
        match message_version(header_version, content@) {
            Ok(v) => r == Ok::<Option<u32>, String>(v),
            Err(t) => r is Err && r->Err_0@ == t,
        },
{
    if header_version > 0 {
        return Ok(Some(header_version));
    }
    match content.get_int("p") {
        Ok(p) => if p < 0 {
            Err("bad message: 'p' expected to be positive int".to_owned())
        } else {
            Ok(Some(#[verifier::truncate] (p as u32)))
        },
        Err(_) => Ok(None),
    }
}

fn read_query(sq: &str, content: &Dict) -> (r: Result<Query, String>)
    ensures
        match query_in(sq@, content@) {
            Ok(q) => r is Ok && r->Ok_0@ == q,
            Err(t) => r is Err && r->Err_0@ == t,
        },
{
    if crate::text::same_text(sq, "gr") {
        let src: Vec<u8> = match content.get_bytes("src") {
            Ok(src) => src.clone(),
            Err(_) => {
                return Err("bad message: 'src' bytes entry expected in root dict".to_owned());
            },
        };
        match content.get_bytes("tar") {
            Ok(tar) => Ok(Query::Route { src, tar: tar.clone() }),
            Err(_) => Err("bad message: 'tar' bytes entry expected in root dict".to_owned()),
        }
    } else if crate::text::same_text(sq, "ann") {
        match content.get_bytes("ann") {
            Ok(ann) => Ok(Query::Announce(ann.clone())),
            Err(_) => Err("expected benc 'ann' entry to be bytes".to_owned()),
        }
    } else if crate::text::same_text(sq, "pn") {
        Ok(Query::StateHash)
    } else if crate::text::same_text(sq, "pc") {
        match content.get_bytes("pc") {
            Ok(pc) => Ok(Query::Credentials(pc.clone())),
            Err(_) => Err("expected benc 'pc' entry to be bytes".to_owned()),
        }
    } else {
        Ok(Query::Unknown)
    }
}

impl ServiceState {
    /// Looks at a message from the local node: whether to answer it, what it asks for, and
    /// what any answer to it holds.
    pub fn begin<X>(&mut self, header: &RouteHeader<X>, content: &Dict, recv_time: u64) -> (r: Result<
        Option<Request>,
        String,
    >)
        ensures
            begun(old(self)@, *header, content@, recv_time, final(self)@, r),
    {
        let sq: &str = match content.get_text("sq") {
            Ok(sq) => sq,
            Err(EntryError::Missing) => {
                return Ok(None);
            },
            Err(EntryError::WrongType) => {
                return Err("'sq' string entry expected in root dict".to_owned());
            },
        };
        let version: u32 = match read_version(header.version, content) {
            Ok(Some(version)) => version,
            Ok(None) => {
                return Ok(None);
            },
            Err(e) => {
                return Err(e);
            },
        };
        let node: &Vec<u8> = match (&header.public_key, &header.ip6) {
            (Some(_), Some(ip6)) => ip6,
            _ => {
                return Ok(None);
            },
        };
        let txid: Vec<u8> = match content.get_bytes("txid") {
            Ok(txid) => txid.clone(),
            Err(_) => {
                return Err("Txid is required".to_owned());
            },
        };
        self.current_node = Some(node.clone());
        let debug_noisy: bool = match &self.debug_node {
            Some(debug_node) => order::same_bytes(debug_node.as_slice(), node.as_slice()),
            None => false,
        };
        let self_version: u32 = match self.self_version {
            Some(v) => v,
            None => {
                return Err("self node isn't set".to_owned());
            },
        };
        let mut reply: Dict = Dict::new();
        reply.insert("txid", Object::Bytes(txid));
        reply.insert("p", Object::Int(self_version as i64));
        reply.insert("recvTime", Object::Int(#[verifier::truncate] (recv_time as i64)));
        match read_query(sq, content) {
            Ok(query) => Ok(Some(Request { query, node: node.clone(), version, debug_noisy, reply })),
            Err(e) => Err(e),
        }
    }
}

impl ServiceState {
    /// Looks at a message from the local node. One that holds no dictionary is ignored.
    pub fn on_subnode_message<X>(&mut self, msg: &Message<X>, recv_time: u64) -> (r: Result<
        Option<Request>,
        String,
    >)
        ensures
            match msg.content {
                Content::Benc(content) => begun(
                    old(self)@,
                    msg.route_header,
                    content@,
                    recv_time,
                    final(self)@,
                    r,
                ),
                Content::Other => *final(self) == *old(self) && r == Ok::<Option<Request>, String>(
                    None,
                ),
            },
    {
        match &msg.content {
            Content::Benc(content) => self.begin(&msg.route_header, content, recv_time),
            Content::Other => Ok(None),
        }
    }
}

/// A link between two nodes.
pub struct Link {
    /// Label of the link, as bits.
    pub label: u64,
    /// When the link was made.
    pub create_time: u64,
    /// Number of the peer, as the label of a route of one hop.
    pub peer_num: u64,
}

/// The target of a route.
pub struct Target {
    /// Its public key.
    pub key: Vec<u8>,
    /// Its protocol version.
    pub version: u32,
}

/// What is known of a route that was asked for.
pub struct RouteFacts {
    /// The target, if it is known.
    pub target: Option<Target>,
    /// The links into the target from the source, if any are known.
    pub inward: Option<Vec<Link>>,
    /// The links into the source from the target, if any are known.
    pub backward: Option<Vec<Link>>,
    /// Label of the computed route, as bits, if there is a route.
    pub route: Option<u64>,
}

/// `i` is the newest of the links, and the last of them where several are equally new.
pub open spec fn is_newest(links: Seq<Link>, i: int) -> bool {
    &&& 0 <= i < links.len()
    &&& forall|j: int|
        0 <= j < links.len() ==> (#[trigger] links[j]).create_time <= links[i].create_time
    &&& forall|j: int|
        i < j < links.len() ==> (#[trigger] links[j]).create_time < links[i].create_time
}

/// The newest of the links, and the last of them where several are equally new.
pub open spec fn newest(links: Seq<Link>) -> int {
    choose|i: int| is_newest(links, i)
}

/// There is exactly one newest link, unless there is none at all.
pub proof fn law_newest_is_unique(links: Seq<Link>, i: int)
    requires
        is_newest(links, i),
    ensures
        newest(links) == i,
{
    assert(is_newest(links, newest(links)));
    let k = newest(links);
    assert(links[i].create_time <= links[k].create_time);
    assert(links[k].create_time <= links[i].create_time);
}

/// Finds the newest link.
pub fn newest_link(links: &Vec<Link>) -> (r: Option<&Link>)
    ensures
        links@.len() == 0 ==> r is None,
        links@.len() > 0 ==> r == Some(&links@[newest(links@)]) && is_newest(
            links@,
            newest(links@),
        ),
{
    if links.len() == 0 {
        return None;
    }
    let mut best: usize = 0;
    let mut i: usize = 1;
    while i < links.len()
        invariant
            best < i <= links@.len(),
            forall|j: int|
                0 <= j < i ==> (#[trigger] links@[j]).create_time
                    <= links@[best as int].create_time,
            forall|j: int|
                best < j < i ==> (#[trigger] links@[j]).create_time
                    < links@[best as int].create_time,
        decreases links@.len() - i,
    {
        if links[best].create_time <= links[i].create_time {
            best = i;
        }
        i = i + 1;
    }
    proof {
        law_newest_is_unique(links@, best as int);
    }
    Some(&links[best])
}

/// One of the links leads to the peer that the label stands for.
pub open spec fn leads_back(links: Seq<Link>, label: u64) -> bool {
    exists|i: int| 0 <= i < links.len() && (#[trigger] links[i]).peer_num == label
}

fn any_leads_back(links: &Vec<Link>, label: u64) -> (r: bool)
    ensures
        r == leads_back(links@, label),
{
    let mut i: usize = 0;
    while i < links.len()
        invariant
            i <= links@.len(),
            forall|j: int| 0 <= j < i ==> (#[trigger] links@[j]).peer_num != label,
        decreases links@.len() - i,
    {
        if links[i].peer_num == label {
            return true;
        }
        i = i + 1;
    }
    false
}

/// A number as bytes, the most significant first.
pub open spec fn big_endian(n: nat, len: nat) -> Seq<u8>
    decreases len,
{
    if len == 0 {
        Seq::empty()
    } else {
        big_endian(n / 256, (len - 1) as nat).push((n % 256) as u8)
    }
}

/// The number that bytes stand for, the most significant first.
pub open spec fn big_endian_value(b: Seq<u8>) -> nat
    decreases b.len(),
{
    if b.len() == 0 {
        0
    } else {
        big_endian_value(b.drop_last()) * 256 + b.last() as nat
    }
}

spec fn byte_range(len: nat) -> nat
    decreases len,
{
    if len == 0 {
        1
    } else {
        256 * byte_range((len - 1) as nat)
    }
}

proof fn lemma_reads_back(n: nat, len: nat)
    requires
        n < byte_range(len),
    ensures
        big_endian(n, len).len() == len,
        big_endian_value(big_endian(n, len)) == n,
    decreases len,
{
    if len > 0 {
        lemma_reads_back(n / 256, (len - 1) as nat);
        assert(big_endian(n, len).drop_last() =~= big_endian(n / 256, (len - 1) as nat));
        assert(big_endian(n, len).last() == n % 256);
    }
}

/// A label can be read back from the eight bytes that it is written as.
pub proof fn law_label_reads_back(label: u64)
    ensures
        big_endian(label as nat, 8).len() == 8,
        big_endian_value(big_endian(label as nat, 8)) == label,
{
    reveal_with_fuel(byte_range, 9);
    lemma_reads_back(label as nat, 8);
}

fn write_big_endian(n: u64, len: u32) -> (r: Vec<u8>)
    ensures
        r@ == big_endian(n as nat, len as nat),
    decreases len,
{
    if len == 0 {
        Vec::new()
    } else {
        let mut r: Vec<u8> = write_big_endian(n / 256, len - 1);
        r.push((n % 256) as u8);
        r
    }
}

/// The label to propose: the computed route, unless there is a peering link between the
/// two nodes that both of them know of. Such a link is better than any other route.
pub open spec fn proposed_label(route: u64, peering: Option<u64>, backward: Option<Seq<Link>>) -> u64 {
    match (peering, backward) {
        (Some(label), Some(links)) => if leads_back(links, label) {
            label
        } else {
            route
        },
        _ => route,
    }
}

/// What optional links are.
pub open spec fn optional_links(links: Option<Vec<Link>>) -> Option<Seq<Link>> {
    match links {
        Some(links) => Some(links@),
        None => None,
    }
}

/// The reply with the proposed route in it. The one entry of the list of nodes is the
/// public key of the target and the label of the route; the one entry of the list of
/// versions takes one byte.
pub open spec fn reply_with_route(
    reply: Map<Seq<u8>, Value>,
    target: Option<Target>,
    backward: Option<Seq<Link>>,
    route: Option<u64>,
    peering: Option<u64>,
) -> Map<Seq<u8>, Value> {
    match (route, target) {
        (Some(route), Some(target)) => reply.insert(
            object::key("n"@),
            Value::Bytes(
                target.key@ + big_endian(proposed_label(route, peering, backward) as nat, 8),
            ),
        ).insert(object::key("np"@), Value::Bytes(seq![1u8, target.version as u8])),
        _ => reply,
    }
}

/// `peering` is the label of the newest of the links, if there is one and it is a label.
pub open spec fn is_peering_label<F: FnOnce(u64) -> Option<u64>>(
    links: Option<Seq<Link>>,
    as_label: F,
    peering: Option<u64>,
) -> bool {
    match links {
        Some(links) if links.len() > 0 => call_ensures(
            as_label,
            (links[newest(links)].label,),
            peering,
        ),
        _ => peering is None,
    }
}

fn peering_label<F: FnOnce(u64) -> Option<u64>>(links: &Option<Vec<Link>>, as_label: F) -> (r: Option<
    u64,
>)
    requires
        forall|bits: u64| call_requires(as_label, (bits,)),
    ensures
        is_peering_label(optional_links(*links), as_label, r),
{
    match links {
        Some(links) => match newest_link(links) {
            Some(link) => as_label(link.label),
            None => None,
        },
        None => None,
    }
}

/// Answers a request for a route, given the label of the peering link, if any.
pub fn answer_route(reply: Dict, facts: RouteFacts, peering: Option<u64>) -> (r: Dict)
    ensures
        r@ == reply_with_route(
            reply@,
            facts.target,
            optional_links(facts.backward),
            facts.route,
            peering,
        ),
{
    let mut reply: Dict = reply;
    match (facts.route, facts.target) {
        (Some(route), Some(target)) => {
            let label: u64 = match (peering, &facts.backward) {
                (Some(label), Some(links)) => if any_leads_back(links, label) {
                    label
                } else {
                    route
                },
                _ => route,
            };
            let mut nodes: Vec<u8> = target.key;
            let mut label_bits: Vec<u8> = write_big_endian(label, 8);
            nodes.append(&mut label_bits);
            reply.insert("n", Object::Bytes(nodes));
            let mut versions: Vec<u8> = Vec::new();
            versions.push(1);
            versions.push(#[verifier::truncate] (target.version as u8));
            assert(versions@ =~= seq![1u8, target.version as u8]);
            reply.insert("np", Object::Bytes(versions));
        },
        _ => {},
    }
    reply
}

/// The two addresses of a route that was asked for, as far as they are addresses.
pub fn route_addresses<A>(src: Result<A, String>, tar: Result<A, String>) -> (r: Result<
    (A, A),
    String,
>)
    ensures
        match (src, tar) {
            (Err(e), _) => r is Err && r->Err_0@ == "bad 'src' address: "@ + e@,
            (Ok(_), Err(e)) => r is Err && r->Err_0@ == "bad 'tar' address: "@ + e@,
            (Ok(s), Ok(t)) => r == Ok::<(A, A), String>((s, t)),
        },
{
    match (src, tar) {
        (Err(e), _) => Err("bad 'src' address: ".to_owned().concat(e.as_str())),
        (Ok(_), Err(e)) => Err("bad 'tar' address: ".to_owned().concat(e.as_str())),
        (Ok(s), Ok(t)) => Ok((s, t)),
    }
}

/// The reply to an announcement.
pub open spec fn reply_with_announce(
    reply: Map<Seq<u8>, Value>,
    state_hash: Seq<u8>,
    error: Seq<char>,
) -> Map<Seq<u8>, Value> {
    reply.insert(object::key("stateHash"@), Value::Bytes(state_hash)).insert(
        object::key("error"@),
        Value::Bytes(encode_utf8(error)),
    )
}

/// The reply with the state hash of a node; zeros where none is known.
pub open spec fn reply_with_hash(reply: Map<Seq<u8>, Value>, state_hash: Option<Seq<u8>>) -> Map<
    Seq<u8>,
    Value,
> {
    reply.insert(
        object::key("stateHash"@),
        Value::Bytes(
            match state_hash {
                Some(hash) => hash,
                None => Seq::new(STATE_HASH_BYTES as nat, |i: int| 0u8),
            },
        ),
    )
}

/// The first bytes of an error text, as many as a reply may carry.
pub open spec fn short_error(e: Seq<char>) -> Seq<u8> {
    let bytes = encode_utf8(e);
    if bytes.len() > MAX_ERROR_BYTES {
        bytes.take(MAX_ERROR_BYTES as int)
    } else {
        bytes
    }
}

/// An error text can be shortened without cutting a character in two.
pub open spec fn can_be_shortened(e: Seq<char>) -> bool {
    encode_utf8(e).len() <= MAX_ERROR_BYTES || is_char_boundary(
        encode_utf8(e),
        MAX_ERROR_BYTES as int,
    )
}

/// The reply to credentials.
pub open spec fn reply_with_credentials(
    reply: Map<Seq<u8>, Value>,
    outcome: Result<Value, Seq<char>>,
) -> Map<Seq<u8>, Value> {
    match outcome {
        Ok(pr) => reply.insert(object::key("pr"@), pr),
        Err(e) => reply.insert(object::key("err"@), Value::Bytes(short_error(e))),
    }
}

/// What came of the outside work that a request asks for.
pub enum Outcome {
    /// What is known of the route.
    Route(RouteFacts),
    /// The state hash of the node after the announcement, and what is wrong with the
    /// announcement; or why it could not be handled.
    Announced(Result<(Vec<u8>, String), String>),
    /// The state hash of the node, if it is known.
    StateHash(Option<Vec<u8>>),
    /// What the seeder says to the credentials, or why it does not take them.
    Credentials(Result<Object, String>),
    /// Nothing was asked for that could be done.
    Nothing,
}

/// The outcome is one of what was asked for.
pub open spec fn fits(query: QueryModel, outcome: Outcome) -> bool {
    match (query, outcome) {
        (QueryModel::Route(..), Outcome::Route(_)) => true,
        (QueryModel::Announce(_), Outcome::Announced(_)) => true,
        (QueryModel::StateHash, Outcome::StateHash(_)) => true,
        (QueryModel::Credentials(_), Outcome::Credentials(Ok(_))) => true,
        (QueryModel::Credentials(_), Outcome::Credentials(Err(e))) => can_be_shortened(e@),
        (QueryModel::Unknown, Outcome::Nothing) => true,
        _ => false,
    }
}

/// A reply and the protocol version of the one who gets it, with the given contents.
pub open spec fn is_reply(
    r: Result<Option<(Dict, u32)>, String>,
    m: Map<Seq<u8>, Value>,
    version: u32,
) -> bool {
    r matches Ok(Some((dict, v))) && dict@ == m && v == version
}

/// `r` is the answer to a request, and `after` the state that it leaves. The node is no
/// longer the current one, unless the answer failed.
pub open spec fn completed<F: FnOnce(u64) -> Option<u64>>(
    before: StateModel,
    req: RequestModel,
    outcome: Outcome,
    as_label: F,
    after: StateModel,
    r: Result<Option<(Dict, u32)>, String>,
) -> bool {
    &&& after == (if r is Err {
        before
    } else {
        StateModel { current_node: None, ..before }
    })
    &&& match outcome {
        Outcome::Route(facts) => exists|peering: Option<u64>|
            {
                &&& #[trigger] is_peering_label(optional_links(facts.inward), as_label, peering)
                &&& is_reply(
                    r,
                    reply_with_route(
                        req.reply,
                        facts.target,
                        optional_links(facts.backward),
                        facts.route,
                        peering,
                    ),
                    req.version,
                )
            },
        Outcome::Announced(Ok((hash, error))) => is_reply(
            r,
            reply_with_announce(req.reply, hash@, error@),
            req.version,
        ),
        Outcome::Announced(Err(e)) => r == Err::<Option<(Dict, u32)>, String>(e),
        Outcome::StateHash(hash) => is_reply(
            r,
            reply_with_hash(req.reply, optional_bytes(hash)),
            req.version,
        ),
        Outcome::Credentials(Ok(pr)) => is_reply(
            r,
            reply_with_credentials(req.reply, Ok(pr@)),
            req.version,
        ),
        Outcome::Credentials(Err(e)) => is_reply(
            r,
            reply_with_credentials(req.reply, Err(e@)),
            req.version,
        ),
        Outcome::Nothing => r == Ok::<Option<(Dict, u32)>, String>(None),
    }
}

fn zeros() -> (r: Vec<u8>)
    ensures
        r@ == Seq::new(STATE_HASH_BYTES as nat, |i: int| 0u8),
{
    let mut r: Vec<u8> = Vec::new();
    while r.len() < STATE_HASH_BYTES
        invariant
            r@.len() <= STATE_HASH_BYTES,
            forall|i: int| 0 <= i < r@.len() ==> #[trigger] r@[i] == 0,
        decreases STATE_HASH_BYTES - r@.len(),
    {
        r.push(0);
    }
    assert(r@ =~= Seq::new(STATE_HASH_BYTES as nat, |i: int| 0u8));
    r
}

fn shorten_error(e: &str) -> (r: Vec<u8>)
    ensures
        r@ == short_error(e@),
{
    let mut bytes: Vec<u8> = crate::text::text_bytes(e);
    if bytes.len() > MAX_ERROR_BYTES {
        bytes.truncate(MAX_ERROR_BYTES);
    }
    bytes
}

impl ServiceState {
    /// Answers a request, once the outside work is done. `as_label` tells which bits are
    /// labels.
    pub fn complete<F: FnOnce(u64) -> Option<u64>>(
        &mut self,
        req: Request,
        outcome: Outcome,
        as_label: F,
    ) -> (r: Result<Option<(Dict, u32)>, String>)
        requires
            fits(req.query@, outcome),
            forall|bits: u64| call_requires(as_label, (bits,)),
        ensures
            completed(old(self)@, req@, outcome, as_label, final(self)@, r),
    {
        let mut reply: Dict = req.reply;
        match outcome {
            Outcome::Route(facts) => {
                let peering: Option<u64> = peering_label(&facts.inward, as_label);
                reply = answer_route(reply, facts, peering);
                assert(is_peering_label(optional_links(facts.inward), as_label, peering));
            },
            Outcome::Announced(Ok((hash, error))) => {
                reply.insert("stateHash", Object::Bytes(hash));
                reply.insert("error", Object::text(error.as_str()));
            },
            Outcome::Announced(Err(e)) => {
                return Err(e);
            },
            Outcome::StateHash(hash) => {
                let hash: Vec<u8> = match hash {
                    Some(hash) => hash,
                    None => zeros(),
                };
                reply.insert("stateHash", Object::Bytes(hash));
            },
            Outcome::Credentials(Ok(pr)) => {
                reply.insert("pr", pr);
            },
            Outcome::Credentials(Err(e)) => {
                reply.insert("err", Object::Bytes(shorten_error(e.as_str())));
            },
            Outcome::Nothing => {
                self.current_node = None;
                return Ok(None);
            },
        }
        self.current_node = None;
        Ok(Some((reply, req.version)))
    }
}

/// The message to send back: the reply under the header of the message that it answers,
/// with no shift of the label and with the version of the receiver.
pub open spec fn is_answer<X>(
    header: RouteHeader<X>,
    content_type: u32,
    reply: Option<(Dict, u32)>,
    r: Option<Message<X>>,
) -> bool {
    match reply {
        Some((dict, version)) => r == Some(
            Message {
                route_header: RouteHeader { label_shift: 0, version, ..header },
                content_type,
                content: Content::Benc(dict),
            },
        ),
        None => r is None,
    }
}

/// Makes the message to send back.
pub fn answer_message<X>(header: RouteHeader<X>, content_type: u32, reply: Option<(Dict, u32)>) -> (r:
    Option<Message<X>>)
    ensures
        is_answer(header, content_type, reply, r),
{
    match reply {
        Some((dict, version)) => {
            let mut route_header: RouteHeader<X> = header;
            route_header.label_shift = 0;
            route_header.version = version;
            Some(Message { route_header, content_type, content: Content::Benc(dict) })
        },
        None => None,
    }
}

/// The number of handlers in the reply to a request for their list.
pub open spec fn handlers_in(ret: Map<Seq<u8>, Value>) -> Result<nat, Seq<char>> {
    match object::list_at(ret, "handlers"@) {
        Ok(l) => Ok(l.len()),
        Err(EntryError::Missing) => Err("'handlers' entry is missing"@),
        Err(EntryError::WrongType) => Err("'handlers' entry is not a list"@),
    }
}

/// Counts the handlers in the reply to a request for their list.
pub fn count_handlers(ret: &Dict) -> (r: Result<usize, String>)
    ensures
        match handlers_in(ret@) {
            Ok(n) => r is Ok && r->Ok_0 == n,
            Err(t) => r is Err && r->Err_0@ == t,
        },
{
    match ret.get_list("handlers") {
        Ok(l) => {
            assert(object::view_items(l@).len() == l@.len());
            Ok(l.len())
        },
        Err(EntryError::Missing) => Err("'handlers' entry is missing".to_owned()),
        Err(EntryError::WrongType) => Err("'handlers' entry is not a list".to_owned()),
    }
}

/// Whether the connection is alive, by the reply to a request for the list of handlers.
pub fn check_connection_alive(ret: &Dict) -> (r: Result<(), String>)
    ensures
        match handlers_in(ret@) {
            Ok(n) => if n == 0 {
                r is Err && r->Err_0@
                    == "Call to UpperDistributor_listHandlers returned 0 handlers - connection aborted?"@
            } else {
                r is Ok
            },
            Err(t) => r is Err && r->Err_0@ == t,
        },
{
    match count_handlers(ret) {
        Ok(n) => if n == 0 {
            Err(
                "Call to UpperDistributor_listHandlers returned 0 handlers - connection aborted?".to_owned(),
            )
        } else {
            Ok(())
        },
        Err(e) => Err(e),
    }
}

/// What comes of receiving a message of the local node.
#[derive(Debug, PartialEq, Eq)]
pub enum Received<M> {
    /// A message.
    Message(M),
    /// The socket failed, for the given reason.
    SocketError(String),
    /// What came in is no message: why, and the bytes of it.
    ParseError(String, Vec<u8>),
}

/// What the service does next.
#[derive(Debug, PartialEq, Eq)]
pub enum Serve<M> {
    /// Handle the message.
    Handle(M),
    /// End, for the given reason.
    End(String),
    /// Log what came in, and wait for the next message.
    Skip(String, Vec<u8>),
}

/// Decides what to do after receiving: a failed socket ends the service, and what is no
/// message does not.
pub fn on_received<M>(r: Received<M>) -> (s: Serve<M>)
    ensures
        match r {
            Received::Message(m) => s == Serve::Handle(m),
            Received::SocketError(e) => s == Serve::<M>::End(e),
            Received::ParseError(e, data) => s == Serve::<M>::Skip(e, data),
        },
{
    match r {
        Received::Message(m) => Serve::Handle(m),
        Received::SocketError(e) => Serve::End(e),
        Received::ParseError(e, data) => Serve::Skip(e, data),
    }
}

/// Where both nodes know of the peering link between them, that link is proposed, whatever
/// the computed route is.
pub proof fn law_known_peering_link_wins(route: u64, label: u64, links: Seq<Link>, i: int)
    requires
        0 <= i < links.len(),
        links[i].peer_num == label,
    ensures
        proposed_label(route, Some(label), Some(links)) == label,
{
}

/// Handling a message changes nothing that the service remembers but the current node, and
/// once the message is answered there is no current node.
pub proof fn law_service_keeps_its_state<X, F: FnOnce(u64) -> Option<u64>>(
    before: StateModel,
    header: RouteHeader<X>,
    m: Map<Seq<u8>, Value>,
    recv_time: u64,
    between: StateModel,
    req: Request,
    outcome: Outcome,
    as_label: F,
    after: StateModel,
    r: Result<Option<(Dict, u32)>, String>,
)
    requires
        begun(before, header, m, recv_time, between, Ok(Some(req))),
        completed(between, req@, outcome, as_label, after, r),
    ensures
        after.debug_node == before.debug_node,
        after.self_version == before.self_version,
        r is Ok ==> after.current_node is None,
        r is Err ==> after.current_node == optional_bytes(header.ip6),
{
}

/// A message is answered only if it says who sent it and in which version.
pub proof fn law_only_known_senders_are_answered<X>(
    before: StateModel,
    header: RouteHeader<X>,
    m: Map<Seq<u8>, Value>,
    recv_time: u64,
    after: StateModel,
    req: Request,
)
    requires
        begun(before, header, m, recv_time, after, Ok(Some(req))),
    ensures
        header.public_key is Some,
        header.ip6 is Some && req.node@ == header.ip6->Some_0@,
        header.version > 0 ==> req.version == header.version,
        header.version == 0 ==> object::int_at(m, "p"@) is Ok,
{
}

proof fn lemma_keys_differ(a: Seq<char>, b: Seq<char>)
    requires
        a != b,
    ensures
        object::key(a) != object::key(b),
{
    if object::key(a) == object::key(b) {
        crate::text::lemma_utf8_injective(a, b);
    }
}

proof fn lemma_reply_keys(name: Seq<char>)
    requires
        name == "recvTime"@ || name == "n"@ || name == "np"@ || name
            == "stateHash"@ || name == "error"@ || name == "pr"@ || name == "err"@,
    ensures
        object::key(name) != object::key("txid"@),
        object::key(name) != object::key("p"@),
        object::key("p"@) != object::key("txid"@),
{
    reveal_strlit("txid");
    reveal_strlit("p");
    reveal_strlit("recvTime");
    reveal_strlit("n");
    reveal_strlit("np");
    reveal_strlit("stateHash");
    reveal_strlit("error");
    reveal_strlit("pr");
    reveal_strlit("err");
    assert("txid"@.len() == 4 && "p"@.len() == 1 && "recvTime"@.len() == 8);
    assert("n"@.len() == 1 && "n"@[0] == 'n' && "p"@[0] == 'p' && "np"@.len() == 2);
    assert("stateHash"@.len() == 9 && "error"@.len() == 5 && "pr"@.len() == 2 && "err"@.len() == 3);
    lemma_keys_differ(name, "txid"@);
    lemma_keys_differ(name, "p"@);
    lemma_keys_differ("p"@, "txid"@);
}

/// Every reply carries the transaction id of the message that it answers, and the protocol
/// version of this node.
pub proof fn law_reply_echoes_txid<F: FnOnce(u64) -> Option<u64>>(
    before: StateModel,
    req: RequestModel,
    outcome: Outcome,
    as_label: F,
    after: StateModel,
    r: Result<Option<(Dict, u32)>, String>,
    txid: Seq<u8>,
    self_version: u32,
    recv_time: u64,
)
    requires
        completed(before, req, outcome, as_label, after, r),
        req.reply == common_reply(txid, self_version, recv_time),
        r matches Ok(Some(_)),
    ensures
        object::bytes_at(r->Ok_0->Some_0.0@, "txid"@) == Ok::<Seq<u8>, EntryError>(txid),
        object::int_at(r->Ok_0->Some_0.0@, "p"@) == Ok::<i64, EntryError>(self_version as i64),
        r->Ok_0->Some_0.1 == req.version,
{
    lemma_reply_keys("recvTime"@);
    lemma_reply_keys("n"@);
    lemma_reply_keys("np"@);
    lemma_reply_keys("stateHash"@);
    lemma_reply_keys("error"@);
    lemma_reply_keys("pr"@);
    lemma_reply_keys("err"@);
}

/// A link back confirms the peering label exactly where its peer number is that label.
pub proof fn law_link_back_confirms(links: Seq<Link>, label: u64)
    ensures
        leads_back(links, label) <==> exists|i: int|
            0 <= i < links.len() && (#[trigger] links[i]).peer_num == label,
{
}

/// A peering link is proposed only if it is confirmed: where no link back has its label as peer
/// number, or where the label or the links back are missing, the computed route is proposed,
/// whatever the two labels are.
pub proof fn law_unconfirmed_peering_link_is_not_proposed(
    route: u64,
    peering: Option<u64>,
    backward: Option<Seq<Link>>,
)
    requires
        peering is Some && backward is Some ==> forall|i: int|
            0 <= i < backward->Some_0.len() ==> (#[trigger] backward->Some_0[i]).peer_num
                != peering->Some_0,
    ensures
        proposed_label(route, peering, backward) == route,
{
}

proof fn lemma_route_keys()
    ensures
        object::key("n"@) != object::key("np"@),
{
    reveal_strlit("n");
    reveal_strlit("np");
    assert("n"@.len() == 1 && "np"@.len() == 2);
    object::law_names_are_distinct_keys("n"@, "np"@);
}

/// A proposed route is the public key of the target and then the label in eight bytes, from
/// which the label is read back; the version of the target stands behind a one. Everything else
/// in the reply stays as it was.
pub proof fn law_route_reply_reads_back(
    reply: Map<Seq<u8>, Value>,
    target: Target,
    backward: Option<Seq<Link>>,
    route: u64,
    peering: Option<u64>,
)
    ensures
        ({
            let r = reply_with_route(reply, Some(target), backward, Some(route), peering);
            let n = object::bytes_at(r, "n"@)->Ok_0;
            let np = object::bytes_at(r, "np"@)->Ok_0;
            &&& object::bytes_at(r, "n"@) is Ok
            &&& n.len() == target.key@.len() + 8
            &&& n.take(target.key@.len() as int) == target.key@
            &&& big_endian_value(n.skip(target.key@.len() as int)) == proposed_label(
                route,
                peering,
                backward,
            )
            &&& object::bytes_at(r, "np"@) is Ok
            &&& np.len() == 2 && np[0] == 1 && np[1] == target.version as u8
            &&& forall|k: Seq<u8>|
                k != encode_utf8("n"@) && k != encode_utf8("np"@) ==> (#[trigger] r.dom().contains(k)
                    <==> reply.dom().contains(k)) && (reply.dom().contains(k) ==> r[k] == reply[k])
        }),
{
    let r = reply_with_route(reply, Some(target), backward, Some(route), peering);
    let label = proposed_label(route, peering, backward);
    lemma_route_keys();
    law_label_reads_back(label);
    let n = target.key@ + big_endian(label as nat, 8);
    assert(r[object::key("n"@)] == Value::Bytes(n));
    assert(n.take(target.key@.len() as int) =~= target.key@);
    assert(n.skip(target.key@.len() as int) =~= big_endian(label as nat, 8));
}

/// Without a route or without a target nothing is proposed.
pub proof fn law_no_route_no_proposal(
    reply: Map<Seq<u8>, Value>,
    target: Option<Target>,
    backward: Option<Seq<Link>>,
    route: Option<u64>,
    peering: Option<u64>,
)
    requires
        target is None || route is None,
    ensures
        reply_with_route(reply, target, backward, route, peering) == reply,
{
}

/// A number is written with its low byte last, and so read.
pub proof fn law_big_endian_by_bytes(n: nat, len: nat, b: Seq<u8>, x: u8)
    ensures
        big_endian(n, 0).len() == 0,
        big_endian(n, len + 1) == big_endian(n / 256, len).push((n % 256) as u8),
        big_endian_value(Seq::empty()) == 0,
        big_endian_value(b.push(x)) == big_endian_value(b) * 256 + x,
{
    assert(b.push(x).drop_last() =~= b);
}

/// The newest link was made no earlier than any other, and later than all behind it.
pub proof fn law_newest_is_newest(links: Seq<Link>, i: int)
    requires
        0 <= i < links.len(),
        is_newest(links, newest(links)),
    ensures
        0 <= newest(links) < links.len(),
        links[i].create_time <= links[newest(links)].create_time,
        i > newest(links) ==> links[i].create_time < links[newest(links)].create_time,
{
}

/// Among links there is always a newest one.
pub proof fn law_newest_exists(links: Seq<Link>)
    requires
        links.len() > 0,
    ensures
        is_newest(links, newest(links)),
    decreases links.len(),
{
    let n = links.len() as int;
    if n == 1 {
        assert(is_newest(links, 0));
    } else {
        let front = links.drop_last();
        law_newest_exists(front);
        let i = newest(front);
        if links[n - 1].create_time >= links[i].create_time {
            assert forall|j: int| 0 <= j < n implies (#[trigger] links[j]).create_time
                <= links[n - 1].create_time by {
                if j < n - 1 {
                    assert(front[j].create_time <= front[i].create_time);
                }
            }
            assert(is_newest(links, n - 1));
        } else {
            assert forall|j: int| 0 <= j < n implies (#[trigger] links[j]).create_time
                <= links[i].create_time by {
                if j < n - 1 {
                    assert(front[j].create_time <= front[i].create_time);
                }
            }
            assert forall|j: int| i < j < n implies (#[trigger] links[j]).create_time
                < links[i].create_time by {
                if j < n - 1 {
                    assert(front[j].create_time < front[i].create_time);
                }
            }
            assert(is_newest(links, i));
        }
    }
}

/// The peering label is what the newest link gives, and there is none without links.
pub proof fn law_peering_label_is_that_of_the_newest<F: FnOnce(u64) -> Option<u64>>(
    links: Option<Seq<Link>>,
    as_label: F,
    peering: Option<u64>,
    i: int,
)
    requires
        is_peering_label(links, as_label, peering),
    ensures
        links is None || links->Some_0.len() == 0 ==> peering is None,
        links is Some && 0 <= i < links->Some_0.len() && (forall|j: int|
            0 <= j < links->Some_0.len() ==> (#[trigger] links->Some_0[j]).create_time
                <= links->Some_0[i].create_time) && (forall|j: int|
            i < j < links->Some_0.len() ==> (#[trigger] links->Some_0[j]).create_time
                < links->Some_0[i].create_time) ==> call_ensures(
            as_label,
            (links->Some_0[i].label,),
            peering,
        ),
{
    if links is Some && 0 <= i < links->Some_0.len() && (forall|j: int|
        0 <= j < links->Some_0.len() ==> (#[trigger] links->Some_0[j]).create_time
            <= links->Some_0[i].create_time) && (forall|j: int|
        i < j < links->Some_0.len() ==> (#[trigger] links->Some_0[j]).create_time
            < links->Some_0[i].create_time) {
        assert(is_newest(links->Some_0, i));
        law_newest_is_unique(links->Some_0, i);
    }
}

proof fn lemma_announce_keys()
    ensures
        object::key("stateHash"@) != object::key("error"@),
{
    reveal_strlit("stateHash");
    reveal_strlit("error");
    assert("stateHash"@.len() == 9 && "error"@.len() == 5);
    object::law_names_are_distinct_keys("stateHash"@, "error"@);
}

/// The reply to an announcement says what was found wrong with it, in full, and the state hash;
/// everything else in the reply stays as it was.
pub proof fn law_announce_reply_reads_back(
    reply: Map<Seq<u8>, Value>,
    state_hash: Seq<u8>,
    error: Seq<char>,
)
    ensures
        ({
            let r = reply_with_announce(reply, state_hash, error);
            &&& object::text_at(r, "error"@) == Ok::<Seq<char>, EntryError>(error)
            &&& object::bytes_at(r, "stateHash"@) == Ok::<Seq<u8>, EntryError>(state_hash)
            &&& forall|k: Seq<u8>|
                k != encode_utf8("error"@) && k != encode_utf8("stateHash"@) ==> (
                #[trigger] r.dom().contains(k) <==> reply.dom().contains(k)) && (
                reply.dom().contains(k) ==> r[k] == reply[k])
        }),
{
    let r = reply_with_announce(reply, state_hash, error);
    lemma_announce_keys();
    crate::text::lemma_text_reads_back(error);
    assert(r[object::key("error"@)] == Value::Bytes(encode_utf8(error)));
    assert(r[object::key("stateHash"@)] == Value::Bytes(state_hash));
}

/// Announcements that come out differently are answered differently.
pub proof fn law_announce_replies_differ(
    reply: Map<Seq<u8>, Value>,
    hash_a: Seq<u8>,
    error_a: Seq<char>,
    hash_b: Seq<u8>,
    error_b: Seq<char>,
)
    requires
        hash_a != hash_b || error_a != error_b,
    ensures
        reply_with_announce(reply, hash_a, error_a) != reply_with_announce(reply, hash_b, error_b),
{
    law_announce_reply_reads_back(reply, hash_a, error_a);
    law_announce_reply_reads_back(reply, hash_b, error_b);
}

/// The reply to a request for the state hash holds the hash that is known, and 64 zeros where
/// none is; everything else in it stays as it was.
pub proof fn law_hash_reply_reads_back(reply: Map<Seq<u8>, Value>, hash: Option<Seq<u8>>)
    ensures
        ({
            let r = reply_with_hash(reply, hash);
            let read = object::bytes_at(r, "stateHash"@)->Ok_0;
            &&& object::bytes_at(r, "stateHash"@) is Ok
            &&& hash is Some ==> read == hash->Some_0
            &&& hash is None ==> read.len() == 64 && forall|i: int|
                0 <= i < 64 ==> #[trigger] read[i] == 0
            &&& r.remove(encode_utf8("stateHash"@)) == reply.remove(encode_utf8("stateHash"@))
        }),
{
    let r = reply_with_hash(reply, hash);
    assert(r.remove(encode_utf8("stateHash"@)) =~= reply.remove(encode_utf8("stateHash"@)));
}

/// An error text that is short enough is carried whole; of a longer one the first 128 bytes are.
pub proof fn law_error_is_cut_at_the_limit(e: Seq<char>)
    ensures
        encode_utf8(e).len() <= 128 ==> short_error(e) == encode_utf8(e),
        encode_utf8(e).len() > 128 ==> short_error(e).len() == 128 && encode_utf8(e)
            == short_error(e) + encode_utf8(e).skip(128),
        short_error(e).len() <= 128,
{
    if encode_utf8(e).len() > 128 {
        assert(encode_utf8(e) =~= short_error(e) + encode_utf8(e).skip(128));
    }
}

/// A shortened error text is a text, and the beginning of the whole one.
pub proof fn law_shortened_error_is_a_text(e: Seq<char>)
    requires
        can_be_shortened(e),
    ensures
        exists|t: Seq<char>| #[trigger] encode_utf8(t) == short_error(e) && t.is_prefix_of(e),
{
    let bytes = encode_utf8(e);
    encode_utf8_valid_utf8(e);
    encode_utf8_decode_utf8(e);
    if bytes.len() > 128 {
        valid_utf8_split(bytes, 128);
        decode_utf8_split(bytes, 128);
        let head = bytes.take(128);
        assert(head =~= bytes.subrange(0, 128));
        let t = decode_utf8(head);
        decode_utf8_encode_utf8(head);
        assert(e == t + decode_utf8(bytes.subrange(128, bytes.len() as int)));
        assert(t =~= e.subrange(0, t.len() as int));
        assert(encode_utf8(t) == short_error(e) && t.is_prefix_of(e));
    } else {
        assert(encode_utf8(e) == short_error(e));
        assert(e =~= e.subrange(0, e.len() as int));
        assert(e.is_prefix_of(e));
    }
}

/// The reply to credentials holds what the seeder says, or the error, and everything else in it
/// stays as it was.
pub proof fn law_credentials_reply_reads_back(
    reply: Map<Seq<u8>, Value>,
    pr: Value,
    e: Seq<char>,
)
    ensures
        reply_with_credentials(reply, Ok(pr)) == reply.insert(encode_utf8("pr"@), pr),
        reply_with_credentials(reply, Err(e)) == reply.insert(
            encode_utf8("err"@),
            Value::Bytes(short_error(e)),
        ),
        object::value_at(reply_with_credentials(reply, Ok(pr)), "pr"@) == Ok::<Value, EntryError>(pr),
        object::bytes_at(reply_with_credentials(reply, Err(e)), "err"@) == Ok::<
            Seq<u8>,
            EntryError,
        >(short_error(e)),
{
}

proof fn lemma_common_keys()
    ensures
        object::key("txid"@) != object::key("p"@),
        object::key("txid"@) != object::key("recvTime"@),
        object::key("p"@) != object::key("recvTime"@),
{
    lemma_reply_keys("recvTime"@);
}

/// What every reply holds can be read back, and there is nothing else yet.
pub proof fn law_common_reply_reads_back(txid: Seq<u8>, self_version: u32, recv_time: u64)
    ensures
        ({
            let r = common_reply(txid, self_version, recv_time);
            &&& object::bytes_at(r, "txid"@) == Ok::<Seq<u8>, EntryError>(txid)
            &&& object::int_at(r, "p"@) == Ok::<i64, EntryError>(self_version as i64)
            &&& object::int_at(r, "recvTime"@) == Ok::<i64, EntryError>(recv_time as i64)
            &&& forall|k: Seq<u8>| #[trigger]
                r.dom().contains(k) ==> k == encode_utf8("txid"@) || k == encode_utf8("p"@) || k
                    == encode_utf8("recvTime"@)
        }),
{
    lemma_common_keys();
}

/// The version of the sender is that of the header wherever it has one, and else the one that
/// the message gives; a negative one is refused.
pub proof fn law_version_of_the_sender(header_version: u32, m: Map<Seq<u8>, Value>, p: i64)
    ensures
        header_version > 0 ==> message_version(header_version, m) == Ok::<
            Option<u32>,
            Seq<char>,
        >(Some(header_version)),
        ({
            let n = m.insert(encode_utf8("p"@), Value::Int(p));
            message_version(0, n) == (if p < 0 {
                Err::<Option<u32>, Seq<char>>("bad message: 'p' expected to be positive int"@)
            } else {
                Ok::<Option<u32>, Seq<char>>(Some(p as u32))
            })
        }),
        object::int_at(m, "p"@) is Err ==> message_version(0, m) == Ok::<Option<u32>, Seq<char>>(
            None,
        ),
{
    object::law_written_entry_is_read(m, "p"@, Value::Int(p));
}

/// A message is taken up exactly where it asks for something, gives a version, comes from a
/// known sender and has a transaction id; it is refused where one of these is malformed, and
/// ignored where one is just not there.
pub proof fn law_messages_are_admitted<X>(header: RouteHeader<X>, m: Map<Seq<u8>, Value>)
    ensures
        ({
            let sq = object::text_at(m, "sq"@);
            let version = message_version(header.version, m);
            let known = header.public_key is Some && header.ip6 is Some;
            let txid = object::bytes_at(m, "txid"@);
            let a = admission(header, m);
            &&& sq == Err::<Seq<char>, EntryError>(EntryError::Missing) ==> a is Ok && a->Ok_0 is None
            &&& sq == Err::<Seq<char>, EntryError>(EntryError::WrongType) ==> a is Err && a->Err_0
                == "'sq' string entry expected in root dict"@
            &&& sq is Ok && version is Err ==> a is Err && a->Err_0 == version->Err_0
            &&& sq is Ok && version is Ok && (version->Ok_0 is None || !known) ==> a is Ok
                && a->Ok_0 is None
            &&& sq is Ok && version is Ok && version->Ok_0 is Some && known && txid is Err ==> a is Err
                && a->Err_0 == "Txid is required"@
            &&& sq is Ok && version is Ok && version->Ok_0 is Some && known && txid is Ok ==> a is Ok
                && a->Ok_0 is Some && a->Ok_0->Some_0.sq == sq->Ok_0 && a->Ok_0->Some_0.version
                == version->Ok_0->Some_0 && a->Ok_0->Some_0.node == header.ip6->Some_0@
                && a->Ok_0->Some_0.txid == txid->Ok_0
        }),
{
}

/// What is asked for comes with what it is asked about, each from the entry of its name; what
/// lacks its entry is refused, and what has another name is unknown.
pub proof fn law_queries_carry_their_entries(sq: Seq<char>, m: Map<Seq<u8>, Value>)
    ensures
        ({
            let q = query_in(sq, m);
            let (src, tar) = (object::bytes_at(m, "src"@), object::bytes_at(m, "tar"@));
            let (ann, pc) = (object::bytes_at(m, "ann"@), object::bytes_at(m, "pc"@));
            &&& sq == "gr"@ && src is Ok && tar is Ok ==> q == Ok::<QueryModel, Seq<char>>(
                QueryModel::Route(src->Ok_0, tar->Ok_0),
            )
            &&& sq == "gr"@ && src is Err ==> q == Err::<QueryModel, Seq<char>>(
                "bad message: 'src' bytes entry expected in root dict"@,
            )
            &&& sq == "gr"@ && src is Ok && tar is Err ==> q == Err::<QueryModel, Seq<char>>(
                "bad message: 'tar' bytes entry expected in root dict"@,
            )
            &&& sq == "ann"@ ==> q == (if ann is Ok {
                Ok::<QueryModel, Seq<char>>(QueryModel::Announce(ann->Ok_0))
            } else {
                Err::<QueryModel, Seq<char>>("expected benc 'ann' entry to be bytes"@)
            })
            &&& sq == "pn"@ ==> q == Ok::<QueryModel, Seq<char>>(QueryModel::StateHash)
            &&& sq == "pc"@ ==> q == (if pc is Ok {
                Ok::<QueryModel, Seq<char>>(QueryModel::Credentials(pc->Ok_0))
            } else {
                Err::<QueryModel, Seq<char>>("expected benc 'pc' entry to be bytes"@)
            })
            &&& sq != "gr"@ && sq != "ann"@ && sq != "pn"@ && sq != "pc"@ ==> q == Ok::<
                QueryModel,
                Seq<char>,
            >(QueryModel::Unknown)
        }),
{
    reveal_strlit("gr");
    reveal_strlit("ann");
    reveal_strlit("pn");
    reveal_strlit("pc");
    assert("gr"@.len() == 2 && "ann"@.len() == 3 && "pn"@.len() == 2 && "pc"@.len() == 2);
    assert("gr"@[0] == 'g' && "pn"@[0] == 'p' && "pc"@[0] == 'p' && "pn"@[1] == 'n' && "pc"@[1]
        == 'c');
}

/// A message that is taken up becomes a request that says what the message says, and its sender
/// becomes the current node; a message that is not leaves everything as it was.
pub proof fn law_request_says_what_the_message_says<X>(
    before: StateModel,
    header: RouteHeader<X>,
    m: Map<Seq<u8>, Value>,
    recv_time: u64,
    after: StateModel,
    r: Result<Option<Request>, String>,
)
    requires
        begun(before, header, m, recv_time, after, r),
    ensures
        ({
            let a = admission(header, m);
            let taken = a is Ok && a->Ok_0 is Some;
            let query = query_in(a->Ok_0->Some_0.sq, m);
            &&& !taken ==> after == before
            &&& a matches Err(t) ==> r is Err && r->Err_0@ == t
            &&& a is Ok && a->Ok_0 is None ==> r is Ok && r->Ok_0 is None
            &&& taken ==> after.current_node == Some(a->Ok_0->Some_0.node) && after.debug_node
                == before.debug_node && after.self_version == before.self_version
            &&& taken && before.self_version is None ==> r is Err && r->Err_0@
                == "self node isn't set"@
            &&& taken && before.self_version is Some && query is Err ==> r is Err && r->Err_0@
                == query->Err_0
            &&& taken && before.self_version is Some && query is Ok ==> {
                let req = r->Ok_0->Some_0;
                &&& r is Ok && r->Ok_0 is Some
                &&& req@.query == query->Ok_0
                &&& req.node@ == a->Ok_0->Some_0.node
                &&& req.version == a->Ok_0->Some_0.version
                &&& req.debug_noisy <==> before.debug_node == Some(req.node@)
                &&& req.reply@ == common_reply(
                    a->Ok_0->Some_0.txid,
                    before.self_version->Some_0,
                    recv_time,
                )
            }
        }),
{
}

/// A query, a request and a state stand for what they hold.
pub proof fn law_models_hold_everything(q: Query, req: Request, state: ServiceState)
    ensures
        q matches Query::Route { src, tar } ==> q@ == QueryModel::Route(src@, tar@),
        q matches Query::Announce(ann) ==> q@ == QueryModel::Announce(ann@),
        q matches Query::Credentials(pc) ==> q@ == QueryModel::Credentials(pc@),
        q is StateHash <==> q@ is StateHash,
        q is Unknown <==> q@ is Unknown,
        req@.query == req.query@,
        req@.node == req.node@,
        req@.version == req.version,
        req@.debug_noisy == req.debug_noisy,
        req@.reply == req.reply@,
        state@.self_version == state.self_version,
        state@.current_node is Some <==> state.current_node is Some,
        state.current_node matches Some(n) ==> state@.current_node == Some(n@),
        state@.debug_node is Some <==> state.debug_node is Some,
        state.debug_node matches Some(n) ==> state@.debug_node == Some(n@),
{
}

/// Every outcome is answered with the reply that carries it, to the version of the sender; a
/// failed announcement fails the answer, and what is unknown gets none.
pub proof fn law_outcomes_are_answered<F: FnOnce(u64) -> Option<u64>>(
    before: StateModel,
    req: RequestModel,
    outcome: Outcome,
    as_label: F,
    after: StateModel,
    r: Result<Option<(Dict, u32)>, String>,
)
    requires
        completed(before, req, outcome, as_label, after, r),
    ensures
        r is Err <==> outcome matches Outcome::Announced(Err(_)),
        r is Ok && r->Ok_0 is None <==> outcome is Nothing,
        outcome matches Outcome::Announced(Err(e)) ==> r->Err_0@ == e@ && after == before,
        r is Ok ==> after.current_node is None,
        after.debug_node == before.debug_node && after.self_version == before.self_version,
        r is Ok && r->Ok_0 is Some ==> r->Ok_0->Some_0.1 == req.version,
        outcome matches Outcome::Announced(Ok((hash, error))) ==> {
            let reply = r->Ok_0->Some_0.0@;
            &&& object::text_at(reply, "error"@) == Ok::<Seq<char>, EntryError>(error@)
            &&& object::bytes_at(reply, "stateHash"@) == Ok::<Seq<u8>, EntryError>(hash@)
        },
        outcome matches Outcome::StateHash(Some(hash)) ==> object::bytes_at(
            r->Ok_0->Some_0.0@,
            "stateHash"@,
        ) == Ok::<Seq<u8>, EntryError>(hash@),
        outcome matches Outcome::StateHash(None) ==> object::bytes_at(
            r->Ok_0->Some_0.0@,
            "stateHash"@,
        ) == Ok::<Seq<u8>, EntryError>(Seq::new(64, |i: int| 0u8)),
        outcome matches Outcome::Credentials(Ok(pr)) ==> object::value_at(
            r->Ok_0->Some_0.0@,
            "pr"@,
        ) == Ok::<Value, EntryError>(pr@),
        outcome matches Outcome::Credentials(Err(e)) ==> object::bytes_at(
            r->Ok_0->Some_0.0@,
            "err"@,
        ) == Ok::<Seq<u8>, EntryError>(short_error(e@)),
{
    match outcome {
        Outcome::Announced(Ok((hash, error))) => {
            law_announce_reply_reads_back(req.reply, hash@, error@);
        },
        _ => {},
    }
}

/// A request for a route that exists is answered with the target and the label to propose, which
/// is that of the newest peering link if a link back confirms it, and else the computed one.
pub proof fn law_route_is_answered<F: FnOnce(u64) -> Option<u64>>(
    before: StateModel,
    req: RequestModel,
    facts: RouteFacts,
    as_label: F,
    after: StateModel,
    r: Result<Option<(Dict, u32)>, String>,
)
    requires
        completed(before, req, Outcome::Route(facts), as_label, after, r),
    ensures
        r is Ok && r->Ok_0 is Some,
        facts.target is None || facts.route is None ==> r->Ok_0->Some_0.0@ == req.reply,
        facts.target is Some && facts.route is Some ==> exists|peering: Option<u64>|
            {
                let key = facts.target->Some_0.key@;
                let n = object::bytes_at(r->Ok_0->Some_0.0@, "n"@);
                let label = big_endian_value(n->Ok_0.skip(key.len() as int));
                let confirmed = peering is Some && facts.backward is Some && exists|i: int|
                    0 <= i < facts.backward->Some_0@.len() && (
                    #[trigger] facts.backward->Some_0@[i]).peer_num == peering->Some_0;
                &&& #[trigger] is_peering_label(optional_links(facts.inward), as_label, peering)
                &&& n is Ok && n->Ok_0.len() == key.len() + 8
                &&& n->Ok_0.take(key.len() as int) == key
                &&& confirmed ==> label == peering->Some_0
                &&& !confirmed ==> label == facts.route->Some_0
            },
{
    if facts.target is Some && facts.route is Some {
        let back = optional_links(facts.backward);
        let peering = choose|peering: Option<u64>|
            {
                &&& #[trigger] is_peering_label(optional_links(facts.inward), as_label, peering)
                &&& is_reply(
                    r,
                    reply_with_route(req.reply, facts.target, back, facts.route, peering),
                    req.version,
                )
            };
        let route = facts.route->Some_0;
        law_route_reply_reads_back(req.reply, facts.target->Some_0, back, route, peering);
        let confirmed = peering is Some && facts.backward is Some && exists|i: int|
            0 <= i < facts.backward->Some_0@.len() && (
            #[trigger] facts.backward->Some_0@[i]).peer_num == peering->Some_0;
        if confirmed {
            let i = choose|i: int|
                0 <= i < facts.backward->Some_0@.len() && (
                #[trigger] facts.backward->Some_0@[i]).peer_num == peering->Some_0;
            law_known_peering_link_wins(route, peering->Some_0, back->Some_0, i);
        } else {
            law_unconfirmed_peering_link_is_not_proposed(route, peering, back);
        }
        assert(is_peering_label(optional_links(facts.inward), as_label, peering));
    }
}

/// Optional bytes and links are what they hold.
pub proof fn law_optional_parts_hold_the_same(b: Option<Vec<u8>>, links: Option<Vec<Link>>)
    ensures
        optional_bytes(b) is Some <==> b is Some,
        b is Some ==> optional_bytes(b)->Some_0 == b->Some_0@,
        optional_links(links) is Some <==> links is Some,
        links is Some ==> optional_links(links)->Some_0 == links->Some_0@,
{
}

/// Outcomes of what was asked for fit it, and no others do; the one limit is an error text that
/// cannot be cut without splitting a character.
pub proof fn law_outcomes_fit_their_query(query: QueryModel, outcome: Outcome)
    ensures
        fits(query, outcome) ==> (query is Route <==> outcome is Route) && (query is Announce
            <==> outcome is Announced) && (query is StateHash <==> outcome is StateHash) && (
        query is Credentials <==> outcome is Credentials) && (query is Unknown
            <==> outcome is Nothing),
        query is Route && outcome is Route ==> fits(query, outcome),
        query is Announce && outcome is Announced ==> fits(query, outcome),
        query is StateHash && outcome is StateHash ==> fits(query, outcome),
        query is Unknown && outcome is Nothing ==> fits(query, outcome),
        query is Credentials && outcome is Credentials && outcome->Credentials_0 is Ok ==> fits(
            query,
            outcome,
        ),
        query is Credentials && outcome is Credentials && outcome->Credentials_0 is Err
            && encode_utf8(outcome->Credentials_0->Err_0@).len() <= 128 ==> fits(query, outcome),
        query is Credentials && outcome is Credentials && outcome->Credentials_0 is Err
            && is_char_boundary(encode_utf8(outcome->Credentials_0->Err_0@), 128) ==> fits(
            query,
            outcome,
        ),
{
}

/// An answer goes back under the header of the message that it answers: the shift of the label
/// and the version are new, and nothing else is.
pub proof fn law_answer_keeps_the_header<X>(
    header: RouteHeader<X>,
    content_type: u32,
    reply: Option<(Dict, u32)>,
    r: Option<Message<X>>,
)
    requires
        is_answer(header, content_type, reply, r),
    ensures
        r is Some <==> reply is Some,
        r is Some ==> r->Some_0.route_header.public_key == header.public_key
            && r->Some_0.route_header.ip6 == header.ip6 && r->Some_0.route_header.rest
            == header.rest && r->Some_0.route_header.label_shift == 0
            && r->Some_0.route_header.version == reply->Some_0.1 && r->Some_0.content_type
            == content_type && r->Some_0.content == Content::Benc(reply->Some_0.0),
{
}

/// There are as many handlers as the list of them has items.
pub proof fn law_handlers_are_counted(ret: Map<Seq<u8>, Value>, l: Seq<Value>)
    ensures
        handlers_in(ret.insert(encode_utf8("handlers"@), Value::List(l))) == Ok::<nat, Seq<char>>(
            l.len(),
        ),
        handlers_in(ret) is Ok ==> object::list_at(ret, "handlers"@) is Ok && handlers_in(
            ret,
        )->Ok_0 == object::list_at(ret, "handlers"@)->Ok_0.len(),
        handlers_in(ret) is Err ==> handlers_in(ret)->Err_0 == (if ret.dom().contains(
            encode_utf8("handlers"@),
        ) {
            "'handlers' entry is not a list"@
        } else {
            "'handlers' entry is missing"@
        }),
{
    object::law_written_entry_is_read(ret, "handlers"@, Value::List(l));
}

} // verus!
