use cjdns_admin::node_info::{prefix_or_flaw, try_parse_encoding_scheme, CoreNodeInfoPayload, EncForm};
use cjdns_admin::object::{Dict, Object};
use cjdns_admin::service::{
    answer_message, answer_route, check_connection_alive, count_handlers, newest_link, on_received, route_addresses, Content,
    Link, Message, Outcome, Query, Received, Request, RouteFacts, RouteHeader, Serve, ServiceState, Target,
};

fn dict(entries: Vec<(&str, Object)>) -> Dict {
    let mut d = Dict::new();
    for (name, value) in entries {
        d.insert(name, value);
    }
    d
}

fn header(version: u32) -> RouteHeader<&'static str> {
    RouteHeader {
        public_key: Some(vec![1; 32]),
        ip6: Some(vec![0xfc; 16]),
        version,
        label_shift: 9,
        rest: "rest",
    }
}

fn state() -> ServiceState {
    ServiceState {
        current_node: None,
        debug_node: None,
        self_version: Some(21),
    }
}

fn query(sq: &str, extra: Vec<(&'static str, Object)>) -> Dict {
    let mut entries = vec![("sq", Object::text(sq)), ("txid", Object::Bytes(vec![7, 8]))];
    entries.extend(extra);
    dict(entries)
}

fn begin(state: &mut ServiceState, content: Dict) -> Result<Option<Request>, String> {
    state.on_subnode_message(
        &Message {
            route_header: header(20),
            content_type: 1,
            content: Content::Benc(content),
        },
        1_000,
    )
}

fn common(extra: Vec<(&'static str, Object)>) -> Dict {
    let mut entries = vec![
        ("txid", Object::Bytes(vec![7, 8])),
        ("p", Object::Int(21)),
        ("recvTime", Object::Int(1_000)),
    ];
    entries.extend(extra);
    dict(entries)
}

fn as_label(bits: u64) -> Option<u64> {
    if bits == 0 {
        None
    } else {
        Some(bits)
    }
}

fn link(label: u64, create_time: u64, peer_num: u64) -> Link {
    Link {
        label,
        create_time,
        peer_num,
    }
}

#[test]
fn unknown_messages_are_ignored() {
    let mut st = state();
    assert!(begin(&mut st, Dict::new()).unwrap().is_none());
    let other = Message {
        route_header: header(20),
        content_type: 1,
        content: Content::Other,
    };
    assert!(st.on_subnode_message(&other, 0).unwrap().is_none());
    let anonymous = RouteHeader {
        public_key: None,
        ..header(20)
    };
    assert!(st.begin(&anonymous, &query("pn", vec![]), 0).unwrap().is_none());
    let nowhere = RouteHeader {
        ip6: None,
        ..header(20)
    };
    assert!(st.begin(&nowhere, &query("pn", vec![]), 0).unwrap().is_none());
    assert!(st.begin(&header(0), &query("pn", vec![]), 0).unwrap().is_none());
    assert!(st.current_node.is_none());
}

#[test]
fn bad_messages_are_refused() {
    let mut st = state();
    let mut fail = |content: Dict| match begin(&mut st, content) {
        Err(e) => e,
        Ok(_) => panic!("refusal expected"),
    };
    assert_eq!(fail(dict(vec![("sq", Object::Int(1))])), "'sq' string entry expected in root dict");
    assert_eq!(fail(dict(vec![("sq", Object::text("pn"))])), "Txid is required");
    assert_eq!(fail(query("gr", vec![])), "bad message: 'src' bytes entry expected in root dict");
    assert_eq!(
        fail(query("gr", vec![("src", Object::text("s"))])),
        "bad message: 'tar' bytes entry expected in root dict"
    );
    assert_eq!(fail(query("ann", vec![])), "expected benc 'ann' entry to be bytes");
    assert_eq!(fail(query("pc", vec![("pc", Object::Int(1))])), "expected benc 'pc' entry to be bytes");
    let negative = query("pn", vec![("p", Object::Int(-1))]);
    assert_eq!(
        st.begin(&header(0), &negative, 0).err(),
        Some("bad message: 'p' expected to be positive int".to_owned())
    );
    st.self_version = None;
    assert_eq!(begin(&mut st, query("pn", vec![])).err(), Some("self node isn't set".to_owned()));
    assert_eq!(st.current_node, Some(vec![0xfc; 16]));
}

#[test]
fn requests_are_recognized() {
    let mut st = state();
    st.debug_node = Some(vec![0xfc; 16]);
    let req = begin(&mut st, query("gr", vec![("src", Object::text("s")), ("tar", Object::text("t"))])).unwrap().unwrap();
    assert!(matches!(&req.query, Query::Route { src, tar } if src == b"s" && tar == b"t"));
    assert!(req.debug_noisy);
    assert_eq!(req.version, 20);
    assert_eq!(req.node, vec![0xfc; 16]);
    assert_eq!(req.reply, common(vec![]));
    assert_eq!(st.current_node, Some(vec![0xfc; 16]));
    st.debug_node = Some(vec![0xfd; 16]);
    let req = begin(&mut st, query("ann", vec![("ann", Object::text("a"))])).unwrap().unwrap();
    assert!(matches!(&req.query, Query::Announce(ann) if ann == b"a"));
    assert!(!req.debug_noisy);
    let with_p = query("pc", vec![("pc", Object::text("c")), ("p", Object::Int(0x1_0000_0005))]);
    let req = st.begin(&header(0), &with_p, u64::MAX).unwrap().unwrap();
    assert!(matches!(&req.query, Query::Credentials(pc) if pc == b"c"));
    assert_eq!(req.version, 5);
    assert_eq!(req.reply.get_int("recvTime"), Ok(-1));
}

fn complete(sq: &str, extra: Vec<(&'static str, Object)>, outcome: Outcome) -> Result<Option<(Dict, u32)>, String> {
    let mut st = state();
    let req = begin(&mut st, query(sq, extra)).unwrap().unwrap();
    let r = st.complete(req, outcome, as_label);
    assert_eq!(st.current_node.is_none(), r.is_ok());
    assert_eq!(st.self_version, Some(21));
    r
}

fn route(facts: RouteFacts) -> Dict {
    let asked = vec![("src", Object::text("s")), ("tar", Object::text("t"))];
    let (reply, version) = complete("gr", asked, Outcome::Route(facts)).unwrap().unwrap();
    assert_eq!(version, 20);
    reply
}

fn proposal(label: [u8; 8]) -> Dict {
    let mut n = vec![5; 32];
    n.extend_from_slice(&label);
    common(vec![("n", Object::Bytes(n)), ("np", Object::Bytes(vec![1, 22]))])
}

fn target() -> Option<Target> {
    Some(Target {
        key: vec![5; 32],
        version: 22,
    })
}

#[test]
fn computed_route_is_proposed() {
    let facts = RouteFacts {
        target: target(),
        inward: None,
        backward: None,
        route: Some(0x0102_0304_0506_0708),
    };
    assert_eq!(route(facts), proposal([1, 2, 3, 4, 5, 6, 7, 8]));
}

#[test]
fn known_peering_link_is_proposed() {
    let facts = |backward: Option<Vec<Link>>| RouteFacts {
        target: target(),
        inward: Some(vec![link(3, 10, 0), link(19, 30, 0), link(21, 30, 0), link(4, 20, 0)]),
        backward,
        route: Some(9),
    };
    assert_eq!(route(facts(Some(vec![link(0, 0, 1), link(0, 0, 21)]))), proposal([0, 0, 0, 0, 0, 0, 0, 21]));
    assert_eq!(route(facts(Some(vec![link(0, 0, 19)]))), proposal([0, 0, 0, 0, 0, 0, 0, 9]));
    assert_eq!(route(facts(None)), proposal([0, 0, 0, 0, 0, 0, 0, 9]));
    let no_label = RouteFacts {
        target: target(),
        inward: Some(vec![link(0, 1, 0)]),
        backward: Some(vec![link(0, 0, 0)]),
        route: Some(9),
    };
    assert_eq!(route(no_label), proposal([0, 0, 0, 0, 0, 0, 0, 9]));
}

#[test]
fn no_route_is_proposed_where_there_is_none() {
    let facts = |target: Option<Target>, route: Option<u64>| RouteFacts {
        target,
        inward: Some(vec![]),
        backward: None,
        route,
    };
    assert_eq!(route(facts(None, Some(1))), common(vec![]));
    assert_eq!(route(facts(target(), None)), common(vec![]));
    assert_eq!(answer_route(Dict::new(), facts(None, None), Some(1)), Dict::new());
    assert!(newest_link(&vec![]).is_none());
    assert_eq!(newest_link(&vec![link(1, 5, 0), link(2, 5, 0), link(3, 4, 0)]).unwrap().label, 2);
}

#[test]
fn versions_take_one_byte() {
    let facts = RouteFacts {
        target: Some(Target { key: vec![], version: 0x1ff }),
        inward: None,
        backward: None,
        route: Some(u64::MAX),
    };
    let reply = route(facts);
    assert_eq!(reply.get_bytes("np"), Ok(&vec![1, 0xff]));
    assert_eq!(reply.get_bytes("n"), Ok(&vec![0xff; 8]));
}

#[test]
fn addresses_are_checked_in_order() {
    let bad = |e: &str| Err::<u8, String>(e.to_owned());
    assert_eq!(route_addresses(bad("x"), bad("y")), Err("bad 'src' address: x".to_owned()));
    assert_eq!(route_addresses(Ok(1), bad("y")), Err("bad 'tar' address: y".to_owned()));
    assert_eq!(route_addresses(Ok(1), Ok(2)), Ok((1, 2)));
}

#[test]
fn announcements_are_answered() {
    let ann = || vec![("ann", Object::text("a"))];
    let (reply, version) = complete("ann", ann(), Outcome::Announced(Ok((vec![9; 64], "none".to_owned())))).unwrap().unwrap();
    assert_eq!(reply, common(vec![("stateHash", Object::Bytes(vec![9; 64])), ("error", Object::text("none"))]));
    assert_eq!(version, 20);
    let failed = complete("ann", ann(), Outcome::Announced(Err("broken".to_owned())));
    assert_eq!(failed.err(), Some("broken".to_owned()));
}

#[test]
fn state_hash_is_zero_where_unknown() {
    let hash = |h: Option<Vec<u8>>| complete("pn", vec![], Outcome::StateHash(h)).unwrap().unwrap().0;
    assert_eq!(hash(None), common(vec![("stateHash", Object::Bytes(vec![0; 64]))]));
    assert_eq!(hash(Some(vec![3; 64])), common(vec![("stateHash", Object::Bytes(vec![3; 64]))]));
}

#[test]
fn credentials_are_answered() {
    let post = |outcome: Result<Object, String>| {
        complete("pc", vec![("pc", Object::text("c"))], Outcome::Credentials(outcome)).unwrap().unwrap().0
    };
    assert_eq!(post(Ok(Object::text("ok"))), common(vec![("pr", Object::text("ok"))]));
    assert_eq!(post(Err("no".to_owned())), common(vec![("err", Object::text("no"))]));
    assert_eq!(post(Err("x".repeat(200))), common(vec![("err", Object::text(&"x".repeat(128)))]));
    assert_eq!(post(Err("é".repeat(100))), common(vec![("err", Object::text(&"é".repeat(64)))]));
}

#[test]
fn unknown_queries_are_not_answered() {
    assert!(complete("zz", vec![], Outcome::Nothing).unwrap().is_none());
}

#[test]
fn answers_go_back_to_the_sender() {
    let answer = answer_message(header(20), 4, Some((Dict::new(), 17))).unwrap();
    assert_eq!(answer.route_header.label_shift, 0);
    assert_eq!(answer.route_header.version, 17);
    assert_eq!(answer.route_header.ip6, Some(vec![0xfc; 16]));
    assert_eq!(answer.route_header.public_key, Some(vec![1; 32]));
    assert_eq!(answer.route_header.rest, "rest");
    assert_eq!(answer.content_type, 4);
    assert!(matches!(answer.content, Content::Benc(d) if d.is_empty()));
    assert!(answer_message(header(20), 4, None).is_none());
}

#[test]
fn connection_without_handlers_is_dead() {
    let ret = |n: usize| dict(vec![("handlers", Object::List((0..n).map(|_| Object::Int(1)).collect()))]);
    assert_eq!(count_handlers(&ret(3)), Ok(3));
    assert_eq!(check_connection_alive(&ret(1)), Ok(()));
    assert_eq!(
        check_connection_alive(&ret(0)),
        Err("Call to UpperDistributor_listHandlers returned 0 handlers - connection aborted?".to_owned())
    );
    assert_eq!(count_handlers(&Dict::new()), Err("'handlers' entry is missing".to_owned()));
    assert_eq!(
        check_connection_alive(&dict(vec![("handlers", Object::Int(0))])),
        Err("'handlers' entry is not a list".to_owned())
    );
}

#[test]
fn only_a_failed_socket_ends_the_service() {
    assert_eq!(on_received(Received::Message(3)), Serve::Handle(3));
    assert_eq!(on_received::<u8>(Received::SocketError("down".to_owned())), Serve::End("down".to_owned()));
    assert_eq!(
        on_received::<u8>(Received::ParseError("odd".to_owned(), vec![1, 2])),
        Serve::Skip("odd".to_owned(), vec![1, 2])
    );
}

fn form(prefix_len: i64, prefix: &str, bit_count: i64) -> Object {
    Object::Dict(dict(vec![
        ("prefixLen", Object::Int(prefix_len)),
        ("prefix", Object::text(prefix)),
        ("bitCount", Object::Int(bit_count)),
    ]))
}

#[test]
fn node_info_is_read() {
    let info = dict(vec![
        ("myAddr", Object::text("v21.0000.0000.0000.0001.abc.k")),
        ("encodingScheme", Object::List(vec![form(1, "01", 3), form(2, "02", 5)])),
    ]);
    let payload = CoreNodeInfoPayload::try_from(&info).unwrap();
    assert_eq!(payload.my_addr, "v21.0000.0000.0000.0001.abc.k");
    assert_eq!(
        payload.encoding_scheme,
        vec![
            EncForm {
                prefix_len: 1,
                prefix: "01".to_owned(),
                bit_count: 3,
            },
            EncForm {
                prefix_len: 2,
                prefix: "02".to_owned(),
                bit_count: 5,
            },
        ]
    );
}

#[test]
fn bad_node_info_is_refused() {
    let fail = |entries: Vec<(&'static str, Object)>| CoreNodeInfoPayload::try_from(&dict(entries)).unwrap_err();
    let addr = || ("myAddr", Object::text("a"));
    assert_eq!(fail(vec![]), "missing entry: myAddr");
    assert_eq!(fail(vec![("myAddr", Object::Int(1))]), "unexpected type of entry: myAddr");
    assert_eq!(fail(vec![addr()]), "missing entry: encodingScheme");
    let scheme = |f: Object| fail(vec![addr(), ("encodingScheme", Object::List(vec![form(0, "", 0), f]))]);
    assert_eq!(scheme(Object::Int(1)), "encoding form is not a dict");
    assert_eq!(scheme(form(256, "", 0)), "number out of range in entry: prefixLen");
    assert_eq!(scheme(form(0, "", -1)), "number out of range in entry: bitCount");
    assert_eq!(scheme(Object::Dict(Dict::new())), "missing entry: prefixLen");
}

fn enc_form(prefix: &str) -> EncForm {
    EncForm {
        prefix_len: 4,
        prefix: prefix.to_owned(),
        bit_count: 8,
    }
}

#[test]
fn prefixes_are_hexadecimal() {
    assert_eq!(enc_form("ff").prefix_number(), Ok(255));
    assert_eq!(enc_form("+00Ff").prefix_number(), Ok(255));
    assert_eq!(enc_form("ffffffff").prefix_number(), Ok(u32::MAX));
    assert_eq!(enc_form("").prefix_number(), Err("bad prefix: cannot parse integer from empty string".to_owned()));
    assert_eq!(enc_form("0x1").prefix_number(), Err("bad prefix: invalid digit found in string".to_owned()));
    assert_eq!(
        enc_form("100000000").prefix_number(),
        Err("bad prefix: number too large to fit in target type".to_owned())
    );
    assert_eq!(enc_form("-1").prefix_number().is_err(), true);
    assert_eq!(prefix_or_flaw(Ok(3)), Ok(3));
    assert_eq!(prefix_or_flaw(Err("e".to_owned())), Err("bad prefix: e".to_owned()));
}

#[test]
fn encoding_scheme_is_made_of_its_forms() {
    let try_form = |bit_count: u8, prefix_len: u8, prefix: u32| {
        if prefix == 13 {
            Err("unlucky".to_owned())
        } else {
            Ok((bit_count, prefix_len, prefix))
        }
    };
    let try_scheme = |forms: &Vec<(u8, u8, u32)>| {
        if forms.is_empty() {
            Err("no forms".to_owned())
        } else {
            Ok(forms.clone())
        }
    };
    let parse = |forms: Vec<EncForm>| try_parse_encoding_scheme(&forms, try_form, try_scheme);
    assert_eq!(parse(vec![enc_form("1"), enc_form("a")]), Ok(vec![(8, 4, 1), (8, 4, 10)]));
    assert_eq!(parse(vec![]), Err("no forms".to_owned()));
    assert_eq!(parse(vec![enc_form("1"), enc_form("d"), enc_form("x")]), Err("bad encoding form: unlucky".to_owned()));
    assert_eq!(
        parse(vec![enc_form("1"), enc_form("x"), enc_form("d")]),
        Err("bad prefix: invalid digit found in string".to_owned())
    );
}
