use cjdns_admin::object::{Dict, Object};
use cjdns_admin::{Arg, ArgType, Func, Funcs};

fn dict(entries: Vec<(&str, Object)>) -> Dict {
    let mut d = Dict::new();
    for (name, value) in entries {
        d.insert(name, value);
    }
    d
}

fn arg(typ: &str, required: i64) -> Object {
    Object::Dict(dict(vec![("type", Object::text(typ)), ("required", Object::Int(required))]))
}

fn page() -> Dict {
    dict(vec![
        (
            "second",
            Object::Dict(dict(vec![
                ("beta", arg("Int", 0)),
                ("alpha", arg("Dict", 0)),
                ("omega", arg("String", 1)),
                ("gamma", arg("List", 1)),
            ])),
        ),
        ("first", Object::Dict(Dict::new())),
    ])
}

#[test]
fn functions_are_listed_in_order() {
    let mut funcs = Funcs::new();
    funcs.add_funcs(&page()).unwrap();
    funcs.add_funcs(&dict(vec![("more", Object::Dict(Dict::new()))])).unwrap();
    let names: Vec<&str> = funcs.iter().map(|f| f.name.as_str()).collect();
    assert_eq!(names, vec!["first", "more", "second"]);
    assert_eq!(
        funcs.to_text(),
        "first()\nmore()\nsecond(required List gamma, required String omega, Dict alpha, Int beta)\n"
    );
    assert_eq!(funcs.clone(), funcs);
    assert_eq!(Funcs::default(), Funcs::new());
}

#[test]
fn arguments_are_listed_required_first() {
    let mut funcs = Funcs::new();
    funcs.add_funcs(&page()).unwrap();
    let func: &Func = funcs.find("second").unwrap();
    let names: Vec<&str> = func.args.iter().map(|a| a.name.as_str()).collect();
    assert_eq!(names, vec!["gamma", "omega", "alpha", "beta"]);
    assert_eq!(func.args.len(), 4);
    assert_eq!(
        *func.args.at(1),
        Arg {
            name: "omega".to_owned(),
            required: true,
            typ: ArgType::String,
        }
    );
    assert!(funcs.find("third").is_none());
}

#[test]
fn argument_types_read_back() {
    for typ in [ArgType::Int, ArgType::String, ArgType::List, ArgType::Dict] {
        assert_eq!(ArgType::try_from(&typ.to_text()), Ok(typ));
    }
    assert_eq!(ArgType::try_from("int"), Err("Unknown arg type int".to_owned()));
}

#[test]
fn bad_descriptions_are_refused() {
    let parse = |args: Object| Funcs::parse_fn("f".to_owned(), &args).map(|_| ());
    let with = |a: Object| Object::Dict(dict(vec![("a", a)]));
    assert_eq!(parse(with(arg("Int", 5))), Ok(()));
    assert_eq!(
        parse(with(arg("Float", 0))),
        Err("Function f argument a: invalid type Float".to_owned())
    );
    assert_eq!(
        parse(with(Object::Dict(dict(vec![("required", Object::Int(0))])))),
        Err("Missing arg type in argument a".to_owned())
    );
    assert_eq!(
        parse(with(Object::Dict(dict(vec![("type", Object::text("Int"))])))),
        Err("Missing arg required in argument a".to_owned())
    );
    assert!(parse(Object::Int(1)).is_err());
    assert!(parse(with(Object::Int(1))).is_err());
    let mut funcs = Funcs::new();
    assert!(funcs.add_funcs(&dict(vec![("f", Object::Int(1))])).is_err());
}

#[test]
fn names_that_are_not_text_are_refused() {
    let with = |key: Vec<u8>, value: Object| {
        let mut d = Dict::new();
        d.insert_bytes(key, value);
        d
    };
    let flaw = "invalid utf-8 sequence of 1 bytes from index 1".to_owned();
    let args = Object::Dict(with(vec![b'a', 0xff], arg("Int", 1)));
    assert_eq!(Funcs::parse_fn("f".to_owned(), &args), Err(flaw.clone()));
    let page = with(vec![b'f', 0xff], Object::Dict(Dict::new()));
    assert_eq!(Funcs::new().add_funcs(&page), Err(flaw));
}
