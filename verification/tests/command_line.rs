use cjdns_admin::invocation::{
    make_args, name_and_args, parse_remote_fn_args, prepare_call, prepare_split, split_fn_invocation_str,
};
use cjdns_admin::object::{Dict, Object};
use cjdns_admin::pipe::{full_path, is_taken, PathStep, Prefix, Target};
use cjdns_admin::Funcs;

fn dict(entries: Vec<(&str, Object)>) -> Dict {
    let mut d = Dict::new();
    for (name, value) in entries {
        d.insert(name, value);
    }
    d
}

fn funcs() -> Funcs {
    let arg = |required: i64| Object::Dict(dict(vec![("type", Object::text("Int")), ("required", Object::Int(required))]));
    let mut funcs = Funcs::new();
    let foo = dict(vec![("b", arg(0)), ("a", arg(0)), ("z", arg(1))]);
    funcs.add_funcs(&dict(vec![("foo", Object::Dict(foo)), ("ping", Object::Dict(Dict::new()))])).unwrap();
    funcs
}

fn split(s: &str) -> Result<(String, String), ()> {
    split_fn_invocation_str(s)
}

fn parts(name: &str, args: &str) -> Result<(String, String), ()> {
    Ok((name.to_owned(), args.to_owned()))
}

#[test]
fn calls_are_split() {
    assert_eq!(split("ping()"), parts("ping", ""));
    assert_eq!(split("foo_func(42, \"ololo\")"), parts("foo_func", "42, \"ololo\""));
    assert_eq!(split("  x.y(1)(2)"), parts("y", "1"));
    assert_eq!(split("(a) b (c) d(e(f)g)"), parts("d", "e(f"));
    assert_eq!(split("naïve(ü)"), parts("naïve", "ü"));
    assert_eq!(split("ping"), Err(()));
    assert_eq!(split("ping("), Err(()));
    assert_eq!(split("()"), Err(()));
    assert_eq!(split(""), Err(()));
}

#[test]
fn groups_are_taken_apart() {
    let group = |s: &str| Some(s.to_owned());
    assert_eq!(name_and_args(Some(vec![group("f(1)"), group("f"), group("1")])), parts("f", "1"));
    assert_eq!(name_and_args(Some(vec![group("f(1)"), group("f"), None])), Err(()));
    assert_eq!(name_and_args(Some(vec![group("f(1)"), group("f")])), Err(()));
    assert_eq!(name_and_args(None), Err(()));
}

#[test]
fn arguments_are_integers_and_texts() {
    assert_eq!(parse_remote_fn_args(""), Ok(vec![]));
    assert_eq!(parse_remote_fn_args(" \t\u{3000}"), Ok(vec![]));
    assert_eq!(
        parse_remote_fn_args("42, \"ololo\" ,-7,\u{a0}\"\u{2003}é\""),
        Ok(vec![Object::Int(42), Object::text("ololo"), Object::Int(-7), Object::text("\u{2003}é")])
    );
    assert_eq!(parse_remote_fn_args("007,-0"), Ok(vec![Object::Int(7), Object::Int(0)]));
    assert_eq!(parse_remote_fn_args("\"\""), Ok(vec![Object::text("")]));
    assert_eq!(
        parse_remote_fn_args("9223372036854775807,-9223372036854775808"),
        Ok(vec![Object::Int(i64::MAX), Object::Int(i64::MIN)])
    );
}

#[test]
fn bad_arguments_are_refused() {
    for bad in ["1,", ",1", "abc", "\"", "\"abc", "abc\"", "-", "1x", "--1", "+1", "9223372036854775808", "\"a,b\"", "'a'", "1 2"] {
        assert_eq!(parse_remote_fn_args(bad), Err(()), "{bad}");
    }
}

#[test]
fn white_space_is_that_of_unicode() {
    for n in 0..0x11_0000u32 {
        if let Some(c) = char::from_u32(n) {
            let blank = matches!(parse_remote_fn_args(&c.to_string()), Ok(args) if args.is_empty());
            assert_eq!(blank, c.is_whitespace(), "{n:x}");
        }
    }
}

#[test]
fn values_take_the_names_of_arguments() {
    let funcs = funcs();
    let foo = funcs.find("foo").unwrap();
    assert_eq!(make_args(foo, vec![]), Dict::new());
    assert_eq!(
        make_args(foo, vec![Object::Int(1), Object::Int(2)]),
        dict(vec![("z", Object::Int(1)), ("a", Object::Int(2))])
    );
    let four = (1..=4).map(Object::Int).collect();
    assert_eq!(
        make_args(foo, four),
        dict(vec![("z", Object::Int(1)), ("a", Object::Int(2)), ("b", Object::Int(3))])
    );
}

#[test]
fn calls_are_prepared() {
    let funcs = funcs();
    assert_eq!(prepare_call(&funcs, "ping()"), Ok(("ping".to_owned(), Dict::new())));
    assert_eq!(
        prepare_call(&funcs, "foo(5, \"x\")"),
        Ok(("foo".to_owned(), dict(vec![("z", Object::Int(5)), ("a", Object::text("x"))])))
    );
    assert_eq!(
        prepare_call(&funcs, "foo(-1, \"ü(日本\")"),
        Ok(("foo".to_owned(), dict(vec![("z", Object::Int(-1)), ("a", Object::text("ü(日本"))])))
    );
    assert_eq!(prepare_call(&funcs, "foo"), Err("bad function invocation expression"));
    assert_eq!(prepare_call(&funcs, "foo(x)"), Err("bad function arguments"));
    assert_eq!(prepare_call(&funcs, "bar(x)"), Err("bad function arguments"));
    assert_eq!(prepare_call(&funcs, "bar(1)"), Err("unknown function name"));
    assert_eq!(prepare_split(&funcs, Err(())), Err("bad function invocation expression"));
    assert_eq!(prepare_split(&funcs, parts("ping", " ")), Ok(("ping".to_owned(), Dict::new())));
}

#[test]
fn paths_are_looked_for_in_order() {
    let steps = |target: Target, n: usize| (0..n).map(|i| full_path(target, false, i)).collect::<Vec<_>>();
    let var = |name: &'static str| PathStep::Try(Prefix::EnvVar(name));
    let dir = |path: &'static str| PathStep::Try(Prefix::Dir(path));
    assert_eq!(
        steps(Target::OtherUnix, 6),
        vec![
            var("XDG_RUNTIME_DIR"),
            var("TMPDIR"),
            dir("/run"),
            dir("/var/run"),
            PathStep::Fallback("/tmp"),
            PathStep::Fallback("/tmp"),
        ]
    );
    assert_eq!(
        steps(Target::Android, 4),
        vec![var("XDG_RUNTIME_DIR"), var("TMPDIR"), var("HOME"), PathStep::Fallback("/data/local/tmp")]
    );
    assert_eq!(
        steps(Target::MacOs, 4),
        vec![var("XDG_RUNTIME_DIR"), var("TMPDIR"), dir("/var/run"), PathStep::Fallback("/tmp")]
    );
    assert_eq!(steps(Target::Windows, 1), vec![PathStep::Fallback("\\\\.\\pipe")]);
    assert_eq!(full_path(Target::OtherUnix, true, 0), PathStep::Unchanged);
}

#[test]
fn relative_directories_are_passed_over() {
    assert!(is_taken(true, true));
    assert!(!is_taken(false, true));
    assert!(!is_taken(true, false));
    assert!(!is_taken(false, false));
}

#[test]
fn directories_start_at_the_root() {
    for target in [Target::Android, Target::MacOs, Target::OtherUnix] {
        for tried in 0..6 {
            match full_path(target, false, tried) {
                PathStep::Try(Prefix::Dir(dir)) | PathStep::Fallback(dir) => assert!(dir.starts_with('/'), "{dir}"),
                step => assert!(matches!(step, PathStep::Try(Prefix::EnvVar(_)))),
            }
        }
    }
}
