//! Calls of remote functions as they are written on the command line, such as
//! `foo_func(42, "text")`.

use vstd::prelude::*;
use vstd::utf8::*;

use crate::func_list::{Func, Funcs};
use crate::func_list;
use crate::number;
use crate::object::{Dict, Object, Value};
use crate::object;

verus! {

/// Regular expression of a call: the name of a function, and its arguments in brackets.
pub const FN_CALL_PATTERN: &'static str = r"([\w]+)\(([^)]*)\)";

/// What the groups of the first match of a regular expression in a text hold, that of the
/// whole match first; `None` where there is no match.
pub uninterp spec fn captured(pattern: Seq<char>, t: Seq<char>) -> Option<Seq<Option<Seq<char>>>>;

/// Every character is an ASCII character.
pub open spec fn all_ascii(t: Seq<char>) -> bool {
    forall|i: int| 0 <= i < t.len() ==> (#[trigger] t[i] as int) < 128
}

/// An ASCII letter, an ASCII digit, or an underscore.
pub open spec fn is_ascii_word(c: char) -> bool {
    'a' <= c <= 'z' || 'A' <= c <= 'Z' || '0' <= c <= '9' || c == '_'
}

/// The first call in `t` has its name from `s` on, and its brackets at `open` and `close`:
/// it is the first opening bracket with a name before it, and the first closing bracket
/// after that.
pub open spec fn is_first_call(t: Seq<char>, s: int, open: int, close: int) -> bool {
    &&& 0 <= s < open < close < t.len()
    &&& t[open] == '(' && t[close] == ')'
    &&& forall|i: int| s <= i < open ==> is_ascii_word(#[trigger] t[i])
    &&& s == 0 || !is_ascii_word(t[s - 1])
    &&& forall|i: int| open < i < close ==> #[trigger] t[i] != ')'
    &&& forall|i: int| 0 < i < open && #[trigger] t[i] == '(' ==> !is_ascii_word(t[i - 1])
}

/// The groups are those of the first call in `t`: the call, its name, and its arguments.
pub open spec fn are_call_groups(t: Seq<char>, groups: Option<Seq<Option<Seq<char>>>>) -> bool {
    match groups {
        Some(g) => exists|s: int, open: int, close: int|
            {
                &&& #[trigger] is_first_call(t, s, open, close)
                &&& g == seq![
                    Some(t.subrange(s, close + 1)),
                    Some(t.subrange(s, open)),
                    Some(t.subrange(open + 1, close)),
                ]
            },
        None => forall|s: int, open: int, close: int| !#[trigger] is_first_call(t, s, open, close),
    }
}

/// The text is ASCII, or at least up to an opening bracket with a name before it.
pub open spec fn is_ascii_before_call(t: Seq<char>) -> bool {
    all_ascii(t) || exists|i: int|
        0 < i < t.len() && #[trigger] t[i] == '(' && is_ascii_word(t[i - 1]) && all_ascii(t.take(i))
}

/// The groups are those of the first call in `t`, as far as `t` is ASCII before the
/// arguments of that call.
pub open spec fn are_found_groups(t: Seq<char>, groups: Option<Seq<Option<Seq<char>>>>) -> bool {
    is_ascii_before_call(t) ==> are_call_groups(t, groups)
}

/// What groups hold.
pub open spec fn view_groups(groups: Option<Vec<Option<String>>>) -> Option<Seq<Option<Seq<char>>>> {
    match groups {
        Some(g) => Some(g@.map_values(|t: Option<String>| group_text(t))),
        None => None,
    }
}

/// What a group holds, if it took part in the match.
pub open spec fn group_text(t: Option<String>) -> Option<Seq<char>> {
    match t {
        Some(t) => Some(t@),
        None => None,
    }
}

/// Calls `regex::Regex::new` and then `captures`, which finds the leftmost match. The
/// pattern is a valid one. The groups depend on the pattern and the text alone. Among ASCII
/// characters `\w` stands for letters, digits and the underscore, and `[^)]` stands for any
/// character but one: so in a text that is ASCII before the arguments of its first call, the
/// groups are those of that call.
#[verifier::external_body]
fn regex_captures(pattern: &str, t: &str) -> (r: Option<Vec<Option<String>>>)
    requires
        pattern@ == FN_CALL_PATTERN@,
    ensures
        view_groups(r) == captured(pattern@, t@),
        are_found_groups(t@, view_groups(r)),
{
    let re = regex::Regex::new(pattern).unwrap();
    let caps = re.captures(t)?;
    Some(caps.iter().map(|m| m.map(|m| m.as_str().to_owned())).collect())
}

/// The name and the arguments in the groups of a call.
pub open spec fn split_groups(groups: Option<Seq<Option<Seq<char>>>>) -> Option<
    (Seq<char>, Seq<char>),
> {
    match groups {
        Some(g) => if g.len() > 2 && g[1] is Some && g[2] is Some {
            Some((g[1]->Some_0, g[2]->Some_0))
        } else {
            None
        },
        None => None,
    }
}

/// Takes the name and the arguments out of the groups of a call.
pub fn name_and_args(groups: Option<Vec<Option<String>>>) -> (r: Result<(String, String), ()>)
    ensures
        match split_groups(view_groups(groups)) {
            Some((name, args)) => r is Ok && r->Ok_0.0@ == name && r->Ok_0.1@ == args,
            None => r is Err,
        },
{
    match groups {
        Some(g) => if g.len() > 2 {
            match (&g[1], &g[2]) {
                (Some(name), Some(args)) => Ok((name.clone(), args.clone())),
                _ => Err(()),
            }
        } else {
            Err(())
        },
        None => Err(()),
    }
}

/// Splits a call into the name of the function and its arguments.
pub fn split_fn_invocation_str(s: &str) -> (r: Result<(String, String), ()>)
    ensures
        match split_groups(captured(FN_CALL_PATTERN@, s@)) {
            Some((name, args)) => r is Ok && r->Ok_0.0@ == name && r->Ok_0.1@ == args,
            None => r is Err,
        },
        are_found_groups(s@, captured(FN_CALL_PATTERN@, s@)),
{
    name_and_args(regex_captures(FN_CALL_PATTERN, s))
}

/// An ASCII name and any arguments without a closing bracket, written as a call, are split
/// into the same name and arguments.
pub proof fn law_written_call_is_split(name: Seq<char>, args: Seq<char>, groups: Option<Seq<Option<Seq<char>>>>)
    requires
        name.len() > 0,
        forall|i: int| 0 <= i < name.len() ==> is_ascii_word(#[trigger] name[i]),
        forall|i: int| 0 <= i < args.len() ==> #[trigger] args[i] != ')',
        are_found_groups(name + seq!['('] + args + seq![')'], groups),
    ensures
        split_groups(groups) == Some((name, args)),
{
    let t = name + seq!['('] + args + seq![')'];
    let open = name.len() as int;
    let close = open + 1 + args.len();
    assert(t[open] == '(' && t[close] == ')');
    assert forall|i: int| 0 <= i < open implies is_ascii_word(#[trigger] t[i]) by {
        assert(t[i] == name[i]);
    }
    assert forall|i: int| open < i < close implies #[trigger] t[i] != ')' by {
        assert(t[i] == args[i - open - 1]);
    }
    assert(is_first_call(t, 0, open, close));
    assert(is_ascii_before_call(t)) by {
        assert forall|i: int| 0 <= i < t.take(open).len() implies (#[trigger] t.take(open)[i] as int)
            < 128 by {
            assert(is_ascii_word(t[i]));
        }
    }
    let g = groups->Some_0;
    let (s1, o1, c1) = choose|s1: int, o1: int, c1: int|
        {
            &&& #[trigger] is_first_call(t, s1, o1, c1)
            &&& g == seq![
                Some(t.subrange(s1, c1 + 1)),
                Some(t.subrange(s1, o1)),
                Some(t.subrange(o1 + 1, c1)),
            ]
        };
    lemma_first_call_unique(t, 0, open, close, s1, o1, c1);
    assert(t.subrange(0, open) =~= name);
    assert(t.subrange(open + 1, close) =~= args);
}

proof fn lemma_first_call_unique(
    t: Seq<char>,
    s: int,
    open: int,
    close: int,
    s1: int,
    open1: int,
    close1: int,
)
    requires
        is_first_call(t, s, open, close),
        is_first_call(t, s1, open1, close1),
    ensures
        s == s1,
        open == open1,
        close == close1,
{
    assert(is_ascii_word(t[open - 1]));
    assert(is_ascii_word(t[open1 - 1]));
    assert(open == open1);
    assert(close == close1);
    if s < s1 {
        assert(is_ascii_word(t[s1 - 1]));
    }
    if s1 < s {
        assert(is_ascii_word(t[s - 1]));
    }
}

/// A character that counts as white space in Unicode.
pub open spec fn is_white(c: char) -> bool {
    let n = c as int;
    9 <= n <= 13 || n == 32 || n == 0x85 || n == 0xa0 || n == 0x1680 || 0x2000 <= n <= 0x200a || n
        == 0x2028 || n == 0x2029 || n == 0x202f || n == 0x205f || n == 0x3000
}

fn is_white_space(c: char) -> (r: bool)
    ensures
        r == is_white(c),
{
    let n: u32 = c as u32;
    9 <= n && n <= 13 || n == 32 || n == 0x85 || n == 0xa0 || n == 0x1680 || 0x2000 <= n && n
        <= 0x200a || n == 0x2028 || n == 0x2029 || n == 0x202f || n == 0x205f || n == 0x3000
}

/// The text without the white space at its start.
pub open spec fn trimmed_start(t: Seq<char>) -> Seq<char>
    decreases t.len(),
{
    if t.len() > 0 && is_white(t[0]) {
        trimmed_start(t.drop_first())
    } else {
        t
    }
}

/// The text without the white space at its end.
pub open spec fn trimmed_end(t: Seq<char>) -> Seq<char>
    decreases t.len(),
{
    if t.len() > 0 && is_white(t.last()) {
        trimmed_end(t.drop_last())
    } else {
        t
    }
}

/// The text without the white space around it.
pub open spec fn trimmed(t: Seq<char>) -> Seq<char> {
    trimmed_end(trimmed_start(t))
}

/// The integer that a decimal text stands for, with or without a minus sign before it.
pub open spec fn integer_in(t: Seq<char>) -> Option<i64> {
    let b = encode_utf8(t);
    let negative = b.len() > 0 && b[0] == 45;
    match number::read_number(
        if negative {
            b.drop_first()
        } else {
            b
        },
        10,
    ) {
        Some(n) => number::signed_value(negative, n),
        None => None,
    }
}

/// The value of one argument: an integer, or a text in quotes.
pub open spec fn argument_in(t: Seq<char>) -> Option<Value> {
    if t.len() == 0 {
        None
    } else if t[0] == '-' || '0' <= t[0] <= '9' {
        match integer_in(t) {
            Some(i) => Some(Value::Int(i)),
            None => None,
        }
    } else if t[0] == '"' && t.len() >= 2 && t.last() == '"' {
        Some(Value::Bytes(encode_utf8(t.subrange(1, t.len() - 1))))
    } else {
        None
    }
}

/// The place of the first comma.
pub open spec fn first_comma(t: Seq<char>) -> Option<int>
    decreases t.len(),
{
    if t.len() == 0 {
        None
    } else if t[0] == ',' {
        Some(0)
    } else {
        match first_comma(t.drop_first()) {
            Some(i) => Some(i + 1),
            None => None,
        }
    }
}

/// The values of arguments with commas between them.
pub open spec fn listed_arguments(t: Seq<char>) -> Option<Seq<Value>>
    decreases t.len(),
{
    match first_comma(t) {
        None => match argument_in(trimmed(t)) {
            Some(v) => Some(seq![v]),
            None => None,
        },
        Some(i) => if 0 <= i < t.len() {
            match (argument_in(trimmed(t.take(i))), listed_arguments(t.skip(i + 1))) {
                (Some(v), Some(rest)) => Some(seq![v] + rest),
                _ => None,
            }
        } else {
            None
        },
    }
}

/// The values of the arguments of a call; blank text stands for no arguments.
pub open spec fn arguments_in(t: Seq<char>) -> Option<Seq<Value>> {
    if trimmed(t).len() == 0 {
        Some(Seq::empty())
    } else {
        listed_arguments(t)
    }
}

/// The characters of a text.
fn characters(s: &str) -> (r: Vec<char>)
    ensures
        r@ == s@,
{
    let mut r: Vec<char> = Vec::new();
    for c in it: s.chars()
        invariant
            it.seq() == s@,
            r@ == s@.take(it.index() as int),
    {
        r.push(c);
        assert(r@ =~= s@.take(it.index() + 1));
    }
    assert(s@.take(s@.len() as int) =~= s@);
    r
}

proof fn lemma_trim_start(t: Seq<char>, i: int)
    requires
        0 <= i <= t.len(),
        forall|j: int| 0 <= j < i ==> is_white(#[trigger] t[j]),
        i == t.len() || !is_white(t[i]),
    ensures
        trimmed_start(t) == t.skip(i),
    decreases i,
{
    if i > 0 {
        assert(is_white(t[0]));
        let u = t.drop_first();
        assert forall|j: int| 0 <= j < i - 1 implies is_white(#[trigger] u[j]) by {
            assert(u[j] == t[j + 1]);
        }
        assert(i < t.len() ==> u[i - 1] == t[i]);
        lemma_trim_start(u, i - 1);
        assert(u.skip(i - 1) =~= t.skip(i));
    } else {
        assert(t.skip(0) =~= t);
    }
}

proof fn lemma_trim_end(t: Seq<char>, i: int)
    requires
        0 <= i <= t.len(),
        forall|j: int| i <= j < t.len() ==> is_white(#[trigger] t[j]),
        i == 0 || !is_white(t[i - 1]),
    ensures
        trimmed_end(t) == t.take(i),
    decreases t.len() - i,
{
    if i < t.len() {
        assert(is_white(t[t.len() - 1]));
        let u = t.drop_last();
        assert forall|j: int| i <= j < u.len() implies is_white(#[trigger] u[j]) by {
            assert(u[j] == t[j]);
        }
        assert(i > 0 ==> u[i - 1] == t[i - 1]);
        lemma_trim_end(u, i);
        assert(u.take(i) =~= t.take(i));
    } else {
        assert(t.take(i) =~= t);
    }
}

/// The range of the characters from `from` to `to` without the white space around them.
fn trim_range(chars: &Vec<char>, from: usize, to: usize) -> (r: (usize, usize))
    requires
        from <= to <= chars@.len(),
    ensures
        from <= r.0 <= r.1 <= to,
        chars@.subrange(r.0 as int, r.1 as int) == trimmed(
            chars@.subrange(from as int, to as int),
        ),
{
    let ghost t = chars@.subrange(from as int, to as int);
    let mut a: usize = from;
    while a < to && is_white_space(chars[a])
        invariant
            from <= a <= to <= chars@.len(),
            forall|j: int| from <= j < a ==> is_white(#[trigger] chars@[j]),
        decreases to - a,
    {
        a = a + 1;
    }
    let mut b: usize = to;
    while a < b && is_white_space(chars[b - 1])
        invariant
            a <= b <= to <= chars@.len(),
            forall|j: int| b <= j < to ==> is_white(#[trigger] chars@[j]),
        decreases b - a,
    {
        b = b - 1;
    }
    proof {
        let i = a - from;
        assert forall|j: int| 0 <= j < i implies is_white(#[trigger] t[j]) by {
            assert(t[j] == chars@[from + j]);
        }
        assert(i < t.len() ==> t[i] == chars@[a as int]);
        lemma_trim_start(t, i);
        let u = t.skip(i);
        let k = b - a;
        assert forall|j: int| k <= j < u.len() implies is_white(#[trigger] u[j]) by {
            assert(u[j] == chars@[a + j]);
        }
        assert(k > 0 ==> u[k - 1] == chars@[b - 1]);
        lemma_trim_end(u, k);
        assert(u.take(k) =~= chars@.subrange(a as int, b as int));
    }
    (a, b)
}

/// Reads an integer.
fn read_integer(t: &str) -> (r: Option<i64>)
    ensures
        r == integer_in(t@),
{
    let b: &[u8] = t.as_bytes();
    let total: usize = b.len();
    let negative: bool = total > 0 && b[0] == 45;
    let digits: &[u8] = if negative {
        vstd::slice::slice_subrange(b, 1, total)
    } else {
        b
    };
    assert(negative ==> digits@ =~= b@.drop_first());
    match number::read_digits(digits) {
        Some(n) => number::signed(negative, n),
        None => None,
    }
}

/// Reads one argument.
fn read_argument(t: &str) -> (r: Option<Object>)
    ensures
        match argument_in(t@) {
            Some(v) => r is Some && r->Some_0@ == v,
            None => r is None,
        },
{
    let n: usize = t.unicode_len();
    if n == 0 {
        return None;
    }
    let first: char = t.get_char(0);
    if first == '-' || '0' <= first && first <= '9' {
        match read_integer(t) {
            Some(i) => Some(Object::Int(i)),
            None => None,
        }
    } else if first == '"' && n >= 2 && t.get_char(n - 1) == '"' {
        Some(Object::text(t.substring_char(1, n - 1)))
    } else {
        None
    }
}

proof fn lemma_first_comma(t: Seq<char>, i: int)
    requires
        0 <= i <= t.len(),
        forall|j: int| 0 <= j < i ==> #[trigger] t[j] != ',',
        i == t.len() || t[i] == ',',
    ensures
        first_comma(t) == (if i < t.len() {
            Some(i)
        } else {
            None
        }),
    decreases i,
{
    if i > 0 {
        assert(t[0] != ',');
        let u = t.drop_first();
        assert forall|j: int| 0 <= j < i - 1 implies #[trigger] u[j] != ',' by {
            assert(u[j] == t[j + 1]);
        }
        assert(i < t.len() ==> u[i - 1] == t[i]);
        lemma_first_comma(u, i - 1);
    }
}

/// Reads the arguments of a call.
pub fn parse_remote_fn_args(s: &str) -> (r: Result<Vec<Object>, ()>)
    ensures
        match arguments_in(s@) {
            Some(values) => r is Ok && object::view_items(r->Ok_0@) == values,
            None => r is Err,
        },
{
    let chars: Vec<char> = characters(s);
    let total: usize = chars.len();
    let (a, b) = trim_range(&chars, 0, total);
    let mut fn_args: Vec<Object> = Vec::new();
    proof {
        assert(s@.subrange(0, total as int) =~= s@);
        assert(object::view_items(fn_args@) =~= Seq::<Value>::empty());
        assert(s@.skip(0) =~= s@);
    }
    if a == b {
        return Ok(fn_args);
    }
    let mut start: usize = 0;
    loop
        invariant
            chars@ == s@,
            total == chars@.len(),
            start <= total,
            arguments_in(s@) == (match listed_arguments(s@.skip(start as int)) {
                Some(rest) => Some(object::view_items(fn_args@) + rest),
                None => None::<Seq<Value>>,
            }),
        decreases total - start,
    {
        let mut end: usize = start;
        while end < total && chars[end] != ','
            invariant
                start <= end <= total == chars@.len(),
                forall|j: int| start <= j < end ==> #[trigger] chars@[j] != ',',
            decreases total - end,
        {
            end = end + 1;
        }
        let ghost tail = s@.skip(start as int);
        proof {
            let i = end - start;
            assert forall|j: int| 0 <= j < i implies #[trigger] tail[j] != ',' by {
                assert(tail[j] == chars@[start + j]);
            }
            assert(i < tail.len() ==> tail[i] == chars@[end as int]);
            lemma_first_comma(tail, i);
            assert(tail.take(i) =~= s@.subrange(start as int, end as int));
            if end == total {
                assert(tail.take(i) =~= tail);
            } else {
                assert(tail.skip(i + 1) =~= s@.skip(end + 1));
            }
        }
        let (from, to) = trim_range(&chars, start, end);
        let ghost before = fn_args@;
        match read_argument(s.substring_char(from, to)) {
            Some(arg) => {
                fn_args.push(arg);
                assert(object::view_items(fn_args@) =~= object::view_items(before).push(arg@));
            },
            None => {
                return Err(());
            },
        }
        if end == total {
            assert(object::view_items(before) + seq![fn_args@.last()@] =~= object::view_items(
                fn_args@,
            ));
            return Ok(fn_args);
        }
        proof {
            match listed_arguments(s@.skip(end + 1)) {
                Some(rest) => {
                    assert(object::view_items(before) + (seq![fn_args@.last()@] + rest)
                        =~= object::view_items(fn_args@) + rest);
                },
                None => {},
            }
        }
        start = end + 1;
    }
}

/// The arguments of a function by their names: the values are taken in the order of the
/// arguments, and what has no counterpart is left out.
pub open spec fn named_arguments(args: Seq<func_list::ArgModel>, values: Seq<Value>) -> Map<
    Seq<u8>,
    Value,
>
    decreases args.len(),
{
    if args.len() == 0 {
        Map::empty()
    } else if args.len() > values.len() {
        named_arguments(args.drop_last(), values)
    } else {
        named_arguments(args.drop_last(), values).insert(
            object::key(args.last().name),
            values[args.len() - 1],
        )
    }
}

proof fn lemma_surplus_is_left_out(args: Seq<func_list::ArgModel>, values: Seq<Value>, k: int)
    requires
        0 <= k <= args.len(),
        k == args.len() || k == values.len(),
    ensures
        named_arguments(args, values) == named_arguments(args.take(k), values),
    decreases args.len(),
{
    if k == args.len() {
        assert(args.take(k) =~= args);
    } else {
        assert(args.drop_last().take(k) =~= args.take(k));
        lemma_surplus_is_left_out(args.drop_last(), values, k);
    }
}

/// Gives the values of a call the names of the arguments of a function. Types and required
/// arguments are for the remote side to check.
pub fn make_args(func: &Func, arg_values: Vec<Object>) -> (r: Dict)
    ensures
        r@ == named_arguments(func.args@, object::view_items(arg_values@)),
{
    let ghost all = object::view_items(arg_values@);
    let ghost models = func.args@;
    let mut values: Vec<Object> = arg_values;
    let mut args: Dict = Dict::new();
    let mut k: usize = 0;
    proof {
        assert(models.take(0) =~= Seq::<func_list::ArgModel>::empty());
        assert(all.skip(0) =~= all);
    }
    while k < func.args.len() && values.len() > 0
        invariant
            k <= models.len(),
            models == func.args@,
            k + values@.len() == all.len(),
            object::view_items(values@) == all.skip(k as int),
            args@ == named_arguments(models.take(k as int), all),
        decreases values@.len(),
    {
        let ghost before = values@;
        let value: Object = values.remove(0);
        proof {
            assert(models.take(k + 1).drop_last() =~= models.take(k as int));
            assert(models.take(k + 1).last() == models[k as int]);
            assert(object::view_items(before)[0] == value@);
            assert(object::view_items(values@) =~= object::view_items(before).skip(1));
            assert(all.skip(k as int).skip(1) =~= all.skip(k + 1));
        }
        args.insert(func.args.at(k).name.as_str(), value);
        k = k + 1;
    }
    proof {
        lemma_surplus_is_left_out(models, all, k as int);
    }
    args
}

/// The function with the given name, the first where several have it.
pub open spec fn function_named(funcs: Seq<func_list::FuncModel>, name: Seq<char>) -> Option<
    func_list::FuncModel,
> {
    if exists|i: int| func_list::is_first_named(funcs, name, i) {
        Some(funcs[choose|i: int| func_list::is_first_named(funcs, name, i)])
    } else {
        None
    }
}

/// The remote call that a name and arguments stand for, or what is wrong with them.
pub open spec fn remote_call(
    funcs: Seq<func_list::FuncModel>,
    split: Option<(Seq<char>, Seq<char>)>,
) -> Result<(Seq<char>, Map<Seq<u8>, Value>), Seq<char>> {
    match split {
        None => Err("bad function invocation expression"@),
        Some((name, args)) => match arguments_in(args) {
            None => Err("bad function arguments"@),
            Some(values) => match function_named(funcs, name) {
                None => Err("unknown function name"@),
                Some(f) => Ok((name, named_arguments(f.args, values))),
            },
        },
    }
}

/// What the parts of a call say, if it could be split.
pub open spec fn view_split(split: Result<(String, String), ()>) -> Option<(Seq<char>, Seq<char>)> {
    match split {
        Ok((name, args)) => Some((name@, args@)),
        Err(_) => None,
    }
}

/// The prepared call is the one that is meant.
pub open spec fn is_prepared(
    r: Result<(String, Dict), &'static str>,
    meant: Result<(Seq<char>, Map<Seq<u8>, Value>), Seq<char>>,
) -> bool {
    match meant {
        Ok((name, args)) => r is Ok && r->Ok_0.0@ == name && r->Ok_0.1@ == args,
        Err(t) => r is Err && r->Err_0@ == t,
    }
}

/// Prepares a remote call whose name and arguments are told apart already.
pub fn prepare_split(functions: &Funcs, split: Result<(String, String), ()>) -> (r: Result<
    (String, Dict),
    &'static str,
>)
    ensures
        is_prepared(r, remote_call(functions@, view_split(split))),
{
    let (name, args): (String, String) = match split {
        Ok(parts) => parts,
        Err(_) => {
            return Err("bad function invocation expression");
        },
    };
    let values: Vec<Object> = match parse_remote_fn_args(args.as_str()) {
        Ok(values) => values,
        Err(_) => {
            return Err("bad function arguments");
        },
    };
    match functions.find(name.as_str()) {
        Some(func) => {
            proof {
                let i = choose|i: int| #[trigger]
                    func_list::is_first_named(functions@, name@, i) && functions.list()[i] == *func;
                let k = choose|k: int| func_list::is_first_named(functions@, name@, k);
                assert(func_list::is_first_named(functions@, name@, k));
                assert(i == k);
                assert(functions@[i] == func@);
            }
            let args: Dict = make_args(func, values);
            Ok((name, args))
        },
        None => {
            assert(function_named(functions@, name@) is None);
            Err("unknown function name")
        },
    }
}

/// Prepares the remote call that is written on the command line: gives the name of the
/// function and its arguments, or what is wrong.
pub fn prepare_call(functions: &Funcs, fn_call: &str) -> (r: Result<(String, Dict), &'static str>)
    ensures
        is_prepared(
            r,
            remote_call(functions@, split_groups(captured(FN_CALL_PATTERN@, fn_call@))),
        ),
        are_found_groups(fn_call@, captured(FN_CALL_PATTERN@, fn_call@)),
{
    let split: Result<(String, String), ()> = split_fn_invocation_str(fn_call);
    prepare_split(functions, split)
}

/// Every integer can be written as an argument, in decimal.
pub proof fn law_integer_argument_reads_back(i: i64)
    ensures
        argument_in(crate::text::as_chars(number::decimal_int(i as int))) == Some(Value::Int(i)),
{
    let magnitude = (if i < 0 {
        -(i as int)
    } else {
        i as int
    }) as nat;
    let digits = number::decimal(magnitude);
    let s = number::decimal_int(i as int);
    number::lemma_decimal_reads_back(magnitude);
    assert forall|j: int| 0 <= j < digits.len() implies 48 <= #[trigger] digits[j] <= 57 by {
        assert(number::digit_value(digits[j]) < 10);
    }
    if i < 0 {
        assert(s.drop_first() =~= digits);
        assert forall|j: int| 0 <= j < s.len() implies #[trigger] s[j] < 128 by {
            if j > 0 {
                assert(s[j] == digits[j - 1]);
            }
        }
    }
    crate::text::lemma_ascii_text(s);
    assert(crate::text::as_chars(s)[0] == s[0] as char);
}

/// Every text can be written as an argument, in quotes.
pub proof fn law_quoted_argument_reads_back(t: Seq<char>)
    ensures
        argument_in(seq!['"'] + t + seq!['"']) == Some(Value::Bytes(encode_utf8(t))),
{
    let q = seq!['"'] + t + seq!['"'];
    assert(q[0] == '"');
    assert(q.last() == '"');
    assert(q.subrange(1, q.len() - 1) =~= t);
}

/// An argument that can be written on the command line.
pub enum Argument {
    /// An integer.
    Int(i64),
    /// A text.
    Text(Seq<char>),
}

impl Argument {
    /// The argument as it is written.
    pub open spec fn written(self) -> Seq<char> {
        match self {
            Argument::Int(i) => crate::text::as_chars(number::decimal_int(i as int)),
            Argument::Text(t) => seq!['"'] + t + seq!['"'],
        }
    }

    /// What the argument stands for.
    pub open spec fn value(self) -> Value {
        match self {
            Argument::Int(i) => Value::Int(i),
            Argument::Text(t) => Value::Bytes(encode_utf8(t)),
        }
    }

    /// The character does not occur in the argument, if that is a text.
    pub open spec fn lacks(self, c: char) -> bool {
        self matches Argument::Text(t) ==> !t.contains(c)
    }
}

/// Arguments as they are written in a call, with commas between them.
pub open spec fn written_list(args: Seq<Argument>) -> Seq<char>
    decreases args.len(),
{
    if args.len() == 0 {
        Seq::empty()
    } else if args.len() == 1 {
        args[0].written()
    } else {
        args[0].written() + seq![',', ' '] + written_list(args.drop_first())
    }
}

/// The values of arguments.
pub open spec fn values_of(args: Seq<Argument>) -> Seq<Value> {
    args.map_values(|a: Argument| a.value())
}

proof fn lemma_written(a: Argument, c: char)
    requires
        a.lacks(c),
        c == ',' || c == ')',
    ensures
        a.written().len() > 0,
        !is_white(a.written()[0]),
        !is_white(a.written().last()),
        forall|i: int| 0 <= i < a.written().len() ==> #[trigger] a.written()[i] != c,
        argument_in(a.written()) == Some(a.value()),
{
    let w = a.written();
    match a {
        Argument::Int(i) => {
            law_integer_argument_reads_back(i);
            let magnitude = (if i < 0 {
                -(i as int)
            } else {
                i as int
            }) as nat;
            let digits = number::decimal(magnitude);
            let s = number::decimal_int(i as int);
            number::lemma_decimal_reads_back(magnitude);
            assert forall|j: int| 0 <= j < s.len() implies 48 <= #[trigger] s[j] <= 57 || s[j]
                == 45 by {
                let k = if i < 0 {
                    j - 1
                } else {
                    j
                };
                if 0 <= k {
                    assert(s[j] == digits[k]);
                    assert(number::digit_value(digits[k]) < 10);
                }
            }
            assert forall|j: int| 0 <= j < w.len() implies #[trigger] w[j] == s[j] as char by {}
        },
        Argument::Text(t) => {
            law_quoted_argument_reads_back(t);
            assert forall|j: int| 0 <= j < w.len() implies #[trigger] w[j] != c by {
                if 0 < j < w.len() - 1 {
                    assert(w[j] == t[j - 1]);
                }
            }
        },
    }
}

proof fn lemma_trimmed_end_keeps_start(t: Seq<char>)
    requires
        t.len() > 0,
        !is_white(t[0]),
    ensures
        trimmed_end(t).len() > 0,
    decreases t.len(),
{
    if is_white(t.last()) {
        assert(t.len() > 1);
        assert(t.drop_last()[0] == t[0]);
        lemma_trimmed_end_keeps_start(t.drop_last());
    }
}

proof fn lemma_written_list(args: Seq<Argument>, pad: Seq<char>)
    requires
        args.len() > 0,
        forall|i: int| 0 <= i < args.len() ==> (#[trigger] args[i]).lacks(','),
        pad.len() == 0 || pad == seq![' '],
    ensures
        listed_arguments(pad + written_list(args)) == Some(values_of(args)),
        written_list(args).len() > 0,
        !is_white(written_list(args)[0]),
    decreases args.len(),
{
    let w = args[0].written();
    let rest = args.drop_first();
    let t = pad + written_list(args);
    lemma_written(args[0], ',');
    let head = pad + w;
    assert(trimmed(head) == w) by {
        assert forall|j: int| 0 <= j < pad.len() implies is_white(#[trigger] head[j]) by {
            assert(head[j] == ' ');
        }
        assert(head[pad.len() as int] == w[0]);
        lemma_trim_start(head, pad.len() as int);
        assert(head.skip(pad.len() as int) =~= w);
        lemma_trim_end(w, w.len() as int);
        assert(w.take(w.len() as int) =~= w);
    }
    let i = head.len() as int;
    assert forall|j: int| 0 <= j < i implies #[trigger] head[j] != ',' by {
        if j < pad.len() {
            assert(head[j] == ' ');
        } else {
            assert(head[j] == w[j - pad.len()]);
        }
    }
    assert(written_list(args)[0] == w[0]);
    if args.len() == 1 {
        assert(t =~= head);
        lemma_first_comma(t, i);
        assert(values_of(args) =~= seq![args[0].value()]);
    } else {
        assert forall|j: int| 0 <= j < rest.len() implies (#[trigger] rest[j]).lacks(',') by {
            assert(rest[j] == args[j + 1]);
        }
        lemma_written_list(rest, seq![' ']);
        assert(t =~= head + seq![',', ' '] + written_list(rest));
        assert forall|j: int| 0 <= j < i implies #[trigger] t[j] != ',' by {
            assert(t[j] == head[j]);
        }
        assert(t[i] == ',');
        lemma_first_comma(t, i);
        assert(t.take(i) =~= head);
        assert(t.skip(i + 1) =~= seq![' '] + written_list(rest));
        assert(seq![args[0].value()] + values_of(rest) =~= values_of(args));
    }
}

/// Arguments that are written with commas between them are read as they were meant, unless
/// a comma stands inside a text.
pub proof fn law_written_arguments_read_back(args: Seq<Argument>)
    requires
        forall|i: int| 0 <= i < args.len() ==> (#[trigger] args[i]).lacks(','),
    ensures
        arguments_in(written_list(args)) == Some(values_of(args)),
{
    let t = written_list(args);
    if args.len() == 0 {
        assert(values_of(args) =~= Seq::<Value>::empty());
    } else {
        lemma_written_list(args, Seq::empty());
        assert(Seq::<char>::empty() + t =~= t);
        lemma_trim_start(t, 0);
        assert(t.skip(0) =~= t);
        lemma_trimmed_end_keeps_start(t);
    }
}

proof fn lemma_written_list_lacks(args: Seq<Argument>)
    requires
        forall|i: int| 0 <= i < args.len() ==> (#[trigger] args[i]).lacks(')'),
    ensures
        forall|i: int|
            0 <= i < written_list(args).len() ==> #[trigger] written_list(args)[i] != ')',
    decreases args.len(),
{
    if args.len() > 0 {
        let w = args[0].written();
        lemma_written(args[0], ')');
        if args.len() > 1 {
            let rest = args.drop_first();
            assert forall|j: int| 0 <= j < rest.len() implies (#[trigger] rest[j]).lacks(')') by {
                assert(rest[j] == args[j + 1]);
            }
            lemma_written_list_lacks(rest);
            let t = written_list(args);
            let tail = written_list(rest);
            assert forall|i: int| 0 <= i < t.len() implies #[trigger] t[i] != ')' by {
                if i < w.len() {
                    assert(t[i] == w[i]);
                } else if i >= w.len() + 2 {
                    assert(t[i] == tail[i - w.len() - 2]);
                }
            }
        }
    }
}

/// A call that is written with its arguments is prepared as it was meant, unless a comma or
/// a closing bracket stands inside a text: the function gets the values under the names of
/// its arguments, if it is known.
pub proof fn law_written_call_is_prepared(
    funcs: Seq<func_list::FuncModel>,
    name: Seq<char>,
    args: Seq<Argument>,
    groups: Option<Seq<Option<Seq<char>>>>,
)
    requires
        name.len() > 0,
        forall|i: int| 0 <= i < name.len() ==> is_ascii_word(#[trigger] name[i]),
        forall|i: int|
            0 <= i < args.len() ==> (#[trigger] args[i]).lacks(',') && args[i].lacks(')'),
        are_found_groups(name + seq!['('] + written_list(args) + seq![')'], groups),
    ensures
        remote_call(funcs, split_groups(groups)) == (match function_named(funcs, name) {
            Some(f) => Ok::<(Seq<char>, Map<Seq<u8>, Value>), Seq<char>>(
                (name, named_arguments(f.args, values_of(args))),
            ),
            None => Err("unknown function name"@),
        }),
{
    lemma_written_list_lacks(args);
    law_written_call_is_split(name, written_list(args), groups);
    law_written_arguments_read_back(args);
}

/// An argument that has a value is there under its name, with the value of its own place,
/// whatever that value is, unless a later argument takes the name over.
pub proof fn law_values_go_by_place(
    args: Seq<func_list::ArgModel>,
    values: Seq<Value>,
    i: int,
)
    requires
        0 <= i < args.len(),
        i < values.len(),
        forall|j: int| i < j < args.len() && j < values.len() ==> (#[trigger] args[j]).name
            != args[i].name,
    ensures
        named_arguments(args, values).contains_key(encode_utf8(args[i].name)),
        named_arguments(args, values)[encode_utf8(args[i].name)] == values[i],
    decreases args.len(),
{
    let front = args.drop_last();
    let last = args.len() - 1;
    if i < last {
        assert(front[i] == args[i]);
        assert forall|j: int| i < j < front.len() && j < values.len() implies (
        #[trigger] front[j]).name != front[i].name by {
            assert(front[j] == args[j]);
        }
        law_values_go_by_place(front, values, i);
        if last < values.len() {
            object::law_names_are_distinct_keys(args[last].name, args[i].name);
        }
    }
}

/// No entry is there but under the name of an argument that has a value.
pub proof fn law_only_arguments_with_values_are_there(
    args: Seq<func_list::ArgModel>,
    values: Seq<Value>,
    k: Seq<u8>,
)
    requires
        named_arguments(args, values).contains_key(k),
    ensures
        exists|i: int|
            0 <= i < args.len() && i < values.len() && encode_utf8((#[trigger] args[i]).name) == k,
    decreases args.len(),
{
    let front = args.drop_last();
    let last = args.len() - 1;
    if named_arguments(front, values).contains_key(k) {
        law_only_arguments_with_values_are_there(front, values, k);
        let i = choose|i: int|
            0 <= i < front.len() && i < values.len() && encode_utf8((#[trigger] front[i]).name)
                == k;
        assert(front[i] == args[i]);
    } else {
        assert(encode_utf8(args[last].name) == k);
    }
}

/// Where no two arguments have the same name, each argument that has a value gets the value of
/// its place, whatever that value is, and there is no other entry.
pub proof fn law_each_argument_gets_its_value(
    args: Seq<func_list::ArgModel>,
    values: Seq<Value>,
)
    requires
        forall|a: int, b: int|
            #![trigger args[a], args[b]]
            0 <= a < b < args.len() ==> args[a].name != args[b].name,
    ensures
        forall|i: int|
            #![trigger args[i]]
            0 <= i < args.len() && i < values.len() ==> named_arguments(args, values).contains_key(
                encode_utf8(args[i].name),
            ) && named_arguments(args, values)[encode_utf8(args[i].name)] == values[i],
        forall|i: int|
            #![trigger args[i]]
            values.len() <= i < args.len() ==> !named_arguments(args, values).contains_key(
                encode_utf8(args[i].name),
            ),
        forall|k: Seq<u8>| #[trigger]
            named_arguments(args, values).contains_key(k) ==> exists|i: int|
                0 <= i < args.len() && i < values.len() && encode_utf8((#[trigger] args[i]).name)
                    == k,
{
    let m = named_arguments(args, values);
    assert forall|i: int| #![trigger args[i]] 0 <= i < args.len() && i < values.len() implies
        m.contains_key(encode_utf8(args[i].name)) && m[encode_utf8(args[i].name)] == values[i] by {
        law_values_go_by_place(args, values, i);
    }
    assert forall|i: int| #![trigger args[i]] values.len() <= i < args.len() implies
        !m.contains_key(encode_utf8(args[i].name)) by {
        let k = encode_utf8(args[i].name);
        if m.contains_key(k) {
            law_only_arguments_with_values_are_there(args, values, k);
            let j = choose|j: int|
                0 <= j < args.len() && j < values.len() && encode_utf8((#[trigger] args[j]).name)
                    == k;
            object::law_names_are_distinct_keys(args[j].name, args[i].name);
        }
    }
    assert forall|k: Seq<u8>| #[trigger] m.contains_key(k) implies exists|i: int|
        0 <= i < args.len() && i < values.len() && encode_utf8((#[trigger] args[i]).name) == k by {
        law_only_arguments_with_values_are_there(args, values, k);
    }
}

/// The function of a name has that name, and no function before it has; there is none exactly
/// where no function has the name.
pub proof fn law_function_of_a_name(funcs: Seq<func_list::FuncModel>, name: Seq<char>)
    ensures
        match function_named(funcs, name) {
            Some(f) => exists|i: int|
                0 <= i < funcs.len() && #[trigger] funcs[i] == f && f.name == name && forall|j: int|
                    0 <= j < i ==> (#[trigger] funcs[j]).name != name,
            None => forall|i: int| 0 <= i < funcs.len() ==> (#[trigger] funcs[i]).name != name,
        },
{
    match function_named(funcs, name) {
        Some(f) => {
            let i = choose|i: int| func_list::is_first_named(funcs, name, i);
            func_list::law_first_of_a_name(funcs, name, i);
            assert(funcs[i] == f);
        },
        None => {
            assert forall|i: int| 0 <= i < funcs.len() implies (#[trigger] funcs[i]).name
                != name by {
                func_list::law_first_of_a_name(funcs, name, i);
            }
        },
    }
}

/// A call is prepared exactly where it can be split, its arguments can be read and its function
/// is known; the first of these that fails is what is told.
pub proof fn law_call_is_understood(
    funcs: Seq<func_list::FuncModel>,
    name: Seq<char>,
    args: Seq<char>,
    i: int,
)
    requires
        0 <= i < funcs.len() ==> funcs[i].name == name && forall|j: int|
            0 <= j < i ==> (#[trigger] funcs[j]).name != name,
        !(0 <= i < funcs.len()) ==> forall|j: int|
            0 <= j < funcs.len() ==> (#[trigger] funcs[j]).name != name,
    ensures
        remote_call(funcs, None) == Err::<(Seq<char>, Map<Seq<u8>, Value>), Seq<char>>(
            "bad function invocation expression"@,
        ),
        arguments_in(args) is None ==> remote_call(funcs, Some((name, args))) == Err::<
            (Seq<char>, Map<Seq<u8>, Value>),
            Seq<char>,
        >("bad function arguments"@),
        arguments_in(args) is Some && !(0 <= i < funcs.len()) ==> remote_call(
            funcs,
            Some((name, args)),
        ) == Err::<(Seq<char>, Map<Seq<u8>, Value>), Seq<char>>("unknown function name"@),
        arguments_in(args) is Some && 0 <= i < funcs.len() ==> remote_call(
            funcs,
            Some((name, args)),
        ) == Ok::<(Seq<char>, Map<Seq<u8>, Value>), Seq<char>>(
            (name, named_arguments(funcs[i].args, arguments_in(args)->Some_0)),
        ),
{
    law_function_of_a_name(funcs, name);
    match function_named(funcs, name) {
        Some(f) => {
            let k = choose|k: int|
                0 <= k < funcs.len() && #[trigger] funcs[k] == f && f.name == name && forall|j: int|
                    0 <= j < k ==> (#[trigger] funcs[j]).name != name;
            assert(0 <= i < funcs.len()) by {
                if !(0 <= i < funcs.len()) {
                    assert(funcs[k].name != name);
                }
            }
            assert(k == i) by {
                if i < k {
                    assert(funcs[i].name != name);
                }
                if k < i {
                    assert(funcs[k].name != name);
                }
            }
        },
        None => {
            if 0 <= i < funcs.len() {
                assert(funcs[i].name != name);
            }
        },
    }
}

/// A written call of a known function reaches that function, and each argument gets the value
/// that is written in its place.
pub proof fn law_written_values_reach_their_arguments(
    funcs: Seq<func_list::FuncModel>,
    f: int,
    args: Seq<Argument>,
    groups: Option<Seq<Option<Seq<char>>>>,
    i: int,
)
    requires
        0 <= f < funcs.len(),
        funcs[f].name.len() > 0,
        forall|j: int| 0 <= j < f ==> (#[trigger] funcs[j]).name != funcs[f].name,
        forall|j: int| 0 <= j < funcs[f].name.len() ==> is_ascii_word(#[trigger] funcs[f].name[j]),
        forall|j: int|
            0 <= j < args.len() ==> (#[trigger] args[j]).lacks(',') && args[j].lacks(')'),
        are_found_groups(funcs[f].name + seq!['('] + written_list(args) + seq![')'], groups),
        forall|a: int, b: int|
            #![trigger funcs[f].args[a], funcs[f].args[b]]
            0 <= a < b < funcs[f].args.len() ==> funcs[f].args[a].name != funcs[f].args[b].name,
        0 <= i < args.len(),
        i < funcs[f].args.len(),
    ensures
        ({
            let call = remote_call(funcs, split_groups(groups));
            let k = encode_utf8(funcs[f].args[i].name);
            &&& call is Ok
            &&& call->Ok_0.0 == funcs[f].name
            &&& call->Ok_0.1.contains_key(k)
            &&& call->Ok_0.1[k] == (match args[i] {
                Argument::Int(n) => Value::Int(n),
                Argument::Text(t) => Value::Bytes(encode_utf8(t)),
            })
        }),
{
    let name = funcs[f].name;
    lemma_written_list_lacks(args);
    law_written_call_is_split(name, written_list(args), groups);
    law_written_arguments_read_back(args);
    law_call_is_understood(funcs, name, written_list(args), f);
    law_each_argument_gets_its_value(funcs[f].args, values_of(args));
}

/// A call is split into what its second and third groups hold, and only where both took part
/// in the match.
pub proof fn law_groups_are_split(g: Seq<Option<Seq<char>>>)
    ensures
        split_groups(None) is None,
        split_groups(Some(g)) is Some <==> g.len() >= 3 && g[1] is Some && g[2] is Some,
        split_groups(Some(g)) matches Some(parts) ==> g[1] == Some(parts.0) && g[2] == Some(parts.1),
{
}

/// Groups stand for the texts that they hold, one for one.
pub proof fn law_groups_stand_for_their_texts(groups: Vec<Option<String>>, i: int)
    requires
        0 <= i < groups@.len(),
    ensures
        view_groups(None) is None,
        view_groups(Some(groups)) is Some,
        view_groups(Some(groups))->Some_0.len() == groups@.len(),
        view_groups(Some(groups))->Some_0[i] is Some <==> groups@[i] is Some,
        groups@[i] is Some ==> view_groups(Some(groups))->Some_0[i]->Some_0 == groups@[i]->Some_0@,
{
}

/// A split call stands for its two texts, and a prepared call is the one that is meant exactly
/// where both are refused with one text, or neither is and they agree in name and arguments.
pub proof fn law_prepared_call_is_the_meant_one(
    split: Result<(String, String), ()>,
    r: Result<(String, Dict), &'static str>,
    meant: Result<(Seq<char>, Map<Seq<u8>, Value>), Seq<char>>,
)
    ensures
        split is Err ==> view_split(split) is None,
        split is Ok ==> view_split(split) == Some((split->Ok_0.0@, split->Ok_0.1@)),
        is_prepared(r, meant) && r is Ok ==> meant == Ok::<
            (Seq<char>, Map<Seq<u8>, Value>),
            Seq<char>,
        >((r->Ok_0.0@, r->Ok_0.1@)),
        is_prepared(r, meant) && r is Err ==> meant == Err::<
            (Seq<char>, Map<Seq<u8>, Value>),
            Seq<char>,
        >(r->Err_0@),
{
}

/// What was found as a call stands in the text as a name, an opening bracket, the arguments and
/// a closing bracket.
pub proof fn law_found_call_stands_in_the_text(
    t: Seq<char>,
    groups: Option<Seq<Option<Seq<char>>>>,
    name: Seq<char>,
    args: Seq<char>,
)
    requires
        is_ascii_before_call(t),
        are_found_groups(t, groups),
        split_groups(groups) == Some((name, args)),
    ensures
        exists|s: int|
            0 <= s && s + name.len() + args.len() + 2 <= t.len() && #[trigger] t.subrange(
                s,
                s + name.len() + args.len() + 2,
            ) == name + seq!['('] + args + seq![')'],
        name.len() > 0,
        forall|i: int| 0 <= i < name.len() ==> is_ascii_word(#[trigger] name[i]),
        !args.contains(')'),
{
    let g = groups->Some_0;
    let (s, open, close) = choose|s: int, open: int, close: int|
        {
            &&& #[trigger] is_first_call(t, s, open, close)
            &&& g == seq![
                Some(t.subrange(s, close + 1)),
                Some(t.subrange(s, open)),
                Some(t.subrange(open + 1, close)),
            ]
        };
    assert(name == t.subrange(s, open));
    assert(args == t.subrange(open + 1, close));
    assert(t.subrange(s, s + name.len() + args.len() + 2) =~= name + seq!['('] + args + seq![')']);
    assert forall|i: int| 0 <= i < name.len() implies is_ascii_word(#[trigger] name[i]) by {
        assert(name[i] == t[s + i]);
    }
    assert forall|i: int| 0 <= i < args.len() implies #[trigger] args[i] != ')' by {
        assert(args[i] == t[open + 1 + i]);
    }
}

/// The characters of a name are the ASCII letters and digits and the underscore.
pub proof fn law_characters_of_a_name(c: char)
    ensures
        is_ascii_word(c) <==> ({
            let n = c as int;
            48 <= n <= 57 || 65 <= n <= 90 || n == 95 || 97 <= n <= 122
        }),
{
}

/// White space is the tabulators, line ends and spaces of Unicode, and nothing else.
pub proof fn law_white_space(c: char)
    ensures
        is_white(c) <==> (c == '\t' || c == '\n' || c == '\u{b}' || c == '\u{c}' || c == '\r' || c
            == ' ' || c == '\u{85}' || c == '\u{a0}' || c == '\u{1680}' || '\u{2000}' <= c
            <= '\u{200a}' || c == '\u{2028}' || c == '\u{2029}' || c == '\u{202f}' || c
            == '\u{205f}' || c == '\u{3000}'),
{
}

proof fn lemma_trimmed_start_is_a_rest(t: Seq<char>)
    ensures
        exists|a: int|
            0 <= a <= t.len() && trimmed_start(t) == #[trigger] t.skip(a) && (forall|j: int|
                0 <= j < a ==> is_white(#[trigger] t[j])) && (a < t.len() ==> !is_white(t[a])),
    decreases t.len(),
{
    if t.len() > 0 && is_white(t[0]) {
        let u = t.drop_first();
        lemma_trimmed_start_is_a_rest(u);
        let a = choose|a: int|
            0 <= a <= u.len() && trimmed_start(u) == #[trigger] u.skip(a) && (forall|j: int|
                0 <= j < a ==> is_white(#[trigger] u[j])) && (a < u.len() ==> !is_white(u[a]));
        assert(u.skip(a) =~= t.skip(a + 1));
        assert forall|j: int| 0 <= j < a + 1 implies is_white(#[trigger] t[j]) by {
            if j > 0 {
                assert(u[j - 1] == t[j]);
            }
        }
    } else {
        assert(t.skip(0) =~= t);
    }
}

proof fn lemma_trimmed_end_is_a_start(t: Seq<char>)
    ensures
        exists|b: int|
            0 <= b <= t.len() && trimmed_end(t) == #[trigger] t.take(b) && (forall|j: int|
                b <= j < t.len() ==> is_white(#[trigger] t[j])) && (b > 0 ==> !is_white(t[b - 1])),
    decreases t.len(),
{
    if t.len() > 0 && is_white(t.last()) {
        let u = t.drop_last();
        lemma_trimmed_end_is_a_start(u);
        let b = choose|b: int|
            0 <= b <= u.len() && trimmed_end(u) == #[trigger] u.take(b) && (forall|j: int|
                b <= j < u.len() ==> is_white(#[trigger] u[j])) && (b > 0 ==> !is_white(u[b - 1]));
        assert(u.take(b) =~= t.take(b));
        assert forall|j: int| b <= j < t.len() implies is_white(#[trigger] t[j]) by {
            if j < u.len() {
                assert(u[j] == t[j]);
            }
        }
    } else {
        assert(t.take(t.len() as int) =~= t);
    }
}

/// A trimmed text is what is left between white space at the start and white space at the end,
/// and has none at its own ends.
pub proof fn law_only_white_space_is_trimmed(t: Seq<char>)
    ensures
        exists|a: int, b: int|
            {
                &&& 0 <= a <= b <= t.len()
                &&& trimmed(t) == #[trigger] t.subrange(a, b)
                &&& forall|j: int| 0 <= j < a || b <= j < t.len() ==> is_white(#[trigger] t[j])
            },
        trimmed(t).len() > 0 ==> !is_white(trimmed(t)[0]) && !is_white(trimmed(t).last()),
{
    lemma_trimmed_start_is_a_rest(t);
    let a = choose|a: int|
        0 <= a <= t.len() && trimmed_start(t) == #[trigger] t.skip(a) && (forall|j: int|
            0 <= j < a ==> is_white(#[trigger] t[j])) && (a < t.len() ==> !is_white(t[a]));
    let u = trimmed_start(t);
    lemma_trimmed_end_is_a_start(u);
    let b = choose|b: int|
        0 <= b <= u.len() && trimmed_end(u) == #[trigger] u.take(b) && (forall|j: int|
            b <= j < u.len() ==> is_white(#[trigger] u[j])) && (b > 0 ==> !is_white(u[b - 1]));
    assert(u.take(b) =~= t.subrange(a, a + b));
    assert forall|j: int| 0 <= j < a || a + b <= j < t.len() implies is_white(#[trigger] t[j]) by {
        if j >= a + b {
            assert(u[j - a] == t[j]);
        }
    }
    if b > 0 {
        assert(u[b - 1] == t[a + b - 1]);
        assert(u[0] == t[a]);
    }
}

/// An argument that is an integer is a run of decimal digits, a minus sign before it or not, and
/// stands for the number that the digits say, as far as 64 bits hold it.
pub proof fn law_integer_is_its_digits(t: Seq<char>, digits: Seq<u8>)
    requires
        digits.len() > 0 ==> digits[0] != 45,
    ensures
        encode_utf8(t) == digits ==> integer_in(t) == (match number::read_number(digits, 10) {
            Some(n) => if n <= i64::MAX {
                Some(n as i64)
            } else {
                None
            },
            None => None::<i64>,
        }),
        encode_utf8(t) == seq![45u8] + digits ==> integer_in(t) == (match number::read_number(
            digits,
            10,
        ) {
            Some(n) => if -(n as int) >= i64::MIN {
                Some((-(n as int)) as i64)
            } else {
                None
            },
            None => None::<i64>,
        }),
{
    assert((seq![45u8] + digits).drop_first() =~= digits);
}

/// No integer begins with two minus signs, nor has it a sign that is not a minus.
pub proof fn law_integer_has_at_most_one_sign(t: Seq<char>)
    requires
        integer_in(t) is Some,
    ensures
        ({
            let b = encode_utf8(t);
            let i = integer_in(t)->Some_0;
            &&& b.len() > 0
            &&& b[0] == 45 ==> b.len() > 1 && i <= 0
            &&& b[0] != 45 ==> i >= 0
            &&& forall|j: int|
                0 <= j < b.len() && (b[0] == 45 ==> j > 0) ==> 48 <= #[trigger] b[j] <= 57
        }),
{
    let b = encode_utf8(t);
    let digits = if b.len() > 0 && b[0] == 45 {
        b.drop_first()
    } else {
        b
    };
    assert(number::all_digits(digits, 10));
    assert forall|j: int| 0 <= j < b.len() && (b[0] == 45 ==> j > 0) implies 48 <= #[trigger] b[j]
        <= 57 by {
        let k = if b[0] == 45 {
            j - 1
        } else {
            j
        };
        assert(digits[k] == b[j]);
        assert(number::digit_value(digits[k]) < 10);
    }
}

/// An argument is an integer where it begins like one, and a text exactly where it stands in
/// quotes; it is nothing else.
pub proof fn law_argument_is_integer_or_text(t: Seq<char>)
    ensures
        t.len() > 0 && (t[0] == '-' || '0' <= t[0] <= '9') ==> argument_in(t) == (match integer_in(
            t,
        ) {
            Some(i) => Some(Value::Int(i)),
            None => None::<Value>,
        }),
        argument_in(t) matches Some(v) ==> v is Int || v is Bytes,
        argument_in(t) matches Some(Value::Int(i)) ==> integer_in(t) == Some(i),
        argument_in(t) matches Some(Value::Bytes(b)) ==> exists|x: Seq<char>|
            t == seq!['"'] + x + seq!['"'] && b == #[trigger] encode_utf8(x),
{
    if t.len() >= 2 && t[0] == '"' && t.last() == '"' {
        let x = t.subrange(1, t.len() - 1);
        assert(t =~= seq!['"'] + x + seq!['"']);
    }
}

/// A text without a comma is one argument; before a comma stands the first argument, and behind
/// it the others.
pub proof fn law_commas_part_arguments(first: Seq<char>, rest: Seq<char>)
    requires
        !first.contains(','),
    ensures
        listed_arguments(first) == (match argument_in(trimmed(first)) {
            Some(v) => Some(seq![v]),
            None => None::<Seq<Value>>,
        }),
        ({
            let head = argument_in(trimmed(first));
            let tail = listed_arguments(rest);
            let all = listed_arguments(first + seq![','] + rest);
            &&& all is Some <==> head is Some && tail is Some
            &&& all is Some ==> all->Some_0.len() == tail->Some_0.len() + 1 && all->Some_0[0]
                == head->Some_0 && all->Some_0.drop_first() == tail->Some_0
        }),
{
    let n = first.len() as int;
    assert forall|j: int| 0 <= j < n implies #[trigger] first[j] != ',' by {
        assert(first.contains(first[j]));
    }
    lemma_first_comma(first, n);
    let t = first + seq![','] + rest;
    assert forall|j: int| 0 <= j < n implies #[trigger] t[j] != ',' by {
        assert(t[j] == first[j]);
    }
    assert(t[n] == ',');
    lemma_first_comma(t, n);
    assert(t.take(n) =~= first);
    assert(t.skip(n + 1) =~= rest);
    match (argument_in(trimmed(first)), listed_arguments(rest)) {
        (Some(v), Some(tail)) => {
            assert((seq![v] + tail).drop_first() =~= tail);
        },
        _ => {},
    }
}

/// Text that is all white space holds no argument; any other text is a list of arguments.
pub proof fn law_blank_means_no_arguments(t: Seq<char>)
    ensures
        (forall|i: int| 0 <= i < t.len() ==> is_white(#[trigger] t[i])) ==> arguments_in(t) == Some(
            Seq::<Value>::empty(),
        ),
        (exists|i: int| 0 <= i < t.len() && !is_white(#[trigger] t[i])) ==> arguments_in(t)
            == listed_arguments(t),
{
    law_only_white_space_is_trimmed(t);
    let (a, b) = choose|a: int, b: int|
        {
            &&& 0 <= a <= b <= t.len()
            &&& trimmed(t) == #[trigger] t.subrange(a, b)
            &&& forall|j: int| 0 <= j < a || b <= j < t.len() ==> is_white(#[trigger] t[j])
        };
    if a < b {
        assert(trimmed(t)[0] == t[a]);
    }
}

} // verus!
