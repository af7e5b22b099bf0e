//! List of remote functions.

use vstd::prelude::*;
use vstd::utf8::*;

use crate::object;
use crate::object::{Dict, EntryError, Object, Value};
use crate::order;
use crate::order::Ranked;
use crate::text;

verus! {

/// List of available remote functions.
#[derive(PartialEq, Eq, Debug)]
pub struct Funcs(Vec<Func>);

/// Remote function description.
#[derive(PartialEq, Eq, Debug)]
pub struct Func {
    /// Function name.
    pub name: String,
    /// Function argument descriptions.
    pub args: Args,
}

/// Remote function arguments description.
#[derive(PartialEq, Eq, Debug)]
pub struct Args(Vec<Arg>);

/// Remote function argument description.
#[derive(PartialEq, Eq, Debug)]
pub struct Arg {
    /// Argument name.
    pub name: String,
    /// Required argument flag.
    pub required: bool,
    /// Argument type.
    pub typ: ArgType,
}

/// Remote function argument type.
#[derive(Clone, Copy, PartialEq, Eq, Debug, Structural)]
pub enum ArgType {
    /// Integer.
    Int,
    /// String.
    String,
    /// List.
    List,
    /// Dictionary.
    Dict,
}

/// What an [`Arg`] stands for.
pub struct ArgModel {
    /// Argument name.
    pub name: Seq<char>,
    /// Required argument flag.
    pub required: bool,
    /// Argument type.
    pub typ: ArgType,
}

/// What a [`Func`] stands for.
pub struct FuncModel {
    /// Function name.
    pub name: Seq<char>,
    /// Function arguments, in order.
    pub args: Seq<ArgModel>,
}

/// Names rank in alphabetical order.
pub open spec fn name_le(a: Seq<char>, b: Seq<char>) -> bool {
    order::lex_le(encode_utf8(a), encode_utf8(b))
}

/// Required arguments rank before the others, and then names in alphabetical order.
pub open spec fn arg_le(a: ArgModel, b: ArgModel) -> bool {
    a.required && !b.required || a.required == b.required && name_le(a.name, b.name)
}

/// The ranking of arguments.
pub open spec fn arg_ranking() -> spec_fn(ArgModel, ArgModel) -> bool {
    |a: ArgModel, b: ArgModel| arg_le(a, b)
}

/// The ranking of functions: their names in alphabetical order.
pub open spec fn func_ranking() -> spec_fn(FuncModel, FuncModel) -> bool {
    |a: FuncModel, b: FuncModel| name_le(a.name, b.name)
}

/// Required arguments stand before the others, and each kind in alphabetical order.
pub open spec fn args_in_order(args: Seq<ArgModel>) -> bool {
    forall|i: int, j: int|
        #![trigger args[i], args[j]]
        0 <= i < j < args.len() ==> arg_le(args[i], args[j])
}

/// Functions stand in alphabetical order of their names.
pub open spec fn funcs_in_order(funcs: Seq<FuncModel>) -> bool {
    forall|i: int, j: int|
        #![trigger funcs[i], funcs[j]]
        0 <= i < j < funcs.len() ==> name_le(funcs[i].name, funcs[j].name)
}

/// The argument type of a name.
pub open spec fn arg_type_of(name: Seq<char>) -> Option<ArgType> {
    if name == "Int"@ {
        Some(ArgType::Int)
    } else if name == "String"@ {
        Some(ArgType::String)
    } else if name == "List"@ {
        Some(ArgType::List)
    } else if name == "Dict"@ {
        Some(ArgType::Dict)
    } else {
        None
    }
}

/// The name of an argument type.
pub open spec fn arg_type_name(typ: ArgType) -> Seq<char> {
    match typ {
        ArgType::Int => "Int"@,
        ArgType::String => "String"@,
        ArgType::List => "List"@,
        ArgType::Dict => "Dict"@,
    }
}

/// The argument of the function `func` that an entry describes, or what is wrong with
/// the entry.
pub open spec fn parse_arg(func: Seq<char>, k: Seq<u8>, v: Value) -> Result<ArgModel, Seq<char>> {
    match text::read_text(k) {
        None => Err(text::utf8_flaw(k)),
        Some(name) => match v {
            Value::Dict(m) => match object::text_at(m, "type"@) {
                Err(EntryError::Missing) => Err("Missing arg type in argument "@ + name),
                Err(EntryError::WrongType) => Err("Arg type is not text in argument "@ + name),
                Ok(typ_name) => match arg_type_of(typ_name) {
                    None => Err(
                        "Function "@ + func + " argument "@ + name + ": invalid type "@ + typ_name,
                    ),
                    Some(typ) => match object::int_at(m, "required"@) {
                        Err(EntryError::Missing) => Err(
                            "Missing arg required in argument "@ + name,
                        ),
                        Err(EntryError::WrongType) => Err(
                            "Arg required is not an integer in argument "@ + name,
                        ),
                        Ok(required) => Ok(ArgModel { name, required: required != 0, typ }),
                    },
                },
            },
            _ => Err("Not a dictionary: argument "@ + name),
        },
    }
}

/// The arguments that the entries under `keys` describe, or what is wrong with the
/// first bad one.
pub open spec fn parse_args(
    func: Seq<char>,
    m: Map<Seq<u8>, Value>,
    keys: Seq<Seq<u8>>,
) -> Result<Seq<ArgModel>, Seq<char>>
    decreases keys.len(),
{
    if keys.len() == 0 {
        Ok(Seq::empty())
    } else {
        match parse_args(func, m, keys.drop_last()) {
            Err(e) => Err(e),
            Ok(args) => match parse_arg(func, keys.last(), m[keys.last()]) {
                Err(e) => Err(e),
                Ok(arg) => Ok(args.push(arg)),
            },
        }
    }
}

/// The arguments of the function `name` that `v` describes, in the order of their keys.
pub open spec fn described_args(name: Seq<char>, v: Value) -> Seq<ArgModel> {
    parse_args(name, v->Dict_0, object::sorted_keys(v->Dict_0))->Ok_0
}

/// The function `name` with the arguments that `v` describes, or what is wrong with it.
pub open spec fn parse_func(name: Seq<char>, v: Value) -> Result<FuncModel, Seq<char>> {
    match v {
        Value::Dict(m) => match parse_args(name, m, object::sorted_keys(m)) {
            Err(e) => Err(e),
            Ok(args) => Ok(
                FuncModel { name, args: order::stable_sort_of(args, arg_ranking()) },
            ),
        },
        _ => Err("Not a dictionary: function "@ + name),
    }
}

/// The function that an entry describes, or what is wrong with the entry.
pub open spec fn parse_func_entry(k: Seq<u8>, v: Value) -> Result<FuncModel, Seq<char>> {
    match text::read_text(k) {
        None => Err(text::utf8_flaw(k)),
        Some(name) => parse_func(name, v),
    }
}

/// The functions that the entries under `keys` describe up to the first bad entry, and
/// what is wrong with that one.
pub open spec fn parse_funcs(m: Map<Seq<u8>, Value>, keys: Seq<Seq<u8>>) -> (
    Seq<FuncModel>,
    Option<Seq<char>>,
)
    decreases keys.len(),
{
    if keys.len() == 0 {
        (Seq::empty(), None)
    } else {
        let (funcs, flaw) = parse_funcs(m, keys.drop_last());
        match flaw {
            Some(_) => (funcs, flaw),
            None => match parse_func_entry(keys.last(), m[keys.last()]) {
                Err(e) => (funcs, Some(e)),
                Ok(func) => (funcs.push(func), None),
            },
        }
    }
}

/// An argument as text.
pub open spec fn arg_text(a: ArgModel) -> Seq<char> {
    (if a.required {
        "required "@
    } else {
        Seq::empty()
    }) + arg_type_name(a.typ) + " "@ + a.name
}

/// Arguments as text, with commas between them.
pub open spec fn args_text(args: Seq<ArgModel>) -> Seq<char>
    decreases args.len(),
{
    if args.len() == 0 {
        Seq::empty()
    } else if args.len() == 1 {
        arg_text(args[0])
    } else {
        args_text(args.drop_last()) + ", "@ + arg_text(args.last())
    }
}

/// A function as text: its name, and its arguments in brackets.
pub open spec fn func_text(f: FuncModel) -> Seq<char> {
    f.name + "("@ + args_text(f.args) + ")"@
}

/// Functions as text, one on each line.
pub open spec fn funcs_text(funcs: Seq<FuncModel>) -> Seq<char>
    decreases funcs.len(),
{
    if funcs.len() == 0 {
        Seq::empty()
    } else {
        funcs_text(funcs.drop_last()) + func_text(funcs.last()) + "\n"@
    }
}

/// The name of an argument type stands for that type.
pub proof fn law_arg_type_reads_back(typ: ArgType)
    ensures
        arg_type_of(arg_type_name(typ)) == Some(typ),
{
    reveal_strlit("Int");
    reveal_strlit("String");
    reveal_strlit("List");
    reveal_strlit("Dict");
    assert("Int"@.len() == 3 && "String"@.len() == 6 && "List"@.len() == 4 && "Dict"@.len() == 4);
    assert("List"@[0] != "Dict"@[0]);
}

proof fn lemma_name_ranking()
    ensures
        forall|a: Seq<char>, b: Seq<char>| #[trigger] name_le(a, b) || name_le(b, a),
        forall|a: Seq<char>, b: Seq<char>, c: Seq<char>| #[trigger]
            name_le(a, b) && #[trigger] name_le(b, c) ==> name_le(a, c),
{
    assert forall|a: Seq<char>, b: Seq<char>| #[trigger] name_le(a, b) || name_le(b, a) by {
        order::lemma_lex_le_total(encode_utf8(a), encode_utf8(b));
    }
    assert forall|a: Seq<char>, b: Seq<char>, c: Seq<char>| #[trigger]
        name_le(a, b) && #[trigger] name_le(b, c) implies name_le(a, c) by {
        order::lemma_lex_le_transitive(encode_utf8(a), encode_utf8(b), encode_utf8(c));
    }
}

/// Whether a name ranks before another, or with it.
fn name_up_to(a: &String, b: &String) -> (r: bool)
    ensures
        r == name_le(a@, b@),
{
    let place: order::Place = order::place(a.as_str().as_bytes(), b.as_str().as_bytes());
    proof {
        order::lemma_lex_le_reflexive(encode_utf8(a@));
        order::lemma_lex_le_total(encode_utf8(a@), encode_utf8(b@));
        if order::lex_le(encode_utf8(a@), encode_utf8(b@)) && order::lex_le(
            encode_utf8(b@),
            encode_utf8(a@),
        ) {
            order::lemma_lex_le_antisymmetric(encode_utf8(a@), encode_utf8(b@));
        }
    }
    match place {
        order::Place::After => false,
        _ => true,
    }
}

impl Ranked for Arg {
    type Model = ArgModel;

    open spec fn model(&self) -> ArgModel {
        self.view()
    }

    open spec fn ranking() -> spec_fn(ArgModel, ArgModel) -> bool {
        arg_ranking()
    }

    fn ranks_up_to(&self, other: &Self) -> (r: bool) {
        if self.required == other.required {
            name_up_to(&self.name, &other.name)
        } else {
            self.required
        }
    }

    proof fn lemma_ranking() {
        lemma_name_ranking();
        let le = arg_ranking();
        assert forall|a: ArgModel, b: ArgModel| #[trigger] le(a, b) || le(b, a) by {
            assert(name_le(a.name, b.name) || name_le(b.name, a.name));
        }
        assert forall|a: ArgModel, b: ArgModel, c: ArgModel| #[trigger]
            le(a, b) && #[trigger] le(b, c) implies le(a, c) by {
            if a.required == b.required && b.required == c.required {
                assert(name_le(a.name, b.name) && name_le(b.name, c.name));
            }
        }
    }
}

impl Ranked for Func {
    type Model = FuncModel;

    open spec fn model(&self) -> FuncModel {
        self.view()
    }

    open spec fn ranking() -> spec_fn(FuncModel, FuncModel) -> bool {
        func_ranking()
    }

    fn ranks_up_to(&self, other: &Self) -> (r: bool) {
        name_up_to(&self.name, &other.name)
    }

    proof fn lemma_ranking() {
        lemma_name_ranking();
        let le = func_ranking();
        assert forall|a: FuncModel, b: FuncModel| #[trigger] le(a, b) || le(b, a) by {
            assert(name_le(a.name, b.name) || name_le(b.name, a.name));
        }
        assert forall|a: FuncModel, b: FuncModel, c: FuncModel| #[trigger]
            le(a, b) && #[trigger] le(b, c) implies le(a, c) by {
            assert(name_le(a.name, b.name) && name_le(b.name, c.name));
        }
    }
}

impl ArgType {
    /// The argument type of a name. The error says which name is unknown.
    pub fn try_from(s: &str) -> (r: Result<ArgType, String>)
        ensures
            match arg_type_of(s@) {
                Some(typ) => r == Ok::<ArgType, String>(typ),
                None => r is Err && r->Err_0@ == "Unknown arg type "@ + s@,
            },
    {
        if text::same_text(s, "Int") {
            Ok(ArgType::Int)
        } else if text::same_text(s, "String") {
            Ok(ArgType::String)
        } else if text::same_text(s, "List") {
            Ok(ArgType::List)
        } else if text::same_text(s, "Dict") {
            Ok(ArgType::Dict)
        } else {
            Err("Unknown arg type ".to_owned().concat(s))
        }
    }

    /// The name of the argument type.
    pub fn to_text(&self) -> (r: String)
        ensures
            r@ == arg_type_name(*self),
    {
        match self {
            ArgType::Int => "Int".to_owned(),
            ArgType::String => "String".to_owned(),
            ArgType::List => "List".to_owned(),
            ArgType::Dict => "Dict".to_owned(),
        }
    }
}

impl Arg {
    /// What the argument stands for.
    pub open spec fn view(&self) -> ArgModel {
        ArgModel { name: self.name@, required: self.required, typ: self.typ }
    }

    /// The argument as text.
    pub fn to_text(&self) -> (r: String)
        ensures
            r@ == arg_text(self@),
    {
        let mut out: String = String::new();
        if self.required {
            out.append("required ");
        }
        out.append(self.typ.to_text().as_str());
        out.append(" ");
        out.append(self.name.as_str());
        assert(out@ =~= arg_text(self@));
        out
    }
}

impl Args {
    /// The arguments in order.
    pub closed spec fn list(&self) -> Seq<Arg> {
        self.0@
    }

    /// What the arguments stand for.
    pub open spec fn view(&self) -> Seq<ArgModel> {
        order::models(self.list())
    }

    #[verifier::type_invariant]
    spec fn ordered(&self) -> bool {
        args_in_order(order::models(self.0@))
    }

    /// The number of arguments.
    pub fn len(&self) -> (r: usize)
        ensures
            r == self@.len(),
    {
        self.0.len()
    }

    /// The argument at a place in the order of [`Args::iter`].
    pub fn at(&self, i: usize) -> (r: &Arg)
        requires
            i < self@.len(),
        ensures
            r@ == self@[i as int],
    {
        &self.0[i]
    }

    /// Iterator over arguments in this list.
    /// Returns required args first in alphabetical order, then non-required in alphabetical order.
    pub fn iter(&self) -> (r: std::slice::Iter<'_, Arg>)
        ensures
            vstd::std_specs::iter::IteratorSpec::remaining(&r) == self.list().as_ref(),
            args_in_order(self@),
    {
        proof {
            use_type_invariant(self);
        }
        self.0.iter()
    }

    /// The arguments as text, with commas between them.
    pub fn to_text(&self) -> (r: String)
        ensures
            r@ == args_text(self@),
    {
        let mut out: String = String::new();
        let mut i: usize = 0;
        while i < self.0.len()
            invariant
                i <= self.0@.len(),
                out@ == args_text(self@.take(i as int)),
            decreases self.0@.len() - i,
        {
            if i > 0 {
                out.append(", ");
            }
            out.append(self.0[i].to_text().as_str());
            assert(self@.take(i + 1).drop_last() =~= self@.take(i as int));
            assert(self@[i as int] == self.0@[i as int]@);
            assert(out@ =~= args_text(self@.take(i + 1)));
            i = i + 1;
        }
        assert(self@.take(i as int) =~= self@);
        out
    }
}

impl Clone for Arg {
    fn clone(&self) -> (r: Arg)
        ensures
            r == *self,
    {
        Arg { name: self.name.clone(), required: self.required, typ: self.typ }
    }
}

impl Clone for Args {
    fn clone(&self) -> (r: Args)
        ensures
            r@ == self@,
    {
        proof {
            use_type_invariant(self);
        }
        let mut list: Vec<Arg> = Vec::new();
        while list.len() < self.0.len()
            invariant
                list@.len() <= self.0@.len(),
                list@ == self.0@.take(list@.len() as int),
            decreases self.0@.len() - list@.len(),
        {
            let i: usize = list.len();
            list.push(self.0[i].clone());
            assert(list@ =~= self.0@.take(i + 1));
        }
        assert(list@ =~= self.0@);
        Args(list)
    }
}

impl Clone for Func {
    fn clone(&self) -> (r: Func)
        ensures
            r@ == self@,
    {
        Func { name: self.name.clone(), args: self.args.clone() }
    }
}

impl Clone for Funcs {
    fn clone(&self) -> (r: Funcs)
        ensures
            r@ == self@,
    {
        let mut list: Vec<Func> = Vec::new();
        while list.len() < self.0.len()
            invariant
                list@.len() <= self.0@.len(),
                order::models(list@) == self@.take(list@.len() as int),
            decreases self.0@.len() - list@.len(),
        {
            let i: usize = list.len();
            let ghost before = list@;
            let func: Func = self.0[i].clone();
            list.push(func);
            proof {
                assert(order::models(list@) =~= order::models(before).push(func@));
                assert(self@.take(i + 1) =~= self@.take(i as int).push(self@[i as int]));
                assert(self@[i as int] == self.0@[i as int]@);
            }
        }
        assert(self@.take(self@.len() as int) =~= self@);
        Funcs(list)
    }
}

impl Func {
    /// What the function description stands for.
    pub open spec fn view(&self) -> FuncModel {
        FuncModel { name: self.name@, args: self.args@ }
    }

    /// The function as text: its name, and its arguments in brackets.
    pub fn to_text(&self) -> (r: String)
        ensures
            r@ == func_text(self@),
    {
        let mut out: String = self.name.clone();
        out.append("(");
        out.append(self.args.to_text().as_str());
        out.append(")");
        out
    }
}

impl Funcs {
    /// The functions in order.
    pub closed spec fn list(&self) -> Seq<Func> {
        self.0@
    }

    /// What the functions stand for.
    pub open spec fn view(&self) -> Seq<FuncModel> {
        order::models(self.list())
    }

    /// The empty list.
    pub fn new() -> (r: Funcs)
        ensures
            r@ == Seq::<FuncModel>::empty(),
    {
        let r: Funcs = Funcs(Vec::new());
        assert(r@ =~= Seq::<FuncModel>::empty());
        r
    }

    /// Adds the functions that a dictionary describes, and puts the list in alphabetical
    /// order. Where an entry is bad, says what is wrong with it; the functions of the
    /// entries before it are then at the end of the list.
    pub fn add_funcs(&mut self, fns: &Dict) -> (r: Result<(), String>)
        ensures
            ({
                let (parsed, flaw) = parse_funcs(fns@, object::sorted_keys(fns@));
                match flaw {
                    None => r is Ok && final(self)@ == order::stable_sort_of(
                        old(self)@ + parsed,
                        func_ranking(),
                    ) && order::stably_sorted(old(self)@ + parsed, func_ranking(), final(self)@)
                        && funcs_in_order(final(self)@),
                    Some(e) => r is Err && r->Err_0@ == e && final(self)@ == old(self)@ + parsed,
                }
            }),
    {
        let n: usize = fns.len();
        let ghost keys = object::sorted_keys(fns@);
        let mut i: usize = 0;
        proof {
            assert(keys.take(0) =~= Seq::<Seq<u8>>::empty());
            assert(old(self)@ + Seq::<FuncModel>::empty() =~= old(self)@);
        }
        while i < n
            invariant
                i <= n == keys.len(),
                keys == object::sorted_keys(fns@),
                parse_funcs(fns@, keys.take(i as int)).1 is None,
                self@ == old(self)@ + parse_funcs(fns@, keys.take(i as int)).0,
            decreases n - i,
        {
            let (k, v) = fns.entry(i);
            let ghost before = self@;
            proof {
                assert(keys.take(i + 1).drop_last() =~= keys.take(i as int));
            }
            let parsed: Result<Func, String> = match text::owned_text(k.as_slice()) {
                Ok(name) => Self::parse_fn(name, v),
                Err(e) => Err(e),
            };
            match parsed {
                Ok(func) => {
                    self.0.push(func);
                    assert(self@ =~= before.push(func@));
                    assert(self@ =~= old(self)@ + parse_funcs(fns@, keys.take(i + 1)).0);
                },
                Err(e) => {
                    proof {
                        lemma_flaw_stays(fns@, keys, i + 1);
                    }
                    return Err(e);
                },
            }
            i = i + 1;
        }
        assert(keys.take(i as int) =~= keys);
        let mut list: Vec<Func> = Vec::new();
        std::mem::swap(&mut list, &mut self.0);
        let ghost unsorted = order::models(list@);
        self.0 = order::stable_sort(list);
        proof {
            order::law_stable_sort_is_ranked(unsorted, func_ranking(), self@);
            assert forall|a: int, b: int|
                #![trigger self@[a], self@[b]]
                0 <= a < b < self@.len() implies name_le(self@[a].name, self@[b].name) by {
                assert(func_ranking()(self@[a], self@[b]));
            }
        }
        Ok(())
    }

    /// Reads the description of one function. The error says what is wrong with it.
    pub fn parse_fn(fn_name: String, fn_args: &Object) -> (r: Result<Func, String>)
        ensures
            match parse_func(fn_name@, fn_args@) {
                Ok(f) => r is Ok && r->Ok_0@ == f && order::stably_sorted(
                    described_args(fn_name@, fn_args@),
                    arg_ranking(),
                    r->Ok_0.args@,
                ) && args_in_order(r->Ok_0.args@),
                Err(e) => r is Err && r->Err_0@ == e,
            },
    {
        let dict: &Dict = match fn_args.as_dict() {
            Some(d) => d,
            None => {
                return Err("Not a dictionary: function ".to_owned().concat(fn_name.as_str()));
            },
        };
        let n: usize = dict.len();
        let ghost keys = object::sorted_keys(dict@);
        let mut args: Vec<Arg> = Vec::new();
        let mut i: usize = 0;
        proof {
            assert(keys.take(0) =~= Seq::<Seq<u8>>::empty());
            assert(order::models(args@) =~= Seq::<ArgModel>::empty());
        }
        while i < n
            invariant
                i <= n == keys.len(),
                keys == object::sorted_keys(dict@),
                fn_args@ == Value::Dict(dict@),
                parse_args(fn_name@, dict@, keys.take(i as int)) == Ok::<Seq<ArgModel>, Seq<char>>(
                    order::models(args@),
                ),
            decreases n - i,
        {
            let (k, v) = dict.entry(i);
            proof {
                assert(keys.take(i + 1).drop_last() =~= keys.take(i as int));
            }
            match read_arg(&fn_name, k, v) {
                Ok(arg) => {
                    let ghost before = args@;
                    args.push(arg);
                    assert(order::models(args@) =~= order::models(before).push(arg@));
                },
                Err(e) => {
                    proof {
                        lemma_bad_arg_stays(fn_name@, dict@, keys, i + 1);
                    }
                    return Err(e);
                },
            }
            i = i + 1;
        }
        assert(keys.take(i as int) =~= keys);
        let sorted: Vec<Arg> = order::stable_sort(args);
        proof {
            let models = order::models(sorted@);
            order::law_stable_sort_is_ranked(order::models(args@), arg_ranking(), models);
            assert forall|a: int, b: int|
                #![trigger models[a], models[b]]
                0 <= a < b < models.len() implies arg_le(models[a], models[b]) by {
                assert(arg_ranking()(models[a], models[b]));
            }
        }
        Ok(Func { name: fn_name, args: Args(sorted) })
    }

    /// Iterator over functions in this list returned in alphabetical order.
    pub fn iter(&self) -> (r: std::slice::Iter<'_, Func>)
        ensures
            vstd::std_specs::iter::IteratorSpec::remaining(&r) == self.list().as_ref(),
    {
        self.0.iter()
    }

    /// Find function by name.
    pub fn find(&self, name: &str) -> (r: Option<&Func>)
        ensures
            match r {
                Some(f) => exists|i: int| #[trigger]
                    is_first_named(self@, name@, i) && self.list()[i] == *f,
                None => forall|i: int| 0 <= i < self@.len() ==> (#[trigger] self@[i]).name != name@,
            },
    {
        let mut i: usize = 0;
        while i < self.0.len()
            invariant
                i <= self.0@.len(),
                forall|j: int| 0 <= j < i ==> (#[trigger] self@[j]).name != name@,
            decreases self.0@.len() - i,
        {
            assert(self@[i as int] == self.0@[i as int]@);
            if text::same_text(self.0[i].name.as_str(), name) {
                assert(is_first_named(self@, name@, i as int));
                return Some(&self.0[i]);
            }
            i = i + 1;
        }
        None
    }

    /// The functions as text, one on each line.
    pub fn to_text(&self) -> (r: String)
        ensures
            r@ == funcs_text(self@),
    {
        let mut out: String = String::new();
        let mut i: usize = 0;
        while i < self.0.len()
            invariant
                i <= self.0@.len(),
                out@ == funcs_text(self@.take(i as int)),
            decreases self.0@.len() - i,
        {
            out.append(self.0[i].to_text().as_str());
            out.append("\n");
            assert(self@.take(i + 1).drop_last() =~= self@.take(i as int));
            assert(self@[i as int] == self.0@[i as int]@);
            i = i + 1;
        }
        assert(self@.take(i as int) =~= self@);
        out
    }
}

impl Default for Funcs {
    fn default() -> (r: Funcs)
        ensures
            r@ == Seq::<FuncModel>::empty(),
    {
        Funcs::new()
    }
}

/// The function in place `i` is the first one of that name.
pub open spec fn is_first_named(funcs: Seq<FuncModel>, name: Seq<char>, i: int) -> bool {
    &&& 0 <= i < funcs.len()
    &&& funcs[i].name == name
    &&& forall|j: int| 0 <= j < i ==> (#[trigger] funcs[j]).name != name
}

proof fn lemma_flaw_stays(m: Map<Seq<u8>, Value>, keys: Seq<Seq<u8>>, i: int)
    requires
        0 <= i <= keys.len(),
        parse_funcs(m, keys.take(i)).1 is Some,
    ensures
        parse_funcs(m, keys) == parse_funcs(m, keys.take(i)),
    decreases keys.len() - i,
{
    if i < keys.len() {
        assert(keys.take(i + 1).drop_last() =~= keys.take(i));
        lemma_flaw_stays(m, keys, i + 1);
    } else {
        assert(keys.take(i) =~= keys);
    }
}

proof fn lemma_bad_arg_stays(
    func: Seq<char>,
    m: Map<Seq<u8>, Value>,
    keys: Seq<Seq<u8>>,
    i: int,
)
    requires
        0 <= i <= keys.len(),
        parse_args(func, m, keys.take(i)) is Err,
    ensures
        parse_args(func, m, keys) == parse_args(func, m, keys.take(i)),
    decreases keys.len() - i,
{
    if i < keys.len() {
        assert(keys.take(i + 1).drop_last() =~= keys.take(i));
        lemma_bad_arg_stays(func, m, keys, i + 1);
    } else {
        assert(keys.take(i) =~= keys);
    }
}

/// Reads the description of one argument.
fn read_arg(fn_name: &String, k: &Vec<u8>, v: &Object) -> (r: Result<Arg, String>)
    ensures
        match parse_arg(fn_name@, k@, v@) {
            Ok(a) => r is Ok && r->Ok_0@ == a,
            Err(e) => r is Err && r->Err_0@ == e,
        },
{
    let name: String = match text::owned_text(k.as_slice()) {
        Ok(name) => name,
        Err(e) => {
            return Err(e);
        },
    };
    let descr: &Dict = match v.as_dict() {
        Some(d) => d,
        None => {
            return Err("Not a dictionary: argument ".to_owned().concat(name.as_str()));
        },
    };
    let typ_name: &str = match descr.get_text("type") {
        Ok(t) => t,
        Err(EntryError::Missing) => {
            return Err("Missing arg type in argument ".to_owned().concat(name.as_str()));
        },
        Err(EntryError::WrongType) => {
            return Err("Arg type is not text in argument ".to_owned().concat(name.as_str()));
        },
    };
    let typ: ArgType = match ArgType::try_from(typ_name) {
        Ok(typ) => typ,
        Err(_) => {
            let mut e: String = "Function ".to_owned();
            e.append(fn_name.as_str());
            e.append(" argument ");
            e.append(name.as_str());
            e.append(": invalid type ");
            e.append(typ_name);
            return Err(e);
        },
    };
    match descr.get_int("required") {
        Ok(required) => Ok(Arg { name, required: required != 0, typ }),
        Err(EntryError::Missing) => {
            Err("Missing arg required in argument ".to_owned().concat(name.as_str()))
        },
        Err(EntryError::WrongType) => {
            Err("Arg required is not an integer in argument ".to_owned().concat(name.as_str()))
        },
    }
}

/// Types have the names that they are known by.
pub proof fn law_arg_type_names()
    ensures
        arg_type_name(ArgType::Int) == "Int"@,
        arg_type_name(ArgType::String) == "String"@,
        arg_type_name(ArgType::List) == "List"@,
        arg_type_name(ArgType::Dict) == "Dict"@,
        forall|n: Seq<char>| #[trigger]
            arg_type_of(n) is Some ==> arg_type_name(arg_type_of(n)->Some_0) == n,
{
}

/// Names rank by their bytes; arguments rank by whether they are required, and only among equals
/// by their names; functions rank by their names.
pub proof fn law_rankings(a: ArgModel, b: ArgModel, f: FuncModel, g: FuncModel)
    ensures
        name_le(a.name, b.name) <==> order::lex_le(encode_utf8(a.name), encode_utf8(b.name)),
        a.required && !b.required ==> arg_ranking()(a, b) && !arg_ranking()(b, a),
        a.required == b.required ==> arg_ranking()(a, b) == name_le(a.name, b.name),
        func_ranking()(f, g) == name_le(f.name, g.name),
{
}

/// In a list of arguments that is in order no optional one stands before a required one, and
/// those alike stand by their names; functions in order stand by their names.
pub proof fn law_lists_in_order(args: Seq<ArgModel>, funcs: Seq<FuncModel>, i: int, j: int)
    ensures
        args_in_order(args) && 0 <= i < j < args.len() ==> (args[j].required ==> args[i].required)
            && (args[i].required == args[j].required ==> name_le(args[i].name, args[j].name)),
        funcs_in_order(funcs) && 0 <= i < j < funcs.len() ==> name_le(funcs[i].name, funcs[j].name),
{
}

/// A description that holds a type and whether the argument is required is read as it is: any
/// number but zero means that it is.
pub proof fn law_described_argument_is_read(
    func: Seq<char>,
    name: Seq<char>,
    m: Map<Seq<u8>, Value>,
    typ: ArgType,
    required: i64,
)
    requires
        object::text_at(m, "type"@) == Ok::<Seq<char>, EntryError>(arg_type_name(typ)),
        object::int_at(m, "required"@) == Ok::<i64, EntryError>(required),
    ensures
        parse_arg(func, encode_utf8(name), Value::Dict(m)) == Ok::<ArgModel, Seq<char>>(
            ArgModel { name, required: required != 0, typ },
        ),
{
    law_arg_type_reads_back(typ);
    text::lemma_text_reads_back(name);
}

/// An argument that is read is described as it is, and a description that is refused is refused
/// for what is wrong with it.
pub proof fn law_argument_is_as_described(func: Seq<char>, k: Seq<u8>, v: Value)
    ensures
        parse_arg(func, k, v) matches Ok(a) ==> k == encode_utf8(a.name) && v is Dict
            && object::text_at(v->Dict_0, "type"@) == Ok::<Seq<char>, EntryError>(
            arg_type_name(a.typ),
        ) && object::int_at(v->Dict_0, "required"@) is Ok && (a.required <==> object::int_at(
            v->Dict_0,
            "required"@,
        )->Ok_0 != 0),
        parse_arg(func, k, v) matches Err(t) ==> ({
            let name = text::read_text(k);
            let typ = object::text_at(v->Dict_0, "type"@);
            let required = object::int_at(v->Dict_0, "required"@);
            &&& name is None ==> t == text::utf8_flaw(k)
            &&& name is Some && !(v is Dict) ==> t == "Not a dictionary: argument "@ + name->Some_0
            &&& name is Some && v is Dict && typ is Err ==> t == (if typ->Err_0
                == EntryError::Missing {
                "Missing arg type in argument "@ + name->Some_0
            } else {
                "Arg type is not text in argument "@ + name->Some_0
            })
            &&& name is Some && v is Dict && typ is Ok && arg_type_of(typ->Ok_0) is None ==> t
                == "Function "@ + func + " argument "@ + name->Some_0 + ": invalid type "@
                + typ->Ok_0
            &&& name is Some && v is Dict && typ is Ok && arg_type_of(typ->Ok_0) is Some
                ==> required is Err && t == (if required->Err_0 == EntryError::Missing {
                "Missing arg required in argument "@ + name->Some_0
            } else {
                "Arg required is not an integer in argument "@ + name->Some_0
            })
        }),
{
    match text::read_text(k) {
        Some(name) => {
            text::law_text_is_its_bytes(k, name);
        },
        None => {},
    }
}

/// Arguments are read one for one: each key gives the argument that its entry describes, or the
/// first bad one tells what is wrong.
pub proof fn law_arguments_are_read_one_for_one(
    func: Seq<char>,
    m: Map<Seq<u8>, Value>,
    keys: Seq<Seq<u8>>,
)
    ensures
        parse_args(func, m, keys) matches Ok(args) ==> args.len() == keys.len() && forall|i: int|
            0 <= i < keys.len() ==> parse_arg(func, keys[i], m[keys[i]]) == Ok::<
                ArgModel,
                Seq<char>,
            >(#[trigger] args[i]),
        parse_args(func, m, keys) matches Err(t) ==> exists|i: int|
            0 <= i < keys.len() && parse_arg(func, #[trigger] keys[i], m[keys[i]]) == Err::<
                ArgModel,
                Seq<char>,
            >(t) && forall|j: int|
                0 <= j < i ==> parse_arg(func, #[trigger] keys[j], m[keys[j]]) is Ok,
    decreases keys.len(),
{
    if keys.len() > 0 {
        let front = keys.drop_last();
        law_arguments_are_read_one_for_one(func, m, front);
        match parse_args(func, m, front) {
            Err(t) => {
                let i = choose|i: int|
                    0 <= i < front.len() && parse_arg(func, #[trigger] front[i], m[front[i]])
                        == Err::<ArgModel, Seq<char>>(t) && forall|j: int|
                        0 <= j < i ==> parse_arg(func, #[trigger] front[j], m[front[j]]) is Ok;
                assert(keys[i] == front[i]);
                assert forall|j: int| 0 <= j < i implies parse_arg(
                    func,
                    #[trigger] keys[j],
                    m[keys[j]],
                ) is Ok by {
                    assert(keys[j] == front[j]);
                }
            },
            Ok(head) => {
                assert forall|j: int| 0 <= j < front.len() implies parse_arg(
                    func,
                    #[trigger] keys[j],
                    m[keys[j]],
                ) == Ok::<ArgModel, Seq<char>>(head[j]) by {
                    assert(keys[j] == front[j]);
                }
                let n = keys.len() - 1;
                match parse_args(func, m, keys) {
                    Ok(args) => {
                        assert forall|i: int| 0 <= i < keys.len() implies parse_arg(
                            func,
                            keys[i],
                            m[keys[i]],
                        ) == Ok::<ArgModel, Seq<char>>(#[trigger] args[i]) by {
                            if i < n {
                                assert(args[i] == head[i]);
                            }
                        }
                    },
                    Err(t) => {
                        assert(parse_arg(func, keys[n], m[keys[n]]) == Err::<
                            ArgModel,
                            Seq<char>,
                        >(t));
                    },
                }
            },
        }
    }
}

/// A function that is read has the name it is listed under and all arguments that are described,
/// each once, in order; it is refused exactly where one of them is bad.
pub proof fn law_function_has_all_its_arguments(name: Seq<char>, m: Map<Seq<u8>, Value>)
    ensures
        ({
            let args = parse_args(name, m, object::sorted_keys(m));
            let f = parse_func(name, Value::Dict(m));
            &&& f is Ok <==> args is Ok
            &&& f is Err ==> f->Err_0 == args->Err_0
            &&& f is Ok ==> f->Ok_0.name == name && f->Ok_0.args.len() == args->Ok_0.len()
                && args_in_order(f->Ok_0.args) && order::stably_sorted(
                args->Ok_0,
                arg_ranking(),
                f->Ok_0.args,
            ) && described_args(name, Value::Dict(m)) == args->Ok_0 && forall|a: ArgModel| #[trigger]
                f->Ok_0.args.contains(a) <==> args->Ok_0.contains(a)
        }),
        forall|v: Value|
            !(v is Dict) ==> #[trigger] parse_func(name, v) == Err::<FuncModel, Seq<char>>(
                "Not a dictionary: function "@ + name,
            ),
{
    let args = parse_args(name, m, object::sorted_keys(m));
    if args is Ok {
        let sorted = order::stable_sort_of(args->Ok_0, arg_ranking());
        Arg::lemma_ranking();
        order::law_stable_sort_exists(args->Ok_0, arg_ranking());
        order::law_stable_sort_keeps_items(args->Ok_0, arg_ranking(), sorted);
        order::law_stable_sort_is_ranked(args->Ok_0, arg_ranking(), sorted);
        assert forall|i: int, j: int|
            #![trigger sorted[i], sorted[j]]
            0 <= i < j < sorted.len() implies arg_le(sorted[i], sorted[j]) by {
            assert(arg_ranking()(sorted[i], sorted[j]));
        }
    }
}

/// A function is read under the name that its key spells.
pub proof fn law_function_has_its_name(k: Seq<u8>, v: Value)
    ensures
        parse_func_entry(k, v) matches Ok(f) ==> k == encode_utf8(f.name) && parse_func(f.name, v)
            == Ok::<FuncModel, Seq<char>>(f),
        parse_func_entry(k, v) matches Err(t) ==> t == (match text::read_text(k) {
            Some(name) => parse_func(name, v)->Err_0,
            None => text::utf8_flaw(k),
        }),
        forall|name: Seq<char>| #[trigger]
            parse_func_entry(encode_utf8(name), v) == parse_func(name, v),
{
    match text::read_text(k) {
        Some(name) => {
            text::law_text_is_its_bytes(k, name);
            if v is Dict {
                law_function_has_all_its_arguments(name, v->Dict_0);
            }
        },
        None => {},
    }
    assert forall|name: Seq<char>| #[trigger]
        parse_func_entry(encode_utf8(name), v) == parse_func(name, v) by {
        text::lemma_text_reads_back(name);
    }
}

/// Functions are read one for one, up to the first bad entry, if there is one, and then that
/// entry tells what is wrong.
pub proof fn law_functions_are_read_one_for_one(m: Map<Seq<u8>, Value>, keys: Seq<Seq<u8>>)
    ensures
        ({
            let (funcs, flaw) = parse_funcs(m, keys);
            &&& funcs.len() <= keys.len()
            &&& forall|i: int|
                0 <= i < funcs.len() ==> parse_func_entry(keys[i], m[keys[i]]) == Ok::<
                    FuncModel,
                    Seq<char>,
                >(#[trigger] funcs[i])
            &&& flaw is None <==> funcs.len() == keys.len()
            &&& flaw is Some ==> parse_func_entry(
                keys[funcs.len() as int],
                m[keys[funcs.len() as int]],
            ) == Err::<FuncModel, Seq<char>>(flaw->Some_0)
        }),
    decreases keys.len(),
{
    if keys.len() > 0 {
        let front = keys.drop_last();
        law_functions_are_read_one_for_one(m, front);
        let (head, _) = parse_funcs(m, front);
        let (funcs, flaw) = parse_funcs(m, keys);
        assert forall|i: int| 0 <= i < funcs.len() implies parse_func_entry(keys[i], m[keys[i]])
            == Ok::<FuncModel, Seq<char>>(#[trigger] funcs[i]) by {
            if i < head.len() {
                assert(funcs[i] == head[i]);
                assert(keys[i] == front[i]);
            }
        }
        if head.len() < front.len() {
            assert(keys[head.len() as int] == front[head.len() as int]);
        }
    }
}

/// An argument is written with its type and name, and with the word "required" before it exactly
/// where it is.
pub proof fn law_argument_text(a: ArgModel)
    ensures
        a.required ==> arg_text(a) == "required "@ + arg_type_name(a.typ) + " "@ + a.name,
        !a.required ==> arg_text(a) == arg_type_name(a.typ) + " "@ + a.name,
{
    assert(Seq::<char>::empty() + arg_type_name(a.typ) =~= arg_type_name(a.typ));
}

/// Arguments are written one after another with commas between them, functions each with its
/// arguments in brackets on a line of its own.
pub proof fn law_lists_are_written_in_order(
    args: Seq<ArgModel>,
    a: ArgModel,
    funcs: Seq<FuncModel>,
    f: FuncModel,
)
    ensures
        args_text(Seq::empty()).len() == 0,
        args_text(seq![a]) == arg_text(a),
        args.len() > 0 ==> args_text(args.push(a)) == args_text(args) + ", "@ + arg_text(a),
        func_text(f) == f.name + "("@ + args_text(f.args) + ")"@,
        funcs_text(Seq::empty()).len() == 0,
        funcs_text(funcs.push(f)) == funcs_text(funcs) + func_text(f) + "\n"@,
{
    assert(args.push(a).drop_last() =~= args);
    assert(funcs.push(f).drop_last() =~= funcs);
}

/// The first function of a name has that name, no earlier one has it, and there is one wherever
/// any function has it.
pub proof fn law_first_of_a_name(funcs: Seq<FuncModel>, name: Seq<char>, k: int)
    ensures
        is_first_named(funcs, name, k) ==> 0 <= k < funcs.len() && funcs[k].name == name && forall|
            j: int,
        |
            0 <= j < k ==> (#[trigger] funcs[j]).name != name,
        0 <= k < funcs.len() && funcs[k].name == name ==> exists|i: int|
            i <= k && #[trigger] is_first_named(funcs, name, i),
    decreases k,
{
    if 0 <= k < funcs.len() && funcs[k].name == name && !is_first_named(funcs, name, k) {
        let j = choose|j: int| 0 <= j < k && (#[trigger] funcs[j]).name == name;
        law_first_of_a_name(funcs, name, j);
    }
}

/// Descriptions stand for all that they hold, in their order.
pub proof fn law_descriptions_stand_for_what_they_hold(
    a: Arg,
    args: Args,
    f: Func,
    funcs: Funcs,
    i: int,
)
    ensures
        a@.name == a.name@,
        a@.required == a.required,
        a@.typ == a.typ,
        args@.len() == args.list().len(),
        0 <= i < args.list().len() ==> args@[i] == args.list()[i]@,
        f@.name == f.name@,
        f@.args == f.args@,
        funcs@.len() == funcs.list().len(),
        0 <= i < funcs.list().len() ==> funcs@[i] == funcs.list()[i]@,
{
}

} // verus!
