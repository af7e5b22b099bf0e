//! What a node says of itself.

use vstd::prelude::*;
use vstd::utf8::*;

use crate::number;
use crate::object::{Dict, EntryError, Object, Value};
use crate::object;

verus! {

/// What `Core_nodeInfo` returns.
#[derive(Debug, PartialEq, Eq)]
pub struct CoreNodeInfoPayload {
    /// Name of the node.
    pub my_addr: String,
    /// Encoding scheme of its labels.
    pub encoding_scheme: Vec<EncForm>,
}

/// One form of an encoding scheme.
#[derive(Debug, PartialEq, Eq)]
pub struct EncForm {
    /// Number of bits of the prefix.
    pub prefix_len: u8,
    /// The prefix, in hexadecimal.
    pub prefix: String,
    /// Number of bits behind the prefix.
    pub bit_count: u8,
}

/// What an [`EncForm`] stands for.
pub struct FormModel {
    /// Number of bits of the prefix.
    pub prefix_len: u8,
    /// The prefix, in hexadecimal.
    pub prefix: Seq<char>,
    /// Number of bits behind the prefix.
    pub bit_count: u8,
}

impl EncForm {
    /// What the form stands for.
    pub open spec fn view(&self) -> FormModel {
        FormModel { prefix_len: self.prefix_len, prefix: self.prefix@, bit_count: self.bit_count }
    }
}

/// What forms stand for.
pub open spec fn view_forms(forms: Seq<EncForm>) -> Seq<FormModel> {
    forms.map_values(|f: EncForm| f@)
}

/// An entry is missing or holds something else: the text that says so.
pub open spec fn entry_flaw(name: Seq<char>, e: EntryError) -> Seq<char> {
    match e {
        EntryError::Missing => "missing entry: "@ + name,
        EntryError::WrongType => "unexpected type of entry: "@ + name,
    }
}

/// The small number under a key.
pub open spec fn byte_at(m: Map<Seq<u8>, Value>, name: Seq<char>) -> Result<u8, Seq<char>> {
    match object::int_at(m, name) {
        Ok(i) => if 0 <= i <= 255 {
            Ok(i as u8)
        } else {
            Err("number out of range in entry: "@ + name)
        },
        Err(e) => Err(entry_flaw(name, e)),
    }
}

/// The text under a key.
pub open spec fn name_at(m: Map<Seq<u8>, Value>, name: Seq<char>) -> Result<Seq<char>, Seq<char>> {
    match object::text_at(m, name) {
        Ok(t) => Ok(t),
        Err(e) => Err(entry_flaw(name, e)),
    }
}

/// The form that a dictionary describes, or what is wrong with it.
pub open spec fn form_in(m: Map<Seq<u8>, Value>) -> Result<FormModel, Seq<char>> {
    match byte_at(m, "prefixLen"@) {
        Err(t) => Err(t),
        Ok(prefix_len) => match name_at(m, "prefix"@) {
            Err(t) => Err(t),
            Ok(prefix) => match byte_at(m, "bitCount"@) {
                Err(t) => Err(t),
                Ok(bit_count) => Ok(FormModel { prefix_len, prefix, bit_count }),
            },
        },
    }
}

/// The form that a value describes, or what is wrong with it.
pub open spec fn form_of(v: Value) -> Result<FormModel, Seq<char>> {
    match v {
        Value::Dict(m) => form_in(m),
        _ => Err("encoding form is not a dict"@),
    }
}

/// The forms that values describe, or what is wrong with the first bad one.
pub open spec fn forms_of(l: Seq<Value>) -> Result<Seq<FormModel>, Seq<char>>
    decreases l.len(),
{
    if l.len() == 0 {
        Ok(Seq::empty())
    } else {
        match forms_of(l.drop_last()) {
            Err(t) => Err(t),
            Ok(forms) => match form_of(l.last()) {
                Err(t) => Err(t),
                Ok(form) => Ok(forms.push(form)),
            },
        }
    }
}

/// What a node says of itself in a dictionary, or what is wrong with it.
pub open spec fn node_info_in(m: Map<Seq<u8>, Value>) -> Result<
    (Seq<char>, Seq<FormModel>),
    Seq<char>,
> {
    match name_at(m, "myAddr"@) {
        Err(t) => Err(t),
        Ok(my_addr) => match object::list_at(m, "encodingScheme"@) {
            Err(e) => Err(entry_flaw("encodingScheme"@, e)),
            Ok(l) => match forms_of(l) {
                Err(t) => Err(t),
                Ok(forms) => Ok((my_addr, forms)),
            },
        },
    }
}

fn flaw_text(name: &str, e: EntryError) -> (r: String)
    ensures
        r@ == entry_flaw(name@, e),
{
    match e {
        EntryError::Missing => "missing entry: ".to_owned().concat(name),
        EntryError::WrongType => "unexpected type of entry: ".to_owned().concat(name),
    }
}

fn read_byte(d: &Dict, name: &str) -> (r: Result<u8, String>)
    ensures
        match byte_at(d@, name@) {
            Ok(b) => r == Ok::<u8, String>(b),
            Err(t) => r is Err && r->Err_0@ == t,
        },
{
    match d.get_int(name) {
        Ok(i) => if 0 <= i && i <= 255 {
            Ok(i as u8)
        } else {
            Err("number out of range in entry: ".to_owned().concat(name))
        },
        Err(e) => Err(flaw_text(name, e)),
    }
}

fn read_name(d: &Dict, name: &str) -> (r: Result<String, String>)
    ensures
        match name_at(d@, name@) {
            Ok(t) => r is Ok && r->Ok_0@ == t,
            Err(t) => r is Err && r->Err_0@ == t,
        },
{
    match d.get_text(name) {
        Ok(t) => Ok(t.to_owned()),
        Err(e) => Err(flaw_text(name, e)),
    }
}

impl EncForm {
    /// Reads a form.
    pub fn try_from(d: &Dict) -> (r: Result<EncForm, String>)
        ensures
            match form_in(d@) {
                Ok(f) => r is Ok && r->Ok_0@ == f,
                Err(t) => r is Err && r->Err_0@ == t,
            },
    {
        let prefix_len: u8 = match read_byte(d, "prefixLen") {
            Ok(b) => b,
            Err(e) => {
                return Err(e);
            },
        };
        let prefix: String = match read_name(d, "prefix") {
            Ok(t) => t,
            Err(e) => {
                return Err(e);
            },
        };
        match read_byte(d, "bitCount") {
            Ok(bit_count) => Ok(EncForm { prefix_len, prefix, bit_count }),
            Err(e) => Err(e),
        }
    }
}

proof fn lemma_flaw_stays(l: Seq<Value>, i: int)
    requires
        0 <= i <= l.len(),
        forms_of(l.take(i)) is Err,
    ensures
        forms_of(l) == forms_of(l.take(i)),
    decreases l.len() - i,
{
    if i < l.len() {
        assert(l.take(i + 1).drop_last() =~= l.take(i));
        lemma_flaw_stays(l, i + 1);
    } else {
        assert(l.take(i) =~= l);
    }
}

fn read_forms(l: &Vec<Object>) -> (r: Result<Vec<EncForm>, String>)
    ensures
        match forms_of(object::view_items(l@)) {
            Ok(forms) => r is Ok && view_forms(r->Ok_0@) == forms,
            Err(t) => r is Err && r->Err_0@ == t,
        },
{
    let ghost values = object::view_items(l@);
    let mut out: Vec<EncForm> = Vec::new();
    let mut i: usize = 0;
    proof {
        assert(values.take(0) =~= Seq::<Value>::empty());
        assert(view_forms(out@) =~= Seq::<FormModel>::empty());
    }
    while i < l.len()
        invariant
            i <= l@.len(),
            values == object::view_items(l@),
            values.len() == l@.len(),
            forms_of(values.take(i as int)) == Ok::<Seq<FormModel>, Seq<char>>(view_forms(out@)),
        decreases l@.len() - i,
    {
        proof {
            assert(values.take(i + 1).drop_last() =~= values.take(i as int));
            assert(values.take(i + 1).last() == l@[i as int]@);
        }
        let form: Result<EncForm, String> = match l[i].as_dict() {
            Some(d) => EncForm::try_from(d),
            None => Err("encoding form is not a dict".to_owned()),
        };
        match form {
            Ok(form) => {
                let ghost before = out@;
                out.push(form);
                assert(view_forms(out@) =~= view_forms(before).push(form@));
            },
            Err(e) => {
                proof {
                    lemma_flaw_stays(values, i + 1);
                }
                return Err(e);
            },
        }
        i = i + 1;
    }
    assert(values.take(i as int) =~= values);
    Ok(out)
}

impl CoreNodeInfoPayload {
    /// Reads what a node says of itself.
    pub fn try_from(d: &Dict) -> (r: Result<CoreNodeInfoPayload, String>)
        ensures
            match node_info_in(d@) {
                Ok((my_addr, forms)) => r is Ok && r->Ok_0.my_addr@ == my_addr && view_forms(
                    r->Ok_0.encoding_scheme@,
                ) == forms,
                Err(t) => r is Err && r->Err_0@ == t,
            },
    {
        let my_addr: String = match read_name(d, "myAddr") {
            Ok(t) => t,
            Err(e) => {
                return Err(e);
            },
        };
        let l: &Vec<Object> = match d.get_list("encodingScheme") {
            Ok(l) => l,
            Err(e) => {
                return Err(flaw_text("encodingScheme", e));
            },
        };
        match read_forms(l) {
            Ok(encoding_scheme) => Ok(CoreNodeInfoPayload { my_addr, encoding_scheme }),
            Err(e) => Err(e),
        }
    }
}

/// The 32 bit number that hexadecimal digits stand for, with or without a plus sign before
/// them.
pub open spec fn hex_number(s: Seq<u8>) -> Option<u32> {
    let digits = if s.len() > 0 && s[0] == 43 {
        s.drop_first()
    } else {
        s
    };
    match number::read_number(digits, 16) {
        Some(n) => if n <= u32::MAX {
            Some(n as u32)
        } else {
            None
        },
        None => None,
    }
}

/// What `u32::from_str_radix` says of a text that is no hexadecimal number of 32 bits.
pub uninterp spec fn hex_flaw(t: Seq<char>) -> Seq<char>;

/// Calls `u32::from_str_radix` with radix 16. It takes an optional plus sign and then
/// digits only, in upper or lower case, and fails on anything else and on a number of
/// more than 32 bits. What the error says depends on the text alone.
#[verifier::external_body]
fn read_hex(t: &str) -> (r: Result<u32, String>)
    ensures
        match hex_number(encode_utf8(t@)) {
            Some(n) => r == Ok::<u32, String>(n),
            None => r is Err && r->Err_0@ == hex_flaw(t@),
        },
{
    match u32::from_str_radix(t, 16) {
        Ok(n) => Ok(n),
        Err(e) => Err(e.to_string()),
    }
}

/// The prefix of a form as a number, given what came of reading it.
pub fn prefix_or_flaw(prefix: Result<u32, String>) -> (r: Result<u32, String>)
    ensures
        match prefix {
            Ok(n) => r == Ok::<u32, String>(n),
            Err(e) => r is Err && r->Err_0@ == "bad prefix: "@ + e@,
        },
{
    match prefix {
        Ok(n) => Ok(n),
        Err(e) => Err("bad prefix: ".to_owned().concat(e.as_str())),
    }
}

impl EncForm {
    /// The prefix as a number.
    pub fn prefix_number(&self) -> (r: Result<u32, String>)
        ensures
            match hex_number(encode_utf8(self.prefix@)) {
                Some(n) => r == Ok::<u32, String>(n),
                None => r is Err && r->Err_0@ == "bad prefix: "@ + hex_flaw(self.prefix@),
            },
    {
        prefix_or_flaw(read_hex(self.prefix.as_str()))
    }

    /// Makes a form of an encoding scheme: `try_new` takes the number of bits, the number
    /// of bits of the prefix, and the prefix.
    pub fn try_into_form<Form, F: Fn(u8, u8, u32) -> Result<Form, String>>(&self, try_new: &F) -> (r:
        Result<Form, String>)
        requires
            forall|a: u8, b: u8, c: u32| call_requires(try_new, (a, b, c)),
        ensures
            is_form(self@, *try_new, r),
    {
        let prefix: u32 = match self.prefix_number() {
            Ok(n) => n,
            Err(e) => {
                return Err(e);
            },
        };
        let made: Result<Form, String> = try_new(self.bit_count, self.prefix_len, prefix);
        assert(call_ensures(try_new, (self.bit_count, self.prefix_len, prefix), made));
        match made {
            Ok(form) => Ok(form),
            Err(e) => Err("bad encoding form: ".to_owned().concat(e.as_str())),
        }
    }
}

/// `r` is the form of an encoding scheme that is described, made with `try_new`, or why
/// there is none.
pub open spec fn is_form<Form, F: Fn(u8, u8, u32) -> Result<Form, String>>(
    form: FormModel,
    try_new: F,
    r: Result<Form, String>,
) -> bool {
    match hex_number(encode_utf8(form.prefix)) {
        None => r is Err && r->Err_0@ == "bad prefix: "@ + hex_flaw(form.prefix),
        Some(prefix) => exists|made: Result<Form, String>|
            {
                &&& #[trigger] call_ensures(
                    try_new,
                    (form.bit_count, form.prefix_len, prefix),
                    made,
                )
                &&& match made {
                    Ok(f) => r == Ok::<Form, String>(f),
                    Err(e) => r is Err && r->Err_0@ == "bad encoding form: "@ + e@,
                }
            },
    }
}

/// The first `built.len()` descriptions give the forms in `built`.
pub open spec fn are_forms<Form, F: Fn(u8, u8, u32) -> Result<Form, String>>(
    forms: Seq<FormModel>,
    try_new: F,
    built: Seq<Form>,
) -> bool {
    &&& built.len() <= forms.len()
    &&& forall|i: int|
        0 <= i < built.len() ==> is_form(forms[i], try_new, Ok::<Form, String>(#[trigger] built[i]))
}

/// `r` is the encoding scheme of the forms, made with `try_form` and `try_scheme`, or what is
/// wrong with the first bad form or with all of them together.
pub open spec fn is_scheme<
    Form,
    Scheme,
    F: Fn(u8, u8, u32) -> Result<Form, String>,
    G: FnOnce(&Vec<Form>) -> Result<Scheme, String>,
>(forms: Seq<FormModel>, try_form: F, try_scheme: G, r: Result<Scheme, String>) -> bool {
    exists|built: Vec<Form>|
        {
            &&& #[trigger] are_forms(forms, try_form, built@)
            &&& if built@.len() == forms.len() {
                call_ensures(try_scheme, (&built,), r)
            } else {
                r is Err && is_form(
                    forms[built@.len() as int],
                    try_form,
                    Err::<Form, String>(r->Err_0),
                )
            }
        }
}

/// Makes an encoding scheme of its forms.
pub fn try_parse_encoding_scheme<
    Form,
    Scheme,
    F: Fn(u8, u8, u32) -> Result<Form, String>,
    G: FnOnce(&Vec<Form>) -> Result<Scheme, String>,
>(encoding_scheme: &Vec<EncForm>, try_form: F, try_scheme: G) -> (r: Result<Scheme, String>)
    requires
        forall|a: u8, b: u8, c: u32| call_requires(try_form, (a, b, c)),
        forall|forms: &Vec<Form>| call_requires(try_scheme, (forms,)),
    ensures
        is_scheme(view_forms(encoding_scheme@), try_form, try_scheme, r),
{
    let ghost forms = view_forms(encoding_scheme@);
    let mut built: Vec<Form> = Vec::new();
    while built.len() < encoding_scheme.len()
        invariant
            forms == view_forms(encoding_scheme@),
            are_forms(forms, try_form, built@),
            forall|a: u8, b: u8, c: u32| call_requires(try_form, (a, b, c)),
        decreases encoding_scheme@.len() - built@.len(),
    {
        let i: usize = built.len();
        match encoding_scheme[i].try_into_form(&try_form) {
            Ok(form) => {
                built.push(form);
            },
            Err(e) => {
                assert(is_form(forms[built@.len() as int], try_form, Err::<Form, String>(e)));
                assert(are_forms(forms, try_form, built@));
                return Err(e);
            },
        }
    }
    let r: Result<Scheme, String> = try_scheme(&built);
    assert(are_forms(forms, try_form, built@));
    r
}

/// What is wrong with an entry is told with its name.
pub proof fn law_entry_flaw_names_the_entry(name: Seq<char>)
    ensures
        entry_flaw(name, EntryError::Missing) == "missing entry: "@ + name,
        entry_flaw(name, EntryError::WrongType) == "unexpected type of entry: "@ + name,
{
}

/// A number that a byte holds is read as it is, and no other number is.
pub proof fn law_bytes_are_read(m: Map<Seq<u8>, Value>, name: Seq<char>, i: i64)
    ensures
        ({
            let n = m.insert(encode_utf8(name), Value::Int(i));
            if 0 <= i <= 255 {
                byte_at(n, name) is Ok && byte_at(n, name)->Ok_0 == i
            } else {
                byte_at(n, name) == Err::<u8, Seq<char>>("number out of range in entry: "@ + name)
            }
        }),
        object::int_at(m, name) is Err ==> byte_at(m, name) == Err::<u8, Seq<char>>(
            entry_flaw(name, object::int_at(m, name)->Err_0),
        ),
{
    object::law_written_entry_is_read(m, name, Value::Int(i));
}

/// A text is read as it is.
pub proof fn law_names_are_read(m: Map<Seq<u8>, Value>, name: Seq<char>, t: Seq<char>)
    ensures
        name_at(m.insert(encode_utf8(name), Value::Bytes(encode_utf8(t))), name) == Ok::<
            Seq<char>,
            Seq<char>,
        >(t),
        object::text_at(m, name) is Err ==> name_at(m, name) == Err::<Seq<char>, Seq<char>>(
            entry_flaw(name, object::text_at(m, name)->Err_0),
        ),
{
    object::law_written_text_is_read(m, name, t);
}

/// A form is made of its three entries, each as it is; it is bad exactly where one of them is,
/// and then for the reason of the first bad one.
pub proof fn law_form_is_its_entries(m: Map<Seq<u8>, Value>)
    ensures
        ({
            let (len, prefix, count) = (
                byte_at(m, "prefixLen"@),
                name_at(m, "prefix"@),
                byte_at(m, "bitCount"@),
            );
            let f = form_in(m);
            &&& f is Ok <==> len is Ok && prefix is Ok && count is Ok
            &&& f is Ok ==> f->Ok_0.prefix_len == len->Ok_0 && f->Ok_0.prefix == prefix->Ok_0
                && f->Ok_0.bit_count == count->Ok_0
            &&& len is Err ==> f->Err_0 == len->Err_0
            &&& len is Ok && prefix is Err ==> f->Err_0 == prefix->Err_0
            &&& len is Ok && prefix is Ok && count is Err ==> f->Err_0 == count->Err_0
            &&& form_of(Value::Dict(m)) == f
        }),
{
}

/// What is no dictionary describes no form.
pub proof fn law_form_is_a_dictionary(v: Value)
    ensures
        !(v is Dict) ==> form_of(v) == Err::<FormModel, Seq<char>>("encoding form is not a dict"@),
        form_of(v) is Ok ==> v is Dict,
{
}

/// A list of forms is read form by form, in order: all of them, or up to the first bad one.
pub proof fn law_forms_are_read_in_order(l: Seq<Value>)
    ensures
        forms_of(l) matches Ok(forms) ==> forms.len() == l.len() && forall|i: int|
            0 <= i < l.len() ==> form_of(l[i]) == Ok::<FormModel, Seq<char>>(#[trigger] forms[i]),
        forms_of(l) matches Err(t) ==> exists|i: int|
            0 <= i < l.len() && form_of(#[trigger] l[i]) == Err::<FormModel, Seq<char>>(t)
                && forall|j: int| 0 <= j < i ==> form_of(#[trigger] l[j]) is Ok,
    decreases l.len(),
{
    if l.len() > 0 {
        let front = l.drop_last();
        law_forms_are_read_in_order(front);
        match forms_of(l) {
            Ok(forms) => {
                let head = forms_of(front)->Ok_0;
                assert forall|i: int| 0 <= i < l.len() implies form_of(l[i]) == Ok::<
                    FormModel,
                    Seq<char>,
                >(#[trigger] forms[i]) by {
                    if i < front.len() {
                        assert(forms[i] == head[i]);
                        assert(l[i] == front[i]);
                    }
                }
            },
            Err(t) => {
                if forms_of(front) is Err {
                    let i = choose|i: int|
                        0 <= i < front.len() && form_of(#[trigger] front[i]) == Err::<
                            FormModel,
                            Seq<char>,
                        >(t) && forall|j: int| 0 <= j < i ==> form_of(#[trigger] front[j]) is Ok;
                    assert(form_of(l[i]) == Err::<FormModel, Seq<char>>(t));
                    assert forall|j: int| 0 <= j < i implies form_of(#[trigger] l[j]) is Ok by {
                        assert(front[j] == l[j]);
                    }
                } else {
                    let head = forms_of(front)->Ok_0;
                    let n = l.len() - 1;
                    assert(form_of(l[n]) == Err::<FormModel, Seq<char>>(t));
                    assert forall|j: int| 0 <= j < n implies form_of(#[trigger] l[j]) is Ok by {
                        assert(front[j] == l[j]);
                        assert(form_of(front[j]) == Ok::<FormModel, Seq<char>>(head[j]));
                    }
                }
            },
        }
    }
}

/// What a node says of itself is its name and its forms, each from the entry of its name.
pub proof fn law_node_info_is_its_entries(m: Map<Seq<u8>, Value>)
    ensures
        ({
            let (name, list) = (name_at(m, "myAddr"@), object::list_at(m, "encodingScheme"@));
            let r = node_info_in(m);
            &&& r is Ok <==> name is Ok && list is Ok && forms_of(list->Ok_0) is Ok
            &&& r is Ok ==> r->Ok_0.0 == name->Ok_0 && r->Ok_0.1 == forms_of(list->Ok_0)->Ok_0
            &&& name is Err ==> r->Err_0 == name->Err_0
            &&& name is Ok && list is Err ==> r->Err_0 == entry_flaw(
                "encodingScheme"@,
                list->Err_0,
            )
            &&& name is Ok && list is Ok && forms_of(list->Ok_0) is Err ==> r->Err_0 == forms_of(
                list->Ok_0,
            )->Err_0
        }),
{
}

/// Forms stand for what they hold, one for one.
pub proof fn law_forms_stand_for_what_they_hold(forms: Seq<EncForm>, i: int)
    requires
        0 <= i < forms.len(),
    ensures
        view_forms(forms).len() == forms.len(),
        view_forms(forms)[i].prefix_len == forms[i].prefix_len,
        view_forms(forms)[i].prefix == forms[i].prefix@,
        view_forms(forms)[i].bit_count == forms[i].bit_count,
{
}

/// Hexadecimal digits stand for their number, with a plus sign before them or without, as long
/// as 32 bits hold it; anything else stands for none.
pub proof fn law_hex_number_is_exact(digits: Seq<u8>)
    requires
        digits.len() > 0 ==> digits[0] != 43,
    ensures
        hex_number(seq![43u8] + digits) == hex_number(digits),
        hex_number(digits) is Some <==> number::read_number(digits, 16) is Some
            && number::read_number(digits, 16)->Some_0 <= u32::MAX,
        hex_number(digits) matches Some(n) ==> n == number::digits_value(digits, 16),
{
    assert((seq![43u8] + digits).drop_first() =~= digits);
}

/// A form that is made is made of the two counts and the number that the prefix stands for, and
/// of nothing else; where it is not made, the reason is told.
pub proof fn law_form_is_made_of_its_parts<Form, F: Fn(u8, u8, u32) -> Result<Form, String>>(
    form: FormModel,
    try_new: F,
    r: Result<Form, String>,
)
    requires
        is_form(form, try_new, r),
    ensures
        ({
            let n = hex_number(encode_utf8(form.prefix));
            &&& n is None ==> r is Err && r->Err_0@ == "bad prefix: "@ + hex_flaw(form.prefix)
            &&& r is Ok ==> n is Some && call_ensures(
                try_new,
                (form.bit_count, form.prefix_len, n->Some_0),
                r,
            )
            &&& r is Err && n is Some ==> exists|e: String|
                r->Err_0@ == "bad encoding form: "@ + e@ && #[trigger] call_ensures(
                    try_new,
                    (form.bit_count, form.prefix_len, n->Some_0),
                    Err::<Form, String>(e),
                )
        }),
{
    let n = hex_number(encode_utf8(form.prefix));
    if n is Some {
        let made = choose|made: Result<Form, String>|
            {
                &&& #[trigger] call_ensures(
                    try_new,
                    (form.bit_count, form.prefix_len, n->Some_0),
                    made,
                )
                &&& match made {
                    Ok(f) => r == Ok::<Form, String>(f),
                    Err(e) => r is Err && r->Err_0@ == "bad encoding form: "@ + e@,
                }
            };
        match made {
            Ok(f) => {
                assert(made == r);
            },
            Err(e) => {
                assert(call_ensures(
                    try_new,
                    (form.bit_count, form.prefix_len, n->Some_0),
                    Err::<Form, String>(e),
                ));
            },
        }
    }
}

/// A scheme is made of all forms, each made of its description, in their order; where there is
/// none, a form or the scheme could not be made.
pub proof fn law_scheme_is_made_of_all_forms<
    Form,
    Scheme,
    F: Fn(u8, u8, u32) -> Result<Form, String>,
    G: FnOnce(&Vec<Form>) -> Result<Scheme, String>,
>(forms: Seq<FormModel>, try_form: F, try_scheme: G, r: Result<Scheme, String>)
    requires
        is_scheme(forms, try_form, try_scheme, r),
    ensures
        exists|built: Vec<Form>|
            #![trigger built@]
            {
                &&& built@.len() <= forms.len()
                &&& forall|i: int|
                    0 <= i < built@.len() ==> is_form(
                        forms[i],
                        try_form,
                        Ok::<Form, String>(#[trigger] built@[i]),
                    )
                &&& built@.len() == forms.len() ==> call_ensures(try_scheme, (&built,), r)
                &&& built@.len() < forms.len() ==> r is Err && is_form(
                    forms[built@.len() as int],
                    try_form,
                    Err::<Form, String>(r->Err_0),
                )
            },
{
    let built = choose|built: Vec<Form>|
        {
            &&& #[trigger] are_forms(forms, try_form, built@)
            &&& if built@.len() == forms.len() {
                call_ensures(try_scheme, (&built,), r)
            } else {
                r is Err && is_form(
                    forms[built@.len() as int],
                    try_form,
                    Err::<Form, String>(r->Err_0),
                )
            }
        };
    assert(built@.len() <= forms.len());
}

} // verus!
