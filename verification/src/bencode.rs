//! Bencode, the encoding of admin messages on the wire.
//!
//! An integer is `i`, its decimal text and `e`; a byte string is its length in
//! decimal, `:` and its bytes; a list is `l`, its items and `e`; a dictionary is
//! `d`, its keys and values in ascending order of keys, and `e`. Numbers have no
//! superfluous zeros. When reading, the entries of a dictionary may stand in any
//! order, and of several entries under one key the last one counts.

use vstd::prelude::*;

use crate::number;
use crate::object;
use crate::object::{Dict, Object, Value};

verus! {

/// `:`
pub const COLON: u8 = 58;

/// `d`
pub const DICT: u8 = 100;

/// `e`
pub const END: u8 = 101;

/// `i`
pub const INT: u8 = 105;

/// `l`
pub const LIST: u8 = 108;

/// `-`
pub const MINUS: u8 = 45;

/// The encoding of a byte string.
pub open spec fn encode_bytes(b: Seq<u8>) -> Seq<u8> {
    number::decimal(b.len()) + seq![COLON] + b
}

/// The encoding of a value.
pub open spec fn encode(v: Value) -> Seq<u8>
    decreases v, 0nat,
{
    match v {
        Value::Int(i) => seq![INT] + number::decimal_int(i as int) + seq![END],
        Value::Bytes(b) => encode_bytes(b),
        Value::List(l) => seq![LIST] + encode_items(l) + seq![END],
        Value::Dict(m) => seq![DICT] + encode_entries(m, object::sorted_keys(m)) + seq![END],
    }
}

/// The encodings of the items of a list, one after another.
pub open spec fn encode_items(l: Seq<Value>) -> Seq<u8>
    decreases l, l.len(),
{
    if l.len() == 0 {
        Seq::empty()
    } else {
        encode(l[0]) + encode_items(l.drop_first())
    }
}

/// The encodings of entries of a dictionary, one after another.
pub open spec fn encode_entries(m: Map<Seq<u8>, Value>, keys: Seq<Seq<u8>>) -> Seq<u8>
    decreases m, keys.len(),
{
    if keys.len() == 0 || !m.dom().finite() || !m.dom().contains(keys[0]) {
        Seq::empty()
    } else {
        encode_bytes(keys[0]) + encode(m[keys[0]]) + encode_entries(m, keys.drop_first())
    }
}

/// Where `b` first stands in `s` from `pos` on.
pub open spec fn first_index(s: Seq<u8>, b: u8, pos: int) -> Option<int>
    decreases s.len() - pos,
{
    if pos < 0 || pos >= s.len() {
        None
    } else if s[pos] == b {
        Some(pos)
    } else {
        first_index(s, b, pos + 1)
    }
}

/// The integer that a decimal text without superfluous zeros stands for.
pub open spec fn int_of_text(t: Seq<u8>) -> Option<i64> {
    if t.len() > 0 && t[0] == MINUS {
        let digits = t.drop_first();
        if number::is_decimal(digits) && number::digits_value(digits, 10) > 0 {
            number::signed_value(true, number::digits_value(digits, 10))
        } else {
            None
        }
    } else if number::is_decimal(t) {
        number::signed_value(false, number::digits_value(t, 10))
    } else {
        None
    }
}

/// Reads the integer that starts at `pos`: its value, and where it ends.
pub open spec fn parse_int(s: Seq<u8>, pos: int) -> Option<(i64, int)> {
    match first_index(s, END, pos + 1) {
        Some(end) => match int_of_text(s.subrange(pos + 1, end)) {
            Some(i) => Some((i, end + 1)),
            None => None,
        },
        None => None,
    }
}

/// Reads the byte string that starts at `pos`: its bytes, and where it ends.
pub open spec fn parse_bytes(s: Seq<u8>, pos: int) -> Option<(Seq<u8>, int)> {
    match first_index(s, COLON, pos) {
        Some(colon) => {
            let digits = s.subrange(pos, colon);
            let end = colon + 1 + number::digits_value(digits, 10);
            if number::is_decimal(digits) && end <= s.len() {
                Some((s.subrange(colon + 1, end), end))
            } else {
                None
            }
        },
        None => None,
    }
}

/// Reads the value that starts at `pos`: the value, and where it ends. Lists and
/// dictionaries may stand inside each other `depth` deep.
pub open spec fn parse_value(s: Seq<u8>, pos: int, depth: nat) -> Option<(Value, int)>
    decreases depth, s.len() - pos, 0nat,
{
    if pos < 0 || pos >= s.len() {
        None
    } else if s[pos] == INT {
        match parse_int(s, pos) {
            Some((i, end)) => Some((Value::Int(i), end)),
            None => None,
        }
    } else if s[pos] == LIST {
        if depth == 0 {
            None
        } else {
            match parse_items(s, pos + 1, (depth - 1) as nat, Seq::empty()) {
                Some((l, end)) => Some((Value::List(l), end)),
                None => None,
            }
        }
    } else if s[pos] == DICT {
        if depth == 0 {
            None
        } else {
            match parse_entries(s, pos + 1, (depth - 1) as nat, Map::empty()) {
                Some((m, end)) => Some((Value::Dict(m), end)),
                None => None,
            }
        }
    } else {
        match parse_bytes(s, pos) {
            Some((b, end)) => Some((Value::Bytes(b), end)),
            None => None,
        }
    }
}

/// Reads items from `pos` up to the end of their list, behind those already read.
pub open spec fn parse_items(s: Seq<u8>, pos: int, depth: nat, read: Seq<Value>) -> Option<
    (Seq<Value>, int),
>
    decreases depth, s.len() - pos, 1nat,
{
    if pos < 0 || pos >= s.len() {
        None
    } else if s[pos] == END {
        Some((read, pos + 1))
    } else {
        match parse_value(s, pos, depth) {
            Some((v, next)) => if pos < next <= s.len() {
                parse_items(s, next, depth, read.push(v))
            } else {
                None
            },
            None => None,
        }
    }
}

/// Reads entries from `pos` up to the end of their dictionary, over those already
/// read.
pub open spec fn parse_entries(
    s: Seq<u8>,
    pos: int,
    depth: nat,
    read: Map<Seq<u8>, Value>,
) -> Option<(Map<Seq<u8>, Value>, int)>
    decreases depth, s.len() - pos, 1nat,
{
    if pos < 0 || pos >= s.len() {
        None
    } else if s[pos] == END {
        Some((read, pos + 1))
    } else {
        match parse_bytes(s, pos) {
            Some((k, middle)) => if pos < middle <= s.len() {
                match parse_value(s, middle, depth) {
                    Some((v, next)) => if middle < next <= s.len() {
                        parse_entries(s, next, depth, read.insert(k, v))
                    } else {
                        None
                    },
                    None => None,
                }
            } else {
                None
            },
            None => None,
        }
    }
}

/// Finds the first `b` in `s` from `pos` on.
fn find_byte(s: &[u8], b: u8, pos: usize) -> (r: Option<usize>)
    ensures
        match first_index(s@, b, pos as int) {
            Some(i) => r is Some && r->Some_0 == i && pos <= i < s@.len(),
            None => r is None,
        },
{
    let mut i: usize = pos;
    while i < s.len()
        invariant
            pos <= i,
            first_index(s@, b, pos as int) == first_index(s@, b, i as int),
        decreases s@.len() - i,
    {
        if s[i] == b {
            return Some(i);
        }
        i = i + 1;
    }
    None
}

/// Reads a decimal text without superfluous zeros. `None` also for a number that
/// does not fit.
fn read_decimal(t: &[u8]) -> (r: Option<u64>)
    ensures
        r matches Some(n) ==> number::is_decimal(t@) && n == number::digits_value(t@, 10),
        r is None ==> !number::is_decimal(t@) || number::digits_value(t@, 10) > u64::MAX,
{
    if t.len() > 1 && t[0] == 48 {
        None
    } else {
        number::read_digits(t)
    }
}

/// Reads the integer that starts at `pos`.
fn read_int(s: &[u8], pos: usize) -> (r: Option<(i64, usize)>)
    requires
        pos < s@.len(),
    ensures
        match parse_int(s@, pos as int) {
            Some((i, end)) => r is Some && r->Some_0.0 == i && r->Some_0.1 == end && pos < end
                <= s@.len(),
            None => r is None,
        },
{
    let total: usize = s.len();
    let end: usize = match find_byte(s, END, pos + 1) {
        Some(end) => end,
        None => {
            return None;
        },
    };
    let t: &[u8] = vstd::slice::slice_subrange(s, pos + 1, end);
    let i: Option<i64> = if t.len() > 0 && t[0] == MINUS {
        let digits: &[u8] = vstd::slice::slice_subrange(t, 1, t.len());
        assert(digits@ =~= t@.drop_first());
        match read_decimal(digits) {
            Some(n) => if n > 0 {
                number::signed(true, n)
            } else {
                None
            },
            None => None,
        }
    } else {
        match read_decimal(t) {
            Some(n) => number::signed(false, n),
            None => None,
        }
    };
    match i {
        Some(i) => Some((i, end + 1)),
        None => None,
    }
}

/// Reads the byte string that starts at `pos`.
fn read_bytes(s: &[u8], pos: usize) -> (r: Option<(Vec<u8>, usize)>)
    requires
        pos < s@.len(),
    ensures
        match parse_bytes(s@, pos as int) {
            Some((b, end)) => r is Some && r->Some_0.0@ == b && r->Some_0.1 == end && pos < end
                <= s@.len(),
            None => r is None,
        },
{
    let total: usize = s.len();
    let colon: usize = match find_byte(s, COLON, pos) {
        Some(colon) => colon,
        None => {
            return None;
        },
    };
    match read_decimal(vstd::slice::slice_subrange(s, pos, colon)) {
        Some(n) => {
            let start: usize = colon + 1;
            if n <= (total - start) as u64 {
                let end: usize = start + n as usize;
                let b: Vec<u8> = vstd::slice::slice_to_vec(
                    vstd::slice::slice_subrange(s, start, end),
                );
                Some((b, end))
            } else {
                None
            }
        },
        None => None,
    }
}

/// Reads the value that starts at `pos`.
fn read_value(s: &[u8], pos: usize, depth: u32) -> (r: Option<(Object, usize)>)
    requires
        pos <= s@.len(),
    ensures
        match parse_value(s@, pos as int, depth as nat) {
            Some((v, end)) => r is Some && r->Some_0.0@ == v && r->Some_0.1 == end && pos < end
                <= s@.len(),
            None => r is None,
        },
    decreases depth,
{
    if pos >= s.len() {
        None
    } else if s[pos] == INT {
        match read_int(s, pos) {
            Some((i, end)) => Some((Object::Int(i), end)),
            None => None,
        }
    } else if s[pos] == LIST {
        if depth == 0 {
            return None;
        }
        let mut items: Vec<Object> = Vec::new();
        let mut next: usize = pos + 1;
        assert(object::view_items(items@) =~= Seq::<Value>::empty());
        while next < s.len() && s[next] != END
            invariant
                depth > 0,
                pos < next <= s@.len(),
                s@[pos as int] == LIST,
                parse_items(s@, pos + 1, (depth - 1) as nat, Seq::empty()) == parse_items(
                    s@,
                    next as int,
                    (depth - 1) as nat,
                    object::view_items(items@),
                ),
            decreases s@.len() - next,
        {
            match read_value(s, next, depth - 1) {
                Some((v, end)) => {
                    let ghost before = items@;
                    items.push(v);
                    next = end;
                    assert(object::view_items(items@) =~= object::view_items(before).push(v@));
                },
                None => {
                    return None;
                },
            }
        }
        if next < s.len() {
            Some((Object::List(items), next + 1))
        } else {
            None
        }
    } else if s[pos] == DICT {
        if depth == 0 {
            return None;
        }
        let mut dict: Dict = Dict::new();
        let mut next: usize = pos + 1;
        while next < s.len() && s[next] != END
            invariant
                depth > 0,
                pos < next <= s@.len(),
                s@[pos as int] == DICT,
                parse_entries(s@, pos + 1, (depth - 1) as nat, Map::empty()) == parse_entries(
                    s@,
                    next as int,
                    (depth - 1) as nat,
                    dict@,
                ),
            decreases s@.len() - next,
        {
            match read_bytes(s, next) {
                Some((k, middle)) => match read_value(s, middle, depth - 1) {
                    Some((v, end)) => {
                        dict.insert_bytes(k, v);
                        next = end;
                    },
                    None => {
                        return None;
                    },
                },
                None => {
                    return None;
                },
            }
        }
        if next < s.len() {
            Some((Object::Dict(dict), next + 1))
        } else {
            None
        }
    } else {
        match read_bytes(s, pos) {
            Some((b, end)) => Some((Object::Bytes(b), end)),
            None => None,
        }
    }
}

/// Reads the value at the start of `s`, with lists and dictionaries inside each other
/// at most `depth` deep. What follows the value is left unread.
pub fn parse(s: &[u8], depth: u32) -> (r: Option<Object>)
    ensures
        match parse_value(s@, 0, depth as nat) {
            Some((v, _)) => r is Some && r->Some_0@ == v,
            None => r is None,
        },
{
    match read_value(s, 0, depth) {
        Some((v, _)) => Some(v),
        None => None,
    }
}

/// Appends the encoding of a byte string.
fn write_bytes(b: &Vec<u8>, out: &mut Vec<u8>)
    ensures
        final(out)@ == old(out)@ + encode_bytes(b@),
{
    let mut length: Vec<u8> = number::decimal_bytes(b.len() as u64);
    out.append(&mut length);
    out.push(COLON);
    out.extend_from_slice(b.as_slice());
    assert(out@ =~= old(out)@ + encode_bytes(b@));
}

proof fn lemma_listed_finite(m: Map<Seq<u8>, Value>)
    requires
        object::is_listed(m),
    ensures
        m.dom().finite(),
{
    let keys = object::sorted_keys(m);
    assert(m.dom() =~= keys.to_set());
    vstd::seq_lib::seq_to_set_is_finite(keys);
}

/// Appends the encoding of an object.
fn write_object(o: &Object, out: &mut Vec<u8>)
    ensures
        final(out)@ == old(out)@ + encode(o@),
    decreases o,
{
    match o {
        Object::Int(i) => {
            let mut digits: Vec<u8> = number::decimal_int_bytes(*i);
            out.push(INT);
            out.append(&mut digits);
            out.push(END);
            assert(out@ =~= old(out)@ + encode(o@));
        },
        Object::Bytes(b) => {
            write_bytes(b, out);
        },
        Object::List(l) => {
            out.push(LIST);
            let ghost values = object::view_items(l@);
            let mut i: usize = 0;
            assert(values.skip(0) =~= values);
            while i < l.len()
                invariant
                    i <= l@.len(),
                    values == object::view_items(l@),
                    out@ + encode_items(values.skip(i as int)) =~= old(out)@ + seq![LIST]
                        + encode_items(values),
                    decreases_to!(o => l),
                decreases l@.len() - i,
            {
                write_object(&l[i], out);
                assert(values.skip(i as int).drop_first() =~= values.skip(i + 1));
                i = i + 1;
            }
            assert(values.skip(i as int) =~= Seq::<Value>::empty());
            out.push(END);
            assert(out@ =~= old(out)@ + encode(o@));
        },
        Object::Dict(d) => {
            write_dict(d, out);
        },
    }
}

/// Appends the encoding of a dictionary.
fn write_dict(d: &Dict, out: &mut Vec<u8>)
    ensures
        final(out)@ == old(out)@ + encode(Value::Dict(d@)),
    decreases d,
{
    out.push(DICT);
    let n: usize = d.len();
    let ghost keys = object::sorted_keys(d@);
    proof {
        lemma_listed_finite(d@);
    }
    let mut i: usize = 0;
    assert(keys.skip(0) =~= keys);
    while i < n
        invariant
            i <= n == keys.len(),
            keys == object::sorted_keys(d@),
            d@.dom().finite(),
            out@ + encode_entries(d@, keys.skip(i as int)) =~= old(out)@ + seq![DICT]
                + encode_entries(d@, keys),
        decreases n - i,
    {
        let (k, v) = d.entry(i);
        write_bytes(k, out);
        write_object(v, out);
        assert(keys.skip(i as int).drop_first() =~= keys.skip(i + 1));
        i = i + 1;
    }
    assert(keys.skip(i as int) =~= Seq::<Seq<u8>>::empty());
    out.push(END);
    assert(out@ =~= old(out)@ + encode(Value::Dict(d@)));
}

/// Encodes a dictionary.
pub fn serialize(d: &Dict) -> (r: Vec<u8>)
    ensures
        r@ == encode(Value::Dict(d@)),
{
    let mut out: Vec<u8> = Vec::new();
    write_dict(d, &mut out);
    assert(out@ =~= encode(Value::Dict(d@)));
    out
}

/// Lists and dictionaries stand inside each other at most `depth` deep in `v`, and
/// its dictionaries have finitely many keys.
pub open spec fn nests_within(v: Value, depth: nat) -> bool
    decreases depth,
{
    match v {
        Value::Int(_) => true,
        Value::Bytes(_) => true,
        Value::List(l) => {
            &&& depth > 0
            &&& forall|i: int|
                0 <= i < l.len() ==> nests_within(#[trigger] l[i], (depth - 1) as nat)
        },
        Value::Dict(m) => {
            &&& depth > 0
            &&& object::is_listed(m)
            &&& forall|k: Seq<u8>|
                m.dom().contains(k) ==> nests_within(#[trigger] m[k], (depth - 1) as nat)
        },
    }
}

/// `part` stands in `s` at `pos`.
pub open spec fn stands_at(s: Seq<u8>, pos: int, part: Seq<u8>) -> bool {
    &&& 0 <= pos
    &&& pos + part.len() <= s.len()
    &&& s.subrange(pos, pos + part.len()) == part
}

proof fn lemma_stands_split(s: Seq<u8>, pos: int, a: Seq<u8>, b: Seq<u8>)
    requires
        stands_at(s, pos, a + b),
    ensures
        stands_at(s, pos, a),
        stands_at(s, pos + a.len(), b),
{
    let whole = s.subrange(pos, pos + (a + b).len());
    assert(s.subrange(pos, pos + a.len()) =~= whole.subrange(0, a.len() as int));
    assert((a + b).subrange(0, a.len() as int) =~= a);
    assert(s.subrange(pos + a.len(), pos + a.len() + b.len()) =~= whole.subrange(
        a.len() as int,
        (a + b).len() as int,
    ));
    assert((a + b).subrange(a.len() as int, (a + b).len() as int) =~= b);
}

proof fn lemma_stands_index(s: Seq<u8>, pos: int, part: Seq<u8>, i: int)
    requires
        stands_at(s, pos, part),
        0 <= i < part.len(),
    ensures
        s[pos + i] == part[i],
{
    assert(s.subrange(pos, pos + part.len())[i] == part[i]);
}

proof fn lemma_first_index(s: Seq<u8>, b: u8, pos: int, i: int)
    requires
        0 <= pos <= i < s.len(),
        s[i] == b,
        forall|k: int| pos <= k < i ==> #[trigger] s[k] != b,
    ensures
        first_index(s, b, pos) == Some(i),
    decreases i - pos,
{
    if pos < i {
        assert(s[pos] != b);
        lemma_first_index(s, b, pos + 1, i);
    }
}

proof fn lemma_parse_bytes(s: Seq<u8>, pos: int, b: Seq<u8>)
    requires
        stands_at(s, pos, encode_bytes(b)),
    ensures
        parse_bytes(s, pos) == Some((b, pos + encode_bytes(b).len())),
        number::digit_value(s[pos]) < 10,
{
    let digits = number::decimal(b.len());
    number::lemma_decimal_reads_back(b.len());
    lemma_stands_split(s, pos, digits + seq![COLON], b);
    lemma_stands_split(s, pos, digits, seq![COLON]);
    let colon = pos + digits.len();
    lemma_stands_index(s, colon, seq![COLON], 0);
    assert forall|k: int| pos <= k < colon implies #[trigger] s[k] != COLON by {
        lemma_stands_index(s, pos, digits, k - pos);
        assert(number::digit_value(digits[k - pos]) < 10);
    }
    lemma_stands_index(s, pos, digits, 0);
    assert(number::digit_value(digits[0]) < 10);
    lemma_first_index(s, COLON, pos, colon);
}

proof fn lemma_parse_int(s: Seq<u8>, pos: int, i: i64)
    requires
        stands_at(s, pos, encode(Value::Int(i))),
    ensures
        parse_int(s, pos) == Some((i, pos + encode(Value::Int(i)).len())),
        s[pos] == INT,
{
    let t = number::decimal_int(i as int);
    lemma_stands_split(s, pos, seq![INT] + t, seq![END]);
    lemma_stands_split(s, pos, seq![INT], t);
    lemma_stands_index(s, pos, seq![INT], 0);
    let end = pos + 1 + t.len();
    lemma_stands_index(s, end, seq![END], 0);
    let magnitude: nat = if i < 0 { (-(i as int)) as nat } else { i as nat };
    let digits = number::decimal(magnitude);
    number::lemma_decimal_reads_back(magnitude);
    assert forall|k: int| pos + 1 <= k < end implies #[trigger] s[k] != END by {
        lemma_stands_index(s, pos + 1, t, k - pos - 1);
        if i < 0 {
            if k > pos + 1 {
                assert(t[k - pos - 1] == digits[k - pos - 2]);
                assert(number::digit_value(digits[k - pos - 2]) < 10);
            }
        } else {
            assert(number::digit_value(digits[k - pos - 1]) < 10);
        }
    }
    lemma_first_index(s, END, pos + 1, end);
    assert(s.subrange(pos + 1, end) == t);
    if i < 0 {
        assert(t.drop_first() =~= digits);
    } else {
        assert(number::digit_value(digits[0]) < 10);
    }
}

/// Reading the encoding of a value, wherever it stands, gives the value back and stops
/// behind it.
pub proof fn lemma_parse_gives_back(s: Seq<u8>, pos: int, v: Value, depth: nat)
    requires
        nests_within(v, depth),
        stands_at(s, pos, encode(v)),
    ensures
        parse_value(s, pos, depth) == Some((v, pos + encode(v).len())),
        encode(v).len() > 0,
        s[pos] != END,
    decreases depth, 0nat, 0nat,
{
    match v {
        Value::Int(i) => {
            lemma_parse_int(s, pos, i);
        },
        Value::Bytes(b) => {
            lemma_parse_bytes(s, pos, b);
        },
        Value::List(l) => {
            let inner = encode_items(l);
            lemma_stands_split(s, pos, seq![LIST] + inner, seq![END]);
            lemma_stands_split(s, pos, seq![LIST], inner);
            lemma_stands_index(s, pos, seq![LIST], 0);
            lemma_stands_index(s, pos + 1 + inner.len(), seq![END], 0);
            lemma_parse_items_gives_back(s, pos + 1, l, Seq::empty(), (depth - 1) as nat);
            assert(Seq::<Value>::empty() + l =~= l);
        },
        Value::Dict(m) => {
            let keys = object::sorted_keys(m);
            let inner = encode_entries(m, keys);
            lemma_stands_split(s, pos, seq![DICT] + inner, seq![END]);
            lemma_stands_split(s, pos, seq![DICT], inner);
            lemma_stands_index(s, pos, seq![DICT], 0);
            lemma_stands_index(s, pos + 1 + inner.len(), seq![END], 0);
            lemma_listed_finite(m);
            assert forall|i: int| 0 <= i < keys.len() implies m.dom().contains(#[trigger] keys[i]) by {
                assert(keys.contains(keys[i]));
            }
            lemma_parse_entries_gives_back(s, pos + 1, m, keys, Map::empty(), (depth - 1) as nat);
            lemma_with_entries(Map::empty(), m, keys);
            assert(with_entries(Map::empty(), m, keys) =~= m) by {
                assert forall|k: Seq<u8>|
                    m.dom().contains(k) implies with_entries(Map::empty(), m, keys).dom().contains(
                    k,
                ) by {
                    assert(keys.contains(k));
                }
            }
        },
    }
}

proof fn lemma_parse_items_gives_back(
    s: Seq<u8>,
    pos: int,
    l: Seq<Value>,
    read: Seq<Value>,
    depth: nat,
)
    requires
        forall|i: int| 0 <= i < l.len() ==> nests_within(#[trigger] l[i], depth),
        stands_at(s, pos, encode_items(l)),
        pos + encode_items(l).len() < s.len(),
        s[pos + encode_items(l).len()] == END,
    ensures
        parse_items(s, pos, depth, read) == Some((read + l, pos + encode_items(l).len() + 1)),
    decreases depth, 1nat, l.len(),
{
    if l.len() == 0 {
        assert(read + l =~= read);
    } else {
        let first = encode(l[0]);
        let rest = l.drop_first();
        lemma_stands_split(s, pos, first, encode_items(rest));
        lemma_parse_gives_back(s, pos, l[0], depth);
        assert forall|i: int| 0 <= i < rest.len() implies nests_within(#[trigger] rest[i], depth) by {
            assert(rest[i] == l[i + 1]);
        }
        lemma_parse_items_gives_back(s, pos + first.len(), rest, read.push(l[0]), depth);
        assert(read.push(l[0]) + rest =~= read + l);
    }
}

/// `m` with what `of` holds under `keys` put over it.
spec fn with_entries(
    m: Map<Seq<u8>, Value>,
    of: Map<Seq<u8>, Value>,
    keys: Seq<Seq<u8>>,
) -> Map<Seq<u8>, Value>
    decreases keys.len(),
{
    if keys.len() == 0 {
        m
    } else {
        with_entries(m.insert(keys[0], of[keys[0]]), of, keys.drop_first())
    }
}

proof fn lemma_with_entries(
    m: Map<Seq<u8>, Value>,
    of: Map<Seq<u8>, Value>,
    keys: Seq<Seq<u8>>,
)
    ensures
        forall|k: Seq<u8>|
            #[trigger]
            with_entries(m, of, keys).dom().contains(k) <==> m.dom().contains(k) || keys.contains(
                k,
            ),
        forall|k: Seq<u8>| keys.contains(k) ==> #[trigger] with_entries(m, of, keys)[k] == of[k],
        forall|k: Seq<u8>|
            !keys.contains(k) && m.dom().contains(k) ==> #[trigger] with_entries(m, of, keys)[k]
                == m[k],
    decreases keys.len(),
{
    if keys.len() > 0 {
        let m2 = m.insert(keys[0], of[keys[0]]);
        let rest = keys.drop_first();
        lemma_with_entries(m2, of, rest);
        assert forall|k: Seq<u8>| #[trigger] keys.contains(k) <==> k == keys[0] || rest.contains(k) by {
            if keys.contains(k) && k != keys[0] {
                let i = choose|i: int| 0 <= i < keys.len() && keys[i] == k;
                assert(rest[i - 1] == k);
            }
            if rest.contains(k) {
                let i = choose|i: int| 0 <= i < rest.len() && rest[i] == k;
                assert(keys[i + 1] == k);
            }
            assert(keys.contains(keys[0]));
        }
        let after = with_entries(m2, of, rest);
        assert(with_entries(m, of, keys) == after);
        assert forall|k: Seq<u8>| #[trigger]
            after.dom().contains(k) <==> m.dom().contains(k) || keys.contains(k) by {
            assert(keys.contains(k) <==> k == keys[0] || rest.contains(k));
        }
        assert forall|k: Seq<u8>| keys.contains(k) implies #[trigger] after[k] == of[k] by {
            if !rest.contains(k) {
                assert(m2.dom().contains(k));
            }
        }
    }
}

proof fn lemma_parse_entries_gives_back(
    s: Seq<u8>,
    pos: int,
    m: Map<Seq<u8>, Value>,
    keys: Seq<Seq<u8>>,
    read: Map<Seq<u8>, Value>,
    depth: nat,
)
    requires
        m.dom().finite(),
        forall|i: int| 0 <= i < keys.len() ==> m.dom().contains(#[trigger] keys[i]),
        forall|k: Seq<u8>| m.dom().contains(k) ==> nests_within(#[trigger] m[k], depth),
        stands_at(s, pos, encode_entries(m, keys)),
        pos + encode_entries(m, keys).len() < s.len(),
        s[pos + encode_entries(m, keys).len()] == END,
    ensures
        parse_entries(s, pos, depth, read) == Some(
            (with_entries(read, m, keys), pos + encode_entries(m, keys).len() + 1),
        ),
    decreases depth, 1nat, keys.len(),
{
    if keys.len() > 0 {
        let k = keys[0];
        let rest = keys.drop_first();
        let first = encode_bytes(k) + encode(m[k]);
        assert(m.dom().contains(k));
        lemma_stands_split(s, pos, first, encode_entries(m, rest));
        lemma_stands_split(s, pos, encode_bytes(k), encode(m[k]));
        lemma_parse_bytes(s, pos, k);
        lemma_parse_gives_back(s, pos + encode_bytes(k).len(), m[k], depth);
        assert forall|i: int| 0 <= i < rest.len() implies m.dom().contains(#[trigger] rest[i]) by {
            assert(rest[i] == keys[i + 1]);
        }
        lemma_parse_entries_gives_back(
            s,
            pos + first.len(),
            m,
            rest,
            read.insert(k, m[k]),
            depth,
        );
    }
}

/// A message that is written and read again is the same message, whatever follows it,
/// as long as nothing in it nests too deep.
pub proof fn law_parse_undoes_serialize(v: Value, rest: Seq<u8>, depth: nat)
    requires
        nests_within(v, depth),
    ensures
        parse_value(encode(v) + rest, 0, depth) == Some((v, encode(v).len() as int)),
{
    let s = encode(v) + rest;
    assert(s.subrange(0, encode(v).len() as int) =~= encode(v));
    lemma_parse_gives_back(s, 0, v, depth);
}

/// Different messages have different encodings.
pub proof fn law_encoding_is_injective(a: Value, b: Value, depth: nat)
    requires
        nests_within(a, depth),
        nests_within(b, depth),
        encode(a) == encode(b),
    ensures
        a == b,
{
    law_parse_undoes_serialize(a, Seq::empty(), depth);
    law_parse_undoes_serialize(b, Seq::empty(), depth);
}

/// On the wire an integer stands between `i` and `e`, bytes behind their count and `:`, items
/// between `l` and `e`, and entries between `d` and `e`, in the order of their keys.
pub proof fn law_wire_form(i: i64, b: Seq<u8>, l: Seq<Value>, m: Map<Seq<u8>, Value>)
    ensures
        encode(Value::Int(i)) == seq![105u8] + number::decimal_int(i as int) + seq![101u8],
        encode(Value::Bytes(b)) == number::decimal(b.len()) + seq![58u8] + b,
        encode_bytes(b) == encode(Value::Bytes(b)),
        encode(Value::List(l)) == seq![108u8] + encode_items(l) + seq![101u8],
        encode(Value::Dict(m)) == seq![100u8] + encode_entries(m, object::sorted_keys(m))
            + seq![101u8],
{
}

/// Items are written one after another.
pub proof fn law_items_are_written_in_turn(a: Seq<Value>, b: Seq<Value>, v: Value)
    ensures
        encode_items(Seq::empty()).len() == 0,
        encode_items(seq![v]) == encode(v),
        encode_items(a + b) == encode_items(a) + encode_items(b),
    decreases a.len(),
{
    assert(seq![v].drop_first() =~= Seq::<Value>::empty());
    assert(encode_items(seq![v]) =~= encode(v)) by {
        assert(encode_items(Seq::<Value>::empty()) =~= Seq::<u8>::empty());
    }
    if a.len() == 0 {
        assert(a + b =~= b);
        assert(encode_items(a) + encode_items(b) =~= encode_items(b));
    } else {
        let rest = a.drop_first();
        law_items_are_written_in_turn(rest, b, v);
        assert((a + b).drop_first() =~= rest + b);
        assert((a + b)[0] == a[0]);
        assert(encode_items(a + b) =~= encode_items(a) + encode_items(b));
    }
}

/// Entries are written one after another, each as its key and its value.
pub proof fn law_entries_are_written_in_turn(
    m: Map<Seq<u8>, Value>,
    a: Seq<Seq<u8>>,
    b: Seq<Seq<u8>>,
    k: Seq<u8>,
)
    requires
        m.dom().finite(),
        m.dom().contains(k),
        forall|i: int| 0 <= i < a.len() ==> m.dom().contains(#[trigger] a[i]),
    ensures
        encode_entries(m, Seq::empty()).len() == 0,
        encode_entries(m, seq![k]) == encode(Value::Bytes(k)) + encode(m[k]),
        encode_entries(m, a + b) == encode_entries(m, a) + encode_entries(m, b),
    decreases a.len(),
{
    assert(seq![k].drop_first() =~= Seq::<Seq<u8>>::empty());
    assert(encode_entries(m, seq![k]) =~= encode(Value::Bytes(k)) + encode(m[k])) by {
        assert(encode_entries(m, Seq::<Seq<u8>>::empty()) =~= Seq::<u8>::empty());
    }
    if a.len() == 0 {
        assert(a + b =~= b);
        assert(encode_entries(m, a) + encode_entries(m, b) =~= encode_entries(m, b));
    } else {
        let rest = a.drop_first();
        assert forall|i: int| 0 <= i < rest.len() implies m.dom().contains(#[trigger] rest[i]) by {
            assert(rest[i] == a[i + 1]);
        }
        assert(m.dom().contains(a[0]));
        law_entries_are_written_in_turn(m, rest, b, k);
        assert((a + b).drop_first() =~= rest + b);
        assert((a + b)[0] == a[0]);
        assert(encode_entries(m, a + b) =~= encode_entries(m, a) + encode_entries(m, b));
    }
}

proof fn lemma_found(s: Seq<u8>, b: u8, pos: int)
    requires
        0 <= pos,
    ensures
        first_index(s, b, pos) matches Some(i) ==> pos <= i < s.len() && s[i] == b && forall|k: int|
            pos <= k < i ==> #[trigger] s[k] != b,
        first_index(s, b, pos) is None ==> forall|k: int| pos <= k < s.len() ==> #[trigger] s[k]
            != b,
    decreases s.len() - pos,
{
    if pos < s.len() && s[pos] != b {
        lemma_found(s, b, pos + 1);
    }
}

/// Bytes are read exactly where their encoding stands, and up to its end.
pub proof fn law_bytes_are_read_where_they_stand(s: Seq<u8>, pos: int, b: Seq<u8>, end: int)
    requires
        0 <= pos,
    ensures
        parse_bytes(s, pos) == Some((b, end)) <==> end == pos + encode(Value::Bytes(b)).len()
            && stands_at(s, pos, encode(Value::Bytes(b))),
{
    if stands_at(s, pos, encode(Value::Bytes(b))) {
        lemma_parse_bytes(s, pos, b);
    }
    if parse_bytes(s, pos) == Some((b, end)) {
        lemma_found(s, COLON, pos);
        let colon = first_index(s, COLON, pos)->Some_0;
        let digits = s.subrange(pos, colon);
        number::law_decimal_is_canonical(digits);
        assert(b.len() == number::digits_value(digits, 10));
        assert(s.subrange(pos, end) =~= digits + seq![COLON] + b);
    }
}

/// An integer is read exactly where its encoding stands, and up to its end.
pub proof fn law_integers_are_read_where_they_stand(s: Seq<u8>, pos: int, i: i64, end: int)
    requires
        0 <= pos < s.len(),
        s[pos] == 105,
    ensures
        parse_int(s, pos) == Some((i, end)) <==> end == pos + encode(Value::Int(i)).len()
            && stands_at(s, pos, encode(Value::Int(i))),
{
    if stands_at(s, pos, encode(Value::Int(i))) {
        lemma_parse_int(s, pos, i);
    }
    if parse_int(s, pos) == Some((i, end)) {
        lemma_found(s, END, pos + 1);
        let stop = first_index(s, END, pos + 1)->Some_0;
        let t = s.subrange(pos + 1, stop);
        if t.len() > 0 && t[0] == MINUS {
            let digits = t.drop_first();
            number::law_decimal_is_canonical(digits);
            assert(t =~= seq![45u8] + digits);
        } else {
            number::law_decimal_is_canonical(t);
        }
        assert(number::decimal_int(i as int) == t);
        assert(s.subrange(pos, end) =~= seq![INT] + t + seq![END]);
    }
}

/// What is read lies inside the bytes, takes at least one of them, and does not begin like the
/// end of a list.
pub proof fn law_value_has_its_place(s: Seq<u8>, pos: int, depth: nat)
    ensures
        parse_value(s, pos, depth) matches Some((v, end)) ==> 0 <= pos < end <= s.len() && s[pos]
            != 101,
    decreases depth, s.len() - pos, 0nat,
{
    if 0 <= pos < s.len() {
        match parse_value(s, pos, depth) {
            Some((v, end)) => {
                if s[pos] == INT {
                    law_integers_are_read_where_they_stand(s, pos, v->Int_0, end);
                } else if s[pos] == LIST {
                    lemma_items_have_their_place(s, pos + 1, (depth - 1) as nat, Seq::empty());
                } else if s[pos] == DICT {
                    lemma_entries_have_their_place(s, pos + 1, (depth - 1) as nat, Map::empty());
                } else {
                    law_bytes_are_read_where_they_stand(s, pos, v->Bytes_0, end);
                    lemma_parse_bytes(s, pos, v->Bytes_0);
                }
            },
            None => {},
        }
    }
}

proof fn lemma_items_have_their_place(s: Seq<u8>, pos: int, depth: nat, read: Seq<Value>)
    ensures
        parse_items(s, pos, depth, read) matches Some((l, end)) ==> 0 <= pos < end <= s.len(),
    decreases depth, s.len() - pos, 1nat,
{
    if 0 <= pos < s.len() && s[pos] != END {
        match parse_value(s, pos, depth) {
            Some((v, next)) => {
                if pos < next <= s.len() {
                    lemma_items_have_their_place(s, next, depth, read.push(v));
                }
            },
            None => {},
        }
    }
}

proof fn lemma_entries_have_their_place(
    s: Seq<u8>,
    pos: int,
    depth: nat,
    read: Map<Seq<u8>, Value>,
)
    ensures
        parse_entries(s, pos, depth, read) matches Some((m, end)) ==> 0 <= pos < end <= s.len(),
    decreases depth, s.len() - pos, 1nat,
{
    if 0 <= pos < s.len() && s[pos] != END {
        match parse_bytes(s, pos) {
            Some((k, middle)) => match parse_value(s, middle, depth) {
                Some((v, next)) => {
                    if pos < middle < next <= s.len() {
                        lemma_entries_have_their_place(s, next, depth, read.insert(k, v));
                    }
                },
                None => {},
            },
            None => {},
        }
    }
}

/// Integers and bytes are read exactly where their encodings stand, however deep values may
/// nest.
pub proof fn law_plain_values_are_read_where_they_stand(
    s: Seq<u8>,
    pos: int,
    v: Value,
    end: int,
    depth: nat,
)
    requires
        v is Int || v is Bytes,
        0 <= pos,
    ensures
        parse_value(s, pos, depth) == Some((v, end)) <==> end == pos + encode(v).len() && stands_at(
            s,
            pos,
            encode(v),
        ),
{
    if stands_at(s, pos, encode(v)) && end == pos + encode(v).len() {
        lemma_parse_gives_back(s, pos, v, depth);
    }
    if parse_value(s, pos, depth) == Some((v, end)) {
        match v {
            Value::Int(i) => {
                law_integers_are_read_where_they_stand(s, pos, i, end);
            },
            Value::Bytes(b) => {
                law_bytes_are_read_where_they_stand(s, pos, b, end);
            },
            _ => {},
        }
    }
}

/// Values stand in `s` one after another, each from one cut to the next.
pub open spec fn items_stand(s: Seq<u8>, cuts: Seq<int>, depth: nat, l: Seq<Value>) -> bool {
    &&& cuts.len() == l.len() + 1
    &&& forall|i: int|
        0 <= i < l.len() ==> parse_value(s, cuts[i], depth) == Some((#[trigger] l[i], cuts[i + 1]))
}

proof fn lemma_standing_items_are_read(
    s: Seq<u8>,
    cuts: Seq<int>,
    depth: nat,
    l: Seq<Value>,
    read: Seq<Value>,
)
    requires
        items_stand(s, cuts, depth, l),
        0 <= cuts.last() < s.len(),
        s[cuts.last()] == END,
    ensures
        parse_items(s, cuts[0], depth, read) == Some((read + l, cuts.last() + 1)),
    decreases l.len(),
{
    if l.len() == 0 {
        assert(read + l =~= read);
    } else {
        let rest = l.drop_first();
        let tail = cuts.drop_first();
        assert(parse_value(s, cuts[0], depth) == Some((l[0], cuts[1])));
        law_value_has_its_place(s, cuts[0], depth);
        assert forall|i: int| 0 <= i < rest.len() implies parse_value(s, tail[i], depth) == Some(
            (#[trigger] rest[i], tail[i + 1]),
        ) by {
            assert(rest[i] == l[i + 1]);
        }
        lemma_standing_items_are_read(s, tail, depth, rest, read.push(l[0]));
        assert(read.push(l[0]) + rest =~= read + l);
    }
}

proof fn lemma_read_items_stand(s: Seq<u8>, pos: int, depth: nat, read: Seq<Value>) -> (r: (
    Seq<int>,
    Seq<Value>,
))
    requires
        parse_items(s, pos, depth, read) is Some,
    ensures
        items_stand(s, r.0, depth, r.1),
        r.0[0] == pos,
        parse_items(s, pos, depth, read) == Some((read + r.1, r.0.last() + 1)),
        0 <= r.0.last() < s.len(),
        s[r.0.last()] == END,
    decreases s.len() - pos,
{
    if s[pos] == END {
        assert(read + Seq::<Value>::empty() =~= read);
        (seq![pos], Seq::empty())
    } else {
        let (v, next) = parse_value(s, pos, depth)->Some_0;
        let (tail, rest) = lemma_read_items_stand(s, next, depth, read.push(v));
        let cuts = seq![pos] + tail;
        let l = seq![v] + rest;
        assert forall|i: int| 0 <= i < l.len() implies parse_value(s, cuts[i], depth) == Some(
            (#[trigger] l[i], cuts[i + 1]),
        ) by {
            if i > 0 {
                assert(l[i] == rest[i - 1]);
            }
        }
        assert(cuts.last() == tail.last());
        assert(read.push(v) + rest =~= read + l);
        (cuts, l)
    }
}

/// Items between `l` and `e` are read as a list of these items, where they do not nest too
/// deep.
pub proof fn law_list_is_its_items(
    s: Seq<u8>,
    pos: int,
    cuts: Seq<int>,
    depth: nat,
    l: Seq<Value>,
)
    requires
        items_stand(s, cuts, depth, l),
        0 <= pos < s.len(),
        s[pos] == 108,
        cuts[0] == pos + 1,
        0 <= cuts.last() < s.len(),
        s[cuts.last()] == 101,
    ensures
        parse_value(s, pos, depth + 1) == Some((Value::List(l), cuts.last() + 1)),
{
    lemma_standing_items_are_read(s, cuts, depth, l, Seq::empty());
    assert(Seq::<Value>::empty() + l =~= l);
}

/// What is read as a list stands between `l` and `e`, item by item.
pub proof fn law_items_stand_in_a_list(
    s: Seq<u8>,
    pos: int,
    depth: nat,
    l: Seq<Value>,
    end: int,
)
    requires
        parse_value(s, pos, depth) == Some((Value::List(l), end)),
    ensures
        depth > 0,
        s[pos] == 108,
        exists|cuts: Seq<int>|
            {
                &&& #[trigger] items_stand(s, cuts, (depth - 1) as nat, l)
                &&& cuts[0] == pos + 1
                &&& cuts.last() == end - 1
                &&& s[end - 1] == 101
            },
{
    let (cuts, items) = lemma_read_items_stand(s, pos + 1, (depth - 1) as nat, Seq::empty());
    assert(Seq::<Value>::empty() + items =~= items);
    assert(items_stand(s, cuts, (depth - 1) as nat, l));
}

/// Keys and values stand in `s` one after another, each key from a cut to the middle, and its
/// value from there to the next cut.
pub open spec fn entries_stand(
    s: Seq<u8>,
    cuts: Seq<int>,
    middles: Seq<int>,
    depth: nat,
    keys: Seq<Seq<u8>>,
    values: Seq<Value>,
) -> bool {
    &&& cuts.len() == keys.len() + 1
    &&& middles.len() == keys.len()
    &&& values.len() == keys.len()
    &&& forall|i: int|
        0 <= i < keys.len() ==> parse_bytes(s, cuts[i]) == Some((#[trigger] keys[i], middles[i]))
            && parse_value(s, middles[i], depth) == Some((values[i], cuts[i + 1]))
}

/// The dictionary of these keys and values: of several values under one key, the last.
pub open spec fn is_dictionary_of(
    keys: Seq<Seq<u8>>,
    values: Seq<Value>,
    m: Map<Seq<u8>, Value>,
) -> bool {
    &&& forall|k: Seq<u8>| #[trigger] m.dom().contains(k) <==> keys.contains(k)
    &&& forall|i: int|
        0 <= i < keys.len() && !keys.skip(i + 1).contains(keys[i]) ==> m[#[trigger] keys[i]]
            == values[i]
}

/// `read` with the values put over it under the keys, one after another.
spec fn overlaid(
    read: Map<Seq<u8>, Value>,
    keys: Seq<Seq<u8>>,
    values: Seq<Value>,
) -> Map<Seq<u8>, Value>
    decreases keys.len(),
{
    if keys.len() == 0 {
        read
    } else {
        overlaid(read, keys.drop_last(), values.drop_last()).insert(keys.last(), values.last())
    }
}

proof fn lemma_overlaid_from_front(
    read: Map<Seq<u8>, Value>,
    keys: Seq<Seq<u8>>,
    values: Seq<Value>,
    k: Seq<u8>,
    v: Value,
)
    requires
        keys.len() == values.len(),
    ensures
        overlaid(read, seq![k] + keys, seq![v] + values) == overlaid(
            read.insert(k, v),
            keys,
            values,
        ),
    decreases keys.len(),
{
    let ks = seq![k] + keys;
    let vs = seq![v] + values;
    if keys.len() == 0 {
        assert(ks.drop_last() =~= Seq::<Seq<u8>>::empty());
        assert(vs.drop_last() =~= Seq::<Value>::empty());
        assert(overlaid(read, Seq::empty(), Seq::empty()) == read);
        assert(ks.last() == k && vs.last() == v);
    } else {
        lemma_overlaid_from_front(read, keys.drop_last(), values.drop_last(), k, v);
        assert(ks.drop_last() =~= seq![k] + keys.drop_last());
        assert(vs.drop_last() =~= seq![v] + values.drop_last());
        assert(ks.last() == keys.last());
        assert(vs.last() == values.last());
    }
}

proof fn lemma_overlaid_keys(keys: Seq<Seq<u8>>, values: Seq<Value>, k: Seq<u8>)
    requires
        keys.len() == values.len(),
    ensures
        overlaid(Map::empty(), keys, values).dom().contains(k) <==> keys.contains(k),
    decreases keys.len(),
{
    if keys.len() > 0 {
        let front = keys.drop_last();
        let last = keys.len() - 1;
        lemma_overlaid_keys(front, values.drop_last(), k);
        if front.contains(k) {
            let i = choose|i: int| 0 <= i < front.len() && front[i] == k;
            assert(keys[i] == k);
        }
        if keys.contains(k) && k != keys[last] {
            let i = choose|i: int| 0 <= i < keys.len() && keys[i] == k;
            assert(front[i] == k);
        }
        assert(keys.contains(keys[last]));
    }
}

proof fn lemma_overlaid_values(keys: Seq<Seq<u8>>, values: Seq<Value>, i: int)
    requires
        keys.len() == values.len(),
        0 <= i < keys.len(),
        !keys.skip(i + 1).contains(keys[i]),
    ensures
        overlaid(Map::empty(), keys, values)[keys[i]] == values[i],
    decreases keys.len(),
{
    let front = keys.drop_last();
    let last = keys.len() - 1;
    if i < last {
        assert(keys.skip(i + 1)[last - i - 1] == keys[last]);
        assert(keys[i] != keys[last]);
        let rest = front.skip(i + 1);
        assert(!rest.contains(front[i])) by {
            if rest.contains(front[i]) {
                let j = choose|j: int| 0 <= j < rest.len() && rest[j] == front[i];
                assert(keys.skip(i + 1)[j] == keys[i]);
            }
        }
        lemma_overlaid_values(front, values.drop_last(), i);
    }
}

proof fn lemma_overlaid_is_dictionary(keys: Seq<Seq<u8>>, values: Seq<Value>)
    requires
        keys.len() == values.len(),
    ensures
        is_dictionary_of(keys, values, overlaid(Map::empty(), keys, values)),
{
    let m = overlaid(Map::empty(), keys, values);
    assert forall|k: Seq<u8>| #[trigger] m.dom().contains(k) <==> keys.contains(k) by {
        lemma_overlaid_keys(keys, values, k);
    }
    assert forall|i: int|
        0 <= i < keys.len() && !keys.skip(i + 1).contains(keys[i]) implies m[#[trigger] keys[i]]
        == values[i] by {
        lemma_overlaid_values(keys, values, i);
    }
}

proof fn lemma_dictionary_is_unique(
    keys: Seq<Seq<u8>>,
    values: Seq<Value>,
    a: Map<Seq<u8>, Value>,
    b: Map<Seq<u8>, Value>,
)
    requires
        is_dictionary_of(keys, values, a),
        is_dictionary_of(keys, values, b),
    ensures
        a == b,
{
    assert forall|k: Seq<u8>| a.dom().contains(k) implies a[k] == b[k] by {
        let i = lemma_last_place(keys, k);
        assert(a[keys[i]] == b[keys[i]]);
    }
    assert(a =~= b);
}

proof fn lemma_last_place(keys: Seq<Seq<u8>>, k: Seq<u8>) -> (i: int)
    requires
        keys.contains(k),
    ensures
        0 <= i < keys.len(),
        keys[i] == k,
        !keys.skip(i + 1).contains(k),
    decreases keys.len(),
{
    let last = keys.len() - 1;
    if keys[last] == k {
        assert(keys.skip(last + 1) =~= Seq::<Seq<u8>>::empty());
        last
    } else {
        let front = keys.drop_last();
        let n = choose|n: int| 0 <= n < keys.len() && keys[n] == k;
        assert(front[n] == k);
        let i = lemma_last_place(front, k);
        if keys.skip(i + 1).contains(k) {
            let j = choose|j: int| 0 <= j < keys.skip(i + 1).len() && #[trigger] keys.skip(
                    i + 1,
                )[j] == k;
            assert(front.skip(i + 1)[j] == k);
        }
        i
    }
}

proof fn lemma_standing_entries_are_read(
    s: Seq<u8>,
    cuts: Seq<int>,
    middles: Seq<int>,
    depth: nat,
    keys: Seq<Seq<u8>>,
    values: Seq<Value>,
    read: Map<Seq<u8>, Value>,
)
    requires
        entries_stand(s, cuts, middles, depth, keys, values),
        0 <= cuts[0],
        0 <= cuts.last() < s.len(),
        s[cuts.last()] == END,
    ensures
        parse_entries(s, cuts[0], depth, read) == Some(
            (overlaid(read, keys, values), cuts.last() + 1),
        ),
    decreases keys.len(),
{
    if keys.len() > 0 {
        let ks = keys.drop_first();
        let vs = values.drop_first();
        let tail = cuts.drop_first();
        let mids = middles.drop_first();
        assert(parse_bytes(s, cuts[0]) == Some((keys[0], middles[0])));
        assert(parse_value(s, middles[0], depth) == Some((values[0], cuts[1])));
        law_bytes_are_read_where_they_stand(s, cuts[0], keys[0], middles[0]);
        lemma_parse_bytes(s, cuts[0], keys[0]);
        law_value_has_its_place(s, middles[0], depth);
        assert forall|i: int| 0 <= i < ks.len() implies parse_bytes(s, tail[i]) == Some(
            (#[trigger] ks[i], mids[i]),
        ) && parse_value(s, mids[i], depth) == Some((vs[i], tail[i + 1])) by {
            assert(ks[i] == keys[i + 1]);
        }
        lemma_standing_entries_are_read(
            s,
            tail,
            mids,
            depth,
            ks,
            vs,
            read.insert(keys[0], values[0]),
        );
        lemma_overlaid_from_front(read, ks, vs, keys[0], values[0]);
        assert(seq![keys[0]] + ks =~= keys);
        assert(seq![values[0]] + vs =~= values);
    }
}

proof fn lemma_read_entries_stand(
    s: Seq<u8>,
    pos: int,
    depth: nat,
    read: Map<Seq<u8>, Value>,
) -> (r: (Seq<int>, Seq<int>, Seq<Seq<u8>>, Seq<Value>))
    requires
        parse_entries(s, pos, depth, read) is Some,
    ensures
        entries_stand(s, r.0, r.1, depth, r.2, r.3),
        r.0[0] == pos,
        parse_entries(s, pos, depth, read) == Some((overlaid(read, r.2, r.3), r.0.last() + 1)),
        0 <= r.0.last() < s.len(),
        s[r.0.last()] == END,
    decreases s.len() - pos,
{
    if s[pos] == END {
        (seq![pos], Seq::empty(), Seq::empty(), Seq::empty())
    } else {
        let (k, middle) = parse_bytes(s, pos)->Some_0;
        let (v, next) = parse_value(s, middle, depth)->Some_0;
        let (tail, mids, ks, vs) = lemma_read_entries_stand(s, next, depth, read.insert(k, v));
        let cuts = seq![pos] + tail;
        let middles = seq![middle] + mids;
        let keys = seq![k] + ks;
        let values = seq![v] + vs;
        assert forall|i: int| 0 <= i < keys.len() implies parse_bytes(s, cuts[i]) == Some(
            (#[trigger] keys[i], middles[i]),
        ) && parse_value(s, middles[i], depth) == Some((values[i], cuts[i + 1])) by {
            if i > 0 {
                assert(keys[i] == ks[i - 1]);
            }
        }
        assert(cuts.last() == tail.last());
        lemma_overlaid_from_front(read, ks, vs, k, v);
        (cuts, middles, keys, values)
    }
}

/// Entries between `d` and `e`, in any order, are read as the dictionary of these entries, where
/// they do not nest too deep.
pub proof fn law_dictionary_is_its_entries(
    s: Seq<u8>,
    pos: int,
    cuts: Seq<int>,
    middles: Seq<int>,
    depth: nat,
    keys: Seq<Seq<u8>>,
    values: Seq<Value>,
    m: Map<Seq<u8>, Value>,
)
    requires
        entries_stand(s, cuts, middles, depth, keys, values),
        0 <= pos < s.len(),
        s[pos] == 100,
        cuts[0] == pos + 1,
        0 <= cuts.last() < s.len(),
        s[cuts.last()] == 101,
        is_dictionary_of(keys, values, m),
    ensures
        parse_value(s, pos, depth + 1) == Some((Value::Dict(m), cuts.last() + 1)),
{
    lemma_standing_entries_are_read(s, cuts, middles, depth, keys, values, Map::empty());
    lemma_overlaid_is_dictionary(keys, values);
    lemma_dictionary_is_unique(keys, values, m, overlaid(Map::empty(), keys, values));
}

/// What is read as a dictionary stands between `d` and `e`, entry by entry, and of several
/// entries under one key the last one counts.
pub proof fn law_entries_stand_in_a_dictionary(
    s: Seq<u8>,
    pos: int,
    depth: nat,
    m: Map<Seq<u8>, Value>,
    end: int,
)
    requires
        parse_value(s, pos, depth) == Some((Value::Dict(m), end)),
    ensures
        depth > 0,
        s[pos] == 100,
        exists|cuts: Seq<int>, middles: Seq<int>, keys: Seq<Seq<u8>>, values: Seq<Value>|
            {
                &&& #[trigger] entries_stand(s, cuts, middles, (depth - 1) as nat, keys, values)
                &&& is_dictionary_of(keys, values, m)
                &&& cuts[0] == pos + 1
                &&& cuts.last() == end - 1
                &&& s[end - 1] == 101
            },
{
    let (cuts, middles, keys, values) = lemma_read_entries_stand(
        s,
        pos + 1,
        (depth - 1) as nat,
        Map::empty(),
    );
    lemma_overlaid_is_dictionary(keys, values);
    assert(entries_stand(s, cuts, middles, (depth - 1) as nat, keys, values));
}

/// Plain values nest within any depth; a list or a dictionary takes one level, and what it holds
/// has to do with the levels that are left.
pub proof fn law_nesting_is_counted(
    v: Value,
    l: Seq<Value>,
    m: Map<Seq<u8>, Value>,
    depth: nat,
)
    ensures
        v is Int || v is Bytes ==> nests_within(v, depth),
        v is List || v is Dict ==> !nests_within(v, 0),
        nests_within(Value::List(l), depth + 1) <==> forall|i: int|
            0 <= i < l.len() ==> nests_within(#[trigger] l[i], depth),
        nests_within(Value::Dict(m), depth + 1) <==> object::is_listed(m) && forall|k: Seq<u8>|
            m.dom().contains(k) ==> nests_within(#[trigger] m[k], depth),
{
    let (list, dict) = (Value::List(l), Value::Dict(m));
    let d = depth + 1;
    assert((d - 1) as nat == depth);
    assert(list->List_0 == l && dict->Dict_0 == m);
    if nests_within(list, d) {
        assert forall|i: int| 0 <= i < l.len() implies nests_within(#[trigger] l[i], depth) by {
            assert(nests_within(list->List_0[i], (d - 1) as nat));
        }
    }
    if nests_within(dict, d) {
        assert forall|k: Seq<u8>| m.dom().contains(k) implies nests_within(
            #[trigger] m[k],
            depth,
        ) by {
            assert(nests_within(dict->Dict_0[k], (d - 1) as nat));
        }
    }
}

} // verus!
