//! The values that admin messages are made of: integers, byte strings, lists and
//! dictionaries.

use vstd::prelude::*;
use vstd::utf8::*;

use crate::order;
use crate::order::Place;
use crate::text;

verus! {

/// What an [`Object`] stands for.
pub enum Value {
    /// An integer.
    Int(i64),
    /// A byte string.
    Bytes(Seq<u8>),
    /// A list.
    List(Seq<Value>),
    /// A dictionary from byte strings to values.
    Dict(Map<Seq<u8>, Value>),
}

/// A value of an admin message.
#[derive(Debug, PartialEq, Eq)]
pub enum Object {
    /// An integer.
    Int(i64),
    /// A byte string, which may be text.
    Bytes(Vec<u8>),
    /// A list.
    List(Vec<Object>),
    /// A dictionary.
    Dict(Dict),
}

/// A dictionary from byte strings to objects, kept in ascending order of its keys.
#[derive(Debug, PartialEq, Eq)]
pub struct Dict {
    entries: Vec<Entry>,
}

#[derive(Debug, PartialEq, Eq)]
struct Entry {
    key: Vec<u8>,
    value: Object,
}

/// Why an entry of a dictionary cannot be read as what it should be.
#[derive(Clone, Copy, Debug, PartialEq, Eq, Structural)]
pub enum EntryError {
    /// There is no such entry.
    Missing,
    /// The entry holds something else.
    WrongType,
}

/// The bytes of a key that is written as text.
pub open spec fn key(name: Seq<char>) -> Seq<u8> {
    encode_utf8(name)
}

/// The value under a key.
pub open spec fn value_at(m: Map<Seq<u8>, Value>, name: Seq<char>) -> Result<Value, EntryError> {
    if m.dom().contains(key(name)) {
        Ok(m[key(name)])
    } else {
        Err(EntryError::Missing)
    }
}

/// The byte string under a key.
pub open spec fn bytes_at(m: Map<Seq<u8>, Value>, name: Seq<char>) -> Result<Seq<u8>, EntryError> {
    match value_at(m, name) {
        Ok(Value::Bytes(b)) => Ok(b),
        Ok(_) => Err(EntryError::WrongType),
        Err(e) => Err(e),
    }
}

/// The text under a key.
pub open spec fn text_at(m: Map<Seq<u8>, Value>, name: Seq<char>) -> Result<Seq<char>, EntryError> {
    match bytes_at(m, name) {
        Ok(b) => match text::read_text(b) {
            Some(t) => Ok(t),
            None => Err(EntryError::WrongType),
        },
        Err(e) => Err(e),
    }
}

/// The integer under a key.
pub open spec fn int_at(m: Map<Seq<u8>, Value>, name: Seq<char>) -> Result<i64, EntryError> {
    match value_at(m, name) {
        Ok(Value::Int(i)) => Ok(i),
        Ok(_) => Err(EntryError::WrongType),
        Err(e) => Err(e),
    }
}

/// The list under a key.
pub open spec fn list_at(m: Map<Seq<u8>, Value>, name: Seq<char>) -> Result<Seq<Value>, EntryError> {
    match value_at(m, name) {
        Ok(Value::List(l)) => Ok(l),
        Ok(_) => Err(EntryError::WrongType),
        Err(e) => Err(e),
    }
}

/// The dictionary under a key.
pub open spec fn dict_at(m: Map<Seq<u8>, Value>, name: Seq<char>) -> Result<
    Map<Seq<u8>, Value>,
    EntryError,
> {
    match value_at(m, name) {
        Ok(Value::Dict(d)) => Ok(d),
        Ok(_) => Err(EntryError::WrongType),
        Err(e) => Err(e),
    }
}

/// Keys stand in strictly ascending order.
pub open spec fn ascending(keys: Seq<Seq<u8>>) -> bool {
    forall|i: int, j: int|
        #![trigger keys[i], keys[j]]
        0 <= i < j < keys.len() ==> order::lex_lt(keys[i], keys[j])
}

/// `keys` lists the keys of `m` in ascending order.
pub open spec fn lists_keys(m: Map<Seq<u8>, Value>, keys: Seq<Seq<u8>>) -> bool {
    &&& ascending(keys)
    &&& forall|k: Seq<u8>| #[trigger] m.dom().contains(k) <==> keys.contains(k)
}

/// The keys of a dictionary in ascending order.
pub open spec fn sorted_keys(m: Map<Seq<u8>, Value>) -> Seq<Seq<u8>> {
    choose|keys: Seq<Seq<u8>>| lists_keys(m, keys)
}

/// A dictionary with finitely many keys, which can be listed in order.
pub open spec fn is_listed(m: Map<Seq<u8>, Value>) -> bool {
    lists_keys(m, sorted_keys(m))
}

proof fn lemma_ascending_unique(a: Seq<Seq<u8>>, b: Seq<Seq<u8>>)
    requires
        ascending(a),
        ascending(b),
        forall|k: Seq<u8>| #[trigger] a.contains(k) <==> b.contains(k),
    ensures
        a == b,
    decreases a.len(),
{
    if a.len() == 0 {
        if b.len() > 0 {
            assert(b.contains(b[0]));
            assert(a.contains(b[0]));
        }
        assert(a =~= b);
    } else {
        assert(a.contains(a[0]));
        assert(b.contains(a[0]));
        assert(b.contains(b[0]));
        assert(a.contains(b[0]));
        let i = choose|i: int| 0 <= i < b.len() && b[i] == a[0];
        let j = choose|j: int| 0 <= j < a.len() && a[j] == b[0];
        if i > 0 && j > 0 {
            assert(order::lex_lt(b[0], b[i]));
            assert(order::lex_lt(a[0], a[j]));
            order::lemma_lex_le_antisymmetric(a[0], b[0]);
        }
        assert(a[0] == b[0]);
        let a2 = a.drop_first();
        let b2 = b.drop_first();
        assert forall|k: Seq<u8>| #[trigger] a2.contains(k) <==> b2.contains(k) by {
            if a2.contains(k) {
                let x = choose|x: int| 0 <= x < a2.len() && a2[x] == k;
                assert(a[x + 1] == k);
                assert(order::lex_lt(a[0], a[x + 1]));
                assert(a.contains(k));
                assert(b.contains(k));
                let y = choose|y: int| 0 <= y < b.len() && b[y] == k;
                assert(y > 0);
                assert(b2[y - 1] == k);
            }
            if b2.contains(k) {
                let x = choose|x: int| 0 <= x < b2.len() && b2[x] == k;
                assert(b[x + 1] == k);
                assert(order::lex_lt(b[0], b[x + 1]));
                assert(b.contains(k));
                assert(a.contains(k));
                let y = choose|y: int| 0 <= y < a.len() && a[y] == k;
                assert(y > 0);
                assert(a2[y - 1] == k);
            }
        }
        assert forall|x: int, y: int|
            #![trigger a2[x], a2[y]]
            0 <= x < y < a2.len() implies order::lex_lt(a2[x], a2[y]) by {
            assert(a2[x] == a[x + 1] && a2[y] == a[y + 1]);
        }
        assert forall|x: int, y: int|
            #![trigger b2[x], b2[y]]
            0 <= x < y < b2.len() implies order::lex_lt(b2[x], b2[y]) by {
            assert(b2[x] == b[x + 1] && b2[y] == b[y + 1]);
        }
        lemma_ascending_unique(a2, b2);
        assert(a =~= seq![a[0]] + a2);
        assert(b =~= seq![b[0]] + b2);
    }
}

/// Only one sequence lists the keys of a dictionary in ascending order.
pub proof fn lemma_sorted_keys(m: Map<Seq<u8>, Value>, keys: Seq<Seq<u8>>)
    requires
        lists_keys(m, keys),
    ensures
        sorted_keys(m) == keys,
        is_listed(m),
{
    let chosen = sorted_keys(m);
    assert(lists_keys(m, chosen));
    assert forall|k: Seq<u8>| #[trigger] chosen.contains(k) <==> keys.contains(k) by {
        assert(m.dom().contains(k) <==> chosen.contains(k));
        assert(m.dom().contains(k) <==> keys.contains(k));
    }
    lemma_ascending_unique(chosen, keys);
}

/// The values of a list of objects.
pub open spec fn view_items(items: Seq<Object>) -> Seq<Value>
    decreases items,
{
    Seq::new(
        items.len(),
        |i: int|
            if 0 <= i < items.len() {
                items[i].view()
            } else {
                arbitrary()
            },
    )
}

spec fn view_entries(entries: Seq<Entry>) -> Map<Seq<u8>, Value>
    decreases entries,
{
    if entries.len() == 0 {
        Map::empty()
    } else {
        view_entries(entries.drop_last()).insert(entries.last().key@, entries.last().value.view())
    }
}

spec fn entry_keys(entries: Seq<Entry>) -> Seq<Seq<u8>> {
    entries.map_values(|e: Entry| e.key@)
}

proof fn lemma_view_entries(entries: Seq<Entry>)
    requires
        ascending(entry_keys(entries)),
    ensures
        lists_keys(view_entries(entries), entry_keys(entries)),
        forall|i: int|
            0 <= i < entries.len() ==> view_entries(entries)[(#[trigger] entries[i]).key@]
                == entries[i].value.view(),
    decreases entries.len(),
{
    let keys = entry_keys(entries);
    let m = view_entries(entries);
    if entries.len() > 0 {
        let front = entries.drop_last();
        let front_keys = entry_keys(front);
        assert(front_keys =~= keys.drop_last());
        lemma_view_entries(front);
        let last = entries.last();
        assert(keys.last() == last.key@);
        assert forall|k: Seq<u8>| #[trigger] m.dom().contains(k) <==> keys.contains(k) by {
            if front_keys.contains(k) {
                let x = choose|x: int| 0 <= x < front_keys.len() && front_keys[x] == k;
                assert(keys[x] == k);
            }
            if keys.contains(k) && k != last.key@ {
                let x = choose|x: int| 0 <= x < keys.len() && keys[x] == k;
                assert(front_keys[x] == k);
            }
            if k == last.key@ {
                assert(keys[keys.len() - 1] == k);
            }
        }
        assert forall|i: int| 0 <= i < entries.len() implies m[(#[trigger] entries[i]).key@]
            == entries[i].value.view() by {
            if i < entries.len() - 1 {
                assert(front[i] == entries[i]);
                assert(keys[i] == entries[i].key@);
                assert(order::lex_lt(keys[i], keys[keys.len() - 1]));
            }
        }
    }
}

proof fn lemma_entries_insert(entries: Seq<Entry>, i: int, e: Entry)
    requires
        ascending(entry_keys(entries)),
        0 <= i <= entries.len(),
        i > 0 ==> order::lex_lt(entries[i - 1].key@, e.key@),
        i < entries.len() ==> order::lex_lt(e.key@, entries[i].key@),
    ensures
        ascending(entry_keys(entries.insert(i, e))),
        view_entries(entries.insert(i, e)) == view_entries(entries).insert(e.key@, e.value.view()),
{
    let entries2 = entries.insert(i, e);
    let keys = entry_keys(entries);
    let keys2 = entry_keys(entries2);
    assert(keys2 =~= keys.insert(i, e.key@));
    assert forall|x: int, y: int|
        #![trigger keys2[x], keys2[y]]
        0 <= x < y < keys2.len() implies order::lex_lt(keys2[x], keys2[y]) by {
        if x < i && y == i {
            assert(keys2[x] == keys[x]);
            assert(keys[i - 1] == entries[i - 1].key@);
            if x < i - 1 {
                assert(order::lex_lt(keys[x], keys[i - 1]));
                order::lemma_lex_lt_transitive(keys[x], keys[i - 1], e.key@);
            }
        } else if x == i {
            assert(keys2[y] == keys[y - 1]);
            assert(keys[i] == entries[i].key@);
            if i < y - 1 {
                assert(order::lex_lt(keys[i], keys[y - 1]));
                order::lemma_lex_lt_transitive(e.key@, keys[i], keys[y - 1]);
            }
        } else {
            let x0 = if x < i { x } else { x - 1 };
            let y0 = if y < i { y } else { y - 1 };
            assert(keys2[x] == keys[x0] && keys2[y] == keys[y0]);
        }
    }
    lemma_view_entries(entries);
    lemma_view_entries(entries2);
    let m = view_entries(entries).insert(e.key@, e.value.view());
    let m2 = view_entries(entries2);
    assert(m2 =~= m) by {
        assert(entries2[i] == e);
        assert(keys2[i] == e.key@);
        assert forall|k: Seq<u8>| m2.dom().contains(k) <==> m.dom().contains(k) by {
            if keys2.contains(k) && k != e.key@ {
                let x = choose|x: int| 0 <= x < keys2.len() && keys2[x] == k;
                let x0 = if x < i { x } else { x - 1 };
                assert(keys[x0] == k);
            }
            if keys.contains(k) {
                let x0 = choose|x0: int| 0 <= x0 < keys.len() && keys[x0] == k;
                let x = if x0 < i { x0 } else { x0 + 1 };
                assert(keys2[x] == k);
            }
            assert(keys2.contains(e.key@));
        }
        assert forall|k: Seq<u8>| m2.dom().contains(k) implies m2[k] == m[k] by {
            let x = choose|x: int| 0 <= x < keys2.len() && keys2[x] == k;
            assert(entries2[x].key@ == k);
            if x != i {
                let x0 = if x < i { x } else { x - 1 };
                assert(entries[x0] == entries2[x]);
                assert(order::lex_lt(keys2[x], keys2[i]) || order::lex_lt(keys2[i], keys2[x]));
            }
        }
    }
}

proof fn lemma_entries_update(entries: Seq<Entry>, i: int, e: Entry)
    requires
        ascending(entry_keys(entries)),
        0 <= i < entries.len(),
        entries[i].key@ == e.key@,
    ensures
        ascending(entry_keys(entries.update(i, e))),
        view_entries(entries.update(i, e)) == view_entries(entries).insert(e.key@, e.value.view()),
{
    let entries2 = entries.update(i, e);
    assert(entry_keys(entries2) =~= entry_keys(entries));
    lemma_view_entries(entries);
    lemma_view_entries(entries2);
    let keys = entry_keys(entries);
    let m = view_entries(entries).insert(e.key@, e.value.view());
    let m2 = view_entries(entries2);
    assert(keys[i] == e.key@);
    assert(m2 =~= m) by {
        assert forall|k: Seq<u8>| m2.dom().contains(k) implies m2[k] == m[k] by {
            let x = choose|x: int| 0 <= x < keys.len() && keys[x] == k;
            assert(entries2[x].key@ == k);
            assert(entries[x].key@ == k);
            if x != i {
                assert(order::lex_lt(keys[x], keys[i]) || order::lex_lt(keys[i], keys[x]));
            }
        }
    }
}

impl Object {
    /// What the object stands for.
    pub open spec fn view(&self) -> Value
        decreases self,
    {
        match self {
            Object::Int(i) => Value::Int(*i),
            Object::Bytes(b) => Value::Bytes(b@),
            Object::List(l) => Value::List(view_items(l@)),
            Object::Dict(d) => Value::Dict(d.view()),
        }
    }

    /// Text as an object.
    pub fn text(t: &str) -> (r: Object)
        ensures
            r@ == Value::Bytes(encode_utf8(t@)),
    {
        Object::Bytes(text::text_bytes(t))
    }

    /// The dictionary that the object is, if it is one.
    pub fn as_dict(&self) -> (r: Option<&Dict>)
        ensures
            match self@ {
                Value::Dict(m) => r is Some && r->Some_0@ == m,
                _ => r is None,
            },
    {
        match self {
            Object::Dict(d) => Some(d),
            _ => None,
        }
    }
}

impl Dict {
    /// What the dictionary stands for.
    pub closed spec fn view(&self) -> Map<Seq<u8>, Value>
        decreases self,
    {
        view_entries(self.entries@)
    }

    #[verifier::type_invariant]
    spec fn in_order(&self) -> bool {
        ascending(entry_keys(self.entries@))
    }

    /// The empty dictionary.
    pub fn new() -> (r: Dict)
        ensures
            r@ == Map::<Seq<u8>, Value>::empty(),
    {
        Dict { entries: Vec::new() }
    }

    /// How many entries the dictionary has.
    pub fn len(&self) -> (r: usize)
        ensures
            is_listed(self@),
            r == sorted_keys(self@).len(),
    {
        proof {
            use_type_invariant(self);
            lemma_view_entries(self.entries@);
            lemma_sorted_keys(self@, entry_keys(self.entries@));
        }
        self.entries.len()
    }

    /// Whether the dictionary has no entries.
    pub fn is_empty(&self) -> (r: bool)
        ensures
            r == (self@ == Map::<Seq<u8>, Value>::empty()),
    {
        let n: usize = self.len();
        proof {
            let keys = sorted_keys(self@);
            if n == 0 {
                assert(self@ =~= Map::<Seq<u8>, Value>::empty()) by {
                    assert forall|k: Seq<u8>| !self@.dom().contains(k) by {
                        assert(!keys.contains(k));
                    }
                }
            } else {
                assert(keys.contains(keys[0]));
                assert(self@.dom().contains(keys[0]));
            }
        }
        n == 0
    }

    /// The entry in place `i` of the ascending order of keys.
    pub fn entry(&self, i: usize) -> (r: (&Vec<u8>, &Object))
        requires
            i < sorted_keys(self@).len(),
        ensures
            r.0@ == sorted_keys(self@)[i as int],
            self@.dom().contains(r.0@),
            r.1@ == self@[r.0@],
            decreases_to!(*self => *r.1),
    {
        proof {
            use_type_invariant(self);
            lemma_view_entries(self.entries@);
            lemma_sorted_keys(self@, entry_keys(self.entries@));
        }
        let e: &Entry = &self.entries[i];
        assert(entry_keys(self.entries@)[i as int] == e.key@);
        assert(entry_keys(self.entries@).contains(e.key@));
        (&e.key, &e.value)
    }

    /// Where the key stands, or where it would have to stand.
    fn position(&self, k: &[u8]) -> (r: (bool, usize))
        ensures
            r.1 <= self.entries@.len(),
            r.0 ==> r.1 < self.entries@.len() && self.entries@[r.1 as int].key@ == k@,
            !r.0 ==> {
                &&& r.1 > 0 ==> order::lex_lt(self.entries@[r.1 - 1].key@, k@)
                &&& r.1 < self.entries@.len() ==> order::lex_lt(k@, self.entries@[r.1 as int].key@)
                &&& !self@.dom().contains(k@)
            },
    {
        proof {
            use_type_invariant(self);
            lemma_view_entries(self.entries@);
        }
        let mut i: usize = 0;
        let ghost keys = entry_keys(self.entries@);
        while i < self.entries.len()
            invariant
                i <= self.entries@.len(),
                keys == entry_keys(self.entries@),
                ascending(keys),
                lists_keys(self@, keys),
                i > 0 ==> order::lex_lt(self.entries@[i - 1].key@, k@),
                forall|x: int| 0 <= x < i ==> #[trigger] keys[x] != k@,
            decreases self.entries@.len() - i,
        {
            assert(keys[i as int] == self.entries@[i as int].key@);
            match order::place(self.entries[i].key.as_slice(), k) {
                Place::Before => {
                    i = i + 1;
                },
                Place::Same => {
                    return (true, i);
                },
                Place::After => {
                    assert(!self@.dom().contains(k@)) by {
                        if keys.contains(k@) {
                            let x = choose|x: int| 0 <= x < keys.len() && keys[x] == k@;
                            if x > i {
                                assert(order::lex_lt(keys[i as int], keys[x]));
                                order::lemma_lex_le_antisymmetric(keys[i as int], k@);
                            }
                        }
                    }
                    return (false, i);
                },
            }
        }
        assert(!keys.contains(k@));
        (false, i)
    }

    /// The object under a key.
    pub fn get(&self, k: &[u8]) -> (r: Option<&Object>)
        ensures
            r is Some == self@.dom().contains(k@),
            r matches Some(o) ==> o@ == self@[k@],
    {
        let (found, i) = self.position(k);
        proof {
            use_type_invariant(self);
            lemma_view_entries(self.entries@);
        }
        if found {
            assert(entry_keys(self.entries@)[i as int] == k@);
            assert(entry_keys(self.entries@).contains(k@));
            Some(&self.entries[i].value)
        } else {
            None
        }
    }

    /// Whether there is an entry under a key.
    pub fn has(&self, name: &str) -> (r: bool)
        ensures
            r == self@.dom().contains(key(name@)),
    {
        self.get(name.as_bytes()).is_some()
    }

    /// Reads the byte string under a key.
    pub fn get_bytes(&self, name: &str) -> (r: Result<&Vec<u8>, EntryError>)
        ensures
            match bytes_at(self@, name@) {
                Ok(b) => r is Ok && r->Ok_0@ == b,
                Err(e) => r == Err::<&Vec<u8>, EntryError>(e),
            },
    {
        match self.get(name.as_bytes()) {
            Some(Object::Bytes(b)) => Ok(b),
            Some(_) => Err(EntryError::WrongType),
            None => Err(EntryError::Missing),
        }
    }

    /// Reads the text under a key.
    pub fn get_text(&self, name: &str) -> (r: Result<&str, EntryError>)
        ensures
            match text_at(self@, name@) {
                Ok(t) => r is Ok && r->Ok_0@ == t,
                Err(e) => r == Err::<&str, EntryError>(e),
            },
    {
        match self.get_bytes(name) {
            Ok(b) => match text::utf8_text(b.as_slice()) {
                Some(t) => Ok(t),
                None => Err(EntryError::WrongType),
            },
            Err(e) => Err(e),
        }
    }

    /// Reads the integer under a key.
    pub fn get_int(&self, name: &str) -> (r: Result<i64, EntryError>)
        ensures
            r == int_at(self@, name@),
    {
        match self.get(name.as_bytes()) {
            Some(Object::Int(i)) => Ok(*i),
            Some(_) => Err(EntryError::WrongType),
            None => Err(EntryError::Missing),
        }
    }

    /// Reads the list under a key.
    pub fn get_list(&self, name: &str) -> (r: Result<&Vec<Object>, EntryError>)
        ensures
            match list_at(self@, name@) {
                Ok(l) => r is Ok && view_items(r->Ok_0@) == l,
                Err(e) => r == Err::<&Vec<Object>, EntryError>(e),
            },
    {
        match self.get(name.as_bytes()) {
            Some(Object::List(l)) => Ok(l),
            Some(_) => Err(EntryError::WrongType),
            None => Err(EntryError::Missing),
        }
    }

    /// Reads the dictionary under a key.
    pub fn get_dict(&self, name: &str) -> (r: Result<&Dict, EntryError>)
        ensures
            match dict_at(self@, name@) {
                Ok(d) => r is Ok && r->Ok_0@ == d,
                Err(e) => r == Err::<&Dict, EntryError>(e),
            },
    {
        match self.get(name.as_bytes()) {
            Some(Object::Dict(d)) => Ok(d),
            Some(_) => Err(EntryError::WrongType),
            None => Err(EntryError::Missing),
        }
    }

    /// Puts an object under a key, in place of what stood there.
    pub fn insert_bytes(&mut self, k: Vec<u8>, value: Object)
        ensures
            final(self)@ == old(self)@.insert(k@, value@),
    {
        let (found, i) = self.position(k.as_slice());
        proof {
            use_type_invariant(&*self);
        }
        let mut entries: Vec<Entry> = Vec::new();
        std::mem::swap(&mut self.entries, &mut entries);
        let e: Entry = Entry { key: k, value };
        if found {
            proof {
                lemma_entries_update(entries@, i as int, e);
            }
            entries.set(i, e);
        } else {
            proof {
                lemma_entries_insert(entries@, i as int, e);
            }
            entries.insert(i, e);
        }
        self.entries = entries;
    }

    /// Puts an object under a key that is written as text.
    pub fn insert(&mut self, name: &str, value: Object)
        ensures
            final(self)@ == old(self)@.insert(key(name@), value@),
    {
        self.insert_bytes(text::text_bytes(name), value);
    }
}

/// Different names are different keys, and a key is the bytes of its name.
pub proof fn law_names_are_distinct_keys(a: Seq<char>, b: Seq<char>)
    ensures
        key(a) == encode_utf8(a),
        key(a) == key(b) <==> a == b,
{
    if key(a) == key(b) {
        text::lemma_utf8_injective(a, b);
    }
}

/// What is put under a name is read back under it as what it is, and as nothing else; what is
/// read under other names stays as it was.
pub proof fn law_written_entry_is_read(m: Map<Seq<u8>, Value>, name: Seq<char>, v: Value)
    ensures
        ({
            let n = m.insert(encode_utf8(name), v);
            &&& value_at(n, name) == Ok::<Value, EntryError>(v)
            &&& match v {
                Value::Int(i) => int_at(n, name) == Ok::<i64, EntryError>(i),
                _ => int_at(n, name) == Err::<i64, EntryError>(EntryError::WrongType),
            }
            &&& match v {
                Value::Bytes(b) => bytes_at(n, name) == Ok::<Seq<u8>, EntryError>(b),
                _ => bytes_at(n, name) == Err::<Seq<u8>, EntryError>(EntryError::WrongType),
            }
            &&& match v {
                Value::List(l) => list_at(n, name) == Ok::<Seq<Value>, EntryError>(l),
                _ => list_at(n, name) == Err::<Seq<Value>, EntryError>(EntryError::WrongType),
            }
            &&& match v {
                Value::Dict(d) => dict_at(n, name) == Ok::<Map<Seq<u8>, Value>, EntryError>(d),
                _ => dict_at(n, name) == Err::<Map<Seq<u8>, Value>, EntryError>(
                    EntryError::WrongType,
                ),
            }
            &&& match text_at(n, name) {
                Ok(t) => v == Value::Bytes(encode_utf8(t)),
                Err(e) => e == EntryError::WrongType && forall|t: Seq<char>|
                    v != Value::Bytes(#[trigger] encode_utf8(t)),
            }
            &&& forall|other: Seq<char>|
                other != name ==> #[trigger] value_at(n, other) == value_at(m, other)
        }),
{
    let n = m.insert(encode_utf8(name), v);
    law_names_are_distinct_keys(name, name);
    match v {
        Value::Bytes(b) => {
            match text::read_text(b) {
                Some(t) => {
                    text::law_text_is_its_bytes(b, t);
                },
                None => {
                    text::law_text_is_its_bytes(b, Seq::empty());
                },
            }
        },
        _ => {},
    }
    assert forall|other: Seq<char>| other != name implies #[trigger] value_at(n, other) == value_at(
        m,
        other,
    ) by {
        law_names_are_distinct_keys(name, other);
    }
}

/// A text that is put under a name is read back under it.
pub proof fn law_written_text_is_read(m: Map<Seq<u8>, Value>, name: Seq<char>, t: Seq<char>)
    ensures
        text_at(m.insert(encode_utf8(name), Value::Bytes(encode_utf8(t))), name) == Ok::<
            Seq<char>,
            EntryError,
        >(t),
{
    law_written_entry_is_read(m, name, Value::Bytes(encode_utf8(t)));
    text::lemma_text_reads_back(t);
}

/// Under a name that a dictionary does not hold, nothing is read, and that is what is said.
pub proof fn law_absent_entry_is_missing(m: Map<Seq<u8>, Value>, name: Seq<char>)
    requires
        !m.dom().contains(encode_utf8(name)),
    ensures
        value_at(m, name) == Err::<Value, EntryError>(EntryError::Missing),
        int_at(m, name) == Err::<i64, EntryError>(EntryError::Missing),
        bytes_at(m, name) == Err::<Seq<u8>, EntryError>(EntryError::Missing),
        text_at(m, name) == Err::<Seq<char>, EntryError>(EntryError::Missing),
        list_at(m, name) == Err::<Seq<Value>, EntryError>(EntryError::Missing),
        dict_at(m, name) == Err::<Map<Seq<u8>, Value>, EntryError>(EntryError::Missing),
{
    law_names_are_distinct_keys(name, name);
}

/// The sorted keys of a dictionary are its keys, each once, in ascending order of bytes.
pub proof fn law_sorted_keys_are_the_keys(m: Map<Seq<u8>, Value>)
    requires
        is_listed(m),
    ensures
        forall|k: Seq<u8>| m.dom().contains(k) <==> #[trigger] sorted_keys(m).contains(k),
        forall|i: int, j: int|
            #![trigger sorted_keys(m)[i], sorted_keys(m)[j]]
            0 <= i < j < sorted_keys(m).len() ==> sorted_keys(m)[i] != sorted_keys(m)[j]
                && order::lex_le(sorted_keys(m)[i], sorted_keys(m)[j]),
{
}

proof fn lemma_insert_sorted(keys: Seq<Seq<u8>>, k: Seq<u8>) -> (r: Seq<Seq<u8>>)
    requires
        ascending(keys),
        !keys.contains(k),
    ensures
        ascending(r),
        forall|x: Seq<u8>| #[trigger] r.contains(x) <==> x == k || keys.contains(x),
    decreases keys.len(),
{
    if keys.len() == 0 {
        let r = seq![k];
        assert(r[0] == k);
        r
    } else {
        let first = keys[0];
        let tail = keys.drop_first();
        assert(keys.contains(first));
        assert forall|x: Seq<u8>| #[trigger] keys.contains(x) <==> x == first || tail.contains(x) by {
            if keys.contains(x) && x != first {
                let i = choose|i: int| 0 <= i < keys.len() && keys[i] == x;
                assert(tail[i - 1] == x);
            }
            if tail.contains(x) {
                let i = choose|i: int| 0 <= i < tail.len() && tail[i] == x;
                assert(keys[i + 1] == x);
            }
        }
        order::lemma_lex_le_total(first, k);
        if order::lex_le(first, k) {
            assert forall|i: int, j: int|
                #![trigger tail[i], tail[j]]
                0 <= i < j < tail.len() implies order::lex_lt(tail[i], tail[j]) by {
                assert(tail[i] == keys[i + 1] && tail[j] == keys[j + 1]);
            }
            let rest = lemma_insert_sorted(tail, k);
            let r = seq![first] + rest;
            assert forall|i: int, j: int|
                #![trigger r[i], r[j]]
                0 <= i < j < r.len() implies order::lex_lt(r[i], r[j]) by {
                assert(r[j] == rest[j - 1]);
                assert(rest.contains(rest[j - 1]));
                if i == 0 {
                    if rest[j - 1] != k {
                        let x = choose|x: int| 0 <= x < tail.len() && tail[x] == rest[j - 1];
                        assert(order::lex_lt(keys[0], keys[x + 1]));
                    }
                } else {
                    assert(r[i] == rest[i - 1]);
                }
            }
            assert forall|x: Seq<u8>| #[trigger] r.contains(x) <==> x == k || keys.contains(x) by {
                if rest.contains(x) {
                    let i = choose|i: int| 0 <= i < rest.len() && rest[i] == x;
                    assert(r[i + 1] == x);
                }
                if r.contains(x) {
                    let i = choose|i: int| 0 <= i < r.len() && r[i] == x;
                    if i > 0 {
                        assert(rest[i - 1] == x);
                    }
                }
                assert(r[0] == first);
            }
            r
        } else {
            let r = seq![k] + keys;
            assert forall|i: int, j: int|
                #![trigger r[i], r[j]]
                0 <= i < j < r.len() implies order::lex_lt(r[i], r[j]) by {
                assert(r[j] == keys[j - 1]);
                assert(order::lex_lt(k, first));
                if i == 0 {
                    if j > 1 {
                        assert(order::lex_lt(keys[0], keys[j - 1]));
                        order::lemma_lex_lt_transitive(k, first, keys[j - 1]);
                    }
                } else {
                    assert(r[i] == keys[i - 1]);
                }
            }
            assert forall|x: Seq<u8>| #[trigger] r.contains(x) <==> x == k || keys.contains(x) by {
                if keys.contains(x) {
                    let i = choose|i: int| 0 <= i < keys.len() && keys[i] == x;
                    assert(r[i + 1] == x);
                }
                if r.contains(x) {
                    let i = choose|i: int| 0 <= i < r.len() && r[i] == x;
                    if i > 0 {
                        assert(keys[i - 1] == x);
                    }
                }
                assert(r[0] == k);
            }
            r
        }
    }
}

/// Every dictionary with finitely many keys can be listed in the order of its keys.
pub proof fn law_finite_dictionary_is_listed(m: Map<Seq<u8>, Value>)
    requires
        m.dom().finite(),
    ensures
        is_listed(m),
    decreases m.dom().len(),
{
    if m.dom().len() == 0 {
        let none = Seq::<Seq<u8>>::empty();
        assert(m.dom() =~= Set::<Seq<u8>>::empty());
        assert(lists_keys(m, none));
        lemma_sorted_keys(m, none);
    } else {
        let k = m.dom().choose();
        let rest = m.remove(k);
        assert(rest.dom() =~= m.dom().remove(k));
        law_finite_dictionary_is_listed(rest);
        assert(!rest.dom().contains(k));
        let keys = lemma_insert_sorted(sorted_keys(rest), k);
        assert forall|x: Seq<u8>| #[trigger] m.dom().contains(x) <==> keys.contains(x) by {
            assert(rest.dom().contains(x) <==> sorted_keys(rest).contains(x));
        }
        lemma_sorted_keys(m, keys);
    }
}

/// An object stands for what it is made of: numbers, bytes and entries as they are, and a list
/// for what its items stand for, one for one.
pub proof fn law_objects_stand_for_what_they_hold(
    i: i64,
    b: Vec<u8>,
    l: Vec<Object>,
    d: Dict,
    n: int,
)
    ensures
        Object::Int(i)@ == Value::Int(i),
        Object::Bytes(b)@ == Value::Bytes(b@),
        Object::Dict(d)@ == Value::Dict(d@),
        Object::List(l)@ is List,
        Object::List(l)@->List_0 == view_items(l@),
        view_items(l@).len() == l@.len(),
        0 <= n < l@.len() ==> view_items(l@)[n] == l@[n]@,
{
}

} // verus!
