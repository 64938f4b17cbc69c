//! JSON values, in memory and as mathematical objects.

use vstd::prelude::*;

verus! {

/// A JSON value as a mathematical object.
pub enum JsonValue {
    /// A finite map from keys to values.
    Object(Map<Seq<char>, JsonValue>),
    /// A sequence of values.
    Array(Seq<JsonValue>),
    /// A text.
    String(Seq<char>),
    /// A natural number.
    Number(nat),
    /// A truth value.
    Boolean(bool),
    /// The absent value.
    Null,
}

/// The members of a JSON object: a map from keys to values. The order in
/// which members were inserted is of no account, and two objects are equal
/// when they hold the same members.
#[derive(Debug)]
pub struct JsonObject {
    /// The members; no two of them have the same key.
    entries: Vec<(String, Json)>,
}

/// A JSON value.
#[derive(Debug)]
pub enum Json {
    /// Members by their keys.
    Object(JsonObject),
    /// Elements in their order.
    Array(Vec<Json>),
    /// A text, with its escapes resolved.
    String(String),
    /// A number without sign, fraction or exponent.
    Number(usize),
    /// `true` or `false`.
    Boolean(bool),
    /// `null`.
    Null,
}

/// Why a text could not be read.
#[derive(Debug, PartialEq, Eq)]
pub enum JsonError {
    /// The text is not in the accepted language; the report says where.
    ParseError(String),
    /// Kept for callers that match on it; reading a text never gives it.
    NotImplemented,
}

/// Whether `result` is `expected` in executable form: the same value, or a
/// [`JsonError::ParseError`] with the same report.
pub open spec fn is_outcome(result: Result<Json, JsonError>, expected: Result<JsonValue, Seq<char>>) -> bool {
    match expected {
        Ok(value) => result matches Ok(json) && json@ == value,
        Err(message) => result matches Err(JsonError::ParseError(text)) && text@ == message,
    }
}

/// The keys of `entries`, in their order.
pub open spec fn keys_of(entries: Seq<(String, Json)>) -> Seq<Seq<char>> {
    Seq::new(entries.len(), |i: int| entries[i].0@)
}

/// The mathematical value of `json`.
pub open spec fn value_of(json: Json) -> JsonValue
    decreases json, 1int,
{
    match json {
        Json::Object(object) => JsonValue::Object(members_of(object.entries())),
        Json::Array(items) => JsonValue::Array(values_of(items@)),
        Json::String(text) => JsonValue::String(text@),
        Json::Number(n) => JsonValue::Number(n as nat),
        Json::Boolean(b) => JsonValue::Boolean(b),
        Json::Null => JsonValue::Null,
    }
}

/// The mathematical values of `items`, in their order.
pub open spec fn values_of(items: Seq<Json>) -> Seq<JsonValue>
    decreases items, 0int,
{
    if items.len() == 0 {
        Seq::empty()
    } else {
        values_of(items.drop_last()).push(value_of(items.last()))
    }
}

/// The map that `entries` stand for; of two entries with one key the later
/// counts.
pub open spec fn members_of(entries: Seq<(String, Json)>) -> Map<Seq<char>, JsonValue>
    decreases entries, 0int,
{
    if entries.len() == 0 {
        Map::empty()
    } else {
        members_of(entries.drop_last()).insert(entries.last().0@, value_of(entries.last().1))
    }
}

impl View for Json {
    type V = JsonValue;

    open spec fn view(&self) -> JsonValue {
        value_of(*self)
    }
}

impl View for JsonObject {
    type V = Map<Seq<char>, JsonValue>;

    open spec fn view(&self) -> Map<Seq<char>, JsonValue> {
        members_of(self.entries())
    }
}

/// `values_of` maps item by item.
pub proof fn lemma_values_of(items: Seq<Json>)
    ensures
        values_of(items).len() == items.len(),
        forall|i: int| 0 <= i < items.len() ==> #[trigger] values_of(items)[i] == value_of(items[i]),
    decreases items.len(),
{
    if items.len() > 0 {
        lemma_values_of(items.drop_last());
    }
}

/// Appending an item appends its value.
pub proof fn lemma_values_of_push(items: Seq<Json>, item: Json)
    ensures
        values_of(items.push(item)) == values_of(items).push(value_of(item)),
{
    assert(items.push(item).drop_last() =~= items);
}

/// The keys of `members_of(entries)` are the keys of `entries`.
pub proof fn lemma_members_keys(entries: Seq<(String, Json)>)
    ensures
        members_of(entries).dom().finite(),
        forall|key: Seq<char>| #[trigger]
            members_of(entries).contains_key(key) <==> keys_of(entries).contains(key),
    decreases entries.len(),
{
    if entries.len() > 0 {
        let front = entries.drop_last();
        lemma_members_keys(front);
        assert forall|key: Seq<char>| #[trigger]
            members_of(entries).contains_key(key) <==> keys_of(entries).contains(key) by {
            if keys_of(entries).contains(key) {
                let i: int = choose|i: int| 0 <= i < entries.len() && keys_of(entries)[i] == key;
                if i < front.len() {
                    assert(keys_of(front)[i] == key);
                }
            }
            if members_of(entries).contains_key(key) {
                if key == entries.last().0@ {
                    assert(keys_of(entries)[entries.len() - 1] == key);
                } else {
                    let i: int = choose|i: int| 0 <= i < front.len() && keys_of(front)[i] == key;
                    assert(keys_of(entries)[i] == key);
                }
            }
        }
    } else {
        assert forall|key: Seq<char>| !keys_of(entries).contains(key) by {}
    }
}

/// Where no key occurs twice, each entry's key maps to that entry's value,
/// and there are as many members as entries.
pub proof fn lemma_members_distinct(entries: Seq<(String, Json)>)
    requires
        keys_of(entries).no_duplicates(),
    ensures
        members_of(entries).len() == entries.len(),
        forall|i: int|
            0 <= i < entries.len() ==> #[trigger] members_of(entries)[keys_of(entries)[i]]
                == value_of(entries[i].1),
    decreases entries.len(),
{
    if entries.len() > 0 {
        let front = entries.drop_last();
        let last: int = entries.len() - 1;
        assert forall|i: int, j: int| 0 <= i < j < front.len() implies keys_of(front)[i]
            != keys_of(front)[j] by {
            assert(keys_of(entries)[i] != keys_of(entries)[j]);
        }
        lemma_members_distinct(front);
        lemma_members_keys(front);
        assert(!members_of(front).contains_key(entries.last().0@)) by {
            if keys_of(front).contains(entries.last().0@) {
                let i: int = choose|i: int| 0 <= i < front.len() && keys_of(front)[i] == entries.last().0@;
                assert(keys_of(entries)[i] != keys_of(entries)[last]);
            }
        }
        assert forall|i: int| 0 <= i < entries.len() implies #[trigger] members_of(
            entries,
        )[keys_of(entries)[i]] == value_of(entries[i].1) by {
            if i < last {
                assert(keys_of(entries)[i] != keys_of(entries)[last]);
                assert(keys_of(front)[i] == keys_of(entries)[i]);
            }
        }
    }
}

impl JsonObject {
    /// No key occurs twice.
    #[verifier::type_invariant]
    spec fn distinct_keys(self) -> bool {
        keys_of(self.entries@).no_duplicates()
    }

    /// The members as key and value pairs, in an order that carries no
    /// meaning; no key occurs twice among them.
    pub closed spec fn entries(self) -> Seq<(String, Json)> {
        self.entries@
    }

    /// An object without members.
    pub fn new() -> (object: JsonObject)
        ensures
            object@ == Map::<Seq<char>, JsonValue>::empty(),
    {
        JsonObject { entries: Vec::new() }
    }

    /// The number of members.
    pub fn len(&self) -> (n: usize)
        ensures
            n == self@.len(),
    {
        proof {
            use_type_invariant(self);
            lemma_members_distinct(self.entries@);
        }
        self.entries.len()
    }

    /// The keys of the members, each once, in an order that carries no
    /// meaning.
    pub fn keys(&self) -> (keys: Vec<&String>)
        ensures
            keys@.len() == self@.len(),
            forall|i: int, j: int| 0 <= i < j < keys@.len() ==> keys@[i]@ != keys@[j]@,
            forall|key: Seq<char>|
                self@.contains_key(key) <==> exists|i: int|
                    0 <= i < keys@.len() && #[trigger] keys@[i]@ == key,
    {
        proof {
            use_type_invariant(self);
            lemma_members_keys(self.entries@);
            lemma_members_distinct(self.entries@);
        }
        let mut keys: Vec<&String> = Vec::new();
        let mut i: usize = 0;
        while i < self.entries.len()
            invariant
                i <= self.entries.len(),
                keys@.len() == i,
                forall|j: int| 0 <= j < i ==> #[trigger] keys@[j]@ == keys_of(self.entries@)[j],
            decreases self.entries.len() - i,
        {
            keys.push(&self.entries[i].0);
            i += 1;
        }
        proof {
            assert forall|key: Seq<char>| self@.contains_key(key) implies exists|i: int|
                0 <= i < keys@.len() && #[trigger] keys@[i]@ == key by {
                let j: int = choose|j: int| 0 <= j < self.entries.len() && keys_of(self.entries@)[j] == key;
                assert(keys@[j]@ == key);
            }
            assert forall|key: Seq<char>|
                (exists|i: int| 0 <= i < keys@.len() && #[trigger] keys@[i]@ == key)
                implies self@.contains_key(key) by {
                let j: int = choose|j: int| 0 <= j < keys@.len() && #[trigger] keys@[j]@ == key;
                assert(keys_of(self.entries@)[j] == key);
            }
            assert forall|i: int, j: int| 0 <= i < j < keys@.len() implies keys@[i]@ != keys@[j]@ by {
                assert(keys_of(self.entries@)[i] != keys_of(self.entries@)[j]);
            }
        }
        keys
    }

    /// The value of the member with the given key, if there is one.
    pub fn get(&self, key: &String) -> (found: Option<&Json>)
        ensures
            match found {
                Some(value) => self@.contains_key(key@) && value@ == self@[key@],
                None => !self@.contains_key(key@),
            },
    {
        proof {
            use_type_invariant(self);
            lemma_members_keys(self.entries@);
            lemma_members_distinct(self.entries@);
        }
        let mut i: usize = 0;
        while i < self.entries.len()
            invariant
                i <= self.entries.len(),
                forall|j: int| 0 <= j < i ==> keys_of(self.entries@)[j] != key@,
                forall|j: int|
                    0 <= j < self.entries.len() ==> #[trigger] self@[keys_of(self.entries@)[j]]
                        == value_of(self.entries[j].1),
                forall|k: Seq<char>| #[trigger]
                    self@.contains_key(k) <==> keys_of(self.entries@).contains(k),
            decreases self.entries.len() - i,
        {
            if self.entries[i].0 == *key {
                assert(keys_of(self.entries@)[i as int] == key@);
                return Some(&self.entries[i].1);
            }
            i += 1;
        }
        None
    }

    /// Gives `key` the value `value`, and returns the value it had.
    pub fn insert(&mut self, key: String, value: Json) -> (previous: Option<Json>)
        ensures
            final(self)@ == old(self)@.insert(key@, value@),
            match previous {
                Some(before) => old(self)@.contains_key(key@) && before@ == old(self)@[key@],
                None => !old(self)@.contains_key(key@),
            },
    {
        proof {
            use_type_invariant(&*self);
            lemma_members_keys(self.entries@);
            lemma_members_distinct(self.entries@);
        }
        let ghost before = self.entries@;
        // The entries are changed outside `self`, which holds distinct keys
        // at every moment.
        let mut entries: Vec<(String, Json)> = Vec::new();
        core::mem::swap(&mut self.entries, &mut entries);
        let mut i: usize = 0;
        while i < entries.len()
            invariant
                i <= entries.len(),
                entries@ == before,
                before == old(self).entries@,
                keys_of(before).no_duplicates(),
                forall|j: int| 0 <= j < i ==> keys_of(before)[j] != key@,
            decreases entries.len() - i,
        {
            if entries[i].0 == key {
                let mut entry = (key, value);
                core::mem::swap(&mut entries[i], &mut entry);
                proof {
                    let after = entries@;
                    assert(keys_of(after) =~= keys_of(before));
                    lemma_members_keys(before);
                    lemma_members_distinct(before);
                    lemma_members_keys(after);
                    lemma_members_distinct(after);
                    assert(keys_of(before)[i as int] == key@);
                    assert forall|k: Seq<char>| members_of(before).insert(key@, value@).contains_key(k)
                        implies #[trigger] members_of(after)[k] == members_of(before).insert(
                        key@,
                        value@,
                    )[k] by {
                        let j: int = choose|j: int| 0 <= j < before.len() && keys_of(before)[j] == k;
                        assert(members_of(after)[keys_of(after)[j]] == value_of(after[j].1));
                        assert(members_of(before)[keys_of(before)[j]] == value_of(before[j].1));
                    }
                    assert(members_of(after) =~= members_of(before).insert(key@, value@));
                    assert(members_of(before)[keys_of(before)[i as int]] == value_of(before[i as int].1));
                }
                self.entries = entries;
                return Some(entry.1);
            }
            i += 1;
        }
        proof {
            assert(before.push((key, value)).drop_last() =~= before);
            assert(keys_of(before.push((key, value))) =~= keys_of(before).push(key@));
        }
        entries.push((key, value));
        self.entries = entries;
        None
    }
}

/// Whether `a` and `b` stand for one mathematical value.
fn same_value(a: &Json, b: &Json) -> (same: bool)
    ensures
        same == (a@ == b@),
    decreases a, 1int,
{
    match (a, b) {
        (Json::Object(x), Json::Object(y)) => same_members(x, y),
        (Json::Array(x), Json::Array(y)) => same_items(x, y),
        (Json::String(x), Json::String(y)) => *x == *y,
        (Json::Number(x), Json::Number(y)) => *x == *y,
        (Json::Boolean(x), Json::Boolean(y)) => *x == *y,
        (Json::Null, Json::Null) => true,
        _ => false,
    }
}

/// Whether `x` and `y` hold the same values in the same order.
fn same_items(x: &Vec<Json>, y: &Vec<Json>) -> (same: bool)
    ensures
        same == (values_of(x@) == values_of(y@)),
    decreases x, 0int,
{
    proof {
        lemma_values_of(x@);
        lemma_values_of(y@);
    }
    if x.len() != y.len() {
        return false;
    }
    let mut i: usize = 0;
    while i < x.len()
        invariant
            i <= x.len() == y.len(),
            values_of(x@).len() == x.len(),
            values_of(y@).len() == y.len(),
            forall|j: int| 0 <= j < x.len() ==> #[trigger] values_of(x@)[j] == value_of(x[j]),
            forall|j: int| 0 <= j < y.len() ==> #[trigger] values_of(y@)[j] == value_of(y[j]),
            forall|j: int| 0 <= j < i ==> value_of(x[j]) == value_of(y[j]),
        decreases x.len() - i,
    {
        if !same_value(&x[i], &y[i]) {
            assert(values_of(x@)[i as int] != values_of(y@)[i as int]);
            return false;
        }
        i += 1;
    }
    assert(values_of(x@) =~= values_of(y@));
    true
}

/// Whether `x` and `y` hold the same members, in whatever order.
fn same_members(x: &JsonObject, y: &JsonObject) -> (same: bool)
    ensures
        same == (x@ == y@),
    decreases x, 0int,
{
    proof {
        use_type_invariant(x);
        use_type_invariant(y);
        lemma_members_keys(x.entries@);
        lemma_members_distinct(x.entries@);
        lemma_members_keys(y.entries@);
        lemma_members_distinct(y.entries@);
    }
    if x.entries.len() != y.entries.len() {
        return false;
    }
    let mut i: usize = 0;
    while i < x.entries.len()
        invariant
            i <= x.entries.len(),
            x@.dom().finite(),
            y@.dom().finite(),
            x@.len() == y@.len(),
            forall|j: int|
                0 <= j < x.entries.len() ==> #[trigger] x@[keys_of(x.entries@)[j]] == value_of(
                    x.entries[j].1,
                ),
            forall|k: Seq<char>| #[trigger] x@.contains_key(k) <==> keys_of(x.entries@).contains(k),
            forall|j: int|
                0 <= j < i ==> y@.contains_key(#[trigger] keys_of(x.entries@)[j]) && y@[keys_of(
                    x.entries@,
                )[j]] == x@[keys_of(x.entries@)[j]],
        decreases x.entries.len() - i,
    {
        let ghost key = keys_of(x.entries@)[i as int];
        assert(key == x.entries[i as int].0@);
        match y.get(&x.entries[i].0) {
            Some(other) => {
                if !same_value(&x.entries[i].1, other) {
                    assert(y@[key] != x@[key]);
                    return false;
                }
            },
            None => {
                assert(x@.contains_key(key));
                return false;
            },
        }
        i += 1;
    }
    proof {
        assert(x@.dom().subset_of(y@.dom())) by {
            assert forall|k: Seq<char>| x@.dom().contains(k) implies y@.dom().contains(k) by {
                let j: int = choose|j: int| 0 <= j < x.entries.len() && keys_of(x.entries@)[j] == k;
                assert(y@.contains_key(keys_of(x.entries@)[j]));
            }
        }
        vstd::set_lib::lemma_subset_equality(x@.dom(), y@.dom());
        assert forall|k: Seq<char>| x@.dom().contains(k) implies #[trigger] x@[k] == y@[k] by {
            let j: int = choose|j: int| 0 <= j < x.entries.len() && keys_of(x.entries@)[j] == k;
            assert(y@.contains_key(keys_of(x.entries@)[j]));
        }
        assert(x@ =~= y@);
    }
    true
}

impl PartialEq for JsonObject {
    fn eq(&self, other: &JsonObject) -> (same: bool) {
        same_members(self, other)
    }
}

impl vstd::std_specs::cmp::PartialEqSpecImpl for JsonObject {
    open spec fn obeys_eq_spec() -> bool {
        true
    }

    open spec fn eq_spec(&self, other: &JsonObject) -> bool {
        self@ == other@
    }
}

impl Eq for JsonObject {}

impl PartialEq for Json {
    fn eq(&self, other: &Json) -> (same: bool) {
        same_value(self, other)
    }
}

impl Eq for Json {}

impl vstd::std_specs::cmp::PartialEqSpecImpl for Json {
    open spec fn obeys_eq_spec() -> bool {
        true
    }

    open spec fn eq_spec(&self, other: &Json) -> bool {
        self@ == other@
    }
}

} // verus!
