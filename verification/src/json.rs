//! An owned JSON tree, the document model that the converters read and build.

use vstd::prelude::*;
use crate::strs::str_eq;

verus! {

/// A JSON number: an integer that fits `u64` or `i64`, or the decimal text of
/// any other number (the converters never read such numbers as integers).
#[derive(Debug)]
pub enum JsonNumber {
    PosInt(u64),
    NegInt(i64),
    Float(String),
}

/// A JSON value. Object members keep their insertion order.
#[derive(Debug)]
pub enum JsonValue {
    Null,
    Bool(bool),
    Number(JsonNumber),
    String(String),
    Array(Vec<JsonValue>),
    Object(Vec<(String, JsonValue)>),
}

/// The mathematical model of a [`JsonValue`]: strings as character sequences.
pub enum JsonSpec {
    Null,
    Bool(bool),
    PosInt(u64),
    NegInt(i64),
    Float(Seq<char>),
    Str(Seq<char>),
    Array(Seq<JsonSpec>),
    Object(Seq<(Seq<char>, JsonSpec)>),
}

impl View for JsonValue {
    type V = JsonSpec;

    open spec fn view(&self) -> JsonSpec
        decreases self,
    {
        match self {
            JsonValue::Null => JsonSpec::Null,
            JsonValue::Bool(b) => JsonSpec::Bool(*b),
            JsonValue::Number(JsonNumber::PosInt(n)) => JsonSpec::PosInt(*n),
            JsonValue::Number(JsonNumber::NegInt(n)) => JsonSpec::NegInt(*n),
            JsonValue::Number(JsonNumber::Float(s)) => JsonSpec::Float(s@),
            JsonValue::String(s) => JsonSpec::Str(s@),
            JsonValue::Array(v) => JsonSpec::Array(
                Seq::new(
                    v@.len(),
                    |i: int| if 0 <= i < v@.len() { v@[i].view() } else { JsonSpec::Null },
                ),
            ),
            JsonValue::Object(es) => JsonSpec::Object(
                Seq::new(
                    es@.len(),
                    |i: int|
                        if 0 <= i < es@.len() {
                            (es@[i].0@, es@[i].1.view())
                        } else {
                            (Seq::empty(), JsonSpec::Null)
                        },
                ),
            ),
        }
    }
}

/// The value of the first member named `key`.
pub open spec fn entries_get(es: Seq<(Seq<char>, JsonSpec)>, key: Seq<char>) -> Option<JsonSpec>
    decreases es.len(),
{
    if es.len() == 0 {
        None
    } else if es[0].0 == key {
        Some(es[0].1)
    } else {
        entries_get(es.drop_first(), key)
    }
}

/// The position of the first member named `key`, or the number of members.
pub open spec fn first_key_index(es: Seq<(Seq<char>, JsonSpec)>, key: Seq<char>) -> nat
    decreases es.len(),
{
    if es.len() == 0 {
        0
    } else if es[0].0 == key {
        0
    } else {
        1 + first_key_index(es.drop_first(), key)
    }
}

pub open spec fn views(s: Seq<JsonValue>) -> Seq<JsonSpec> {
    s.map_values(|x: JsonValue| x@)
}

pub open spec fn entry_views(s: Seq<(String, JsonValue)>) -> Seq<(Seq<char>, JsonSpec)> {
    s.map_values(|e: (String, JsonValue)| (e.0@, e.1@))
}

impl JsonSpec {
    pub open spec fn get(self, key: Seq<char>) -> Option<JsonSpec> {
        match self {
            JsonSpec::Object(es) => entries_get(es, key),
            _ => None,
        }
    }

    /// The value with member `key` set to `value`: the first member of that
    /// name replaced, or one added at the end; a value that is no object
    /// becomes an object of that one member.
    pub open spec fn with_member(self, key: Seq<char>, value: JsonSpec) -> JsonSpec {
        match self {
            JsonSpec::Object(es) => {
                let i = first_key_index(es, key);
                if i < es.len() {
                    JsonSpec::Object(es.update(i as int, (key, value)))
                } else {
                    JsonSpec::Object(es.push((key, value)))
                }
            },
            _ => JsonSpec::Object(seq![(key, value)]),
        }
    }

    pub open spec fn as_str(self) -> Option<Seq<char>> {
        match self {
            JsonSpec::Str(s) => Some(s),
            _ => None,
        }
    }

    pub open spec fn as_array(self) -> Option<Seq<JsonSpec>> {
        match self {
            JsonSpec::Array(a) => Some(a),
            _ => None,
        }
    }

    pub open spec fn as_bool(self) -> Option<bool> {
        match self {
            JsonSpec::Bool(b) => Some(b),
            _ => None,
        }
    }

    /// The value as an `i64` where it is an integer, integers above
    /// `i64::MAX` saturating to `i64::MAX`.
    pub open spec fn as_i64_saturating(self) -> Option<i64> {
        match self {
            JsonSpec::PosInt(n) => if n <= i64::MAX { Some(n as i64) } else { Some(i64::MAX) },
            JsonSpec::NegInt(n) => Some(n),
            _ => None,
        }
    }

    /// The value as a `u64`, as serde_json's `as_u64` reads it.
    pub open spec fn as_u64(self) -> Option<u64> {
        match self {
            JsonSpec::PosInt(n) => Some(n),
            JsonSpec::NegInt(n) => if n >= 0 { Some(n as u64) } else { None },
            _ => None,
        }
    }

    /// `self.get(key)` read as a string.
    pub open spec fn str_field(self, key: Seq<char>) -> Option<Seq<char>> {
        match self.get(key) {
            Some(v) => v.as_str(),
            None => None,
        }
    }

    /// `self.get(key)` read as an array.
    pub open spec fn array_field(self, key: Seq<char>) -> Option<Seq<JsonSpec>> {
        match self.get(key) {
            Some(v) => v.as_array(),
            None => None,
        }
    }

    /// The node's `type` string, if it has one.
    pub open spec fn node_type(self) -> Option<Seq<char>> {
        self.str_field("type"@)
    }

    /// The member `key` of the node's `attrs`.
    pub open spec fn attr(self, key: Seq<char>) -> Option<JsonSpec> {
        match self.get("attrs"@) {
            Some(a) => a.get(key),
            None => None,
        }
    }

    pub open spec fn attr_str(self, key: Seq<char>) -> Option<Seq<char>> {
        match self.attr(key) {
            Some(v) => v.as_str(),
            None => None,
        }
    }

    pub open spec fn attr_bool(self, key: Seq<char>) -> Option<bool> {
        match self.attr(key) {
            Some(v) => v.as_bool(),
            None => None,
        }
    }

    pub open spec fn attr_i64_saturating(self, key: Seq<char>) -> Option<i64> {
        match self.attr(key) {
            Some(v) => v.as_i64_saturating(),
            None => None,
        }
    }

    pub open spec fn attr_u64(self, key: Seq<char>) -> Option<u64> {
        match self.attr(key) {
            Some(v) => v.as_u64(),
            None => None,
        }
    }
}

/// An array's model is the sequence of its elements' models.
pub proof fn lemma_array_view(v: Vec<JsonValue>)
    ensures
        JsonValue::Array(v)@ == JsonSpec::Array(views(v@)),
{
    let r = JsonValue::Array(v);
    reveal_with_fuel(<JsonValue as View>::view, 2);
    assert(r@ is Array);
    assert(r@->Array_0.len() == v@.len());
    assert(forall|i: int| 0 <= i < v@.len() ==> r@->Array_0[i] == v@[i]@);
    assert(r@->Array_0 =~= views(v@));
}

/// An object's model is the sequence of its members' models.
pub proof fn lemma_object_view(es: Vec<(String, JsonValue)>)
    ensures
        JsonValue::Object(es)@ == JsonSpec::Object(entry_views(es@)),
{
    let r = JsonValue::Object(es);
    reveal_with_fuel(<JsonValue as View>::view, 2);
    assert(r@ is Object);
    assert(r@->Object_0.len() == es@.len());
    assert(forall|i: int| 0 <= i < es@.len() ==> r@->Object_0[i] == (es@[i].0@, es@[i].1@));
    assert(r@->Object_0 =~= entry_views(es@));
}

proof fn lemma_entries_get_skip(es: Seq<(Seq<char>, JsonSpec)>, key: Seq<char>, i: int)
    requires
        0 <= i < es.len(),
        es[i].0 != key,
    ensures
        entries_get(es.skip(i), key) == entries_get(es.skip(i + 1), key),
{
    assert(es.skip(i).drop_first() =~= es.skip(i + 1));
}

/// The first member named `k` decides what `entries_get` finds.
proof fn lemma_entries_get_first(es: Seq<(Seq<char>, JsonSpec)>, k: Seq<char>, j: int)
    requires
        0 <= j < es.len(),
        es[j].0 == k,
        forall|i: int| 0 <= i < j ==> #[trigger] es[i].0 != k,
    ensures
        entries_get(es, k) == Some(es[j].1),
    decreases j,
{
    if j > 0 {
        assert forall|i: int| 0 <= i < j - 1 implies #[trigger] es.drop_first()[i].0 != k by {
            assert(es.drop_first()[i] == es[i + 1]);
        }
        lemma_entries_get_first(es.drop_first(), k, j - 1);
    }
}

/// The first member named `k` sits at `first_key_index`.
proof fn lemma_first_key_index(es: Seq<(Seq<char>, JsonSpec)>, k: Seq<char>, j: int)
    requires
        0 <= j <= es.len(),
        j < es.len() ==> es[j].0 == k,
        forall|i: int| 0 <= i < j ==> #[trigger] es[i].0 != k,
    ensures
        first_key_index(es, k) == j,
    decreases j,
{
    if j > 0 {
        assert forall|i: int| 0 <= i < j - 1 implies #[trigger] es.drop_first()[i].0 != k by {
            assert(es.drop_first()[i] == es[i + 1]);
        }
        if j < es.len() {
            assert(es.drop_first()[j - 1] == es[j]);
        }
        lemma_first_key_index(es.drop_first(), k, j - 1);
    }
}

/// Replacing a member by one of the same name leaves the other names' values.
proof fn lemma_entries_get_update(es: Seq<(Seq<char>, JsonSpec)>, i: int, e: (Seq<char>, JsonSpec), k: Seq<char>)
    requires
        0 <= i < es.len(),
        es[i].0 == e.0,
        k != e.0,
    ensures
        entries_get(es.update(i, e), k) == entries_get(es, k),
    decreases es.len(),
{
    if es.len() > 0 {
        if i > 0 {
            assert(es.update(i, e).drop_first() =~= es.drop_first().update(i - 1, e));
            lemma_entries_get_update(es.drop_first(), i - 1, e, k);
        } else {
            assert(es.update(i, e).drop_first() =~= es.drop_first());
        }
    }
}

/// Adding a member leaves the other names' values.
proof fn lemma_entries_get_push(es: Seq<(Seq<char>, JsonSpec)>, e: (Seq<char>, JsonSpec), k: Seq<char>)
    requires
        k != e.0,
    ensures
        entries_get(es.push(e), k) == entries_get(es, k),
    decreases es.len(),
{
    if es.len() == 0 {
        assert(es.push(e).drop_first() =~= Seq::<(Seq<char>, JsonSpec)>::empty());
    } else {
        assert(es.push(e).drop_first() =~= es.drop_first().push(e));
        lemma_entries_get_push(es.drop_first(), e, k);
    }
}

impl JsonValue {
    /// A JSON string holding `s`.
    pub fn from_str(s: &str) -> (r: JsonValue)
        ensures
            r@ == JsonSpec::Str(s@),
    {
        JsonValue::String(s.to_owned())
    }

    /// An object with no members.
    pub fn empty_object() -> (r: JsonValue)
        ensures
            r@ == JsonSpec::Object(Seq::empty()),
    {
        let r = JsonValue::Object(Vec::new());
        assert(r@->Object_0 =~= Seq::empty());
        r
    }

    /// The value of the first member named `key`, for an object.
    pub fn get(&self, key: &str) -> (r: Option<&JsonValue>)
        ensures
            match r {
                Some(v) => self@.get(key@) == Some(v@),
                None => self@.get(key@) is None,
            },
    {
        match self {
            JsonValue::Object(es) => {
                let ghost m = self@->Object_0;
                proof {
                    lemma_object_view(*es);
                    assert(m.skip(0) =~= m);
                }
                let mut i: usize = 0;
                while i < es.len()
                    invariant
                        0 <= i <= es.len(),
                        m == entry_views(es@),
                        self@.get(key@) == entries_get(m.skip(i as int), key@),
                    decreases es.len() - i,
                {
                    if str_eq(es[i].0.as_str(), key) {
                        assert(m.skip(i as int)[0] == m[i as int]);
                        return Some(&es[i].1);
                    }
                    proof {
                        lemma_entries_get_skip(m, key@, i as int);
                    }
                    i += 1;
                }
                assert(m.skip(i as int).len() == 0);
                None
            },
            _ => None,
        }
    }

    pub fn as_str(&self) -> (r: Option<&String>)
        ensures
            match r {
                Some(s) => self@.as_str() == Some(s@),
                None => self@.as_str() is None,
            },
    {
        match self {
            JsonValue::String(s) => Some(s),
            _ => None,
        }
    }

    pub fn as_array(&self) -> (r: Option<&Vec<JsonValue>>)
        ensures
            match r {
                Some(a) => self@.as_array() == Some(views(a@)),
                None => self@.as_array() is None,
            },
    {
        match self {
            JsonValue::Array(a) => {
                proof {
                    lemma_array_view(*a);
                }
                Some(a)
            },
            _ => None,
        }
    }

    pub fn as_bool(&self) -> (r: Option<bool>)
        ensures
            r == self@.as_bool(),
    {
        match self {
            JsonValue::Bool(b) => Some(*b),
            _ => None,
        }
    }

    pub fn as_i64_saturating(&self) -> (r: Option<i64>)
        ensures
            r == self@.as_i64_saturating(),
    {
        match self {
            JsonValue::Number(JsonNumber::PosInt(n)) => {
                if *n <= i64::MAX as u64 {
                    Some(*n as i64)
                } else {
                    Some(i64::MAX)
                }
            },
            JsonValue::Number(JsonNumber::NegInt(n)) => Some(*n),
            _ => None,
        }
    }

    pub fn as_u64(&self) -> (r: Option<u64>)
        ensures
            r == self@.as_u64(),
    {
        match self {
            JsonValue::Number(JsonNumber::PosInt(n)) => Some(*n),
            JsonValue::Number(JsonNumber::NegInt(n)) => {
                if *n >= 0 {
                    Some(*n as u64)
                } else {
                    None
                }
            },
            _ => None,
        }
    }

    pub fn is_object(&self) -> (r: bool)
        ensures
            r == self@ is Object,
    {
        match self {
            JsonValue::Object(_) => true,
            _ => false,
        }
    }

    pub fn is_null(&self) -> (r: bool)
        ensures
            r == self@ is Null,
    {
        match self {
            JsonValue::Null => true,
            _ => false,
        }
    }

    pub fn is_boolean(&self) -> (r: bool)
        ensures
            r == self@ is Bool,
    {
        match self {
            JsonValue::Bool(_) => true,
            _ => false,
        }
    }

    /// `self.get(key)` read as a string.
    pub fn str_field(&self, key: &str) -> (r: Option<&String>)
        ensures
            match r {
                Some(s) => self@.str_field(key@) == Some(s@),
                None => self@.str_field(key@) is None,
            },
    {
        match self.get(key) {
            Some(v) => v.as_str(),
            None => None,
        }
    }

    /// `self.get(key)` read as an array.
    pub fn array_field(&self, key: &str) -> (r: Option<&Vec<JsonValue>>)
        ensures
            match r {
                Some(a) => self@.array_field(key@) == Some(views(a@)),
                None => self@.array_field(key@) is None,
            },
    {
        match self.get(key) {
            Some(v) => v.as_array(),
            None => None,
        }
    }

    /// The member `key` of the node's `attrs`.
    pub fn attr(&self, key: &str) -> (r: Option<&JsonValue>)
        ensures
            match r {
                Some(v) => self@.attr(key@) == Some(v@),
                None => self@.attr(key@) is None,
            },
    {
        match self.get("attrs") {
            Some(a) => a.get(key),
            None => None,
        }
    }

    pub fn attr_str(&self, key: &str) -> (r: Option<&String>)
        ensures
            match r {
                Some(s) => self@.attr_str(key@) == Some(s@),
                None => self@.attr_str(key@) is None,
            },
    {
        match self.attr(key) {
            Some(v) => v.as_str(),
            None => None,
        }
    }

    pub fn attr_bool(&self, key: &str) -> (r: Option<bool>)
        ensures
            r == self@.attr_bool(key@),
    {
        match self.attr(key) {
            Some(v) => v.as_bool(),
            None => None,
        }
    }

    pub fn attr_i64_saturating(&self, key: &str) -> (r: Option<i64>)
        ensures
            r == self@.attr_i64_saturating(key@),
    {
        match self.attr(key) {
            Some(v) => v.as_i64_saturating(),
            None => None,
        }
    }

    pub fn attr_u64(&self, key: &str) -> (r: Option<u64>)
        ensures
            r == self@.attr_u64(key@),
    {
        match self.attr(key) {
            Some(v) => v.as_u64(),
            None => None,
        }
    }

    /// The node's `type` string, if it has one.
    pub fn node_type(&self) -> (r: Option<&String>)
        ensures
            match r {
                Some(s) => self@.node_type() == Some(s@),
                None => self@.node_type() is None,
            },
    {
        self.str_field("type")
    }

    /// Whether the node's `type` is `t`.
    pub fn has_type(&self, t: &str) -> (r: bool)
        ensures
            r == (self@.node_type() == Some(t@)),
    {
        match self.node_type() {
            Some(s) => str_eq(s.as_str(), t),
            None => false,
        }
    }
}

impl JsonValue {
    /// A copy of the value.
    #[verifier::loop_isolation(false)]
    pub fn copy(&self) -> (r: JsonValue)
        ensures
            r@ == self@,
        decreases self,
    {
        match self {
            JsonValue::Null => JsonValue::Null,
            JsonValue::Bool(b) => JsonValue::Bool(*b),
            JsonValue::Number(JsonNumber::PosInt(n)) => JsonValue::Number(JsonNumber::PosInt(*n)),
            JsonValue::Number(JsonNumber::NegInt(n)) => JsonValue::Number(JsonNumber::NegInt(*n)),
            JsonValue::Number(JsonNumber::Float(s)) => JsonValue::Number(JsonNumber::Float(s.clone())),
            JsonValue::String(s) => JsonValue::String(s.clone()),
            JsonValue::Array(items) => {
                let mut out: Vec<JsonValue> = Vec::new();
                let mut i: usize = 0;
                while i < items.len()
                    invariant
                        0 <= i <= items@.len(),
                        out@.len() == i,
                        forall|j: int| 0 <= j < i ==> #[trigger] out@[j]@ == items@[j]@,
                    decreases items.len() - i,
                {
                    proof {
                        assert(decreases_to!(*items => items@[i as int]));
                    }
                    let c = items[i].copy();
                    out.push(c);
                    i += 1;
                }
                proof {
                    lemma_array_view(out);
                    lemma_array_view(*items);
                    assert(views(out@) =~= views(items@));
                }
                JsonValue::Array(out)
            },
            JsonValue::Object(es) => {
                let mut out: Vec<(String, JsonValue)> = Vec::new();
                let mut i: usize = 0;
                while i < es.len()
                    invariant
                        0 <= i <= es@.len(),
                        out@.len() == i,
                        forall|j: int| #![trigger out@[j]] 0 <= j < i ==> out@[j].0@ == es@[j].0@ && out@[j].1@ == es@[j].1@,
                    decreases es.len() - i,
                {
                    proof {
                        assert(decreases_to!(*es => es@[i as int]));
                        assert(decreases_to!(es@[i as int] => es@[i as int].1));
                    }
                    let v = es[i].1.copy();
                    out.push((es[i].0.clone(), v));
                    i += 1;
                }
                proof {
                    lemma_object_view(out);
                    lemma_object_view(*es);
                    assert(entry_views(out@) =~= entry_views(es@));
                }
                JsonValue::Object(out)
            },
        }
    }

    /// Whether two values are equal as JSON models.
    #[verifier::loop_isolation(false)]
    pub fn json_eq(&self, other: &JsonValue) -> (r: bool)
        ensures
            r == (self@ == other@),
        decreases self,
    {
        match (self, other) {
            (JsonValue::Null, JsonValue::Null) => true,
            (JsonValue::Bool(a), JsonValue::Bool(b)) => *a == *b,
            (JsonValue::Number(JsonNumber::PosInt(a)), JsonValue::Number(JsonNumber::PosInt(b))) => *a == *b,
            (JsonValue::Number(JsonNumber::NegInt(a)), JsonValue::Number(JsonNumber::NegInt(b))) => *a == *b,
            (JsonValue::Number(JsonNumber::Float(a)), JsonValue::Number(JsonNumber::Float(b))) => str_eq(a.as_str(), b.as_str()),
            (JsonValue::String(a), JsonValue::String(b)) => str_eq(a.as_str(), b.as_str()),
            (JsonValue::Array(a), JsonValue::Array(b)) => {
                proof {
                    lemma_array_view(*a);
                    lemma_array_view(*b);
                }
                if a.len() != b.len() {
                    assert(views(a@).len() != views(b@).len());
                    return false;
                }
                let mut i: usize = 0;
                while i < a.len()
                    invariant
                        0 <= i <= a@.len() == b@.len(),
                        forall|j: int| 0 <= j < i ==> #[trigger] a@[j]@ == b@[j]@,
                    decreases a.len() - i,
                {
                    proof {
                        assert(decreases_to!(*a => a@[i as int]));
                    }
                    if !a[i].json_eq(&b[i]) {
                        assert(views(a@)[i as int] != views(b@)[i as int]);
                        return false;
                    }
                    i += 1;
                }
                assert(views(a@) =~= views(b@));
                true
            },
            (JsonValue::Object(a), JsonValue::Object(b)) => {
                proof {
                    lemma_object_view(*a);
                    lemma_object_view(*b);
                }
                if a.len() != b.len() {
                    assert(entry_views(a@).len() != entry_views(b@).len());
                    return false;
                }
                let mut i: usize = 0;
                while i < a.len()
                    invariant
                        0 <= i <= a@.len() == b@.len(),
                        forall|j: int| #![trigger a@[j]] 0 <= j < i ==> a@[j].0@ == b@[j].0@ && a@[j].1@ == b@[j].1@,
                    decreases a.len() - i,
                {
                    proof {
                        assert(decreases_to!(*a => a@[i as int]));
                        assert(decreases_to!(a@[i as int] => a@[i as int].1));
                    }
                    if !str_eq(a[i].0.as_str(), b[i].0.as_str()) || !a[i].1.json_eq(&b[i].1) {
                        assert(entry_views(a@)[i as int] != entry_views(b@)[i as int]);
                        return false;
                    }
                    i += 1;
                }
                assert(entry_views(a@) =~= entry_views(b@));
                true
            },
            _ => false,
        }
    }
}

impl JsonValue {
    /// Sets the member `key` of an object, replacing the first member of that
    /// name or adding one at the end; any other value becomes an object of
    /// that one member.
    pub fn set(&mut self, key: &str, value: JsonValue)
        ensures
            final(self)@ == old(self)@.with_member(key@, value@),
            final(self)@ is Object,
            final(self)@.get(key@) == Some(value@),
            forall|k: Seq<char>|
                k != key@ ==> #[trigger] final(self)@.get(k) == (if old(self)@ is Object {
                    old(self)@.get(k)
                } else {
                    None
                }),
    {
        let ghost vv = value@;
        let mut es: Vec<(String, JsonValue)> = Vec::new();
        let mut old = JsonValue::Null;
        std::mem::swap(self, &mut old);
        let ghost was_object = old@ is Object;
        if let JsonValue::Object(entries) = old {
            proof {
                lemma_object_view(entries);
            }
            es = entries;
        }
        let ghost ev = entry_views(es@);
        assert(forall|k: Seq<char>| #![trigger entries_get(ev, k)] (if was_object {
            old@.get(k)
        } else {
            None::<JsonSpec>
        }) == entries_get(ev, k)) by {
            if !was_object {
                assert(ev.len() == 0);
            }
        }
        let mut i: usize = 0;
        while i < es.len() && !str_eq(es[i].0.as_str(), key)
            invariant
                i <= es@.len(),
                ev == entry_views(es@),
                forall|j: int| 0 <= j < i ==> #[trigger] ev[j].0 != key@,
            decreases es.len() - i,
        {
            i += 1;
        }
        let found = i < es.len();
        if found && i < es.len() {
            es.set(i, (key.to_owned(), value));
            proof {
                let nv = entry_views(es@);
                assert(nv =~= ev.update(i as int, (key@, vv)));
                lemma_first_key_index(ev, key@, i as int);
                lemma_entries_get_first(nv, key@, i as int);
                assert forall|k: Seq<char>| k != key@ implies #[trigger] entries_get(nv, k) == entries_get(ev, k) by {
                    lemma_entries_get_update(ev, i as int, (key@, vv), k);
                }
            }
        } else {
            es.push((key.to_owned(), value));
            proof {
                let nv = entry_views(es@);
                assert(nv =~= ev.push((key@, vv)));
                assert forall|j: int| 0 <= j < ev.len() implies #[trigger] nv[j].0 != key@ by {
                    assert(nv[j] == ev[j]);
                }
                lemma_entries_get_first(nv, key@, ev.len() as int);
                lemma_first_key_index(ev, key@, ev.len() as int);
                if !was_object {
                    assert(nv =~= seq![(key@, vv)]);
                }
                assert forall|k: Seq<char>| k != key@ implies #[trigger] entries_get(nv, k) == entries_get(ev, k) by {
                    lemma_entries_get_push(ev, (key@, vv), k);
                }
            }
        }
        proof {
            lemma_object_view(es);
        }
        *self = JsonValue::Object(es);
    }

    /// An object of the given members.
    pub fn object(entries: Vec<(String, JsonValue)>) -> (r: JsonValue)
        ensures
            r@ == JsonSpec::Object(entry_views(entries@)),
    {
        proof {
            lemma_object_view(entries);
        }
        JsonValue::Object(entries)
    }

    /// An array of the given elements.
    pub fn array(items: Vec<JsonValue>) -> (r: JsonValue)
        ensures
            r@ == JsonSpec::Array(views(items@)),
    {
        proof {
            lemma_array_view(items);
        }
        JsonValue::Array(items)
    }
}

/// `{"type": t}`.
pub fn typed_node(t: &str) -> (r: JsonValue)
    ensures
        r@ == JsonSpec::Object(seq![("type"@, JsonSpec::Str(t@))]),
        r@.node_type() == Some(t@),
{
    let mut es: Vec<(String, JsonValue)> = Vec::new();
    es.push(("type".to_owned(), JsonValue::from_str(t)));
    let r = JsonValue::object(es);
    assert(entry_views(es@) =~= seq![("type"@, JsonSpec::Str(t@))]);
    r
}

/// The model of a text node holding `text` with `marks`.
pub open spec fn spec_text_node(text: Seq<char>, marks: Seq<JsonSpec>) -> JsonSpec {
    let base = seq![("type"@, JsonSpec::Str("text"@)), ("text"@, JsonSpec::Str(text))];
    if marks.len() > 0 {
        JsonSpec::Object(base.push(("marks"@, JsonSpec::Array(marks))))
    } else {
        JsonSpec::Object(base)
    }
}

/// A text node: `{"type": "text", "text": text}`, with `"marks"` where
/// there are any.
pub fn text_node(text: String, marks: &Vec<JsonValue>) -> (r: JsonValue)
    ensures
        r@ == spec_text_node(text@, views(marks@)),
        r@.node_type() == Some("text"@),
        r@.str_field("text"@) == Some(text@),
        r@.array_field("marks"@) == (if marks@.len() > 0 {
            Some(views(marks@))
        } else {
            None
        }),
{
    let ghost tv = text@;
    let mut es: Vec<(String, JsonValue)> = Vec::new();
    es.push(("type".to_owned(), JsonValue::from_str("text")));
    es.push(("text".to_owned(), JsonValue::String(text)));
    if marks.len() > 0 {
        es.push(("marks".to_owned(), JsonValue::array(copy_values(marks))));
    }
    let r = JsonValue::object(es);
    proof {
        reveal_strlit("type");
        reveal_strlit("text");
        reveal_strlit("marks");
        let ev = entry_views(es@);
        if marks@.len() > 0 {
            assert(ev =~= seq![("type"@, JsonSpec::Str("text"@)), ("text"@, JsonSpec::Str(tv))].push(
                ("marks"@, JsonSpec::Array(views(marks@))),
            ));
        } else {
            assert(ev =~= seq![("type"@, JsonSpec::Str("text"@)), ("text"@, JsonSpec::Str(tv))]);
        }
        assert(ev[0].0 == "type"@ && ev[1].0 == "text"@);
        assert(ev.drop_first()[0] == ev[1]);
        assert(entries_get(ev, "type"@) == Some(ev[0].1));
        assert(entries_get(ev.drop_first(), "text"@) == Some(ev[1].1));
        assert("type"@[1] != "text"@[1]);
        assert(entries_get(ev, "text"@) == Some(ev[1].1));
        assert(ev.drop_first().drop_first().len() == ev.len() - 2);
        if marks@.len() > 0 {
            assert(ev[2].0 == "marks"@);
            assert(ev.drop_first().drop_first()[0] == ev[2]);
            assert(entries_get(ev.drop_first().drop_first(), "marks"@) == Some(ev[2].1));
            assert(entries_get(ev.drop_first(), "marks"@) == Some(ev[2].1));
        } else {
            assert(entries_get(ev.drop_first().drop_first(), "marks"@) is None);
            assert(entries_get(ev.drop_first(), "marks"@) is None);
        }
    }
    r
}

/// Copies of the values, in order.
pub fn copy_values(v: &Vec<JsonValue>) -> (r: Vec<JsonValue>)
    ensures
        views(r@) == views(v@),
{
    let mut out: Vec<JsonValue> = Vec::new();
    let mut i: usize = 0;
    while i < v.len()
        invariant
            i <= v@.len(),
            out@.len() == i,
            forall|j: int| 0 <= j < i ==> #[trigger] out@[j]@ == v@[j]@,
        decreases v.len() - i,
    {
        out.push(v[i].copy());
        i += 1;
    }
    assert(views(out@) =~= views(v@));
    out
}

} // verus!
