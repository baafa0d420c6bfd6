//! The JSON-like value model: numbers, strings, arrays and objects whose
//! keys keep their insertion order and never repeat.

use vstd::prelude::*;

verus! {

/// A JSON number. Integers keep their exact value; a number that is not an
/// integer is carried as the bit pattern of its IEEE-754 double, which only
/// the code that does floating-point arithmetic interprets.
#[derive(Clone, Copy, Debug, PartialEq, Eq, Structural)]
pub enum JsonNumber {
    PosInt(u64),
    NegInt(i64),
    Float(u64),
}

impl JsonNumber {
    /// The integer that the number stands for, if it is an integer.
    pub open spec fn int_value(self) -> Option<int> {
        match self {
            JsonNumber::PosInt(u) => Some(u as int),
            JsonNumber::NegInt(i) => Some(i as int),
            JsonNumber::Float(_) => None,
        }
    }
}

/// A JSON-like value.
#[derive(Debug, PartialEq)]
pub enum JsonValue {
    Null,
    Bool(bool),
    Number(JsonNumber),
    String(String),
    Array(Vec<JsonValue>),
    Object(JsonObject),
}

impl JsonValue {
    /// The value as a signed 64-bit integer, if it is an integer number in range.
    pub open spec fn i64_value(self) -> Option<i64> {
        match self {
            JsonValue::Number(n) => match n.int_value() {
                Some(x) => if i64::MIN <= x <= i64::MAX { Some(x as i64) } else { None },
                None => None,
            },
            _ => None,
        }
    }

    /// The value as an unsigned 64-bit integer, if it is an integer number in range.
    pub open spec fn u64_value(self) -> Option<u64> {
        match self {
            JsonValue::Number(n) => match n.int_value() {
                Some(x) => if 0 <= x <= u64::MAX { Some(x as u64) } else { None },
                None => None,
            },
            _ => None,
        }
    }

    /// The characters of the value, if it is a string.
    pub open spec fn str_view(self) -> Option<Seq<char>> {
        match self {
            JsonValue::String(s) => Some(s@),
            _ => None,
        }
    }

    /// The value as a signed 64-bit integer.
    pub fn as_i64(&self) -> (r: Option<i64>)
        ensures
            r == self.i64_value(),
    {
        match self {
            JsonValue::Number(JsonNumber::PosInt(u)) => {
                if *u <= 0x7fff_ffff_ffff_ffffu64 {
                    Some(*u as i64)
                } else {
                    None
                }
            },
            JsonValue::Number(JsonNumber::NegInt(i)) => Some(*i),
            _ => None,
        }
    }

    /// The value as an unsigned 64-bit integer.
    pub fn as_u64(&self) -> (r: Option<u64>)
        ensures
            r == self.u64_value(),
    {
        match self {
            JsonValue::Number(JsonNumber::PosInt(u)) => Some(*u),
            JsonValue::Number(JsonNumber::NegInt(i)) => {
                if *i >= 0 {
                    Some(*i as u64)
                } else {
                    None
                }
            },
            _ => None,
        }
    }

    /// The value as a string slice, if it is a string.
    pub fn as_str(&self) -> (r: Option<&str>)
        ensures
            match r {
                Some(t) => self.str_view() == Some(t@),
                None => self.str_view() is None,
            },
    {
        match self {
            JsonValue::String(s) => Some(s.as_str()),
            _ => None,
        }
    }

    /// Whether the value is `null`.
    pub fn is_null(&self) -> (r: bool)
        ensures
            r == (*self is Null),
    {
        match self {
            JsonValue::Null => true,
            _ => false,
        }
    }
}

/// An object entry seen through its key's characters.
pub type EntryView = (Seq<char>, JsonValue);

/// The abstract view of one stored entry.
pub open spec fn entry_view(e: (String, JsonValue)) -> EntryView {
    (e.0@, e.1)
}

/// `s` binds `k` somewhere.
pub open spec fn has_key(s: Seq<EntryView>, k: Seq<char>) -> bool {
    exists|i: int| 0 <= i < s.len() && #[trigger] s[i].0 == k
}

/// `i` is the first position of `s` that binds `k`.
pub open spec fn is_first_key(s: Seq<EntryView>, k: Seq<char>, i: int) -> bool {
    &&& 0 <= i < s.len()
    &&& s[i].0 == k
    &&& forall|j: int| 0 <= j < i ==> #[trigger] s[j].0 != k
}

/// The first position of `s` that binds `k` (meaningful when `has_key(s, k)`).
pub open spec fn key_pos(s: Seq<EntryView>, k: Seq<char>) -> int {
    choose|i: int| is_first_key(s, k, i)
}

/// The value bound to `k`, if any.
pub open spec fn lookup(s: Seq<EntryView>, k: Seq<char>) -> Option<JsonValue> {
    if has_key(s, k) {
        Some(s[key_pos(s, k)].1)
    } else {
        None
    }
}

/// Binds `k` to `v`: an existing binding is replaced where it stands, a new
/// one goes to the end.
pub open spec fn insert_entry(s: Seq<EntryView>, k: Seq<char>, v: JsonValue) -> Seq<EntryView> {
    if has_key(s, k) {
        s.update(key_pos(s, k), (k, v))
    } else {
        s.push((k, v))
    }
}

/// Removes the binding of `k`, if any, keeping the order of the others.
pub open spec fn remove_entry(s: Seq<EntryView>, k: Seq<char>) -> Seq<EntryView> {
    if has_key(s, k) {
        s.remove(key_pos(s, k))
    } else {
        s
    }
}

/// No key occurs twice.
pub open spec fn keys_unique(s: Seq<EntryView>) -> bool {
    forall|i: int, j: int|
        0 <= i < s.len() && 0 <= j < s.len() && i != j ==> #[trigger] s[i].0 != #[trigger] s[j].0
}

/// A key that occurs has a first occurrence, and `key_pos` is that occurrence.
pub proof fn lemma_key_pos(s: Seq<EntryView>, k: Seq<char>, i: int)
    requires
        0 <= i < s.len(),
        s[i].0 == k,
    ensures
        has_key(s, k),
        is_first_key(s, k, key_pos(s, k)),
        key_pos(s, k) <= i,
    decreases i,
{
    if forall|j: int| 0 <= j < i ==> #[trigger] s[j].0 != k {
        assert(is_first_key(s, k, i));
        lemma_first_key_unique(s, k, i, key_pos(s, k));
    } else {
        let j = choose|j: int| 0 <= j < i && #[trigger] s[j].0 == k;
        lemma_key_pos(s, k, j);
    }
}

/// A bound key's `key_pos` is its first occurrence.
pub proof fn lemma_has_key(s: Seq<EntryView>, k: Seq<char>)
    requires
        has_key(s, k),
    ensures
        is_first_key(s, k, key_pos(s, k)),
{
    let i = choose|i: int| 0 <= i < s.len() && #[trigger] s[i].0 == k;
    lemma_key_pos(s, k, i);
}

/// Two first occurrences of one key are the same position.
pub proof fn lemma_first_key_unique(s: Seq<EntryView>, k: Seq<char>, a: int, b: int)
    requires
        is_first_key(s, k, a),
        is_first_key(s, k, b),
    ensures
        a == b,
{
    if a < b {
        assert(s[a].0 != k);
    } else if b < a {
        assert(s[b].0 != k);
    }
}

/// Removing a position keeps keys distinct, and its key is then unbound.
pub proof fn lemma_remove_unique(s: Seq<EntryView>, i: int)
    requires
        keys_unique(s),
        0 <= i < s.len(),
    ensures
        keys_unique(s.remove(i)),
        !has_key(s.remove(i), s[i].0),
{
    let t = s.remove(i);
    assert forall|a: int, b: int| 0 <= a < t.len() && 0 <= b < t.len() && a != b implies #[trigger] t[a].0
        != #[trigger] t[b].0 by {
        assert(t[a] == s[if a < i { a } else { a + 1 }]);
        assert(t[b] == s[if b < i { b } else { b + 1 }]);
    }
    assert forall|a: int| 0 <= a < t.len() implies #[trigger] t[a].0 != s[i].0 by {
        assert(t[a] == s[if a < i { a } else { a + 1 }]);
    }
}

/// With distinct keys, the one position that binds a key is `key_pos`.
pub proof fn lemma_unique_pos(s: Seq<EntryView>, k: Seq<char>, i: int)
    requires
        keys_unique(s),
        0 <= i < s.len(),
        s[i].0 == k,
    ensures
        key_pos(s, k) == i,
        lookup(s, k) == Some(s[i].1),
{
    lemma_key_pos(s, k, i);
    let p = key_pos(s, k);
    if p != i {
        assert(s[p].0 != s[i].0);
    }
}

/// A JSON object: entries in insertion order, no key twice.
#[derive(Debug, PartialEq)]
pub struct JsonObject {
    entries: Vec<(String, JsonValue)>,
}

impl View for JsonObject {
    type V = Seq<EntryView>;

    closed spec fn view(&self) -> Seq<EntryView> {
        self.entries@.map_values(|e: (String, JsonValue)| entry_view(e))
    }
}

impl JsonObject {
    #[verifier::type_invariant]
    spec fn distinct_keys(self) -> bool {
        keys_unique(self@)
    }

    /// An object without entries.
    pub fn new() -> (r: JsonObject)
        ensures
            r@ == Seq::<EntryView>::empty(),
    {
        let r = JsonObject { entries: Vec::new() };
        assert(r@ =~= Seq::<EntryView>::empty());
        r
    }

    /// Position of the entry that binds `key`.
    pub fn find(&self, key: &String) -> (r: Option<usize>)
        ensures
            match r {
                Some(i) => has_key(self@, key@) && i as int == key_pos(self@, key@) && i
                    < self@.len(),
                None => !has_key(self@, key@),
            },
            keys_unique(self@),
    {
        proof {
            use_type_invariant(self);
        }
        let n = self.entries.len();
        let mut i: usize = 0;
        while i < n
            invariant
                n == self@.len(),
                i <= n,
                keys_unique(self@),
                forall|j: int| 0 <= j < i ==> #[trigger] self@[j].0 != key@,
            decreases n - i,
        {
            assert(self@[i as int] == entry_view(self.entries@[i as int]));
            if self.entries[i].0 == *key {
                proof {
                    lemma_key_pos(self@, key@, i as int);
                    assert(is_first_key(self@, key@, i as int));
                    lemma_first_key_unique(self@, key@, i as int, key_pos(self@, key@));
                }
                return Some(i);
            }
            i = i + 1;
        }
        None
    }

    /// Removes and returns the entry at position `i`.
    pub fn remove_at(&mut self, i: usize) -> (r: (String, JsonValue))
        requires
            i < old(self)@.len(),
        ensures
            final(self)@ == old(self)@.remove(i as int),
            entry_view(r) == old(self)@[i as int],
    {
        proof {
            use_type_invariant(&*self);
        }
        let ghost old_view = self@;
        let mut entries: Vec<(String, JsonValue)> = Vec::new();
        std::mem::swap(&mut entries, &mut self.entries);
        let r = entries.remove(i);
        let ghost new_view = entries@.map_values(|e: (String, JsonValue)| entry_view(e));
        assert(new_view =~= old_view.remove(i as int));
        assert forall|a: int, b: int|
            0 <= a < new_view.len() && 0 <= b < new_view.len() && a != b implies #[trigger] new_view[a].0
            != #[trigger] new_view[b].0 by {
            let a2 = if a < i { a } else { a + 1 };
            let b2 = if b < i { b } else { b + 1 };
            assert(new_view[a] == old_view[a2]);
            assert(new_view[b] == old_view[b2]);
        }
        self.entries = entries;
        r
    }

    /// Inserts an entry for a key that is not bound yet, at position `i`.
    pub fn insert_at(&mut self, i: usize, key: String, value: JsonValue)
        requires
            i <= old(self)@.len(),
            !has_key(old(self)@, key@),
        ensures
            final(self)@ == old(self)@.insert(i as int, (key@, value)),
    {
        proof {
            use_type_invariant(&*self);
        }
        let ghost old_view = self@;
        let ghost k = key@;
        let mut entries: Vec<(String, JsonValue)> = Vec::new();
        std::mem::swap(&mut entries, &mut self.entries);
        entries.insert(i, (key, value));
        let ghost new_view = entries@.map_values(|e: (String, JsonValue)| entry_view(e));
        assert(new_view =~= old_view.insert(i as int, (k, value)));
        assert forall|a: int, b: int|
            0 <= a < new_view.len() && 0 <= b < new_view.len() && a != b implies #[trigger] new_view[a].0
            != #[trigger] new_view[b].0 by {
            if a == i {
                assert(new_view[b] == old_view[if b < i { b } else { b - 1 }]);
            } else if b == i {
                assert(new_view[a] == old_view[if a < i { a } else { a - 1 }]);
            } else {
                assert(new_view[a] == old_view[if a < i { a } else { a - 1 }]);
                assert(new_view[b] == old_view[if b < i { b } else { b - 1 }]);
            }
        }
        self.entries = entries;
    }

    /// Appends an entry for a key that is not bound yet.
    pub fn push_new(&mut self, key: String, value: JsonValue)
        requires
            !has_key(old(self)@, key@),
        ensures
            final(self)@ == old(self)@.push((key@, value)),
    {
        let n = self.entries.len();
        self.insert_at(n, key, value);
        assert(old(self)@.insert(n as int, (key@, value)) =~= old(self)@.push((key@, value)));
    }

    /// Binds `key` to `value`, replacing an existing binding where it stands.
    pub fn insert_key(&mut self, key: String, value: JsonValue)
        ensures
            final(self)@ == insert_entry(old(self)@, key@, value),
            keys_unique(final(self)@),
    {
        let ghost k = key@;
        match self.find(&key) {
            Some(i) => {
                let ghost before = self@;
                proof {
                    lemma_has_key(before, k);
                }
                let _replaced = self.remove_at(i);
                proof {
                    assert forall|j: int| 0 <= j < self@.len() implies #[trigger] self@[j].0 != k by {
                        let j2 = if j < i { j } else { j + 1 };
                        assert(self@[j] == before[j2]);
                        assert(before[j2].0 != before[i as int].0);
                    }
                }
                self.insert_at(i, key, value);
                proof {
                    assert(self@ =~= before.update(i as int, (k, value)));
                }
            },
            None => {
                self.push_new(key, value);
            },
        }
        proof {
            use_type_invariant(&*self);
        }
    }

    /// The entries, in order, by reference.
    pub fn entries(&self) -> (r: &Vec<(String, JsonValue)>)
        ensures
            r@.map_values(|e: (String, JsonValue)| entry_view(e)) == self@,
    {
        &self.entries
    }

    /// The entries, in order.
    pub fn into_entries(self) -> (r: Vec<(String, JsonValue)>)
        ensures
            r@.map_values(|e: (String, JsonValue)| entry_view(e)) == self@,
            keys_unique(self@),
    {
        proof {
            use_type_invariant(&self);
        }
        self.entries
    }
}

} // verus!
