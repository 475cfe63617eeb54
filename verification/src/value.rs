//! The tree: its nodes, its objects, and the values they stand for.

use crate::keys::{key_at, no_slots, set_slot, slot_of, slots};
use indexmap::IndexMap;
use vstd::prelude::*;

verus! {

/// A JSON value as a mathematical tree.
pub enum JsonValue {
    /// The entries in order, no key twice.
    Object(Seq<(Seq<char>, JsonValue)>),
    Array(Seq<JsonValue>),
    String(Seq<char>),
    /// The IEEE 754 binary64 bits of the number.
    Number(u64),
    Boolean(bool),
    Null,
}

/// `entries` with `value` under `key`: in the place of the first entry that
/// has this key, or behind all entries when none has it.
pub open spec fn upsert(
    entries: Seq<(Seq<char>, JsonValue)>,
    key: Seq<char>,
    value: JsonValue,
) -> Seq<(Seq<char>, JsonValue)>
    decreases entries.len(),
{
    if entries.len() == 0 {
        seq![(key, value)]
    } else if entries[0].0 == key {
        seq![(key, value)] + entries.skip(1)
    } else {
        seq![entries[0]] + upsert(entries.skip(1), key, value)
    }
}

/// The members of a JSON object: keys in the order of their first insertion,
/// each with the value inserted last under it.
#[derive(Debug, PartialEq)]
pub struct JsonObject<'a> {
    index: IndexMap<&'a str, usize>,
    values: Vec<JsonNode<'a>>,
}

/// A node of the JSON tree. Strings are slices of the parsed text.
#[derive(Debug, PartialEq)]
pub enum JsonNode<'a> {
    Object(Box<JsonObject<'a>>),
    Array(Box<Vec<JsonNode<'a>>>),
    String(&'a str),
    /// The IEEE 754 binary64 bits of the number.
    Number(u64),
    Boolean(bool),
    Null,
}

impl<'a> JsonNode<'a> {
    pub open spec fn view(&self) -> JsonValue
        decreases self,
    {
        match self {
            JsonNode::Object(object) => JsonValue::Object(object.view()),
            JsonNode::Array(items) => JsonValue::Array(
                Seq::new(
                    items.len() as nat,
                    |i: int|
                        if 0 <= i < items.len() {
                            items[i].view()
                        } else {
                            JsonValue::Null
                        },
                ),
            ),
            JsonNode::String(text) => JsonValue::String(text@),
            JsonNode::Number(bits) => JsonValue::Number(*bits),
            JsonNode::Boolean(b) => JsonValue::Boolean(*b),
            JsonNode::Null => JsonValue::Null,
        }
    }
}

/// The values of `nodes`, one for one.
pub open spec fn views<'a>(nodes: Seq<JsonNode<'a>>) -> Seq<JsonValue> {
    Seq::new(nodes.len(), |i: int| nodes[i]@)
}

/// An array node stands for the array of its items' values.
pub proof fn lemma_array_view<'a>(node: JsonNode<'a>)
    requires
        node is Array,
    ensures
        node@ == JsonValue::Array(views(node->Array_0@)),
{
    assert(node@->Array_0 =~= views(node->Array_0@));
}

/// The value of the first entry of `entries` that has `key`.
pub open spec fn lookup(entries: Seq<(Seq<char>, JsonValue)>, key: Seq<char>) -> Option<JsonValue>
    decreases entries.len(),
{
    if entries.len() == 0 {
        None
    } else if entries[0].0 == key {
        Some(entries[0].1)
    } else {
        lookup(entries.skip(1), key)
    }
}

/// Whether no two entries of `entries` have one key.
pub open spec fn distinct_keys(entries: Seq<(Seq<char>, JsonValue)>) -> bool {
    forall|i: int, j: int|
        0 <= i < j < entries.len() ==> (#[trigger] entries[i]).0 != (#[trigger] entries[j]).0
}

impl<'a> JsonObject<'a> {
    #[verifier::type_invariant]
    spec fn well_formed(&self) -> bool {
        &&& slots(self.index).len() == self.values.len()
        &&& forall|i: int| 0 <= i < self.values.len() ==> (#[trigger] slots(self.index)[i]).1 == i
        &&& forall|i: int, j: int|
            0 <= i < j < self.values.len() ==> (#[trigger] slots(self.index)[i]).0 != (
            #[trigger] slots(self.index)[j]).0
    }

    /// The entries in order, each key with the value it holds.
    pub closed spec fn view(&self) -> Seq<(Seq<char>, JsonValue)>
        decreases self,
    {
        Seq::new(
            self.values.len() as nat,
            |i: int|
                if 0 <= i < self.values.len() {
                    (slots(self.index)[i].0, self.values[i].view())
                } else {
                    (slots(self.index)[i].0, JsonValue::Null)
                },
        )
    }

    /// An object without entries.
    pub fn new() -> (object: Self)
        ensures
            object@ == Seq::<(Seq<char>, JsonValue)>::empty(),
            distinct_keys(object@),
    {
        let object = JsonObject { index: no_slots(), values: Vec::new() };
        assert(object@ =~= Seq::empty());
        object
    }

    /// This object with `value` under `key`: in the place of the entry that
    /// has this key, or behind all entries when none has it.
    pub fn with_entry(self, key: &'a str, value: JsonNode<'a>) -> (object: Self)
        ensures
            object@ == upsert(self@, key@, value@),
            distinct_keys(object@),
    {
        proof {
            use_type_invariant(&self);
        }
        let ghost before = self@;
        let JsonObject { mut index, mut values } = self;
        match slot_of(&index, key) {
            Some(slot) => {
                values.set(slot, value);
                let object = JsonObject { index, values };
                proof {
                    assert(object@ =~= before.update(slot as int, (key@, value@)));
                    lemma_upsert_present(before, key@, value@, slot as int);
                }
                object
            },
            None => {
                let ghost held = slots(index);
                let slot = values.len();
                set_slot(&mut index, key, slot);
                values.push(value);
                let object = JsonObject { index, values };
                proof {
                    assert(slots(object.index) == held.push((key@, slot)));
                    assert(object@ =~= before.push((key@, value@)));
                    lemma_upsert_absent(before, key@, value@);
                }
                object
            },
        }
    }

    /// The number of entries.
    pub fn len(&self) -> (n: usize)
        ensures
            n == self@.len(),
    {
        self.values.len()
    }

    /// The value under `key`, if an entry has this key.
    pub fn get(&self, key: &str) -> (found: Option<&JsonNode<'a>>)
        ensures
            match found {
                Some(value) => lookup(self@, key@) == Some(value@),
                None => lookup(self@, key@) is None,
            },
    {
        proof {
            use_type_invariant(self);
        }
        match slot_of(&self.index, key) {
            Some(slot) => {
                proof {
                    lemma_lookup_present(self@, key@, slot as int);
                }
                Some(&self.values[slot])
            },
            None => {
                proof {
                    lemma_lookup_absent(self@, key@);
                }
                None
            },
        }
    }

    /// The entry at position `i` in the order of first insertion, if the
    /// object has more than `i` entries.
    pub fn entry_at(&self, i: usize) -> (found: Option<(&'a str, &JsonNode<'a>)>)
        ensures
            match found {
                Some((key, value)) => i < self@.len() && self@[i as int] == (key@, value@),
                None => i >= self@.len(),
            },
    {
        proof {
            use_type_invariant(self);
        }
        match key_at(&self.index, i) {
            Some(key) => Some((key, &self.values[i])),
            None => None,
        }
    }
}

/// Where the first entry with `key` stands at `i`, `upsert` changes the entry
/// at `i` and nothing else.
pub proof fn lemma_upsert_present(
    entries: Seq<(Seq<char>, JsonValue)>,
    key: Seq<char>,
    value: JsonValue,
    i: int,
)
    requires
        0 <= i < entries.len(),
        entries[i].0 == key,
        forall|j: int| 0 <= j < i ==> (#[trigger] entries[j]).0 != key,
    ensures
        upsert(entries, key, value) == entries.update(i, (key, value)),
    decreases i,
{
    if i == 0 {
        assert(seq![(key, value)] + entries.skip(1) =~= entries.update(0, (key, value)));
    } else {
        let tail = entries.skip(1);
        assert forall|j: int| 0 <= j < i - 1 implies (#[trigger] tail[j]).0 != key by {
            assert(tail[j] == entries[j + 1]);
        }
        lemma_upsert_present(tail, key, value, i - 1);
        assert(seq![entries[0]] + tail.update(i - 1, (key, value)) =~= entries.update(
            i,
            (key, value),
        ));
    }
}

/// Where no entry has `key`, `upsert` adds an entry at the end.
pub proof fn lemma_upsert_absent(
    entries: Seq<(Seq<char>, JsonValue)>,
    key: Seq<char>,
    value: JsonValue,
)
    requires
        forall|j: int| 0 <= j < entries.len() ==> (#[trigger] entries[j]).0 != key,
    ensures
        upsert(entries, key, value) == entries.push((key, value)),
    decreases entries.len(),
{
    if entries.len() == 0 {
        assert(seq![(key, value)] =~= entries.push((key, value)));
    } else {
        let tail = entries.skip(1);
        assert forall|j: int| 0 <= j < tail.len() implies (#[trigger] tail[j]).0 != key by {
            assert(tail[j] == entries[j + 1]);
        }
        lemma_upsert_absent(tail, key, value);
        assert(seq![entries[0]] + tail.push((key, value)) =~= entries.push((key, value)));
    }
}

/// Where the first entry with `key` stands at `i`, `lookup` finds its value.
pub proof fn lemma_lookup_present(entries: Seq<(Seq<char>, JsonValue)>, key: Seq<char>, i: int)
    requires
        0 <= i < entries.len(),
        entries[i].0 == key,
        forall|j: int| 0 <= j < i ==> (#[trigger] entries[j]).0 != key,
    ensures
        lookup(entries, key) == Some(entries[i].1),
    decreases i,
{
    if i > 0 {
        let tail = entries.skip(1);
        assert forall|j: int| 0 <= j < i - 1 implies (#[trigger] tail[j]).0 != key by {
            assert(tail[j] == entries[j + 1]);
        }
        lemma_lookup_present(tail, key, i - 1);
    }
}

/// Where no entry has `key`, `lookup` finds nothing.
pub proof fn lemma_lookup_absent(entries: Seq<(Seq<char>, JsonValue)>, key: Seq<char>)
    requires
        forall|j: int| 0 <= j < entries.len() ==> (#[trigger] entries[j]).0 != key,
    ensures
        lookup(entries, key) is None,
    decreases entries.len(),
{
    if entries.len() > 0 {
        let tail = entries.skip(1);
        assert forall|j: int| 0 <= j < tail.len() implies (#[trigger] tail[j]).0 != key by {
            assert(tail[j] == entries[j + 1]);
        }
        lemma_lookup_absent(tail, key);
    }
}

impl<'a> Clone for JsonNode<'a> {
    /// A node of the same content.
    fn clone(&self) -> (copy: Self)
        ensures
            copy@ == self@,
        decreases self,
    {
        match self {
            JsonNode::Object(object) => JsonNode::Object(Box::new((**object).clone())),
            JsonNode::Array(items) => {
                let mut copies: Vec<JsonNode<'a>> = Vec::new();
                let mut i: usize = 0;
                while i < items.len()
                    invariant
                        self is Array,
                        self->Array_0 == *items,
                        i <= items.len(),
                        copies.len() == i,
                        forall|j: int| 0 <= j < i ==> (#[trigger] copies[j])@ == items[j]@,
                    decreases items.len() - i,
                {
                    copies.push(items[i].clone());
                    i += 1;
                }
                let copy = JsonNode::Array(Box::new(copies));
                proof {
                    lemma_array_view(copy);
                    lemma_array_view(*self);
                    assert(views(copies@) =~= views(items@));
                }
                copy
            },
            JsonNode::String(text) => JsonNode::String(*text),
            JsonNode::Number(bits) => JsonNode::Number(*bits),
            JsonNode::Boolean(b) => JsonNode::Boolean(*b),
            JsonNode::Null => JsonNode::Null,
        }
    }
}

impl<'a> Clone for JsonObject<'a> {
    /// An object of the same entries in the same order.
    fn clone(&self) -> (copy: Self)
        ensures
            copy@ == self@,
        decreases self,
    {
        proof {
            use_type_invariant(self);
        }
        let mut copy = JsonObject::new();
        let mut i: usize = 0;
        while i < self.values.len()
            invariant
                i <= self.values.len(),
                self.well_formed(),
                copy@ == self@.take(i as int),
            decreases self.values.len() - i,
        {
            match key_at(&self.index, i) {
                Some(key) => {
                    let ghost before = copy@;
                    copy = copy.with_entry(key, self.values[i].clone());
                    proof {
                        lemma_upsert_absent(before, key@, self.values[i as int]@);
                        assert(before.push((key@, self.values[i as int]@)) =~= self@.take(i + 1));
                    }
                },
                // Not reached: the index holds a key for each value.
                None => {},
            }
            i += 1;
        }
        assert(self@.take(i as int) =~= self@);
        copy
    }
}

} // verus!
