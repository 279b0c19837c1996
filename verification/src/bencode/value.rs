//! Decoded values and the mathematical values they stand for.

use crate::text::{decode_lossy, utf8_lossy};
use vstd::prelude::*;
use vstd::utf8::{decode_utf8, valid_utf8};

verus! {

/// A decoded value.
///
/// A dictionary is kept as its entries in the order in which their keys first
/// appeared. Lookup goes by the last entry that has the key, so a `Dict` built
/// by hand with a repeated key still stands for a mapping; the decoder never
/// builds one (see [`BValue::wf`]).
#[derive(Debug)]
pub enum BValue {
    Integer(i64),
    Bytes(Vec<u8>),
    List(Vec<BValue>),
    Dict(Vec<(Vec<u8>, BValue)>),
}

/// What a decoded value stands for: the four kinds of the wire format, with a
/// dictionary as a mapping from byte strings.
pub enum Value {
    Integer(i64),
    Bytes(Seq<u8>),
    List(Seq<Value>),
    Dict(Map<Seq<u8>, Value>),
}

/// The values that a run of decoded values stands for, in order.
pub open spec fn view_items(items: Seq<BValue>) -> Seq<Value>
    decreases items, 0int,
{
    if items.len() == 0 {
        Seq::empty()
    } else {
        view_items(items.drop_last()).push(view_value(items.last()))
    }
}

/// The mapping that a run of entries stands for: each entry in turn is
/// inserted, so a later entry overwrites an earlier one with the same key.
pub open spec fn view_entries(entries: Seq<(Vec<u8>, BValue)>) -> Map<Seq<u8>, Value>
    decreases entries, 0int,
{
    if entries.len() == 0 {
        Map::empty()
    } else {
        view_entries(entries.drop_last()).insert(
            entries.last().0@,
            view_value(entries.last().1),
        )
    }
}

/// The value that a decoded value stands for.
pub open spec fn view_value(value: BValue) -> Value
    decreases value, 1int,
{
    match value {
        BValue::Integer(n) => Value::Integer(n),
        BValue::Bytes(bytes) => Value::Bytes(bytes@),
        BValue::List(items) => Value::List(view_items(items@)),
        BValue::Dict(entries) => Value::Dict(view_entries(entries@)),
    }
}

impl View for BValue {
    type V = Value;

    /// The value that the decoded value stands for.
    open spec fn view(&self) -> Value {
        view_value(*self)
    }
}

/// No two entries have the same key.
pub open spec fn distinct_keys(entries: Seq<(Vec<u8>, BValue)>) -> bool {
    forall|i: int, j: int|
        0 <= i < j < entries.len() ==> (#[trigger] entries[i]).0@ != (#[trigger] entries[j]).0@
}

/// Index of the last entry with the given key, or -1 when no entry has it.
pub open spec fn last_index_of(entries: Seq<(Vec<u8>, BValue)>, key: Seq<u8>) -> int
    decreases entries.len(),
{
    if entries.len() == 0 {
        -1
    } else if entries.last().0@ == key {
        entries.len() - 1
    } else {
        last_index_of(entries.drop_last(), key)
    }
}

impl Value {
    /// The value under `key`, where `self` is a dictionary that has the key.
    pub open spec fn lookup(self, key: Seq<u8>) -> Option<Value> {
        match self {
            Value::Dict(map) => if map.contains_key(key) {
                Some(map[key])
            } else {
                None
            },
            _ => None,
        }
    }
}

/// The values that items stand for are those of the items, one by one.
pub proof fn lemma_view_items(items: Seq<BValue>)
    ensures
        view_items(items).len() == items.len(),
        forall|i: int| 0 <= i < items.len() ==> view_items(items)[i] == view_value(#[trigger] items[i]),
    decreases items.len(),
{
    if items.len() > 0 {
        let shorter = items.drop_last();
        lemma_view_items(shorter);
        assert forall|i: int| 0 <= i < items.len() implies view_items(items)[i] == view_value(
            #[trigger] items[i],
        ) by {
            if i < shorter.len() {
                assert(shorter[i] == items[i]);
            }
        }
    }
}

/// One more item at the end is one more value at the end.
pub proof fn lemma_view_items_push(items: Seq<BValue>, item: BValue)
    ensures
        view_items(items.push(item)) == view_items(items).push(view_value(item)),
{
    assert(items.push(item).drop_last() =~= items);
}

/// One more entry at the end is one more insertion.
pub proof fn lemma_view_entries_push(entries: Seq<(Vec<u8>, BValue)>, key: Vec<u8>, value: BValue)
    ensures
        view_entries(entries.push((key, value))) == view_entries(entries).insert(
            key@,
            view_value(value),
        ),
{
    assert(entries.push((key, value)).drop_last() =~= entries);
}

/// Lookup in the mapping goes by the last entry with the key.
pub proof fn lemma_view_entries_lookup(entries: Seq<(Vec<u8>, BValue)>, key: Seq<u8>)
    ensures
        -1 <= last_index_of(entries, key) < entries.len(),
        last_index_of(entries, key) >= 0 ==> {
            &&& entries[last_index_of(entries, key)].0@ == key
            &&& view_entries(entries).contains_key(key)
            &&& view_entries(entries)[key] == view_value(entries[last_index_of(entries, key)].1)
        },
        last_index_of(entries, key) < 0 ==> !view_entries(entries).contains_key(key),
        forall|i: int|
            last_index_of(entries, key) < i < entries.len() ==> (#[trigger] entries[i]).0@ != key,
    decreases entries.len(),
{
    if entries.len() > 0 {
        let shorter = entries.drop_last();
        lemma_view_entries_lookup(shorter, key);
        if entries.last().0@ != key {
            assert forall|i: int| last_index_of(entries, key) < i < entries.len() implies (
            #[trigger] entries[i]).0@ != key by {
                if i < shorter.len() {
                    assert(shorter[i] == entries[i]);
                }
            }
        }
    }
}

/// Replacing the value of an entry whose key occurs once is an insertion
/// under that key.
pub proof fn lemma_view_entries_update(
    entries: Seq<(Vec<u8>, BValue)>,
    at: int,
    key: Vec<u8>,
    value: BValue,
)
    requires
        0 <= at < entries.len(),
        distinct_keys(entries),
        entries[at].0@ == key@,
    ensures
        distinct_keys(entries.update(at, (key, value))),
        view_entries(entries.update(at, (key, value))) == view_entries(entries).insert(
            key@,
            view_value(value),
        ),
    decreases entries.len(),
{
    let updated = entries.update(at, (key, value));
    if at == entries.len() - 1 {
        assert(updated.drop_last() =~= entries.drop_last());
    } else {
        let shorter = entries.drop_last();
        lemma_view_entries_update(shorter, at, key, value);
        assert(updated.drop_last() =~= shorter.update(at, (key, value)));
    }
}

impl BValue {
    /// Every dictionary inside the value, at any depth, has each key once.
    pub open spec fn wf(&self) -> bool
        decreases self,
    {
        match self {
            BValue::List(items) => forall|i: int|
                0 <= i < items@.len() ==> (#[trigger] items@[i]).wf(),
            BValue::Dict(entries) => {
                &&& distinct_keys(entries@)
                &&& forall|i: int| 0 <= i < entries@.len() ==> (#[trigger] entries@[i]).1.wf()
            },
            _ => true,
        }
    }

    /// The value under `key`, where `self` is a dictionary that has the key.
    #[verifier::loop_isolation(false)]
    pub fn field(&self, key: &[u8]) -> (found: Option<&BValue>)
        ensures
            match self@.lookup(key@) {
                Some(value) => found matches Some(item) && item@ == value,
                None => found is None,
            },
            self.wf() ==> (found matches Some(item) ==> item.wf()),
    {
        match self {
            BValue::Dict(entries) => {
                let mut i: usize = entries.len();
                while i > 0
                    invariant
                        i <= entries.len(),
                        forall|j: int|
                            i <= j < entries.len() ==> (#[trigger] entries@[j]).0@ != key@,
                    decreases i,
                {
                    i = i - 1;
                    if same_bytes(entries[i].0.as_slice(), key) {
                        proof {
                            lemma_view_entries_lookup(entries@, key@);
                        }
                        return Some(&entries[i].1);
                    }
                }
                proof {
                    lemma_view_entries_lookup(entries@, key@);
                }
                None
            },
            _ => None,
        }
    }

    /// The items, where `self` is a list.
    pub fn as_list(&self) -> (found: Option<&[BValue]>)
        ensures
            match self@ {
                Value::List(values) => found matches Some(items) && view_items(items@) == values,
                _ => found is None,
            },
            self.wf() ==> (found matches Some(items) ==> forall|i: int|
                0 <= i < items@.len() ==> (#[trigger] items@[i]).wf()),
    {
        match self {
            BValue::List(items) => Some(items.as_slice()),
            _ => None,
        }
    }

    /// The bytes, where `self` is a byte string.
    pub fn as_bytes(&self) -> (found: Option<&[u8]>)
        ensures
            match self@ {
                Value::Bytes(bytes) => found matches Some(slice) && slice@ == bytes,
                _ => found is None,
            },
    {
        match self {
            BValue::Bytes(bytes) => Some(bytes.as_slice()),
            _ => None,
        }
    }

    /// The bytes read as text, where `self` is a byte string. Bytes that are
    /// not UTF-8 do not fail: they come out as U+FFFD.
    pub fn as_str_lossy(&self) -> (found: Option<String>)
        ensures
            match self@ {
                Value::Bytes(bytes) => found matches Some(text) && text@ == utf8_lossy(bytes) && (
                valid_utf8(bytes) ==> text@ == decode_utf8(bytes)),
                _ => found is None,
            },
    {
        match self.as_bytes() {
            Some(bytes) => Some(decode_lossy(bytes)),
            None => None,
        }
    }
}

/// A copy of a byte string.
fn copy_bytes(bytes: &Vec<u8>) -> (copy: Vec<u8>)
    ensures
        copy@ == bytes@,
{
    let mut copy: Vec<u8> = Vec::new();
    let mut at: usize = 0;
    while at < bytes.len()
        invariant
            at <= bytes.len(),
            copy@ == bytes@.subrange(0, at as int),
        decreases bytes.len() - at,
    {
        copy.push(bytes[at]);
        at = at + 1;
    }
    copy
}

impl Clone for BValue {
    /// A copy that stands for the same value.
    #[verifier::loop_isolation(false)]
    fn clone(&self) -> (copy: BValue)
        ensures
            copy@ == self@,
            self.wf() ==> copy.wf(),
        decreases self,
    {
        match self {
            BValue::Integer(number) => BValue::Integer(*number),
            BValue::Bytes(bytes) => BValue::Bytes(copy_bytes(bytes)),
            BValue::List(items) => {
                let mut copies: Vec<BValue> = Vec::new();
                let mut at: usize = 0;
                while at < items.len()
                    invariant
                        at <= items.len(),
                        copies@.len() == at,
                        forall|i: int| 0 <= i < at ==> (#[trigger] copies@[i])@ == items@[i]@,
                        forall|i: int|
                            0 <= i < at ==> (items@[i].wf() ==> (#[trigger] copies@[i]).wf()),
                    decreases items.len() - at,
                {
                    copies.push(items[at].clone());
                    at = at + 1;
                }
                proof {
                    lemma_view_items(items@);
                    lemma_view_items(copies@);
                    assert forall|i: int| 0 <= i < items@.len() implies view_items(copies@)[i]
                        == view_items(items@)[i] by {
                        assert(copies@[i]@ == items@[i]@);
                    }
                    assert(view_items(copies@) =~= view_items(items@));
                }
                BValue::List(copies)
            },
            BValue::Dict(entries) => {
                let mut copies: Vec<(Vec<u8>, BValue)> = Vec::new();
                let mut at: usize = 0;
                while at < entries.len()
                    invariant
                        at <= entries.len(),
                        copies@.len() == at,
                        forall|i: int|
                            0 <= i < at ==> (#[trigger] copies@[i]).0@ == entries@[i].0@
                                && copies@[i].1@ == entries@[i].1@,
                        forall|i: int|
                            0 <= i < at ==> (entries@[i].1.wf() ==> (#[trigger] copies@[i]).1.wf()),
                    decreases entries.len() - at,
                {
                    copies.push((copy_bytes(&entries[at].0), entries[at].1.clone()));
                    at = at + 1;
                }
                proof {
                    lemma_view_entries_same(copies@, entries@);
                }
                BValue::Dict(copies)
            },
        }
    }
}

/// Entries with the same keys and values, one by one, stand for the same
/// mapping.
pub proof fn lemma_view_entries_same(
    first: Seq<(Vec<u8>, BValue)>,
    second: Seq<(Vec<u8>, BValue)>,
)
    requires
        first.len() == second.len(),
        forall|i: int|
            0 <= i < first.len() ==> (#[trigger] first[i]).0@ == second[i].0@ && first[i].1@
                == second[i].1@,
    ensures
        view_entries(first) == view_entries(second),
        distinct_keys(second) ==> distinct_keys(first),
    decreases first.len(),
{
    if first.len() > 0 {
        assert forall|i: int| 0 <= i < first.drop_last().len() implies (
        #[trigger] first.drop_last()[i]).0@ == second.drop_last()[i].0@ && first.drop_last()[i].1@
            == second.drop_last()[i].1@ by {
        }
        lemma_view_entries_same(first.drop_last(), second.drop_last());
    }
    if distinct_keys(second) {
        assert forall|i: int, j: int| 0 <= i < j < first.len() implies (#[trigger] first[i]).0@ != (
        #[trigger] first[j]).0@ by {
        }
    }
}

/// Whether two byte strings are the same.
pub fn same_bytes(a: &[u8], b: &[u8]) -> (same: bool)
    ensures
        same == (a@ == b@),
{
    if a.len() != b.len() {
        return false;
    }
    let mut i: usize = 0;
    while i < a.len()
        invariant
            i <= a.len(),
            a.len() == b.len(),
            forall|j: int| 0 <= j < i ==> a@[j] == b@[j],
        decreases a.len() - i,
    {
        if a[i] != b[i] {
            return false;
        }
        i = i + 1;
    }
    assert(a@ =~= b@);
    true
}

} // verus!
