//! Reading commands out of JSON: turning JSON values into stored values, and telling what a
//! connection is for.
use vstd::prelude::*;
use crate::data::{Data, DataV, MemTable, items_view, lemma_items_view, lemma_view_data};
use crate::error::MyError;

verus! {

broadcast use lemma_view_data;

/// What a connection is for: running commands on the data, or hearing about events.
#[derive(Debug, PartialEq, Eq, Structural, Clone, Copy)]
pub enum StreamIntent {
    Data,
    Event,
}

/// A JSON value. A number is held by the bit pattern of the `f32` nearest to it, or `None`
/// when it has no value as a float. An object keeps its entries in the order they are read.
#[derive(Debug)]
pub enum Json {
    Null,
    Bool(bool),
    Number(Option<u32>),
    String(String),
    Array(Vec<Json>),
    Object(Vec<(String, Json)>),
}

/// The stored value that a JSON value stands for, or the error that it causes.
pub open spec fn json_data(j: Json) -> Result<DataV, MyError>
    decreases j, 0int,
{
    match j {
        Json::Null => Ok(DataV::Null),
        Json::Bool(b) => Ok(DataV::Bool(b)),
        Json::Number(Some(f)) => Ok(DataV::Float(f)),
        Json::Number(None) => Err(MyError::NumberCantBeParsed),
        Json::String(s) => Ok(DataV::Str(s@)),
        Json::Array(items) => match json_items(items@, items@.len() as int) {
            Some(vals) => Ok(DataV::Array(vals)),
            None => Err(MyError::ArrayParseError),
        },
        Json::Object(entries) => match json_entries(entries@, entries@.len() as int) {
            Ok(m) => Ok(DataV::Table(m)),
            Err(e) => Err(e),
        },
    }
}

/// The stored values of the first `n` items, or `None` when one of them causes an error.
pub open spec fn json_items(items: Seq<Json>, n: int) -> Option<Seq<DataV>>
    decreases items, n,
{
    if n <= 0 || n > items.len() {
        Some(Seq::empty())
    } else {
        match (json_items(items, n - 1), json_data(items[n - 1])) {
            (Some(vals), Ok(d)) => Some(vals.push(d)),
            _ => None,
        }
    }
}

/// The table that the first `n` entries of an object make, each inserted in turn, or the
/// first error: that of a value, or a key that comes twice.
pub open spec fn json_entries(entries: Seq<(String, Json)>, n: int) -> Result<Map<Seq<char>, DataV>, MyError>
    decreases entries, n,
{
    if n <= 0 || n > entries.len() {
        Ok(Map::empty())
    } else {
        match json_entries(entries, n - 1) {
            Err(e) => Err(e),
            Ok(m) => match json_data(entries[n - 1].1) {
                Err(e) => Err(e),
                Ok(d) => if m.contains_key(entries[n - 1].0@) {
                    Err(MyError::KeyAlreadyExists)
                } else {
                    Ok(m.insert(entries[n - 1].0@, d))
                },
            },
        }
    }
}

/// The value under the key `k` of the first `n` entries of an object: the last entry with
/// that key.
pub open spec fn json_field(entries: Seq<(String, Json)>, k: Seq<char>, n: int) -> Option<Json>
    decreases n,
{
    if n <= 0 || n > entries.len() {
        None
    } else if entries[n - 1].0@ == k {
        Some(entries[n - 1].1)
    } else {
        json_field(entries, k, n - 1)
    }
}

/// What the first message of a connection says it is for: an object whose `intent` is the
/// string `data` asks for commands, one whose `intent` is another string for events.
pub open spec fn intent_spec(obj: Json) -> Result<StreamIntent, MyError> {
    match obj {
        Json::Object(entries) => match json_field(entries@, seq!['i', 'n', 't', 'e', 'n', 't'], entries@.len() as int) {
            Some(Json::String(s)) => if s@ == seq!['d', 'a', 't', 'a'] {
                Ok(StreamIntent::Data)
            } else {
                Ok(StreamIntent::Event)
            },
            _ => Err(MyError::MalformedCommand),
        },
        _ => Err(MyError::MalformedCommand),
    }
}

proof fn lemma_json_items(items: Seq<Json>, n: int)
    requires
        0 <= n <= items.len(),
    ensures
        json_items(items, n) is Some <==> forall|i: int| 0 <= i < n ==> #[trigger] json_data(items[i]) is Ok,
        json_items(items, n) matches Some(vs) ==> vs.len() == n
            && forall|i: int| 0 <= i < n ==> #[trigger] vs[i] == json_data(items[i])->Ok_0,
    decreases n,
{
    if n > 0 {
        lemma_json_items(items, n - 1);
        if json_data(items[n - 1]) is Err {
            assert(!(forall|i: int| 0 <= i < n ==> #[trigger] json_data(items[i]) is Ok));
        }
    }
}

/// A JSON array is converted item by item: when every item converts, the array becomes an
/// array value with one value per item, each the conversion of that item, in order; when
/// some item does not convert, the array is refused.
pub proof fn law_json_array(items: Vec<Json>)
    ensures
        (forall|i: int| 0 <= i < items@.len() ==> #[trigger] json_data(items@[i]) is Ok) ==> {
            &&& json_data(Json::Array(items)) is Ok
            &&& json_data(Json::Array(items))->Ok_0 is Array
            &&& json_data(Json::Array(items))->Ok_0->Array_0.len() == items@.len()
            &&& forall|i: int| 0 <= i < items@.len()
                ==> #[trigger] json_data(Json::Array(items))->Ok_0->Array_0[i] == json_data(items@[i])->Ok_0
        },
        (exists|i: int| 0 <= i < items@.len() && #[trigger] json_data(items@[i]) is Err)
            ==> json_data(Json::Array(items)) == Err::<DataV, MyError>(MyError::ArrayParseError),
{
    lemma_json_items(items@, items@.len() as int);
}

/// Once the entries up to `k` cause an error, all of them cause it.
proof fn lemma_entries_err(entries: Seq<(String, Json)>, k: int, n: int)
    requires
        0 < k <= n <= entries.len(),
        json_entries(entries, k) is Err,
    ensures
        json_entries(entries, n) == json_entries(entries, k),
    decreases n - k,
{
    if k < n {
        lemma_entries_err(entries, k, n - 1);
    }
}

/// Reads commands written as JSON.
pub struct JsonParser;

impl JsonParser {
    /// The stored value that a JSON value stands for: an array whose items do not all
    /// convert is refused, and an object becomes a table.
    pub fn json_to_data(val: Json) -> (r: Result<Data, MyError>)
        ensures
            match json_data(val) {
                Ok(d) => r matches Ok(x) && x@ == d,
                Err(e) => r == Err::<Data, MyError>(e),
            },
    {
        Self::data_of(&val)
    }

    fn data_of(val: &Json) -> (r: Result<Data, MyError>)
        ensures
            match json_data(*val) {
                Ok(d) => r matches Ok(x) && x@ == d,
                Err(e) => r == Err::<Data, MyError>(e),
            },
        decreases val,
    {
        match val {
            Json::Null => Ok(Data::Null),
            Json::Bool(b) => Ok(Data::Bool(*b)),
            Json::Number(Some(f)) => Ok(Data::Float(*f)),
            Json::Number(None) => Err(MyError::NumberCantBeParsed),
            Json::String(s) => Ok(Data::Str(s.clone())),
            Json::Array(arr) => {
                let olen = arr.len();
                let mut results: Vec<Data> = Vec::new();
                proof {
                    lemma_items_view(results@);
                    assert(items_view(results@) =~= Seq::<DataV>::empty());
                }
                let mut i: usize = 0;
                while i < arr.len()
                    invariant
                        i <= arr@.len(),
                        olen == arr@.len(),
                        val is Array,
                        val->Array_0 == *arr,
                        results@.len() <= i,
                        results@.len() == i <==> json_items(arr@, i as int) is Some,
                        json_items(arr@, i as int) matches Some(s) ==> items_view(results@) == s,
                    decreases arr@.len() - i,
                {
                    proof {
                        assert(decreases_to!(*val => arr@[i as int]));
                        lemma_items_view(results@);
                    }
                    let ghost before = results@;
                    match Self::data_of(&arr[i]) {
                        Ok(d) => {
                            results.push(d);
                        },
                        Err(_) => {},
                    }
                    proof {
                        lemma_items_view(results@);
                        if json_items(arr@, i + 1) is Some {
                            assert(items_view(results@) =~= items_view(before).push(results@[i as int]@));
                        }
                    }
                    i = i + 1;
                }
                if results.len() != olen {
                    return Err(MyError::ArrayParseError);
                }
                Ok(Data::Array(results))
            },
            Json::Object(entries) => {
                let mut t = MemTable::new();
                let mut i: usize = 0;
                while i < entries.len()
                    invariant
                        i <= entries@.len(),
                        val is Object,
                        val->Object_0 == *entries,
                        json_entries(entries@, i as int) == Ok::<Map<Seq<char>, DataV>, MyError>(t@),
                    decreases entries@.len() - i,
                {
                    proof {
                        assert(decreases_to!(*val => entries@[i as int]));
                        assert(decreases_to!(entries@[i as int] => entries@[i as int].1));
                    }
                    let d = match Self::data_of(&entries[i].1) {
                        Ok(d) => d,
                        Err(e) => {
                            proof {
                                lemma_entries_err(entries@, i as int + 1, entries@.len() as int);
                            }
                            return Err(e);
                        },
                    };
                    match t.insert_data(entries[i].0.as_str(), d) {
                        Ok(()) => {},
                        Err(e) => {
                            proof {
                                lemma_entries_err(entries@, i as int + 1, entries@.len() as int);
                            }
                            return Err(e);
                        },
                    }
                    i = i + 1;
                }
                Ok(Data::Table(t))
            },
        }
    }

    /// The value under the key `k` of an object's entries: the last entry with that key.
    fn field<'b>(entries: &'b Vec<(String, Json)>, k: &str) -> (r: Option<&'b Json>)
        ensures
            match r {
                Some(j) => json_field(entries@, k@, entries@.len() as int) == Some(*j),
                None => json_field(entries@, k@, entries@.len() as int) is None,
            },
    {
        let mut a: usize = entries.len();
        while a > 0
            invariant
                a <= entries@.len(),
                json_field(entries@, k@, entries@.len() as int) == json_field(entries@, k@, a as int),
            decreases a,
        {
            if crate::path::str_eq(entries[a - 1].0.as_str(), k) {
                return Some(&entries[a - 1].1);
            }
            a = a - 1;
        }
        None
    }

    /// What the first message of a connection says it is for.
    pub fn intent_of(obj: &Json) -> (r: Result<StreamIntent, MyError>)
        ensures
            r == intent_spec(*obj),
    {
        proof {
            reveal_strlit("intent");
            reveal_strlit("data");
        }
        assert("intent"@ =~= seq!['i', 'n', 't', 'e', 'n', 't']);
        assert("data"@ =~= seq!['d', 'a', 't', 'a']);
        match obj {
            Json::Object(entries) => {
                match Self::field(entries, "intent") {
                    Some(Json::String(s)) => {
                        if crate::path::str_eq(s.as_str(), "data") {
                            Ok(StreamIntent::Data)
                        } else {
                            Ok(StreamIntent::Event)
                        }
                    },
                    _ => Err(MyError::MalformedCommand),
                }
            },
            _ => Err(MyError::MalformedCommand),
        }
    }
}

/// A parser that reads nothing: it takes no connection.
pub struct InvalidParser;

impl InvalidParser {
    /// Whether the parser reads anything at all.
    pub const IS_IMPLEMENTED: bool = false;

    /// The parser never recognises a connection as its own.
    pub fn is_correct_parser(_data: &[u8]) -> (r: Option<usize>)
        ensures
            r is None,
    {
        None
    }
}

} // verus!
