//! The values that the database stores, and the tables that hold them.
use vstd::prelude::*;
use crate::error::MyError;
use crate::command::Operation;
use crate::events::{ExecutionContext, change_events, records_view};
use vstd::string::{StringSliceAdditionalSpecFns, StringExecFns};
use crate::path::{path_key, path_next, next_path_key, str_eq, valid_start, lemma_seg_end_bounds};

verus! {

broadcast use vstd::std_specs::vec::group_vec_axioms;

/// A value stored in a table.
///
/// A float is held by its IEEE-754 bit pattern.
#[derive(Debug, PartialEq)]
pub enum Data {
    Null,
    Table(Box<MemTable>),
    Int(i32),
    Float(u32),
    Str(String),
    Bool(bool),
    Array(Vec<Data>),
}

/// The kind of a [`Data`] value.
#[derive(Debug, PartialEq, Eq, Structural, Clone, Copy)]
pub enum DataType {
    Null,
    Table,
    Int,
    Float,
    Str,
    Bool,
    Array,
}

/// A table: its keys, each with the value stored under it.
///
/// No key occurs twice; keys keep the order in which they were inserted.
#[derive(Debug, PartialEq)]
pub struct MemTable {
    keys: Vec<String>,
    vals: Vec<Data>,
}

/// The mathematical value of a [`Data`].
pub enum DataV {
    Null,
    Table(Map<Seq<char>, DataV>),
    Int(i32),
    Float(u32),
    Str(Seq<char>),
    Bool(bool),
    Array(Seq<DataV>),
}

pub closed spec fn view_data(d: Data) -> DataV
    decreases d, 0int,
{
    match d {
        Data::Null => DataV::Null,
        Data::Table(t) => DataV::Table(view_entries(t.keys@, t.vals@, t.vals@.len() as int)),
        Data::Int(i) => DataV::Int(i),
        Data::Float(f) => DataV::Float(f),
        Data::Str(s) => DataV::Str(s@),
        Data::Bool(b) => DataV::Bool(b),
        Data::Array(v) => DataV::Array(view_items(v@, v@.len() as int)),
    }
}

/// The map that the first `n` entries of a table make.
pub closed spec fn view_entries(keys: Seq<String>, vals: Seq<Data>, n: int) -> Map<Seq<char>, DataV>
    decreases vals, n,
{
    if n <= 0 || n > vals.len() || n > keys.len() {
        Map::empty()
    } else {
        view_entries(keys, vals, n - 1).insert(keys[n - 1]@, view_data(vals[n - 1]))
    }
}

/// The values of the first `n` items of an array.
pub closed spec fn view_items(vals: Seq<Data>, n: int) -> Seq<DataV>
    decreases vals, n,
{
    if n <= 0 || n > vals.len() {
        Seq::empty()
    } else {
        view_items(vals, n - 1).push(view_data(vals[n - 1]))
    }
}

impl View for Data {
    type V = DataV;

    closed spec fn view(&self) -> DataV {
        view_data(*self)
    }
}

impl View for MemTable {
    type V = Map<Seq<char>, DataV>;

    closed spec fn view(&self) -> Map<Seq<char>, DataV> {
        view_entries(self.keys@, self.vals@, self.vals@.len() as int)
    }
}

/// The values of all the items of an array.
pub open spec fn items_view(v: Seq<Data>) -> Seq<DataV> {
    view_items(v, v.len() as int)
}

/// What each kind of value stands for.
pub broadcast proof fn lemma_view_data(d: Data)
    ensures
        #[trigger] d@ == match d {
            Data::Null => DataV::Null,
            Data::Table(t) => DataV::Table(t@),
            Data::Int(i) => DataV::Int(i),
            Data::Float(f) => DataV::Float(f),
            Data::Str(s) => DataV::Str(s@),
            Data::Bool(b) => DataV::Bool(b),
            Data::Array(v) => DataV::Array(items_view(v@)),
        },
{
}

/// The values of the items, one by one.
pub proof fn lemma_items_view(v: Seq<Data>)
    ensures
        items_view(v).len() == v.len(),
        forall|a: int| 0 <= a < v.len() ==> #[trigger] items_view(v)[a] == v[a]@,
{
    lemma_items_prefix(v, v.len() as int);
}

proof fn lemma_items_prefix(v: Seq<Data>, n: int)
    requires
        0 <= n <= v.len(),
    ensures
        view_items(v, n).len() == n,
        forall|a: int| 0 <= a < n ==> #[trigger] view_items(v, n)[a] == view_data(v[a]),
    decreases n,
{
    if n > 0 {
        lemma_items_prefix(v, n - 1);
    }
}

/// The kind of a value.
pub open spec fn kind_of(v: DataV) -> DataType {
    match v {
        DataV::Null => DataType::Null,
        DataV::Table(_) => DataType::Table,
        DataV::Int(_) => DataType::Int,
        DataV::Float(_) => DataType::Float,
        DataV::Str(_) => DataType::Str,
        DataV::Bool(_) => DataType::Bool,
        DataV::Array(_) => DataType::Array,
    }
}

impl Data {
    /// The kind of this value.
    pub fn data_type(&self) -> (r: DataType)
        ensures
            r == kind_of(self@),
    {
        match self {
            Data::Null => DataType::Null,
            Data::Table(_) => DataType::Table,
            Data::Int(_) => DataType::Int,
            Data::Float(_) => DataType::Float,
            Data::Str(_) => DataType::Str,
            Data::Bool(_) => DataType::Bool,
            Data::Array(_) => DataType::Array,
        }
    }

    /// The table, when this value is one.
    pub fn table(&self) -> (r: Option<&Box<MemTable>>)
        ensures
            match r {
                Some(t) => self@ == DataV::Table(t@),
                None => !(self@ is Table),
            },
    {
        if let Data::Table(x) = self {
            Some(x)
        } else {
            None
        }
    }

    /// The integer, when this value is one.
    pub fn int_value(&self) -> (r: Option<&i32>)
        ensures
            match r {
                Some(x) => self@ == DataV::Int(*x),
                None => !(self@ is Int),
            },
    {
        if let Data::Int(x) = self {
            Some(x)
        } else {
            None
        }
    }

    /// The bit pattern of the float, when this value is one.
    pub fn float(&self) -> (r: Option<&u32>)
        ensures
            match r {
                Some(x) => self@ == DataV::Float(*x),
                None => !(self@ is Float),
            },
    {
        if let Data::Float(x) = self {
            Some(x)
        } else {
            None
        }
    }

    /// The string, when this value is one.
    pub fn str(&self) -> (r: Option<&str>)
        ensures
            match r {
                Some(x) => self@ == DataV::Str(x@),
                None => !(self@ is Str),
            },
    {
        if let Data::Str(x) = self {
            Some(x.as_str())
        } else {
            None
        }
    }

    /// The boolean, when this value is one.
    pub fn bool(&self) -> (r: Option<&bool>)
        ensures
            match r {
                Some(x) => self@ == DataV::Bool(*x),
                None => !(self@ is Bool),
            },
    {
        if let Data::Bool(x) = self {
            Some(x)
        } else {
            None
        }
    }

    /// The items, when this value is an array.
    pub fn array(&self) -> (r: Option<&Vec<Data>>)
        ensures
            match r {
                Some(x) => self@ == DataV::Array(view_items(x@, x@.len() as int)),
                None => !(self@ is Array),
            },
    {
        if let Data::Array(x) = self {
            Some(x)
        } else {
            None
        }
    }
}

/// What a lookup of the path `b`, from its byte `i` on, finds in the table `t`.
pub open spec fn get_at(t: Map<Seq<char>, DataV>, b: Seq<u8>, i: int) -> Result<DataV, MyError>
    decreases b.len() - i,
{
    let k = path_key(b, i);
    match path_next(b, i) {
        Some(n) => {
            if !t.contains_key(k) {
                Err(MyError::KeyNotFound)
            } else {
                match t[k] {
                    DataV::Table(inner) => {
                        if i < n <= b.len() {
                            get_at(inner, b, n)
                        } else {
                            Err(MyError::TODO)
                        }
                    },
                    _ => Err(MyError::PathContainsPrimitiveValue),
                }
            }
        },
        None => {
            if t.contains_key(k) {
                Ok(t[k])
            } else {
                Err(MyError::KeyNotFound)
            }
        },
    }
}

/// Storing `d` at the path `b` (from byte `i` on) in `t` is possible: no key on the way
/// to the last one holds a value that is not a table.
pub open spec fn set_ok(t: Map<Seq<char>, DataV>, b: Seq<u8>, i: int) -> bool
    decreases b.len() - i,
{
    let k = path_key(b, i);
    match path_next(b, i) {
        Some(n) => {
            &&& i < n <= b.len()
            &&& t.contains_key(k) ==> match t[k] {
                DataV::Table(inner) => set_ok(inner, b, n),
                _ => false,
            }
        },
        None => true,
    }
}

/// The table that storing `d` at the path `b` (from byte `i` on) makes of `t`, and the
/// number of keys that the store adds (tables made on the way and a new last key).
pub open spec fn set_at(t: Map<Seq<char>, DataV>, b: Seq<u8>, i: int, d: DataV) -> (Map<Seq<char>, DataV>, nat)
    decreases b.len() - i,
{
    let k = path_key(b, i);
    match path_next(b, i) {
        Some(n) => {
            if i < n <= b.len() {
                if t.contains_key(k) && t[k] is Table {
                    let r = set_at(t[k]->Table_0, b, n, d);
                    (t.insert(k, DataV::Table(r.0)), r.1)
                } else {
                    let r = set_at(Map::empty(), b, n, d);
                    (t.insert(k, DataV::Table(r.0)), r.1 + 1)
                }
            } else {
                (t, 0)
            }
        },
        None => (t.insert(k, d), if t.contains_key(k) { 0 } else { 1 }),
    }
}

pub proof fn lemma_path_next_advances(b: Seq<u8>, i: int)
    requires
        0 <= i <= b.len(),
    ensures
        path_next(b, i) matches Some(n) ==> i < n <= b.len(),
{
    lemma_seg_end_bounds(b, i);
}

/// Law: a store into an empty table is always possible.
pub proof fn lemma_set_ok_empty(b: Seq<u8>, i: int)
    requires
        0 <= i <= b.len(),
    ensures
        set_ok(Map::empty(), b, i),
    decreases b.len() - i,
{
    lemma_path_next_advances(b, i);
    if let Some(n) = path_next(b, i) {
        lemma_set_ok_empty(b, n);
    }
}

/// A store adds at most one key per key of the path.
pub proof fn lemma_set_count_bound(t: Map<Seq<char>, DataV>, b: Seq<u8>, i: int, d: DataV)
    requires
        0 <= i <= b.len(),
    ensures
        set_at(t, b, i, d).1 <= b.len() - i + 1,
    decreases b.len() - i,
{
    lemma_path_next_advances(b, i);
    let k = path_key(b, i);
    if let Some(n) = path_next(b, i) {
        if t.contains_key(k) && t[k] is Table {
            lemma_set_count_bound(t[k]->Table_0, b, n, d);
        } else {
            lemma_set_count_bound(Map::empty(), b, n, d);
        }
    }
}

/// Law: after a value is stored at a path, a lookup of that path finds that value.
pub proof fn law_get_after_set(t: Map<Seq<char>, DataV>, b: Seq<u8>, i: int, d: DataV)
    requires
        0 <= i <= b.len(),
        set_ok(t, b, i),
    ensures
        get_at(set_at(t, b, i, d).0, b, i) == Ok::<DataV, MyError>(d),
    decreases b.len() - i,
{
    lemma_path_next_advances(b, i);
    let k = path_key(b, i);
    if let Some(n) = path_next(b, i) {
        if t.contains_key(k) && t[k] is Table {
            law_get_after_set(t[k]->Table_0, b, n, d);
        } else {
            lemma_set_ok_empty(b, n);
            law_get_after_set(Map::empty(), b, n, d);
        }
    }
}

/// Law: a store at a path leaves every first key other than the path's own as it was.
pub proof fn law_set_keeps_other_keys(t: Map<Seq<char>, DataV>, b: Seq<u8>, i: int, d: DataV, k: Seq<char>)
    requires
        0 <= i <= b.len(),
        k != path_key(b, i),
    ensures
        set_at(t, b, i, d).0.contains_key(k) == t.contains_key(k),
        t.contains_key(k) ==> set_at(t, b, i, d).0[k] == t[k],
{
}

/// Law: where the first key of a path already names a table, a store through it is
/// possible exactly when the store of the rest of the path is possible in that table.
pub proof fn law_set_through_table(t: Map<Seq<char>, DataV>, b: Seq<u8>, i: int, inner: Map<Seq<char>, DataV>)
    requires
        0 <= i <= b.len(),
        path_next(b, i) is Some,
        t.contains_key(path_key(b, i)),
        t[path_key(b, i)] == DataV::Table(inner),
    ensures
        set_ok(t, b, i) == set_ok(inner, b, path_next(b, i)->0),
{
    lemma_path_next_advances(b, i);
}

/// Law: after a store through the key `k` (a path with more keys after `k`), a store of
/// another last key under `k` is possible: the store went into the table that `k` names.
pub proof fn law_set_after_set_sibling(
    t: Map<Seq<char>, DataV>,
    b1: Seq<u8>,
    i: int,
    b2: Seq<u8>,
    j: int,
    d: DataV,
)
    requires
        0 <= i <= b1.len(),
        0 <= j <= b2.len(),
        set_ok(t, b1, i),
        path_next(b1, i) is Some,
        path_next(b2, j) is Some,
        path_next(b2, path_next(b2, j)->0) is None,
        path_key(b1, i) == path_key(b2, j),
    ensures
        set_ok(set_at(t, b1, i, d).0, b2, j),
{
    lemma_path_next_advances(b1, i);
    lemma_path_next_advances(b2, j);
    let k = path_key(b1, i);
    let n1 = path_next(b1, i)->0;
    let n2 = path_next(b2, j)->0;
    let t2 = set_at(t, b1, i, d).0;
    if t.contains_key(k) && t[k] is Table {
        let r = set_at(t[k]->Table_0, b1, n1, d).0;
        assert(t2[k] == DataV::Table(r));
        assert(set_ok(r, b2, n2));
    } else {
        let r = set_at(Map::empty(), b1, n1, d).0;
        assert(t2[k] == DataV::Table(r));
        assert(set_ok(r, b2, n2));
    }
}

/// No key occurs twice among the first `n` keys.
pub open spec fn keys_distinct(keys: Seq<String>, n: int) -> bool {
    forall|a: int, c: int| 0 <= a < c < n ==> keys[a]@ != keys[c]@
}

proof fn lemma_entries_lookup(keys: Seq<String>, vals: Seq<Data>, n: int)
    requires
        0 <= n <= keys.len(),
        n <= vals.len(),
        keys_distinct(keys, n),
    ensures
        forall|a: int| 0 <= a < n ==> #[trigger] view_entries(keys, vals, n).contains_key(keys[a]@)
            && view_entries(keys, vals, n)[keys[a]@] == view_data(vals[a]),
        forall|k: Seq<char>| #[trigger] view_entries(keys, vals, n).contains_key(k)
            ==> exists|a: int| 0 <= a < n && keys[a]@ == k,
    decreases n,
{
    if n > 0 {
        lemma_entries_lookup(keys, vals, n - 1);
    }
}

proof fn lemma_entries_update(keys: Seq<String>, vals: Seq<Data>, n: int, a: int, d: Data)
    requires
        0 <= a < n <= keys.len(),
        n <= vals.len(),
        keys_distinct(keys, n),
    ensures
        view_entries(keys, vals.update(a, d), n) == view_entries(keys, vals, n).insert(keys[a]@, view_data(d)),
    decreases n,
{
    if a < n - 1 {
        lemma_entries_update(keys, vals, n - 1, a, d);
        lemma_entries_lookup(keys, vals, n - 1);
        assert(view_entries(keys, vals.update(a, d), n) =~= view_entries(keys, vals, n).insert(keys[a]@, view_data(d)));
    } else {
        lemma_entries_prefix(keys, vals, keys, vals.update(a, d), n - 1);
        assert(view_entries(keys, vals.update(a, d), n) =~= view_entries(keys, vals, n).insert(keys[a]@, view_data(d)));
    }
}

proof fn lemma_entries_prefix(k1: Seq<String>, v1: Seq<Data>, k2: Seq<String>, v2: Seq<Data>, n: int)
    requires
        0 <= n <= k1.len(),
        n <= v1.len(),
        n <= k2.len(),
        n <= v2.len(),
        forall|a: int| 0 <= a < n ==> k1[a] == k2[a] && v1[a] == v2[a],
    ensures
        view_entries(k1, v1, n) == view_entries(k2, v2, n),
    decreases n,
{
    if n > 0 {
        lemma_entries_prefix(k1, v1, k2, v2, n - 1);
    }
}

proof fn lemma_entries_congruent(k1: Seq<String>, v1: Seq<Data>, k2: Seq<String>, v2: Seq<Data>, n: int)
    requires
        0 <= n <= k1.len(),
        n <= v1.len(),
        n <= k2.len(),
        n <= v2.len(),
        forall|a: int| 0 <= a < n ==> k1[a]@ == k2[a]@ && view_data(v1[a]) == view_data(v2[a]),
    ensures
        view_entries(k1, v1, n) == view_entries(k2, v2, n),
    decreases n,
{
    if n > 0 {
        lemma_entries_congruent(k1, v1, k2, v2, n - 1);
    }
}

proof fn lemma_items_congruent(v1: Seq<Data>, v2: Seq<Data>, n: int)
    requires
        0 <= n <= v1.len(),
        n <= v2.len(),
        forall|a: int| 0 <= a < n ==> view_data(v1[a]) == view_data(v2[a]),
    ensures
        view_items(v1, n) == view_items(v2, n),
    decreases n,
{
    if n > 0 {
        lemma_items_congruent(v1, v2, n - 1);
    }
}

impl MemTable {
    #[verifier::type_invariant]
    spec fn inv(self) -> bool {
        &&& self.keys@.len() == self.vals@.len()
        &&& keys_distinct(self.keys@, self.keys@.len() as int)
    }

    /// Makes an empty table.
    pub fn new() -> (t: Box<MemTable>)
        ensures
            t@ == Map::<Seq<char>, DataV>::empty(),
    {
        let t = MemTable { keys: Vec::new(), vals: Vec::new() };
        assert(t@ =~= Map::<Seq<char>, DataV>::empty());
        Box::new(t)
    }

    /// The position of `key` among the keys, if it is there.
    fn find(&self, key: &str) -> (r: Option<usize>)
        ensures
            match r {
                Some(a) => a < self.keys@.len() && a < self.vals@.len() && self.keys@[a as int]@ == key@
                    && self@.contains_key(key@) && self@[key@] == view_data(self.vals@[a as int]),
                None => !self@.contains_key(key@),
            },
    {
        proof {
            use_type_invariant(self);
            lemma_entries_lookup(self.keys@, self.vals@, self.vals@.len() as int);
        }
        let mut a: usize = 0;
        while a < self.keys.len()
            invariant
                a <= self.keys@.len(),
                self.keys@.len() == self.vals@.len(),
                keys_distinct(self.keys@, self.keys@.len() as int),
                forall|c: int| 0 <= c < a ==> self.keys@[c]@ != key@,
            decreases self.keys@.len() - a,
        {
            if str_eq(self.keys[a].as_str(), key) {
                proof {
                    lemma_entries_lookup(self.keys@, self.vals@, self.vals@.len() as int);
                    assert(view_entries(self.keys@, self.vals@, self.vals@.len() as int).contains_key(self.keys@[a as int]@));
                    assert(self@ == view_entries(self.keys@, self.vals@, self.vals@.len() as int));
                    assert(self@.contains_key(key@));
                }
                return Some(a);
            }
            a = a + 1;
        }
        proof {
            lemma_entries_lookup(self.keys@, self.vals@, self.vals@.len() as int);
        }
        None
    }

    /// The value stored under `key`, if there is one.
    pub fn get_field(&self, key: &str) -> (r: Option<&Data>)
        ensures
            match r {
                Some(d) => self@.contains_key(key@) && d@ == self@[key@],
                None => !self@.contains_key(key@),
            },
    {
        match self.find(key) {
            Some(a) => Some(&self.vals[a]),
            None => None,
        }
    }

    /// Whether `key` holds a table.
    pub fn table_exists(&self, key: &str) -> (r: bool)
        ensures
            r == (self@.contains_key(key@) && self@[key@] is Table),
    {
        match self.get_field(key) {
            Some(d) => {
                d.data_type() == DataType::Table
            },
            None => false,
        }
    }

    /// Adds `key` with the value `data`; refused when `key` is already there.
    pub fn insert_data(&mut self, key: &str, data: Data) -> (r: Result<(), MyError>)
        ensures
            match r {
                Ok(()) => !old(self)@.contains_key(key@)
                    && final(self)@ == old(self)@.insert(key@, data@),
                Err(e) => e == MyError::KeyAlreadyExists && old(self)@.contains_key(key@)
                    && final(self)@ == old(self)@,
            },
    {
        proof { use_type_invariant(&*self); }
        if self.find(key).is_some() {
            return Err(MyError::KeyAlreadyExists);
        }
        let ghost k0 = self.keys@;
        let ghost v0 = self.vals@;
        proof {
            lemma_entries_lookup(k0, v0, v0.len() as int);
        }
        let owned = key.to_owned();
        let ghost d0 = data;
        let mut t = MemTable { keys: Vec::new(), vals: Vec::new() };
        std::mem::swap(self, &mut t);
        let MemTable { mut keys, mut vals } = t;
        keys.push(owned);
        vals.push(data);
        proof {
            assert forall|a: int, c: int| 0 <= a < c < keys@.len() implies keys@[a]@ != keys@[c]@ by {
                if c == keys@.len() - 1 {
                    assert(keys@[c]@ == key@);
                    assert(k0[a] == keys@[a]);
                    assert(view_entries(k0, v0, v0.len() as int).contains_key(k0[a]@));
                }
            }
            lemma_entries_prefix(k0, v0, keys@, vals@, v0.len() as int);
        }
        *self = MemTable { keys, vals };
        assert(self@ =~= old(self)@.insert(key@, d0@));
        Ok(())
    }

    /// Looks up the path `path.0`, from its byte `path.1` on: each key but the last names
    /// a nested table, the last one the value that is returned.
    pub fn get(&self, path: (&str, usize)) -> (r: Result<&Data, MyError>)
        requires
            valid_start(path.0.spec_bytes(), path.1 as int),
        ensures
            match r {
                Ok(d) => get_at(self@, path.0.spec_bytes(), path.1 as int) == Ok::<DataV, MyError>(d@),
                Err(e) => get_at(self@, path.0.spec_bytes(), path.1 as int) == Err::<DataV, MyError>(e),
            },
        decreases path.0.spec_bytes().len() - path.1,
    {
        proof {
            lemma_path_next_advances(path.0.spec_bytes(), path.1 as int);
        }
        let key_ind = next_path_key(path);
        match key_ind {
            (key, Some(new_ind)) => {
                match self.get_field(key) {
                    Some(field) => {
                        if let Data::Table(table) = field {
                            table.get((path.0, new_ind))
                        } else {
                            Err(MyError::PathContainsPrimitiveValue)
                        }
                    },
                    None => Err(MyError::KeyNotFound),
                }
            },
            (key, None) => {
                match self.get_field(key) {
                    Some(field) => Ok(field),
                    None => Err(MyError::KeyNotFound),
                }
            },
        }
    }

    /// Whether a store at the path `path.0`, from its byte `path.1` on, is possible: no key
    /// on the way to the last one holds a value that is not a table.
    pub fn can_set(&self, path: (&str, usize)) -> (r: bool)
        requires
            valid_start(path.0.spec_bytes(), path.1 as int),
        ensures
            r == set_ok(self@, path.0.spec_bytes(), path.1 as int),
        decreases path.0.spec_bytes().len() - path.1,
    {
        proof {
            lemma_path_next_advances(path.0.spec_bytes(), path.1 as int);
        }
        match next_path_key(path) {
            (key, Some(new_ind)) => {
                match self.get_field(key) {
                    Some(field) => {
                        if let Data::Table(table) = field {
                            table.can_set((path.0, new_ind))
                        } else {
                            false
                        }
                    },
                    None => true,
                }
            },
            (_, None) => true,
        }
    }

    /// Stores `data` at the path `path.0`, from its byte `path.1` on, and returns how many
    /// keys were added: a table is made for each missing key on the way, and the last key
    /// counts when it is new. A value already at the last key is replaced. The change is
    /// reported through `context`: one event for the path `path.0` to each of its listeners.
    pub fn set(&mut self, context: &mut ExecutionContext, path: (&str, usize), data: Data) -> (mod_count: usize)
        requires
            valid_start(path.0.spec_bytes(), path.1 as int),
            set_ok(old(self)@, path.0.spec_bytes(), path.1 as int),
            path.0.spec_bytes().len() < usize::MAX,
        ensures
            final(self)@ == set_at(old(self)@, path.0.spec_bytes(), path.1 as int, data@).0,
            mod_count == set_at(old(self)@, path.0.spec_bytes(), path.1 as int, data@).1,
            final(context).listeners == old(context).listeners,
            records_view(final(context).sent@) == records_view(old(context).sent@)
                + change_events(old(context).listeners@, path.0@, Operation::Put),
        decreases path.0.spec_bytes().len() - path.1,
    {
        let ghost b = path.0.spec_bytes();
        let ghost i = path.1 as int;
        let ghost d0 = data@;
        proof {
            lemma_path_next_advances(b, i);
            lemma_set_count_bound(old(self)@, b, i, d0);
        }
        let key_ind = next_path_key(path);
        match key_ind {
            (key, Some(new_ind)) => {
                let ghost t0 = self@;
                let mut mod_count: usize = 0;
                if !self.table_exists(key) {
                    let _ = self.insert_data(key, Data::Table(MemTable::new()));
                    mod_count = 1;
                }
                let ghost t1 = self@;
                proof {
                    use_type_invariant(&*self);
                    lemma_path_next_advances(b, new_ind as int);
                    if !t0.contains_key(key@) {
                        lemma_set_ok_empty(b, new_ind as int);
                    }
                }
                match self.find(key) {
                    Some(a) => {
                        let mut whole = MemTable { keys: Vec::new(), vals: Vec::new() };
                        std::mem::swap(self, &mut whole);
                        proof {
                            use_type_invariant(&whole);
                        }
                        let MemTable { keys, mut vals } = whole;
                        let ghost v1 = vals@;
                        let mut slot = Data::Null;
                        vals.set_and_swap(a, &mut slot);
                        match slot {
                            Data::Table(mut t) => {
                                let c = t.set(context, (path.0, new_ind), data);
                                proof {
                                    assert(vals@.update(a as int, Data::Table(t)) =~= v1.update(a as int, Data::Table(t)));
                                    lemma_entries_update(keys@, v1, v1.len() as int, a as int, Data::Table(t));
                                }
                                vals.set(a, Data::Table(t));
                                *self = MemTable { keys, vals };
                                assert(self@ =~= t0.insert(key@, DataV::Table(t@)));
                                mod_count + c
                            },
                            _ => {
                                proof {
                                    assert(false);
                                }
                                0
                            },
                        }
                    },
                    None => 0,
                }
            },
            (key, None) => {
                proof {
                    use_type_invariant(&*self);
                }
                match self.find(key) {
                    Some(a) => {
                        let mut whole = MemTable { keys: Vec::new(), vals: Vec::new() };
                        std::mem::swap(self, &mut whole);
                        proof {
                            use_type_invariant(&whole);
                        }
                        let MemTable { keys, mut vals } = whole;
                        proof {
                            lemma_entries_update(keys@, vals@, vals@.len() as int, a as int, data);
                        }
                        vals.set(a, data);
                        *self = MemTable { keys, vals };
                        context.notify(path.0, Operation::Put);
                        0
                    },
                    None => {
                        let _ = self.insert_data(key, data);
                        context.notify(path.0, Operation::Put);
                        1
                    },
                }
            },
        }
    }
}

impl Data {
    /// A copy of this value, tables and arrays included.
    pub fn duplicate(&self) -> (r: Data)
        ensures
            r@ == self@,
        decreases self, 1int,
    {
        match self {
            Data::Null => Data::Null,
            Data::Table(t) => Data::Table(Box::new(t.duplicate())),
            Data::Int(i) => Data::Int(*i),
            Data::Float(f) => Data::Float(*f),
            Data::Str(x) => Data::Str(x.clone()),
            Data::Bool(x) => Data::Bool(*x),
            Data::Array(v) => {
                let mut out: Vec<Data> = Vec::new();
                let mut a: usize = 0;
                while a < v.len()
                    invariant
                        a <= v@.len(),
                        self is Array,
                        self->Array_0 == *v,
                        out@.len() == a,
                        forall|c: int| 0 <= c < a ==> view_data(#[trigger] out@[c]) == view_data(v@[c]),
                    decreases v@.len() - a,
                {
                    proof {
                        assert(decreases_to!(self => v[a as int]));
                    }
                    out.push(v[a].duplicate());
                    a = a + 1;
                }
                proof {
                    lemma_items_congruent(out@, v@, a as int);
                }
                Data::Array(out)
            },
        }
    }
}

impl MemTable {
    /// A copy of this table, nested tables included.
    pub fn duplicate(&self) -> (r: MemTable)
        ensures
            r@ == self@,
        decreases self, 0int,
    {
        proof {
            use_type_invariant(self);
        }
        let mut keys: Vec<String> = Vec::new();
        let mut vals: Vec<Data> = Vec::new();
        let mut a: usize = 0;
        while a < self.keys.len()
            invariant
                a <= self.keys@.len(),
                self.keys@.len() == self.vals@.len(),
                keys@.len() == a,
                vals@.len() == a,
                forall|c: int| 0 <= c < a ==> #[trigger] keys@[c] == self.keys@[c],
                forall|c: int| 0 <= c < a ==> view_data(#[trigger] vals@[c]) == view_data(self.vals@[c]),
            decreases self.keys@.len() - a,
        {
            proof {
                assert(decreases_to!(self => self.vals@[a as int]));
            }
            keys.push(self.keys[a].clone());
            vals.push(self.vals[a].duplicate());
            a = a + 1;
        }
        proof {
            lemma_entries_congruent(keys@, vals@, self.keys@, self.vals@, a as int);
            assert(keys@ =~= self.keys@);
        }
        MemTable { keys, vals }
    }
}

impl Clone for Data {
    fn clone(&self) -> (r: Self)
        ensures
            r@ == self@,
    {
        self.duplicate()
    }
}

impl Clone for MemTable {
    fn clone(&self) -> (r: Self)
        ensures
            r@ == self@,
    {
        self.duplicate()
    }
}


impl MemTable {
    /// The keys, in the order they came.
    pub closed spec fn key_seq(&self) -> Seq<String> {
        self.keys@
    }

    /// The value under each key, in the order the keys came.
    pub closed spec fn val_seq(&self) -> Seq<Data> {
        self.vals@
    }
}

/// The events that a change by `op` to the table `t` at `p` makes: those of `p` itself,
/// then, key by key in the order the keys came, those of each nested table at `p`, `/`
/// and its key.
pub open spec fn delete_events(ls: Seq<(String, usize)>, t: MemTable, p: Seq<char>, op: Operation) -> Seq<(Seq<char>, Operation, usize)>
    decreases t, 1int,
{
    change_events(ls, p, op) + delete_events_from(ls, t.key_seq(), t.val_seq(), p, op, t.val_seq().len() as int)
}

/// The events of the nested tables among the first `n` entries of a table at `p`.
pub open spec fn delete_events_from(
    ls: Seq<(String, usize)>,
    keys: Seq<String>,
    vals: Seq<Data>,
    p: Seq<char>,
    op: Operation,
    n: int,
) -> Seq<(Seq<char>, Operation, usize)>
    decreases vals, n,
{
    if n <= 0 || n > vals.len() || n > keys.len() {
        Seq::empty()
    } else {
        delete_events_from(ls, keys, vals, p, op, n - 1) + match vals[n - 1] {
            Data::Table(inner) => delete_events(ls, *inner, p + seq!['/'] + keys[n - 1]@, op),
            _ => Seq::empty(),
        }
    }
}

impl MemTable {
    /// Sends the events of a change by `op` to `table` at `path`: to the listeners of
    /// `path`, then, key by key, those of each nested table at `path`, `/` and its key.
    pub fn create_delete_events(context: &mut ExecutionContext, path: &str, op: Operation, table: &MemTable)
        ensures
            final(context).listeners == old(context).listeners,
            records_view(final(context).sent@) == records_view(old(context).sent@)
                + delete_events(old(context).listeners@, *table, path@, op),
        decreases table, 0int,
    {
        proof {
            use_type_invariant(table);
        }
        let ghost start = records_view(context.sent@);
        context.notify(path, op);
        let mut i: usize = 0;
        while i < table.keys.len()
            invariant
                i <= table.keys@.len(),
                table.keys@.len() == table.vals@.len(),
                context.listeners == old(context).listeners,
                start == records_view(old(context).sent@),
                records_view(context.sent@) == start + change_events(old(context).listeners@, path@, op)
                    + delete_events_from(old(context).listeners@, table.keys@, table.vals@, path@, op, i as int),
            decreases table.keys@.len() - i,
        {
            let ghost before = records_view(context.sent@);
            if let Data::Table(inner) = &table.vals[i] {
                let mut sub = String::from_str(path);
                sub.append("/");
                sub.append(table.keys[i].as_str());
                proof {
                    reveal_strlit("/");
                    assert(sub@ == path@ + seq!['/'] + table.keys@[i as int]@);
                    assert(decreases_to!(table => table.vals@[i as int]));
                }
                Self::create_delete_events(context, sub.as_str(), op, inner);
            }
            proof {
                assert(records_view(context.sent@) =~= start + change_events(old(context).listeners@, path@, op)
                    + delete_events_from(old(context).listeners@, table.keys@, table.vals@, path@, op, i + 1));
            }
            i = i + 1;
        }
    }
}

} // verus!
