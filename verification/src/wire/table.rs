//! Reading and storing values at key paths of a table, and moving nested tables and arrays
//! to the path where they sit.
use vstd::prelude::*;
use vstd::string::StringExecFns;
use crate::wire::roundtrip::{without_paths, without_paths_all, lemma_without_paths_all};
use std::collections::VecDeque;
use crate::wire::types::{
    copy_path, Table, TableV, Value, ValueV, key_index, strings_view, table_insert, values_view,
    lemma_key_index, lemma_table_view, lemma_values_view, lemma_view_value,
};

verus! {

broadcast use vstd::std_specs::vec::group_vec_axioms;

/// The decimal digits of `n`, most significant first.
pub open spec fn decimal(n: nat) -> Seq<char>
    decreases n,
{
    if n < 10 {
        seq![digit_char(n)]
    } else {
        decimal(n / 10).push(digit_char(n % 10))
    }
}

/// The character of the decimal digit `d`.
pub open spec fn digit_char(d: nat) -> char {
    if d == 0 {
        '0'
    } else if d == 1 {
        '1'
    } else if d == 2 {
        '2'
    } else if d == 3 {
        '3'
    } else if d == 4 {
        '4'
    } else if d == 5 {
        '5'
    } else if d == 6 {
        '6'
    } else if d == 7 {
        '7'
    } else if d == 8 {
        '8'
    } else {
        '9'
    }
}

/// The table `t` moved to `p`: its path becomes `p`, and each nested table or array under
/// a key is moved below `p` and that key.
pub open spec fn regen_table(t: TableV, p: Seq<Seq<char>>) -> TableV
    decreases t, 1int,
{
    TableV { path: p, keys: t.keys, vals: regen_entries(t.keys, t.vals, p, t.vals.len() as int) }
}

/// The first `n` values of a table at `p`, each moved below `p` and its key.
pub open spec fn regen_entries(keys: Seq<Seq<char>>, vals: Seq<ValueV>, p: Seq<Seq<char>>, n: int) -> Seq<ValueV>
    decreases vals, n,
{
    if n <= 0 || n > vals.len() {
        Seq::empty()
    } else {
        regen_entries(keys, vals, p, n - 1).push(regen_child(vals[n - 1], p.push(keys[n - 1])))
    }
}

/// A value moved to `p`: a table or array is moved there, other values stay as they are.
pub open spec fn regen_child(v: ValueV, p: Seq<Seq<char>>) -> ValueV
    decreases v, 2int,
{
    match v {
        ValueV::Table(t) => ValueV::Table(regen_table(t, p)),
        ValueV::Array(items) => ValueV::Array(regen_items(items, p, items.len() as int)),
        _ => v,
    }
}

/// The first `n` items of an array at `p`, each moved below `p` and its index in decimal.
pub open spec fn regen_items(items: Seq<ValueV>, p: Seq<Seq<char>>, n: int) -> Seq<ValueV>
    decreases items, n,
{
    if n <= 0 || n > items.len() {
        Seq::empty()
    } else {
        regen_items(items, p, n - 1).push(regen_child(items[n - 1], p.push(decimal((n - 1) as nat))))
    }
}

/// The value under key `k` of `t`, if there is one.
pub open spec fn lookup(t: TableV, k: Seq<char>) -> Option<ValueV> {
    let a = key_index(t.keys, k, t.keys.len() as int);
    if 0 <= a < t.vals.len() {
        Some(t.vals[a])
    } else {
        None
    }
}

/// What a lookup of the key path `path` finds in `t`: each key but the last names a nested
/// table. An empty path finds nothing.
pub open spec fn table_get(t: TableV, path: Seq<Seq<char>>) -> Option<ValueV>
    decreases path.len(),
{
    if path.len() == 0 {
        None
    } else {
        let v = lookup(t, path[0]);
        if path.len() == 1 {
            v
        } else {
            match v {
                Some(ValueV::Table(inner)) => table_get(inner, path.skip(1)),
                _ => None,
            }
        }
    }
}

/// The value that goes in under key `k` of a table at `parent` when `v` is stored there:
/// a table is moved below `parent` and `k`; an array is moved to `parent` itself.
pub open spec fn placed(v: ValueV, parent: Seq<Seq<char>>, k: Seq<char>) -> ValueV {
    match v {
        ValueV::Array(items) => ValueV::Array(regen_items(items, parent, items.len() as int)),
        ValueV::Table(x) => ValueV::Table(regen_table(x, parent.push(k))),
        _ => v,
    }
}

/// The table that storing `v` at the key path `path` makes of `t`. Missing tables on the
/// way are made; a key on the way that holds something other than a table stops the store,
/// and then nothing changes.
pub open spec fn table_set(t: TableV, path: Seq<Seq<char>>, v: ValueV) -> TableV
    decreases path.len(),
{
    if path.len() == 0 {
        t
    } else {
        let curr = path[0];
        let rest = path.skip(1);
        if rest.len() == 0 {
            table_insert(t, curr, placed(v, t.path, curr))
        } else {
            let a = key_index(t.keys, curr, t.keys.len() as int);
            if a >= 0 {
                match t.vals[a] {
                    ValueV::Table(e) => TableV {
                        vals: t.vals.update(a, ValueV::Table(table_set(e, rest, v))),
                        ..t
                    },
                    _ => t,
                }
            } else {
                let np = t.path.push(curr);
                let inner = table_set(TableV { path: np, keys: Seq::empty(), vals: Seq::empty() }, rest, v);
                table_insert(t, curr, ValueV::Table(regen_table(inner, np)))
            }
        }
    }
}


/// The decimal digit `d` as a one-character string.
fn digit_str(d: usize) -> (r: &'static str)
    requires
        d < 10,
    ensures
        r@ == seq![digit_char(d as nat)],
{
    proof {
        reveal_strlit("0");
        reveal_strlit("1");
        reveal_strlit("2");
        reveal_strlit("3");
        reveal_strlit("4");
        reveal_strlit("5");
        reveal_strlit("6");
        reveal_strlit("7");
        reveal_strlit("8");
        reveal_strlit("9");
    }
    if d == 0 {
        "0"
    } else if d == 1 {
        "1"
    } else if d == 2 {
        "2"
    } else if d == 3 {
        "3"
    } else if d == 4 {
        "4"
    } else if d == 5 {
        "5"
    } else if d == 6 {
        "6"
    } else if d == 7 {
        "7"
    } else if d == 8 {
        "8"
    } else {
        "9"
    }
}

/// The decimal digits of `n`, most significant first.
pub fn decimal_string(n: usize) -> (r: String)
    ensures
        r@ == decimal(n as nat),
    decreases n,
{
    if n < 10 {
        String::from_str(digit_str(n))
    } else {
        let mut s = decimal_string(n / 10);
        s.append(digit_str(n % 10));
        s
    }
}


impl Table {
    /// The position of the key `k`, if the table has it.
    fn position(&self, k: &str) -> (r: Option<usize>)
        ensures
            match r {
                Some(a) => a < self@.keys.len() && key_index(self@.keys, k@, self@.keys.len() as int) == a,
                None => key_index(self@.keys, k@, self@.keys.len() as int) == -1,
            },
    {
        proof {
            use_type_invariant(self);
            lemma_table_view(*self);
        }
        let mut a: usize = self.keys.len();
        while a > 0
            invariant
                a <= self.keys@.len(),
                strings_view(self.keys@) == self@.keys,
                key_index(self@.keys, k@, self@.keys.len() as int) == key_index(self@.keys, k@, a as int),
            decreases a,
        {
            if crate::path::str_eq(self.keys[a - 1].as_str(), k) {
                return Some(a - 1);
            }
            a = a - 1;
        }
        None
    }

    /// The value at the key path `key`: each key but the last names a nested table.
    /// An empty path, a missing key, or a key on the way that does not hold a table
    /// finds nothing.
    pub fn get(&self, key: VecDeque<String>) -> (r: Option<&Value>)
        ensures
            match r {
                Some(v) => table_get(self@, strings_view(key@)) == Some(v@),
                None => table_get(self@, strings_view(key@)) is None,
            },
        decreases key@.len(),
    {
        let ghost path = strings_view(key@);
        let mut key = key;
        match key.pop_front() {
            None => {
                assert(path.len() == 0);
                None
            },
            Some(curr) => {
                assert(strings_view(key@) =~= path.skip(1));
                assert(path[0] == curr@);
                proof {
                    use_type_invariant(self);
                    lemma_table_view(*self);
                    lemma_values_view(self.vals@);
                }
                match self.position(curr.as_str()) {
                    None => None,
                    Some(a) => {
                        let val = &self.vals[a];
                        if key.len() == 0 {
                            Some(val)
                        } else {
                            match val {
                                Value::Table(t2) => {
                                    proof {
                                        lemma_view_value(*val);
                                    }
                                    t2.get(key)
                                },
                                _ => {
                                    proof {
                                        lemma_view_value(*val);
                                    }
                                    None
                                },
                            }
                        }
                    },
                }
            },
        }
    }
}


/// The values that `regen_entries` gives, one by one.
proof fn lemma_regen_entries(keys: Seq<Seq<char>>, vals: Seq<ValueV>, p: Seq<Seq<char>>, n: int)
    requires
        0 <= n <= vals.len(),
    ensures
        regen_entries(keys, vals, p, n).len() == n,
        forall|j: int| 0 <= j < n ==> #[trigger] regen_entries(keys, vals, p, n)[j] == regen_child(vals[j], p.push(keys[j])),
    decreases n,
{
    if n > 0 {
        lemma_regen_entries(keys, vals, p, n - 1);
    }
}

/// The items that `regen_items` gives, one by one.
proof fn lemma_regen_items(items: Seq<ValueV>, p: Seq<Seq<char>>, n: int)
    requires
        0 <= n <= items.len(),
    ensures
        regen_items(items, p, n).len() == n,
        forall|j: int| 0 <= j < n ==> #[trigger] regen_items(items, p, n)[j] == regen_child(items[j], p.push(decimal(j as nat))),
    decreases n,
{
    if n > 0 {
        lemma_regen_items(items, p, n - 1);
    }
}

/// Moves a value to `p`: a table or an array moves there, other values stay as they are.
fn regen_slot(v: &mut Value, p: VecDeque<String>)
    ensures
        final(v)@ == regen_child(old(v)@, strings_view(p@)),
    decreases *old(v), 1int,
{
    proof {
        lemma_view_value(*v);
    }
    match v {
        Value::Table(t) => {
            t.regen_path(Some(p));
        },
        Value::Array(items) => {
            proof {
                lemma_values_view(items@);
            }
            regen_array(items, p);
        },
        _ => {},
    }
    proof {
        lemma_view_value(*v);
    }
}

/// Moves each item of an array below `p` and the item's index in decimal.
fn regen_array(items: &mut Vec<Value>, p: VecDeque<String>)
    ensures
        values_view(final(items)@) == regen_items(values_view(old(items)@), strings_view(p@), old(items)@.len() as int),
    decreases *old(items), 2int,
{
    let ghost v0: Vec<Value> = *items;
    let ghost ps = strings_view(p@);
    let mut i: usize = 0;
    while i < items.len()
        invariant
            i <= items@.len(),
            items@.len() == v0@.len(),
            v0 == *old(items),
            ps == strings_view(p@),
            forall|j: int| i <= j < items@.len() ==> items@[j] == v0@[j],
            forall|j: int| 0 <= j < i ==> #[trigger] items@[j]@ == regen_child(v0@[j]@, ps.push(decimal(j as nat))),
        decreases items@.len() - i,
    {
        let mut scope = copy_path(&p);
        scope.push_back(decimal_string(i));
        assert(strings_view(scope@) =~= ps.push(decimal(i as nat)));
        proof {
            assert(decreases_to!(v0 => v0@));
            assert(decreases_to!(v0@ => v0@[i as int]));
        }
        regen_slot(&mut items[i], scope);
        i = i + 1;
    }
    proof {
        lemma_values_view(items@);
        lemma_values_view(v0@);
        lemma_regen_items(values_view(v0@), ps, v0@.len() as int);
        assert(values_view(items@) =~= regen_items(values_view(v0@), ps, v0@.len() as int));
    }
}

/// Arrays of values that can be moved to a new path.
pub trait ValueArray {
    /// Moves each item below `path` and the item's index in decimal.
    fn regen_path(&mut self, path: VecDeque<String>);
}

impl ValueArray for Vec<Value> {
    fn regen_path(&mut self, path: VecDeque<String>)
        ensures
            values_view(final(self)@) == regen_items(values_view(old(self)@), strings_view(path@), old(self)@.len() as int),
    {
        regen_array(self, path);
    }
}

impl Table {
    /// Moves the table to `path` (or keeps its own path when `path` is `None`), and each
    /// nested table or array below that path and its key.
    pub fn regen_path(&mut self, path: Option<VecDeque<String>>)
        ensures
            final(self)@ == regen_table(
                old(self)@,
                match path {
                    Some(p) => strings_view(p@),
                    None => old(self)@.path,
                },
            ),
        decreases *old(self), 0int,
    {
        proof {
            use_type_invariant(&*self);
            lemma_table_view(*self);
        }
        let ghost t0: Table = *self;
        let mut whole = Table { path: VecDeque::new(), keys: Vec::new(), vals: Vec::new() };
        std::mem::swap(self, &mut whole);
        proof {
            use_type_invariant(&whole);
        }
        let Table { path: own_path, keys, mut vals } = whole;
        let p = match path {
            Some(p) => p,
            None => own_path,
        };
        let ghost ps = strings_view(p@);
        let mut i: usize = 0;
        while i < vals.len()
            invariant
                i <= vals@.len(),
                vals@.len() == t0.vals@.len(),
                keys@ == t0.keys@,
                keys@.len() == vals@.len(),
                t0 == *old(self),
                ps == strings_view(p@),
                forall|j: int| i <= j < vals@.len() ==> vals@[j] == t0.vals@[j],
                forall|j: int| 0 <= j < i ==> #[trigger] vals@[j]@ == regen_child(t0.vals@[j]@, ps.push(keys@[j]@)),
            decreases vals@.len() - i,
        {
            let mut scope = copy_path(&p);
            scope.push_back(keys[i].clone());
            assert(strings_view(scope@) =~= ps.push(keys@[i as int]@));
            proof {
                assert(decreases_to!(t0 => t0.vals));
                assert(decreases_to!(t0.vals => t0.vals@));
                assert(decreases_to!(t0.vals@ => t0.vals@[i as int]));
            }
            regen_slot(&mut vals[i], scope);
            i = i + 1;
        }
        proof {
            lemma_values_view(vals@);
            lemma_values_view(t0.vals@);
            lemma_regen_entries(strings_view(t0.keys@), values_view(t0.vals@), ps, t0.vals@.len() as int);
            assert(values_view(vals@) =~= regen_entries(strings_view(t0.keys@), values_view(t0.vals@), ps, t0.vals@.len() as int));
        }
        *self = Table { path: p, keys, vals };
        proof {
            lemma_table_view(*self);
        }
    }
}


/// The value that goes in under key `k` of a table at `parent` when `val` is stored there.
fn place(val: &Value, parent: &VecDeque<String>, k: &String) -> (r: Value)
    ensures
        r@ == placed(val@, strings_view(parent@), k@),
{
    let to_insert = val.clone();
    proof {
        lemma_view_value(to_insert);
        lemma_view_value(*val);
    }
    match to_insert {
        Value::Array(mut arr) => {
            proof {
                lemma_values_view(arr@);
            }
            arr.regen_path(copy_path(parent));
            let r = Value::Array(arr);
            proof {
                lemma_view_value(r);
            }
            r
        },
        Value::Table(mut t) => {
            let mut np = copy_path(parent);
            np.push_back(k.clone());
            assert(strings_view(np@) =~= strings_view(parent@).push(k@));
            t.regen_path(Some(np));
            let r = Value::Table(t);
            proof {
                lemma_view_value(r);
            }
            r
        },
        other => other,
    }
}

impl Table {
    /// Stores `val` at the key path `key`. Tables missing on the way are made; a key on the
    /// way that holds something other than a table stops the store, and nothing changes.
    /// A stored table is moved below this table's path and its key; a stored array is
    /// moved to this table's path.
    pub fn set(&mut self, key: VecDeque<String>, val: &Value)
        ensures
            final(self)@ == table_set(old(self)@, strings_view(key@), val@),
        decreases key@.len(), 0int,
    {
        let ghost path = strings_view(key@);
        let mut key = key;
        match key.pop_front() {
            None => {
                assert(path.len() == 0);
            },
            Some(curr) => {
                assert(strings_view(key@) =~= path.skip(1));
                assert(path[0] == curr@);
                if key.len() == 0 {
                    let to_insert = place(val, &self.path, &curr);
                    proof {
                        lemma_table_view(*self);
                    }
                    self.insert(curr, to_insert);
                } else {
                    match self.position(curr.as_str()) {
                        Some(a) => {
                            self.set_below(a, key, val);
                        },
                        None => {
                            proof {
                                lemma_table_view(*self);
                            }
                            let mut np = copy_path(&self.path);
                            np.push_back(curr.clone());
                            assert(strings_view(np@) =~= self@.path.push(curr@));
                            let mut ntable = Table::new(np);
                            ntable.set(key, val);
                            ntable.regen_path(None);
                            let nv = Value::Table(Box::new(ntable));
                            proof {
                                lemma_view_value(nv);
                            }
                            self.insert(curr, nv);
                        },
                    }
                }
            },
        }
    }

    /// Stores `val` at the key path `key` below the value at position `a`, when that value is
    /// a table; otherwise nothing changes.
    fn set_below(&mut self, a: usize, key: VecDeque<String>, val: &Value)
        requires
            a < old(self)@.keys.len(),
            key@.len() > 0,
        ensures
            final(self)@ == match old(self)@.vals[a as int] {
                ValueV::Table(e) => TableV {
                    vals: old(self)@.vals.update(a as int, ValueV::Table(table_set(e, strings_view(key@), val@))),
                    ..old(self)@
                },
                _ => old(self)@,
            },
        decreases key@.len(), 1int,
    {
        proof {
            use_type_invariant(&*self);
            lemma_table_view(*self);
            lemma_values_view(self.vals@);
        }
        let ghost t0: Table = *self;
        let mut whole = Table { path: VecDeque::new(), keys: Vec::new(), vals: Vec::new() };
        std::mem::swap(self, &mut whole);
        proof {
            use_type_invariant(&whole);
        }
        let Table { path, keys, mut vals } = whole;
        let item = vals.remove(a);
        proof {
            lemma_view_value(item);
        }
        match item {
            Value::Table(mut inner) => {
                inner.set(key, val);
                let nv = Value::Table(inner);
                proof {
                    lemma_view_value(nv);
                }
                vals.insert(a, nv);
                assert(vals@ =~= t0.vals@.update(a as int, nv));
            },
            other => {
                vals.insert(a, other);
                assert(vals@ =~= t0.vals@);
            },
        }
        proof {
            lemma_values_view(vals@);
            assert(values_view(vals@) =~= values_view(t0.vals@).update(a as int, vals@[a as int]@));
        }
        *self = Table { path, keys, vals };
        proof {
            lemma_table_view(*self);
        }
    }
}


/// Whether a store at `path` in `t` stops at a key on the way that holds something other
/// than a table.
pub open spec fn set_blocked(t: TableV, path: Seq<Seq<char>>) -> bool
    decreases path.len(),
{
    if path.len() <= 1 {
        false
    } else {
        match lookup(t, path[0]) {
            Some(ValueV::Table(e)) => set_blocked(e, path.skip(1)),
            Some(_) => true,
            None => false,
        }
    }
}

/// Whether a value is neither a table nor an array, so that no store moves it.
pub open spec fn is_scalar(v: ValueV) -> bool {
    !(v is Table) && !(v is Array)
}

proof fn lemma_key_index_push(keys: Seq<Seq<char>>, x: Seq<char>, k: Seq<char>, n: int)
    requires
        0 <= n <= keys.len(),
    ensures
        key_index(keys.push(x), k, n) == key_index(keys, k, n),
    decreases n,
{
    if n > 0 {
        lemma_key_index_push(keys, x, k, n - 1);
    }
}

/// What a lookup finds in a table after `table_insert`.
proof fn lemma_lookup_insert(t: TableV, k: Seq<char>, w: ValueV, q: Seq<char>)
    requires
        t.keys.len() == t.vals.len(),
    ensures
        lookup(table_insert(t, k, w), q) == if q == k { Some(w) } else { lookup(t, q) },
        table_insert(t, k, w).keys.len() == table_insert(t, k, w).vals.len(),
{
    let n = t.keys.len() as int;
    lemma_key_index(t.keys, k, n);
    lemma_key_index(t.keys, q, n);
    let a = key_index(t.keys, k, n);
    if a < 0 {
        lemma_key_index_push(t.keys, k, q, n);
    } else if q != k {
        let c = key_index(t.keys, q, n);
        assert(c != a);
    }
}

/// A lookup in a table moved by `regen_table` finds what it found before, moved.
proof fn lemma_lookup_regen(x: TableV, p: Seq<Seq<char>>, q: Seq<char>)
    ensures
        lookup(regen_table(x, p), q) == match lookup(x, q) {
            Some(w) => Some(regen_child(w, p.push(q))),
            None => None,
        },
{
    lemma_key_index(x.keys, q, x.keys.len() as int);
    lemma_regen_entries(x.keys, x.vals, p, x.vals.len() as int);
}

/// A value that is neither a table nor an array, read at a key path, is still read there
/// after the table is moved.
proof fn lemma_get_regen_scalar(x: TableV, p: Seq<Seq<char>>, q: Seq<Seq<char>>, s: ValueV)
    requires
        table_get(x, q) == Some(s),
        is_scalar(s),
    ensures
        table_get(regen_table(x, p), q) == Some(s),
    decreases q.len(),
{
    lemma_lookup_regen(x, p, q[0]);
    if q.len() > 1 {
        match lookup(x, q[0]) {
            Some(ValueV::Table(e)) => {
                lemma_get_regen_scalar(e, p.push(q[0]), q.skip(1), s);
            },
            _ => {},
        }
    }
}

/// Each table in `t`, `t` included, has as many values as keys.
pub open spec fn wf_table(t: TableV) -> bool
    decreases t, 0int,
{
    &&& t.keys.len() == t.vals.len()
    &&& forall|i: int| 0 <= i < t.vals.len() ==> wf_value(#[trigger] t.vals[i])
}

/// Each table in `v` has as many values as keys.
pub open spec fn wf_value(v: ValueV) -> bool
    decreases v, 1int,
{
    match v {
        ValueV::Table(t) => wf_table(t),
        ValueV::Array(items) => forall|i: int| 0 <= i < items.len() ==> wf_value(#[trigger] items[i]),
        _ => true,
    }
}


/// Read after write: once a value that is neither a table nor an array is stored at a key
/// path, a read of that path gives it back, unless the store was stopped by a key on the
/// way that holds something other than a table.
pub proof fn law_get_after_set(t: TableV, path: Seq<Seq<char>>, v: ValueV)
    requires
        wf_table(t),
        path.len() > 0,
        !set_blocked(t, path),
        is_scalar(v),
    ensures
        table_get(table_set(t, path, v), path) == Some(v),
    decreases path.len(),
{
    let curr = path[0];
    let rest = path.skip(1);
    if rest.len() == 0 {
        lemma_lookup_insert(t, curr, v, curr);
    } else {
        let n = t.keys.len() as int;
        lemma_key_index(t.keys, curr, n);
        let a = key_index(t.keys, curr, n);
        if a >= 0 {
            match t.vals[a] {
                ValueV::Table(e) => {
                    assert(wf_value(t.vals[a]));
                    law_get_after_set(e, rest, v);
                },
                _ => {},
            }
        } else {
            let np = t.path.push(curr);
            let empty = TableV { path: np, keys: Seq::empty(), vals: Seq::empty() };
            law_get_after_set(empty, rest, v);
            let inner = table_set(empty, rest, v);
            lemma_get_regen_scalar(inner, np, rest, v);
            lemma_lookup_insert(t, curr, ValueV::Table(regen_table(inner, np)), curr);
        }
    }
}

/// A store that is stopped by a key on the way that holds something other than a table
/// leaves the table as it was.
pub proof fn law_set_blocked_unchanged(t: TableV, path: Seq<Seq<char>>, v: ValueV)
    requires
        set_blocked(t, path),
    ensures
        table_set(t, path, v) == t,
    decreases path.len(),
{
    let curr = path[0];
    let rest = path.skip(1);
    let n = t.keys.len() as int;
    lemma_key_index(t.keys, curr, n);
    let a = key_index(t.keys, curr, n);
    match t.vals[a] {
        ValueV::Table(e) => {
            law_set_blocked_unchanged(e, rest, v);
            assert(t.vals.update(a, ValueV::Table(e)) =~= t.vals);
        },
        _ => {},
    }
}

/// A store at a key path leaves the value under every other first key as it was.
pub proof fn law_set_keeps_other_keys(t: TableV, path: Seq<Seq<char>>, v: ValueV, k: Seq<char>)
    requires
        wf_table(t),
        path.len() > 0,
        k != path[0],
    ensures
        lookup(table_set(t, path, v), k) == lookup(t, k),
{
    let curr = path[0];
    let rest = path.skip(1);
    let n = t.keys.len() as int;
    lemma_key_index(t.keys, curr, n);
    lemma_key_index(t.keys, k, n);
    if rest.len() == 0 {
        lemma_lookup_insert(t, curr, placed(v, t.path, curr), k);
    } else {
        let a = key_index(t.keys, curr, n);
        if a < 0 {
            let np = t.path.push(curr);
            let inner = table_set(TableV { path: np, keys: Seq::empty(), vals: Seq::empty() }, rest, v);
            lemma_lookup_insert(t, curr, ValueV::Table(regen_table(inner, np)), k);
        }
    }
}


impl Table {
    /// Each key with its value, in the order the keys came.
    pub fn pairs(&self) -> (r: Vec<(&String, &Value)>)
        ensures
            r@.len() == self@.keys.len(),
            forall|i: int| 0 <= i < r@.len() ==> (#[trigger] r@[i]).0@ == self@.keys[i] && r@[i].1@ == self@.vals[i],
    {
        proof {
            use_type_invariant(self);
            lemma_table_view(*self);
            lemma_values_view(self.vals@);
        }
        let mut out: Vec<(&String, &Value)> = Vec::new();
        let mut i: usize = 0;
        while i < self.keys.len()
            invariant
                i <= self.keys@.len(),
                self.keys@.len() == self.vals@.len(),
                self@.keys == strings_view(self.keys@),
                self@.vals == values_view(self.vals@),
                values_view(self.vals@).len() == self.vals@.len(),
                forall|a: int| 0 <= a < self.vals@.len() ==> #[trigger] values_view(self.vals@)[a] == self.vals@[a]@,
                out@.len() == i,
                forall|a: int| 0 <= a < i ==> (#[trigger] out@[a]).0@ == self@.keys[a] && out@[a].1@ == self@.vals[a],
            decreases self.keys@.len() - i,
        {
            out.push((&self.keys[i], &self.vals[i]));
            i = i + 1;
        }
        out
    }
}


/// The table `t` with the value at the key path `q` replaced by `w`: each key but the last
/// names a nested table. A path that leads nowhere leaves the table as it is.
pub open spec fn table_update(t: TableV, q: Seq<Seq<char>>, w: ValueV) -> TableV
    decreases q.len(),
{
    if q.len() == 0 {
        t
    } else {
        let a = key_index(t.keys, q[0], t.keys.len() as int);
        if a < 0 || a >= t.vals.len() {
            t
        } else if q.len() == 1 {
            TableV { vals: t.vals.update(a, w), ..t }
        } else {
            match t.vals[a] {
                ValueV::Table(inner) => TableV {
                    vals: t.vals.update(a, ValueV::Table(table_update(inner, q.skip(1), w))),
                    ..t
                },
                _ => t,
            }
        }
    }
}

impl Table {
    /// The value at position `a`, to change in place.
    fn slot(&mut self, a: usize) -> (r: &mut Value)
        requires
            a < old(self)@.vals.len(),
        ensures
            (*r)@ == old(self)@.vals[a as int],
            final(self)@ == (TableV { vals: old(self)@.vals.update(a as int, (*final(r))@), ..old(self)@ }),
    {
        proof {
            use_type_invariant(&*self);
            lemma_table_view(*self);
            lemma_values_view(self.vals@);
            assert forall|x: Value| #[trigger] values_view(self.vals@.update(a as int, x)) == values_view(self.vals@).update(a as int, x@) by {
                crate::wire::types::lemma_values_update(self.vals@, a as int, x);
                lemma_values_view(self.vals@.update(a as int, x));
            }
            assert forall|t: Table| #[trigger] t@ == (TableV { path: strings_view(t.path@), keys: strings_view(t.keys@), vals: values_view(t.vals@) }) by {
                lemma_table_view(t);
            }
        }
        &mut self.vals[a]
    }
}


impl Table {
    /// The value at the key path `key` without its last key, to change in place: the keys
    /// but the last are followed through nested tables as `get` follows them, so a path of
    /// two keys reaches the value under its first key. A path of fewer than two keys
    /// reaches nothing.
    pub fn get_mut(&mut self, key: VecDeque<String>) -> (r: Option<&mut Value>)
        ensures
            match r {
                Some(x) => {
                    &&& key@.len() >= 2
                    &&& table_get(old(self)@, strings_view(key@).drop_last()) == Some((*x)@)
                    &&& final(self)@ == table_update(old(self)@, strings_view(key@).drop_last(), (*final(x))@)
                },
                None => {
                    &&& (key@.len() < 2 || table_get(old(self)@, strings_view(key@).drop_last()) is None)
                    &&& final(self)@ == old(self)@
                },
            },
        decreases key@.len(),
    {
        let ghost path = strings_view(key@);
        let mut key = key;
        if key.len() == 0 {
            return None;
        }
        let curr = key.pop_front().unwrap();
        assert(strings_view(key@) =~= path.skip(1));
        assert(path[0] == curr@);
        proof {
            use_type_invariant(&*self);
            lemma_table_view(*self);
            lemma_values_view(self.vals@);
        }
        match self.position(curr.as_str()) {
            None => None,
            Some(a) => {
                assert(self@.vals.update(a as int, self@.vals[a as int]) =~= self@.vals);
                let val = self.slot(a);
                if key.len() == 1 {
                    assert(path.drop_last() =~= seq![curr@]);
                    Some(val)
                } else {
                    proof {
                        lemma_view_value(*val);
                        assert forall|b: Box<Table>| #[trigger] Value::Table(b)@ == ValueV::Table(b@) by {
                            lemma_view_value(Value::Table(b));
                        }
                    }
                    match val {
                        Value::Table(t2) => {
                            if key.len() > 0 {
                                assert(strings_view(key@).drop_last() =~= path.drop_last().skip(1));
                            }
                            t2.get_mut(key)
                        },
                        _ => None,
                    }
                }
            },
        }
    }
}


/// A value changed in place at a key path is what a read of that path then finds.
pub proof fn law_get_after_update(t: TableV, q: Seq<Seq<char>>, w: ValueV)
    requires
        table_get(t, q) is Some,
    ensures
        table_get(table_update(t, q, w), q) == Some(w),
    decreases q.len(),
{
    let a = key_index(t.keys, q[0], t.keys.len() as int);
    lemma_key_index(t.keys, q[0], t.keys.len() as int);
    if q.len() > 1 {
        match t.vals[a] {
            ValueV::Table(inner) => {
                law_get_after_update(inner, q.skip(1), w);
            },
            _ => {},
        }
    }
}


/// Whether every table in `v`, `v` included, sits where it is reached from `q`: the path
/// of each table is `q` followed by the keys, and the array indices in decimal, that lead
/// to it.
pub open spec fn well_placed(v: ValueV, q: Seq<Seq<char>>) -> bool
    decreases v,
{
    match v {
        ValueV::Table(t) => {
            &&& t.path == q
            &&& forall|i: int| 0 <= i < t.vals.len() ==> well_placed(#[trigger] t.vals[i], q.push(t.keys[i]))
        },
        ValueV::Array(items) => forall|i: int| 0 <= i < items.len() ==> well_placed(#[trigger] items[i], q.push(decimal(i as nat))),
        _ => true,
    }
}

/// A value moved to `q` is well placed there, and only its paths changed.
proof fn lemma_regen_child(v: ValueV, q: Seq<Seq<char>>)
    ensures
        well_placed(regen_child(v, q), q),
        without_paths(regen_child(v, q)) == without_paths(v),
    decreases v,
{
    match v {
        ValueV::Table(t) => {
            let n = t.vals.len() as int;
            let r = regen_table(t, q);
            lemma_regen_entries(t.keys, t.vals, q, n);
            assert forall|i: int| 0 <= i < r.vals.len() implies well_placed(#[trigger] r.vals[i], q.push(r.keys[i])) by {
                lemma_regen_child(t.vals[i], q.push(t.keys[i]));
            }
            lemma_without_paths_all(r.vals, n);
            lemma_without_paths_all(t.vals, n);
            assert forall|i: int| 0 <= i < n implies #[trigger] without_paths_all(r.vals, n)[i] == without_paths_all(t.vals, n)[i] by {
                lemma_regen_child(t.vals[i], q.push(t.keys[i]));
            }
            assert(without_paths_all(r.vals, n) =~= without_paths_all(t.vals, n));
        },
        ValueV::Array(items) => {
            let n = items.len() as int;
            let r = regen_items(items, q, n);
            lemma_regen_items(items, q, n);
            assert forall|i: int| 0 <= i < r.len() implies well_placed(#[trigger] r[i], q.push(decimal(i as nat))) by {
                lemma_regen_child(items[i], q.push(decimal(i as nat)));
            }
            lemma_without_paths_all(r, n);
            lemma_without_paths_all(items, n);
            assert forall|i: int| 0 <= i < n implies #[trigger] without_paths_all(r, n)[i] == without_paths_all(items, n)[i] by {
                lemma_regen_child(items[i], q.push(decimal(i as nat)));
            }
            assert(without_paths_all(r, n) =~= without_paths_all(items, n));
        },
        _ => {},
    }
}

/// Moving a table to `p` puts it at `p` and every table nested in it at `p` followed by
/// the keys, and the array indices in decimal, that lead to it; keys, the number of values
/// and everything but paths stay as they were.
pub proof fn law_regen_path(t: TableV, p: Seq<Seq<char>>)
    ensures
        well_placed(ValueV::Table(regen_table(t, p)), p),
        regen_table(t, p).keys == t.keys,
        regen_table(t, p).vals.len() == t.vals.len(),
        without_paths(ValueV::Table(regen_table(t, p))) == without_paths(ValueV::Table(t)),
{
    lemma_regen_child(ValueV::Table(t), p);
    lemma_regen_entries(t.keys, t.vals, p, t.vals.len() as int);
}


/// A value read at a key path is still read there after the table is moved, with only
/// its paths changed.
proof fn lemma_get_regen(x: TableV, p: Seq<Seq<char>>, q: Seq<Seq<char>>, w: ValueV)
    requires
        table_get(x, q) == Some(w),
    ensures
        table_get(regen_table(x, p), q) matches Some(w2) && without_paths(w2) == without_paths(w),
    decreases q.len(),
{
    lemma_lookup_regen(x, p, q[0]);
    if q.len() == 1 {
        lemma_regen_child(w, p.push(q[0]));
    } else {
        match lookup(x, q[0]) {
            Some(ValueV::Table(e)) => {
                lemma_get_regen(e, p.push(q[0]), q.skip(1), w);
            },
            _ => {},
        }
    }
}

/// The value that goes into a table has the paths of what was stored changed, and nothing
/// else.
proof fn lemma_placed(v: ValueV, parent: Seq<Seq<char>>, k: Seq<char>)
    ensures
        without_paths(placed(v, parent, k)) == without_paths(v),
{
    match v {
        ValueV::Array(items) => {
            lemma_regen_child(v, parent);
        },
        ValueV::Table(x) => {
            lemma_regen_child(v, parent.push(k));
        },
        _ => {},
    }
}

/// Read after write for any value: once a value is stored at a key path, a read of that
/// path gives it back with only the paths of its tables changed (a stored table or array
/// is moved to where it now sits), unless the store was stopped by a key on the way that
/// holds something other than a table.
pub proof fn law_get_after_set_modulo_paths(t: TableV, path: Seq<Seq<char>>, v: ValueV)
    requires
        wf_table(t),
        path.len() > 0,
        !set_blocked(t, path),
    ensures
        table_get(table_set(t, path, v), path) matches Some(w) && without_paths(w) == without_paths(v),
    decreases path.len(),
{
    let curr = path[0];
    let rest = path.skip(1);
    if rest.len() == 0 {
        lemma_lookup_insert(t, curr, placed(v, t.path, curr), curr);
        lemma_placed(v, t.path, curr);
    } else {
        let n = t.keys.len() as int;
        lemma_key_index(t.keys, curr, n);
        let a = key_index(t.keys, curr, n);
        if a >= 0 {
            match t.vals[a] {
                ValueV::Table(e) => {
                    assert(wf_value(t.vals[a]));
                    law_get_after_set_modulo_paths(e, rest, v);
                },
                _ => {},
            }
        } else {
            let np = t.path.push(curr);
            let empty = TableV { path: np, keys: Seq::empty(), vals: Seq::empty() };
            law_get_after_set_modulo_paths(empty, rest, v);
            let inner = table_set(empty, rest, v);
            let w = table_get(inner, rest)->Some_0;
            lemma_get_regen(inner, np, rest, w);
            lemma_lookup_insert(t, curr, ValueV::Table(regen_table(inner, np)), curr);
        }
    }
}

} // verus!
