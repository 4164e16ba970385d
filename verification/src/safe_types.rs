//! The forgiving collections: a `SafeVector` whose reads past the end give
//! `Bool(false)` and whose writes there are refused with a message, and a
//! `SafeDict` whose lookups report their outcome as an `OpStatus`.
use vstd::prelude::*;
use crate::base::OpStatus;
use crate::value::{
    Value, ValueV, Dict, value_views, entries_view, has_key, first_key_at, last_key_at, zip_views,
    zip_values,
};

verus! {

/// A growable array of values whose reads never fail.
pub struct SafeVector {
    inner: crate::value::SafeVector,
}

impl View for SafeVector {
    type V = Seq<ValueV>;

    closed spec fn view(&self) -> Seq<ValueV> {
        self.inner@
    }
}

impl SafeVector {
    /// An empty vector.
    pub fn new() -> (r: SafeVector)
        ensures
            r@ == Seq::<ValueV>::empty(),
    {
        SafeVector { inner: crate::value::SafeVector::new() }
    }

    /// The number of values.
    pub fn len(&self) -> (r: usize)
        ensures
            r == self@.len(),
    {
        self.inner.len()
    }

    /// Whether there are no values.
    pub fn is_empty(&self) -> (r: bool)
        ensures
            r == (self@.len() == 0),
    {
        self.inner.is_empty()
    }

    /// Removes every value.
    pub fn clear(&mut self)
        ensures
            final(self)@ == Seq::<ValueV>::empty(),
    {
        self.inner.clear();
    }

    /// A copy of the value at `index`, or `Bool(false)` past the end.
    pub fn get_value(&self, index: u64) -> (r: Value)
        ensures
            index < self@.len() ==> r@ == self@[index as int],
            index >= self@.len() ==> r@ == ValueV::Bool(false),
    {
        match self.inner.get_value(index) {
            Ok(v) => v,
            Err(_) => Value::Bool(false),
        }
    }

    /// Replaces the value at `index`; past the end it changes nothing and
    /// answers with a message.
    pub fn set_value(&mut self, index: u64, val: Value) -> (r: Result<(), &'static str>)
        ensures
            index < old(self)@.len() ==> r is Ok && final(self)@ == old(self)@.update(
                index as int,
                val@,
            ),
            index >= old(self)@.len() ==> r is Err && final(self)@ == old(self)@,
    {
        match self.inner.set_value(index, val) {
            Ok(()) => Ok(()),
            Err(_) => Err("Index out of SafeVector limit"),
        }
    }

    /// Appends a value.
    pub fn push(&mut self, val: Value)
        ensures
            final(self)@ == old(self)@.push(val@),
    {
        self.inner.push(val);
    }

    /// The value at `index`, which must be in range.
    pub fn index(&self, index: usize) -> (r: &Value)
        requires
            index < self@.len(),
        ensures
            r@ == self@[index as int],
    {
        self.inner.index(index)
    }

    /// The value at `index`, which must be in range, for writing.
    pub fn index_mut(&mut self, index: usize) -> (r: &mut Value)
        requires
            index < old(self)@.len(),
        ensures
            (*r)@ == old(self)@[index as int],
            final(self)@ == old(self)@.update(index as int, (*final(r))@),
    {
        self.inner.index_mut(index)
    }

    /// A vector holding the given values.
    pub fn from_vec(v: Vec<Value>) -> (r: SafeVector)
        ensures
            r@ == value_views(v@),
    {
        SafeVector { inner: crate::value::SafeVector::from_vec(v) }
    }

    /// Appends the given values.
    pub fn extend(&mut self, values: Vec<Value>)
        ensures
            final(self)@ == old(self)@ + value_views(values@),
    {
        self.inner.extend(values);
    }

    /// `self` followed by `rhs`.
    pub fn concat(self, rhs: SafeVector) -> (r: SafeVector)
        ensures
            r@ == self@ + rhs@,
    {
        SafeVector { inner: self.inner.concat(rhs.inner) }
    }

    /// The values, as a slice.
    pub fn as_slice(&self) -> (r: &[Value])
        ensures
            value_views(r@) == self@,
    {
        self.inner.as_slice()
    }

    /// The values, as a vector.
    pub fn into_vec(self) -> (r: Vec<Value>)
        ensures
            value_views(r@) == self@,
    {
        self.inner.into_vec()
    }
}

/// A value with the status of the lookup that produced it.
pub struct ValueRes {
    pub value: Value,
    pub status: OpStatus,
}

/// A dictionary from values to values whose lookups report a status.
pub struct SafeDict {
    inner: Dict,
}

impl View for SafeDict {
    type V = Seq<(ValueV, ValueV)>;

    closed spec fn view(&self) -> Seq<(ValueV, ValueV)> {
        self.inner@
    }
}

impl SafeDict {
    /// An empty dictionary.
    pub fn new() -> (r: SafeDict)
        ensures
            r@ == Seq::<(ValueV, ValueV)>::empty(),
    {
        SafeDict { inner: Dict::new() }
    }

    /// The number of entries.
    pub fn len(&self) -> (r: usize)
        ensures
            r == self@.len(),
    {
        self.inner.len()
    }

    /// Whether there are no entries.
    pub fn is_empty(&self) -> (r: bool)
        ensures
            r == (self@.len() == 0),
    {
        self.inner.is_empty()
    }

    /// Removes every entry.
    pub fn clear(&mut self)
        ensures
            final(self)@ == Seq::<(ValueV, ValueV)>::empty(),
    {
        self.inner.clear();
    }

    /// Appends the entry `key: value`.
    pub fn add(&mut self, key: Value, value: Value)
        ensures
            final(self)@ == old(self)@.push((key@, value@)),
    {
        self.inner.add(key, value);
    }

    /// The value of the first entry with key `key` and `Success`, or
    /// `Bool(false)` and `IndexError`.
    pub fn get(&self, key: &Value) -> (r: ValueRes)
        ensures
            r.status == OpStatus::Success ==> exists|i: int|
                first_key_at(self@, i, key@) && r.value@ == self@[i].1,
            r.status != OpStatus::Success ==> r.status == OpStatus::IndexError && r.value@
                == ValueV::Bool(false) && !has_key(self@, key@),
    {
        match self.inner.get(key) {
            Ok(v) => {
                proof {
                    let i = choose|i: int| first_key_at(self.inner@, i, key@) && v@ == self.inner@[i].1;
                    assert(first_key_at(self@, i, key@) && v@ == self@[i].1);
                }
                ValueRes { value: v, status: OpStatus::Success }
            },
            Err(_) => ValueRes { value: Value::Bool(false), status: OpStatus::IndexError },
        }
    }

    /// Replaces the value of the first entry with key `key` (`Success`), or
    /// changes nothing (`IndexError`).
    pub fn set(&mut self, key: &Value, value: Value) -> (r: OpStatus)
        ensures
            r == OpStatus::Success ==> exists|i: int|
                first_key_at(old(self)@, i, key@) && final(self)@ == old(self)@.update(
                    i,
                    (old(self)@[i].0, value@),
                ),
            r != OpStatus::Success ==> r == OpStatus::IndexError && !has_key(old(self)@, key@)
                && final(self)@ == old(self)@,
    {
        let ghost vv = value@;
        let ghost prev = self.inner@;
        match self.inner.set(key, value) {
            Ok(()) => {
                proof {
                    let i = choose|i: int|
                        first_key_at(prev, i, key@) && self.inner@ == prev.update(i, (prev[i].0, vv));
                    assert(first_key_at(old(self)@, i, key@) && final(self)@ == old(self)@.update(
                        i,
                        (old(self)@[i].0, vv),
                    ));
                }
                OpStatus::Success
            },
            Err(_) => OpStatus::IndexError,
        }
    }

    /// Whether some entry has key `key`.
    pub fn contains_key(&self, key: &Value) -> (r: bool)
        ensures
            r == has_key(self@, key@),
    {
        self.inner.contains_key(key)
    }

    /// Removes the last entry with key `key` and gives its value, if any.
    pub fn remove(&mut self, key: &Value) -> (r: Option<Value>)
        ensures
            match r {
                Some(v) => exists|i: int|
                    last_key_at(old(self)@, i, key@) && v@ == old(self)@[i].1 && final(self)@ == old(
                        self,
                    )@.remove(i),
                None => !has_key(old(self)@, key@) && final(self)@ == old(self)@,
            },
    {
        let ghost prev = self.inner@;
        match self.inner.remove(key) {
            Ok(v) => {
                proof {
                    let i = choose|i: int|
                        last_key_at(prev, i, key@) && v@ == prev[i].1 && self.inner@ == prev.remove(i);
                    assert(last_key_at(old(self)@, i, key@) && v@ == old(self)@[i].1 && final(self)@
                        == old(self)@.remove(i));
                }
                Some(v)
            },
            Err(_) => None,
        }
    }

    /// The keys, in order.
    pub fn keys(&self) -> (r: Vec<&Value>)
        ensures
            r@.len() == self@.len(),
            forall|i: int| 0 <= i < r@.len() ==> r@[i]@ == self@[i].0,
    {
        self.inner.keys()
    }

    /// The values, in order.
    pub fn values(&self) -> (r: Vec<&Value>)
        ensures
            r@.len() == self@.len(),
            forall|i: int| 0 <= i < r@.len() ==> r@[i]@ == self@[i].1,
    {
        self.inner.values()
    }

    /// The entries, in order.
    pub fn iter(&self) -> (r: &[(Value, Value)])
        ensures
            entries_view(r@) == self@,
    {
        self.inner.iter()
    }

    /// Replaces every entry by the pairs of `new_keys` and `new_values`;
    /// vectors of different lengths are refused and change nothing.
    pub fn replace_contents(&mut self, new_keys: Vec<Value>, new_values: Vec<Value>) -> (r: Result<
        (),
        &'static str,
    >)
        ensures
            new_keys.len() == new_values.len() ==> r is Ok && final(self)@ == zip_views(
                new_keys@,
                new_values@,
            ),
            new_keys.len() != new_values.len() ==> r is Err && final(self)@ == old(self)@,
    {
        self.inner.replace_contents(new_keys, new_values)
    }

    /// Replaces the keys, keeping the values; there must be one key per entry.
    pub fn set_keys(&mut self, new_keys: Vec<Value>)
        requires
            new_keys.len() == old(self)@.len(),
        ensures
            final(self)@.len() == old(self)@.len(),
            forall|i: int|
                0 <= i < old(self)@.len() ==> #[trigger] final(self)@[i] == (new_keys@[i]@, old(
                    self,
                )@[i].1),
    {
        self.inner.set_keys(new_keys);
    }

    /// Replaces the values, keeping the keys; there must be one value per entry.
    pub fn set_values(&mut self, new_values: Vec<Value>)
        requires
            new_values.len() == old(self)@.len(),
        ensures
            final(self)@.len() == old(self)@.len(),
            forall|i: int|
                0 <= i < old(self)@.len() ==> #[trigger] final(self)@[i] == (old(self)@[i].0,
                new_values@[i]@),
    {
        self.inner.set_values(new_values);
    }

    /// A dictionary of the given pairs, in order.
    pub fn from_pairs(pairs: Vec<(Value, Value)>) -> (r: SafeDict)
        ensures
            r@ == entries_view(pairs@),
    {
        let mut r = SafeDict::new();
        r.extend(pairs);
        assert(r@ =~= entries_view(pairs@));
        r
    }

    /// Appends the given pairs, in order.
    pub fn extend(&mut self, pairs: Vec<(Value, Value)>)
        ensures
            final(self)@ == old(self)@ + entries_view(pairs@),
    {
        let ghost prev = self@;
        let ghost ps = entries_view(pairs@);
        assert(ps.len() == pairs.len());
        let mut rest = pairs;
        let mut k: usize = 0;
        while rest.len() > 0
            invariant
                entries_view(rest@) == ps.skip(k as int),
                k <= ps.len(),
                ps.len() <= usize::MAX,
                self@ == prev + ps.take(k as int),
            decreases rest.len(),
        {
            let ghost before = rest@;
            let (key, value) = rest.remove(0);
            assert(entries_view(before)[0] == (key@, value@));
            assert(entries_view(rest@) =~= entries_view(before).skip(1));
            assert(ps.skip(k as int).skip(1) =~= ps.skip(k + 1));
            assert(ps[k as int] == ps.skip(k as int)[0]);
            self.add(key, value);
            k += 1;
            assert(self@ =~= prev + ps.take(k as int));
        }
        assert(ps.take(ps.len() as int) =~= ps);
        assert(k == ps.len()) by {
            assert(ps.skip(k as int).len() == 0);
        }
    }

    /// The entries, as a vector of pairs.
    pub fn into_pairs(self) -> (r: Vec<(Value, Value)>)
        ensures
            entries_view(r@) == self@,
    {
        let mut r: Vec<(Value, Value)> = Vec::new();
        let d = self.inner;
        let n = d.len();
        let ks = d.keys();
        let vs = d.values();
        let mut i: usize = 0;
        while i < n
            invariant
                i <= n,
                n == d@.len(),
                ks@.len() == n,
                vs@.len() == n,
                forall|j: int| 0 <= j < n ==> ks@[j]@ == d@[j].0,
                forall|j: int| 0 <= j < n ==> vs@[j]@ == d@[j].1,
                entries_view(r@) == d@.take(i as int),
            decreases n - i,
        {
            let kc = ks[i].clone();
            let vc = vs[i].clone();
            let ghost prev = r@;
            assert((kc@, vc@) == d@[i as int]);
            r.push((kc, vc));
            assert(entries_view(r@) =~= entries_view(prev).push(d@[i as int]));
            i += 1;
            assert(entries_view(r@) =~= d@.take(i as int));
        }
        assert(d@.take(n as int) =~= d@);
        r
    }
}

} // verus!
