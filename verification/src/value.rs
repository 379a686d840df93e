//! The value model: every kind of parsed value, and the tables that hold them.

use vstd::prelude::*;
use crate::text::strings_view;

verus! {

/// A decimal literal with a fractional part: sign, whole part, and the digits
/// after the point, most significant first.
///
/// The literal is kept exactly as written; turning it into a binary
/// floating-point number is left to the caller.
#[derive(Debug)]
pub struct DecimalLiteral {
    pub negative: bool,
    pub whole: u64,
    pub fraction: Vec<u8>,
}

/// The mathematical model of a [`DecimalLiteral`].
pub struct DecimalLiteralView {
    pub negative: bool,
    pub whole: u64,
    pub fraction: Seq<u8>,
}

impl DecimalLiteralView {
    /// There is at least one digit after the point, and each is a decimal digit.
    pub open spec fn wf(self) -> bool {
        &&& self.fraction.len() > 0
        &&& forall|i: int| 0 <= i < self.fraction.len() ==> self.fraction[i] <= 9
    }
}

impl View for DecimalLiteral {
    type V = DecimalLiteralView;

    open spec fn view(&self) -> DecimalLiteralView {
        DecimalLiteralView { negative: self.negative, whole: self.whole, fraction: self.fraction@ }
    }
}

/// A parsed value.
///
/// `NoValue` is the sentinel for "nothing here": it is what a failed parse
/// returns and never occurs inside a tree that a parse has built. `Signed`
/// holds the magnitude of a negative integer literal. In such a tree the
/// elements of an `Array` are of compatible types, and a `TableArray` is not
/// empty and holds tables only; [`ValueView::wf`] says so of the model.
#[derive(Debug)]
pub enum Value {
    NoValue,
    Boolean(bool),
    Unsigned(u64),
    Signed(u64),
    Float(DecimalLiteral),
    String(String),
    Datetime(u16, u8, u8, u8, u8, u8),
    Array(Vec<Value>),
    TableArray(Vec<Value>),
    Table(Table),
}

/// A mapping from keys to values in which no key occurs twice. The order in
/// which the keys were inserted is of no account: what a table is, is the map
/// that its model gives.
#[derive(Debug)]
pub struct Table {
    keys: Vec<String>,
    values: Vec<Value>,
}

/// The mathematical model of a [`Value`]: strings are sequences of characters,
/// arrays are sequences, and a table is a map.
pub enum ValueView {
    NoValue,
    Boolean(bool),
    Unsigned(u64),
    Signed(u64),
    Float(DecimalLiteralView),
    String(Seq<char>),
    Datetime(u16, u8, u8, u8, u8, u8),
    Array(Seq<ValueView>),
    TableArray(Seq<ValueView>),
    Table(Map<Seq<char>, ValueView>),
}

/// The mathematical model of a [`Table`].
pub type TableView = Map<Seq<char>, ValueView>;

/// Whether two values may stand in the same array: both booleans, both
/// integers of either sign, both decimals, both strings, both datetimes, or
/// both arrays (whatever the arrays hold).
pub open spec fn equiv_types(a: ValueView, b: ValueView) -> bool {
    ||| a is Boolean && b is Boolean
    ||| (a is Unsigned || a is Signed) && (b is Unsigned || b is Signed)
    ||| a is Float && b is Float
    ||| a is String && b is String
    ||| a is Datetime && b is Datetime
    ||| a is Array && b is Array
}

impl ValueView {
    /// The range of each datetime field that a parse accepts.
    pub open spec fn datetime_in_range(month: u8, day: u8, hour: u8, minute: u8, second: u8) -> bool {
        &&& 1 <= month <= 12
        &&& 1 <= day <= 31
        &&& hour <= 24
        &&& minute <= 60
        &&& second <= 60
    }

    /// A well-formed value: every array holds elements that are pairwise
    /// compatible with its first, every array of tables is non-empty and holds
    /// tables only, every table is finite, and all of this holds at any depth.
    pub open spec fn wf(self) -> bool
        decreases self,
    {
        match self {
            ValueView::Float(d) => d.wf(),
            ValueView::Datetime(_, month, day, hour, minute, second) => Self::datetime_in_range(
                month,
                day,
                hour,
                minute,
                second,
            ),
            ValueView::Array(items) => forall|i: int|
                0 <= i < items.len() ==> (#[trigger] items[i]).wf() && equiv_types(items[0], items[i]),
            ValueView::TableArray(tables) => tables.len() > 0 && forall|i: int|
                0 <= i < tables.len() ==> (#[trigger] tables[i]) is Table && tables[i].wf(),
            ValueView::Table(entries) => entries.dom().finite() && forall|k: Seq<char>|
                entries.contains_key(k) ==> (#[trigger] entries[k]) !is NoValue && entries[k].wf(),
            _ => true,
        }
    }

    /// Neither a table nor an array of tables.
    pub open spec fn is_leaf(self) -> bool {
        self !is Table && self !is TableArray
    }
}

/// The models of the values in `s`, in order.
pub open spec fn views_of(s: Seq<Value>) -> Seq<ValueView>
    decreases s,
{
    Seq::new(s.len(), |i: int| if 0 <= i < s.len() { s[i].view() } else { ValueView::NoValue })
}

impl View for Value {
    type V = ValueView;

    open spec fn view(&self) -> ValueView
        decreases self,
    {
        match self {
            Value::NoValue => ValueView::NoValue,
            Value::Boolean(b) => ValueView::Boolean(*b),
            Value::Unsigned(n) => ValueView::Unsigned(*n),
            Value::Signed(n) => ValueView::Signed(*n),
            Value::Float(d) => ValueView::Float(d@),
            Value::String(s) => ValueView::String(s@),
            Value::Datetime(y, mo, d, h, mi, s) => ValueView::Datetime(*y, *mo, *d, *h, *mi, *s),
            Value::Array(items) => ValueView::Array(views_of(items@)),
            Value::TableArray(tables) => ValueView::TableArray(views_of(tables@)),
            Value::Table(t) => ValueView::Table(t.view()),
        }
    }
}

/// The index of the first occurrence of `key` in `keys`, or `keys.len()` if
/// there is none.
pub open spec fn first_index(keys: Seq<Seq<char>>, key: Seq<char>) -> int
    decreases keys.len(),
{
    if keys.len() == 0 {
        0
    } else if keys[0] == key {
        0
    } else {
        1 + first_index(keys.drop_first(), key)
    }
}

/// The first index of a key lies within the keys or right after them; where
/// the key occurs it is an index of the key, and the key occurs at no index
/// before it.
pub proof fn lemma_first_index_bounds(keys: Seq<Seq<char>>, key: Seq<char>)
    ensures
        0 <= first_index(keys, key) <= keys.len(),
        keys.contains(key) ==> first_index(keys, key) < keys.len() && keys[first_index(keys, key)]
            == key,
        forall|j: int| 0 <= j < first_index(keys, key) ==> keys[j] != key,
    decreases keys.len(),
{
    if keys.len() > 0 && keys[0] != key {
        lemma_first_index_bounds(keys.drop_first(), key);
        if keys.contains(key) {
            let j = choose|j: int| 0 <= j < keys.len() && keys[j] == key;
            assert(keys.drop_first()[j - 1] == key);
        }
        assert forall|j: int| 0 <= j < first_index(keys, key) implies keys[j] != key by {
            if j > 0 {
                assert(keys.drop_first()[j - 1] == keys[j]);
            }
        }
    }
}

/// An index of a key before which the key does not occur is its first index.
pub proof fn lemma_first_index_is(keys: Seq<Seq<char>>, key: Seq<char>, i: int)
    requires
        0 <= i < keys.len(),
        keys[i] == key,
        forall|j: int| 0 <= j < i ==> keys[j] != key,
    ensures
        first_index(keys, key) == i,
    decreases keys.len(),
{
    if i > 0 {
        assert(keys[0] != key);
        lemma_first_index_is(keys.drop_first(), key, i - 1);
    }
}

impl View for Table {
    type V = TableView;

    closed spec fn view(&self) -> TableView
        decreases self,
    {
        Map::new(
            |k: Seq<char>| self.key_seq().contains(k),
            |k: Seq<char>|
                {
                    let i = first_index(self.key_seq(), k);
                    if 0 <= i < self.values@.len() {
                        self.values@[i].view()
                    } else {
                        ValueView::NoValue
                    }
                },
        )
    }
}

/// `<str as PartialEq>::eq` of the standard library: two string slices are
/// equal exactly when they hold the same characters.
pub assume_specification[ <str as PartialEq>::eq ](a: &str, b: &str) -> (r: bool)
    ensures
        r == (a@ == b@),
;

impl Table {
    /// The keys in the order in which they are stored.
    spec fn key_seq(&self) -> Seq<Seq<char>> {
        strings_view(self.keys@)
    }

    #[verifier::type_invariant]
    spec fn inv(&self) -> bool {
        &&& self.keys@.len() == self.values@.len()
        &&& forall|i: int, j: int|
            0 <= i < j < self.keys@.len() ==> self.keys@[i]@ != self.keys@[j]@
    }

    /// A table holds finitely many keys.
    pub proof fn lemma_finite(&self)
        ensures
            self@.dom().finite(),
    {
        let keys = self.key_seq();
        vstd::seq_lib::seq_to_set_is_finite(keys);
        assert(self@.dom() =~= keys.to_set());
    }

    /// The empty table.
    pub fn new() -> (t: Table)
        ensures
            t@ == Map::<Seq<char>, ValueView>::empty(),
    {
        let t = Table { keys: Vec::new(), values: Vec::new() };
        assert(t@ =~= Map::<Seq<char>, ValueView>::empty());
        t
    }

    /// The number of keys.
    pub fn len(&self) -> (n: usize)
        ensures
            self@.dom().finite(),
            n == self@.len(),
    {
        proof {
            use_type_invariant(self);
            let keys = self.key_seq();
            vstd::seq_lib::seq_to_set_is_finite(keys);
            assert(self@.dom() =~= keys.to_set());
            assert(keys.no_duplicates());
            keys.unique_seq_to_set();
        }
        self.keys.len()
    }

    /// The keys of the table, each once, in no order that the contract fixes.
    pub fn keys(&self) -> (r: &Vec<String>)
        ensures
            strings_view(r@).no_duplicates(),
            strings_view(r@).to_set() == self@.dom(),
    {
        proof {
            use_type_invariant(self);
            assert(self@.dom() =~= self.key_seq().to_set());
        }
        &self.keys
    }

    /// The position of `key` among the stored keys.
    fn index_of(&self, key: &str) -> (r: Option<usize>)
        ensures
            match r {
                Some(i) => i < self.keys@.len() && first_index(self.key_seq(), key@) == i
                    && self.key_seq()[i as int] == key@,
                None => !self.key_seq().contains(key@),
            },
    {
        let mut i: usize = 0;
        while i < self.keys.len()
            invariant
                i <= self.keys.len(),
                forall|j: int| 0 <= j < i ==> self.keys@[j]@ != key@,
            decreases self.keys.len() - i,
        {
            if self.keys[i].as_str().eq(key) {
                proof {
                    lemma_first_index_is(self.key_seq(), key@, i as int);
                }
                return Some(i);
            }
            i += 1;
        }
        proof {
            assert forall|k: Seq<char>| self.key_seq().contains(k) implies k != key@ by {
                let j = choose|j: int| 0 <= j < self.key_seq().len() && self.key_seq()[j] == k;
                assert(self.keys@[j]@ == k);
            }
        }
        None
    }

    /// Whether `key` is in the table.
    pub fn contains_key(&self, key: &str) -> (b: bool)
        ensures
            b == self@.contains_key(key@),
    {
        self.index_of(key).is_some()
    }

    /// The value stored under `key`, if any.
    pub fn get(&self, key: &str) -> (r: Option<&Value>)
        ensures
            match r {
                Some(v) => self@.contains_key(key@) && v@ == self@[key@],
                None => !self@.contains_key(key@),
            },
    {
        proof {
            use_type_invariant(self);
        }
        match self.index_of(key) {
            Some(i) => Some(&self.values[i]),
            None => None,
        }
    }

    /// The value stored under `key`, if any, for changing it in place. The
    /// table afterwards differs from the table before only in that value.
    pub fn get_mut(&mut self, key: &str) -> (r: Option<&mut Value>)
        ensures
            match r {
                Some(v) => old(self)@.contains_key(key@) && (*v)@ == old(self)@[key@]
                    && final(self)@ == old(self)@.insert(key@, (*final(v))@),
                None => !old(self)@.contains_key(key@) && final(self)@ == old(self)@,
            },
    {
        proof {
            use_type_invariant(&*self);
        }
        match self.index_of(key) {
            Some(i) => {
                proof {
                    let before = *self;
                    assert forall|t: Table|
                        t.keys == before.keys && #[trigger] t.values@ == before.values@.update(
                            i as int,
                            t.values@[i as int],
                        ) implies t@ == before@.insert(key@, t.values@[i as int]@) by {
                        assert(t.key_seq() =~= before.key_seq());
                        assert forall|k: Seq<char>| t@.contains_key(k) implies #[trigger] t@[k]
                            == before@.insert(key@, t.values@[i as int]@)[k] by {
                            let j = first_index(t.key_seq(), k);
                            lemma_first_index_bounds(t.key_seq(), k);
                            if j != i {
                                assert(t.values@[j] == before.values@[j]);
                            }
                        }
                        assert(t@ =~= before@.insert(key@, t.values@[i as int]@));
                    }
                }
                Some(&mut self.values[i])
            },
            None => None,
        }
    }

    /// Stores `val` under `key` unless the key is already there. Returns
    /// whether the key was new; an existing entry is never overwritten.
    pub fn insert(&mut self, key: String, val: Value) -> (fresh: bool)
        ensures
            fresh == !old(self)@.contains_key(key@),
            final(self)@ == if fresh {
                old(self)@.insert(key@, val@)
            } else {
                old(self)@
            },
    {
        proof {
            use_type_invariant(&*self);
        }
        if self.index_of(key.as_str()).is_some() {
            return false;
        }
        let ghost before = *self;
        let ghost n = self.keys@.len() as int;
        let mut taken = Table::new();
        std::mem::swap(self, &mut taken);
        let Table { keys: mut keys, values: mut values } = taken;
        keys.push(key);
        values.push(val);
        proof {
            assert forall|i: int| 0 <= i < n implies keys@[i]@ != key@ by {
                assert(before.key_seq()[i] == keys@[i]@);
            }
        }
        *self = Table { keys, values };
        proof {
            let after = *self;
            assert(after.key_seq() =~= before.key_seq().push(key@));
            assert forall|k: Seq<char>| after@.contains_key(k) <==> before@.insert(
                key@,
                val@,
            ).contains_key(k) by {
                if before.key_seq().contains(k) {
                    let j = choose|j: int| 0 <= j < before.key_seq().len() && before.key_seq()[j] == k;
                    assert(after.key_seq()[j] == k);
                }
                if k == key@ {
                    assert(after.key_seq()[n] == k);
                }
            }
            assert forall|k: Seq<char>| after@.contains_key(k) implies #[trigger] after@[k]
                == before@.insert(key@, val@)[k] by {
                lemma_first_index_bounds(after.key_seq(), k);
                lemma_first_index_bounds(before.key_seq(), k);
                let j = first_index(after.key_seq(), k);
                if k == key@ {
                    assert(j == n);
                } else {
                    assert(j < n);
                    lemma_first_index_is(before.key_seq(), k, j);
                    assert(after.values@[j] == before.values@[j]);
                }
            }
            assert(after@ =~= before@.insert(key@, val@));
        }
        true
    }
}

/// Whether `v1` and `v2` may stand in the same array.
pub fn have_equiv_types(v1: &Value, v2: &Value) -> (b: bool)
    ensures
        b == equiv_types(v1@, v2@),
{
    match (v1, v2) {
        (Value::Boolean(_), Value::Boolean(_)) => true,
        (Value::Unsigned(_), Value::Unsigned(_)) => true,
        (Value::Unsigned(_), Value::Signed(_)) => true,
        (Value::Signed(_), Value::Unsigned(_)) => true,
        (Value::Signed(_), Value::Signed(_)) => true,
        (Value::Float(_), Value::Float(_)) => true,
        (Value::String(_), Value::String(_)) => true,
        (Value::Datetime(..), Value::Datetime(..)) => true,
        (Value::Array(_), Value::Array(_)) => true,
        _ => false,
    }
}

/// The 64-bit pattern `n` read as a signed number in two's complement.
pub open spec fn as_signed(n: u64) -> i64 {
    if n <= i64::MAX {
        n as i64
    } else {
        (n - 0x1_0000_0000_0000_0000) as i64
    }
}

/// `-x`, except that the least `i64`, which has no negative, stays as it is.
pub open spec fn wrapping_negated(x: i64) -> i64 {
    if x == i64::MIN {
        x
    } else {
        (-x) as i64
    }
}

impl ValueView {
    /// The integer that an integer value stands for: the stored number of an
    /// unsigned value, the negated magnitude of a signed one, either within
    /// 64 bits in two's complement.
    pub open spec fn int_value(self) -> Option<i64> {
        match self {
            ValueView::Unsigned(n) => Some(as_signed(n)),
            ValueView::Signed(n) => Some(wrapping_negated(as_signed(n))),
            _ => None,
        }
    }
}

impl Value {
    /// The boolean, if this is one.
    pub fn get_bool(&self) -> (r: Option<bool>)
        ensures
            r == (match self@ {
                ValueView::Boolean(b) => Some(b),
                _ => None,
            }),
    {
        match self {
            Value::Boolean(b) => Some(*b),
            _ => None,
        }
    }

    /// The integer, if this is one of either sign.
    pub fn get_int(&self) -> (r: Option<i64>)
        ensures
            r == self@.int_value(),
    {
        match self {
            Value::Unsigned(n) => Some(reinterpret(*n)),
            Value::Signed(n) => {
                let x = reinterpret(*n);
                if x == i64::MIN {
                    Some(x)
                } else {
                    Some(-x)
                }
            },
            _ => None,
        }
    }

    /// The decimal literal, if this is one.
    pub fn get_float(&self) -> (r: Option<&DecimalLiteral>)
        ensures
            match r {
                Some(d) => self@ == ValueView::Float(d@),
                None => self@ !is Float,
            },
    {
        match self {
            Value::Float(d) => Some(d),
            _ => None,
        }
    }

    /// The string, if this is one.
    pub fn get_str(&self) -> (r: Option<&String>)
        ensures
            match r {
                Some(s) => self@ == ValueView::String(s@),
                None => self@ !is String,
            },
    {
        match self {
            Value::String(s) => Some(s),
            _ => None,
        }
    }

    /// The elements, if this is an array.
    pub fn get_vec(&self) -> (r: Option<&Vec<Value>>)
        ensures
            match r {
                Some(items) => self@ == ValueView::Array(views_of(items@)),
                None => self@ !is Array,
            },
    {
        match self {
            Value::Array(items) => Some(items),
            _ => None,
        }
    }

    /// The table, if this is one.
    pub fn get_table(&self) -> (r: Option<&Table>)
        ensures
            match r {
                Some(t) => self@ == ValueView::Table(t@),
                None => self@ !is Table,
            },
    {
        match self {
            Value::Table(t) => Some(t),
            _ => None,
        }
    }

    /// The tables, if this is an array of tables.
    pub fn get_table_array(&self) -> (r: Option<&Vec<Value>>)
        ensures
            match r {
                Some(tables) => self@ == ValueView::TableArray(views_of(tables@)),
                None => self@ !is TableArray,
            },
    {
        match self {
            Value::TableArray(tables) => Some(tables),
            _ => None,
        }
    }
}

/// Reads the 64-bit pattern `n` as a signed number.
fn reinterpret(n: u64) -> (x: i64)
    ensures
        x == as_signed(n),
{
    if n <= 0x7fff_ffff_ffff_ffff {
        n as i64
    } else {
        ((n - 0x8000_0000_0000_0000) as i64) + i64::MIN
    }
}

impl Clone for DecimalLiteral {
    /// A copy with the same sign, whole part and fraction digits.
    fn clone(&self) -> (r: Self)
        ensures
            r@ == self@,
    {
        let mut fraction: Vec<u8> = Vec::new();
        let mut i: usize = 0;
        while i < self.fraction.len()
            invariant
                i <= self.fraction@.len(),
                fraction@ == self.fraction@.take(i as int),
            decreases self.fraction@.len() - i,
        {
            fraction.push(self.fraction[i]);
            assert(self.fraction@.take(i + 1) =~= self.fraction@.take(i as int).push(
                self.fraction@[i as int],
            ));
            i += 1;
        }
        assert(self.fraction@.take(i as int) =~= self.fraction@);
        DecimalLiteral { negative: self.negative, whole: self.whole, fraction }
    }
}

/// Copies of the values in `items`, in order.
fn clone_values(items: &Vec<Value>) -> (r: Vec<Value>)
    ensures
        views_of(r@) == views_of(items@),
    decreases items, 0nat,
{
    let mut copies: Vec<Value> = Vec::new();
    let mut i: usize = 0;
    while i < items.len()
        invariant
            i <= items@.len(),
            copies@.len() == i,
            forall|k: int| 0 <= k < i ==> (#[trigger] copies@[k])@ == items@[k]@,
        decreases items@.len() - i,
    {
        let copy = items[i].clone();
        copies.push(copy);
        i += 1;
    }
    assert(views_of(copies@) =~= views_of(items@));
    copies
}

impl Clone for Table {
    /// A table with the same keys and copies of their values.
    fn clone(&self) -> (r: Self)
        ensures
            r@ == self@,
        decreases self, 1nat,
    {
        proof {
            use_type_invariant(self);
        }
        let mut keys: Vec<String> = Vec::new();
        let mut i: usize = 0;
        while i < self.keys.len()
            invariant
                i <= self.keys@.len(),
                keys@.len() == i,
                strings_view(keys@) == strings_view(self.keys@).take(i as int),
            decreases self.keys@.len() - i,
        {
            let key = self.keys[i].clone();
            proof {
                let before = strings_view(keys@);
                let after = strings_view(keys@.push(key));
                assert(strings_view(self.keys@)[i as int] == key@);
                assert forall|k: int| 0 <= k < after.len() implies after[k] == strings_view(
                    self.keys@,
                ).take(i + 1)[k] by {
                    if k < i {
                        assert(after[k] == before[k]);
                    }
                }
                assert(after =~= strings_view(self.keys@).take(i + 1));
            }
            keys.push(key);
            i += 1;
        }
        assert(strings_view(self.keys@).take(i as int) =~= strings_view(self.keys@));
        let values = clone_values(&self.values);
        proof {
            assert(views_of(values@).len() == values@.len());
            assert(views_of(self.values@).len() == self.values@.len());
            assert forall|a: int, b: int| 0 <= a < b < keys@.len() implies keys@[a]@ != keys@[b]@ by {
                assert(strings_view(keys@)[a] == strings_view(self.keys@)[a]);
                assert(strings_view(keys@)[b] == strings_view(self.keys@)[b]);
            }
        }
        let r = Table { keys, values };
        proof {
            assert(r.key_seq() == self.key_seq());
            assert forall|k: Seq<char>| r@.contains_key(k) implies #[trigger] r@[k] == self@[k] by {
                lemma_first_index_bounds(r.key_seq(), k);
                let j = first_index(r.key_seq(), k);
                assert(views_of(values@)[j] == views_of(self.values@)[j]);
            }
            assert(r@ =~= self@);
        }
        r
    }
}

impl Clone for Value {
    /// A copy of the whole value, at any depth.
    fn clone(&self) -> (r: Self)
        ensures
            r@ == self@,
        decreases self, 2nat,
    {
        match self {
            Value::NoValue => Value::NoValue,
            Value::Boolean(b) => Value::Boolean(*b),
            Value::Unsigned(n) => Value::Unsigned(*n),
            Value::Signed(n) => Value::Signed(*n),
            Value::Float(d) => Value::Float(d.clone()),
            Value::String(s) => Value::String(s.clone()),
            Value::Datetime(y, mo, d, h, mi, s) => Value::Datetime(*y, *mo, *d, *h, *mi, *s),
            Value::Array(items) => Value::Array(clone_values(items)),
            Value::TableArray(tables) => Value::TableArray(clone_values(tables)),
            Value::Table(t) => Value::Table(t.clone()),
        }
    }
}

} // verus!
