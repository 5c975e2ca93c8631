//! Bencode values, and the mathematical values that they stand for.

use vstd::prelude::*;

verus! {

/// A bencode value as mathematics sees it. A dictionary is the sequence of
/// its entries in ascending order of their keys.
pub enum BValue {
    Bytes(Seq<u8>),
    Integer(int),
    List(Seq<BValue>),
    Dict(Seq<(Seq<u8>, BValue)>),
}

/// Whether `a` comes before `b` when byte strings are compared byte by byte,
/// a proper prefix coming before what it is a prefix of.
pub open spec fn bytes_lt(a: Seq<u8>, b: Seq<u8>) -> bool
    decreases a.len(),
{
    if b.len() == 0 {
        false
    } else if a.len() == 0 {
        true
    } else if a[0] != b[0] {
        a[0] < b[0]
    } else {
        bytes_lt(a.skip(1), b.skip(1))
    }
}

/// No byte string comes before itself.
pub proof fn lemma_bytes_lt_irreflexive(a: Seq<u8>)
    ensures
        !bytes_lt(a, a),
    decreases a.len(),
{
    if a.len() > 0 {
        lemma_bytes_lt_irreflexive(a.skip(1));
    }
}

/// What comes before something that comes before `c` comes before `c`.
pub proof fn lemma_bytes_lt_transitive(a: Seq<u8>, b: Seq<u8>, c: Seq<u8>)
    requires
        bytes_lt(a, b),
        bytes_lt(b, c),
    ensures
        bytes_lt(a, c),
    decreases a.len(),
{
    if a.len() > 0 && a[0] == b[0] && b[0] == c[0] {
        lemma_bytes_lt_transitive(a.skip(1), b.skip(1), c.skip(1));
    }
}

/// Of two different byte strings one comes before the other.
pub proof fn lemma_bytes_lt_connected(a: Seq<u8>, b: Seq<u8>)
    ensures
        a == b || bytes_lt(a, b) || bytes_lt(b, a),
    decreases a.len(),
{
    if a.len() == 0 || b.len() == 0 {
        if a.len() == 0 && b.len() == 0 {
            assert(a =~= b);
        }
    } else if a[0] == b[0] {
        lemma_bytes_lt_connected(a.skip(1), b.skip(1));
        if a.skip(1) == b.skip(1) {
            assert(a =~= seq![a[0]] + a.skip(1));
            assert(b =~= seq![b[0]] + b.skip(1));
        }
    }
}

/// Whether the keys of `entries` ascend strictly from each entry to the next.
pub open spec fn keys_ascend(entries: Seq<(Seq<u8>, BValue)>) -> bool {
    forall|i: int, j: int|
        0 <= i < j < entries.len() ==> bytes_lt(#[trigger] entries[i].0, #[trigger] entries[j].0)
}

/// The value stored under `key`, if `entries` has one.
pub open spec fn dict_get(entries: Seq<(Seq<u8>, BValue)>, key: Seq<u8>) -> Option<BValue>
    decreases entries.len(),
{
    if entries.len() == 0 {
        None
    } else if entries.last().0 == key {
        Some(entries.last().1)
    } else {
        dict_get(entries.drop_last(), key)
    }
}

/// `entries` with `value` stored under `key`: in place of the entry that had
/// that key, or else at the place that keeps the keys ascending.
pub open spec fn dict_insert(entries: Seq<(Seq<u8>, BValue)>, key: Seq<u8>, value: BValue) -> Seq<
    (Seq<u8>, BValue),
>
    decreases entries.len(),
{
    if entries.len() == 0 {
        seq![(key, value)]
    } else if bytes_lt(entries.last().0, key) {
        entries.push((key, value))
    } else if entries.last().0 == key {
        entries.drop_last().push((key, value))
    } else {
        dict_insert(entries.drop_last(), key, value).push(entries.last())
    }
}

impl BValue {
    /// A value that a program can hold: every integer fits 128 bits, every
    /// length fits the machine, and the keys of every dictionary ascend.
    pub open spec fn wf(self) -> bool
        decreases self,
    {
        match self {
            BValue::Bytes(bytes) => bytes.len() <= usize::MAX,
            BValue::Integer(n) => i128::MIN <= n <= i128::MAX,
            BValue::List(items) => items.len() <= usize::MAX && forall|i: int|
                0 <= i < items.len() ==> (#[trigger] items[i]).wf(),
            BValue::Dict(entries) => entries.len() <= usize::MAX && keys_ascend(entries)
                && forall|i: int|
                0 <= i < entries.len() ==> (#[trigger] entries[i]).0.len() <= usize::MAX
                    && entries[i].1.wf(),
        }
    }
}

/// Inserting under a key that is below `bound` into entries whose keys are
/// all below `bound` leaves every key below `bound`.
pub proof fn lemma_dict_insert_bounded(
    entries: Seq<(Seq<u8>, BValue)>,
    key: Seq<u8>,
    value: BValue,
    bound: Seq<u8>,
)
    requires
        bytes_lt(key, bound),
        forall|i: int| 0 <= i < entries.len() ==> bytes_lt(#[trigger] entries[i].0, bound),
    ensures
        forall|i: int|
            0 <= i < dict_insert(entries, key, value).len() ==> bytes_lt(
                #[trigger] dict_insert(entries, key, value)[i].0,
                bound,
            ),
    decreases entries.len(),
{
    let inserted = dict_insert(entries, key, value);
    if entries.len() == 0 {
    } else if bytes_lt(entries.last().0, key) {
        assert forall|i: int| 0 <= i < inserted.len() implies bytes_lt(
            #[trigger] inserted[i].0,
            bound,
        ) by {
            if i < entries.len() {
                assert(inserted[i] == entries[i]);
            }
        }
    } else if entries.last().0 == key {
        assert forall|i: int| 0 <= i < inserted.len() implies bytes_lt(
            #[trigger] inserted[i].0,
            bound,
        ) by {
            if i < entries.len() - 1 {
                assert(inserted[i] == entries[i]);
            }
        }
    } else {
        let front = dict_insert(entries.drop_last(), key, value);
        lemma_dict_insert_bounded(entries.drop_last(), key, value, bound);
        assert forall|i: int| 0 <= i < inserted.len() implies bytes_lt(
            #[trigger] inserted[i].0,
            bound,
        ) by {
            if i < front.len() {
                assert(inserted[i] == front[i]);
            } else {
                assert(inserted[i] == entries[entries.len() - 1]);
            }
        }
    }
}

/// Inserting into entries whose keys ascend leaves the keys ascending.
pub proof fn lemma_dict_insert_ascends(entries: Seq<(Seq<u8>, BValue)>, key: Seq<u8>, value: BValue)
    requires
        keys_ascend(entries),
    ensures
        keys_ascend(dict_insert(entries, key, value)),
    decreases entries.len(),
{
    if entries.len() > 0 {
        let last = entries.last();
        let front = entries.drop_last();
        if bytes_lt(last.0, key) {
            assert forall|i: int, j: int| 0 <= i < j < entries.len() + 1 implies bytes_lt(
                #[trigger] entries.push((key, value))[i].0,
                #[trigger] entries.push((key, value))[j].0,
            ) by {
                if j == entries.len() && i < entries.len() - 1 {
                    lemma_bytes_lt_transitive(entries[i].0, last.0, key);
                }
            }
        } else if last.0 == key {
        } else {
            lemma_bytes_lt_connected(last.0, key);
            lemma_dict_insert_ascends(front, key, value);
            lemma_dict_insert_bounded(front, key, value, last.0);
        }
    }
}

/// Where an entry goes: behind the last entry with a smaller key, when no
/// entry has the key itself.
pub proof fn lemma_dict_insert_at(
    entries: Seq<(Seq<u8>, BValue)>,
    key: Seq<u8>,
    value: BValue,
    at: int,
)
    requires
        0 <= at <= entries.len(),
        at > 0 ==> bytes_lt(entries[at - 1].0, key),
        forall|j: int|
            at <= j < entries.len() ==> !bytes_lt(#[trigger] entries[j].0, key) && entries[j].0
                != key,
    ensures
        dict_insert(entries, key, value) == entries.insert(at, (key, value)),
    decreases entries.len() - at,
{
    if at == entries.len() {
        assert(entries.insert(at, (key, value)) =~= entries.push((key, value)));
    } else {
        lemma_dict_insert_at(entries.drop_last(), key, value, at);
        assert(entries.drop_last().insert(at, (key, value)).push(entries.last())
            =~= entries.insert(at, (key, value)));
    }
}

/// Where an entry goes when an entry has the key already: in its place.
pub proof fn lemma_dict_insert_over(
    entries: Seq<(Seq<u8>, BValue)>,
    key: Seq<u8>,
    value: BValue,
    at: int,
)
    requires
        0 <= at < entries.len(),
        entries[at].0 == key,
        forall|j: int|
            at < j < entries.len() ==> !bytes_lt(#[trigger] entries[j].0, key) && entries[j].0
                != key,
    ensures
        dict_insert(entries, key, value) == entries.update(at, (key, value)),
    decreases entries.len() - at,
{
    lemma_bytes_lt_irreflexive(key);
    if at == entries.len() - 1 {
        assert(entries.update(at, (key, value)) =~= entries.drop_last().push((key, value)));
    } else {
        lemma_dict_insert_over(entries.drop_last(), key, value, at);
        assert(entries.drop_last().update(at, (key, value)).push(entries.last())
            =~= entries.update(at, (key, value)));
    }
}

/// After an insertion the key holds the new value.
pub proof fn lemma_dict_get_inserted(entries: Seq<(Seq<u8>, BValue)>, key: Seq<u8>, value: BValue)
    ensures
        dict_get(dict_insert(entries, key, value), key) == Some(value),
    decreases entries.len(),
{
    if entries.len() > 0 && !bytes_lt(entries.last().0, key) && entries.last().0 != key {
        lemma_dict_get_inserted(entries.drop_last(), key, value);
        assert(dict_insert(entries, key, value).drop_last() =~= dict_insert(
            entries.drop_last(),
            key,
            value,
        ));
    } else if entries.len() > 0 && bytes_lt(entries.last().0, key) {
    } else if entries.len() > 0 {
    }
}

/// An insertion leaves what the other keys hold as it was.
pub proof fn lemma_dict_get_other(
    entries: Seq<(Seq<u8>, BValue)>,
    key: Seq<u8>,
    value: BValue,
    other: Seq<u8>,
)
    requires
        other != key,
    ensures
        dict_get(dict_insert(entries, key, value), other) == dict_get(entries, other),
    decreases entries.len(),
{
    if entries.len() == 0 {
        assert(seq![(key, value)].drop_last() =~= entries);
    } else if bytes_lt(entries.last().0, key) {
        assert(entries.push((key, value)).drop_last() =~= entries);
    } else if entries.last().0 == key {
        assert(entries.drop_last().push((key, value)).drop_last() =~= entries.drop_last());
    } else {
        lemma_dict_get_other(entries.drop_last(), key, value, other);
        assert(dict_insert(entries, key, value).drop_last() =~= dict_insert(
            entries.drop_last(),
            key,
            value,
        ));
    }
}

/// Among entries whose keys ascend, a key holds a value exactly when the
/// pair of them is one of the entries.
pub proof fn lemma_dict_get_is_member(entries: Seq<(Seq<u8>, BValue)>, key: Seq<u8>, value: BValue)
    requires
        keys_ascend(entries),
    ensures
        dict_get(entries, key) == Some(value) <==> entries.contains((key, value)),
    decreases entries.len(),
{
    if entries.len() > 0 {
        let front = entries.drop_last();
        let last = entries.last();
        lemma_dict_get_is_member(front, key, value);
        if entries.contains((key, value)) {
            let i = choose|i: int| 0 <= i < entries.len() && entries[i] == (key, value);
            if i < entries.len() - 1 {
                assert(front[i] == (key, value));
                assert(bytes_lt(entries[i].0, entries[entries.len() - 1].0));
                lemma_bytes_lt_irreflexive(key);
            }
        }
        if last.0 == key {
            if last.1 == value {
                assert(entries[entries.len() - 1] == (key, value));
            }
        } else if front.contains((key, value)) {
            let i = choose|i: int| 0 <= i < front.len() && front[i] == (key, value);
            assert(entries[i] == (key, value));
        }
    }
}

/// After an insertion into entries whose keys ascend, the entries are the
/// new one and those of the old ones that have another key.
pub proof fn lemma_dict_insert_members(
    entries: Seq<(Seq<u8>, BValue)>,
    key: Seq<u8>,
    value: BValue,
    entry: (Seq<u8>, BValue),
)
    requires
        keys_ascend(entries),
    ensures
        dict_insert(entries, key, value).contains(entry) <==> entry == (key, value) || (
        entries.contains(entry) && entry.0 != key),
{
    let inserted = dict_insert(entries, key, value);
    lemma_dict_insert_ascends(entries, key, value);
    lemma_dict_get_is_member(inserted, entry.0, entry.1);
    lemma_dict_get_is_member(entries, entry.0, entry.1);
    if entry.0 == key {
        lemma_dict_get_inserted(entries, key, value);
    } else {
        lemma_dict_get_other(entries, key, value, entry.0);
    }
}

/// Insertions under different keys give the same entries in either order.
pub proof fn lemma_dict_insert_commutes(
    entries: Seq<(Seq<u8>, BValue)>,
    key: Seq<u8>,
    value: BValue,
    other_key: Seq<u8>,
    other_value: BValue,
)
    requires
        keys_ascend(entries),
        key != other_key,
    ensures
        dict_insert(dict_insert(entries, key, value), other_key, other_value) == dict_insert(
            dict_insert(entries, other_key, other_value),
            key,
            value,
        ),
{
    let one = dict_insert(entries, key, value);
    let other = dict_insert(entries, other_key, other_value);
    let a = dict_insert(one, other_key, other_value);
    let b = dict_insert(other, key, value);
    lemma_dict_insert_ascends(entries, key, value);
    lemma_dict_insert_ascends(entries, other_key, other_value);
    lemma_dict_insert_ascends(one, other_key, other_value);
    lemma_dict_insert_ascends(other, key, value);
    assert forall|entry: (Seq<u8>, BValue)| a.contains(entry) <==> b.contains(entry) by {
        lemma_dict_insert_members(one, other_key, other_value, entry);
        lemma_dict_insert_members(entries, key, value, entry);
        lemma_dict_insert_members(other, key, value, entry);
        lemma_dict_insert_members(entries, other_key, other_value, entry);
    }
    lemma_ascending_entries_unique(a, b);
}

/// Entries with ascending keys are determined by which entries they are:
/// two such sequences with the same members are the same sequence.
pub proof fn lemma_ascending_entries_unique(
    a: Seq<(Seq<u8>, BValue)>,
    b: Seq<(Seq<u8>, BValue)>,
)
    requires
        keys_ascend(a),
        keys_ascend(b),
        forall|entry: (Seq<u8>, BValue)| a.contains(entry) <==> b.contains(entry),
    ensures
        a == b,
    decreases a.len(),
{
    if a.len() == 0 {
        if b.len() > 0 {
            assert(b.contains(b[0]));
        }
        assert(a =~= b);
    } else {
        let last = a.last();
        assert(a.contains(last));
        assert(b.contains(last));
        let j = choose|j: int| 0 <= j < b.len() && b[j] == last;
        assert(b.contains(b.last()));
        let i = choose|i: int| 0 <= i < a.len() && a[i] == b.last();
        if j < b.len() - 1 {
            assert(bytes_lt(b[j].0, b[b.len() - 1].0));
            if i < a.len() - 1 {
                assert(bytes_lt(a[i].0, a[a.len() - 1].0));
                lemma_bytes_lt_transitive(last.0, b.last().0, last.0);
            }
            lemma_bytes_lt_irreflexive(last.0);
        }
        assert(b.last() == last);
        let a_front = a.drop_last();
        let b_front = b.drop_last();
        assert forall|entry: (Seq<u8>, BValue)| a_front.contains(entry) <==> b_front.contains(
            entry,
        ) by {
            lemma_bytes_lt_irreflexive(last.0);
            if a_front.contains(entry) {
                let k = choose|k: int| 0 <= k < a_front.len() && a_front[k] == entry;
                assert(a[k] == entry);
                assert(bytes_lt(a[k].0, a[a.len() - 1].0));
                assert(a.contains(entry));
                let m = choose|m: int| 0 <= m < b.len() && b[m] == entry;
                assert(b_front[m] == entry);
            }
            if b_front.contains(entry) {
                let k = choose|k: int| 0 <= k < b_front.len() && b_front[k] == entry;
                assert(b[k] == entry);
                assert(bytes_lt(b[k].0, b[b.len() - 1].0));
                assert(b.contains(entry));
                let m = choose|m: int| 0 <= m < a.len() && a[m] == entry;
                assert(a_front[m] == entry);
            }
        }
        lemma_ascending_entries_unique(a_front, b_front);
        assert(a =~= a_front.push(last));
        assert(b =~= b_front.push(last));
    }
}

/// Whether `a` comes before `b` in the order of dictionary keys.
pub fn key_before(a: &[u8], b: &[u8]) -> (before: bool)
    ensures
        before == bytes_lt(a@, b@),
{
    let mut i: usize = 0;
    assert(a@.skip(0) =~= a@ && b@.skip(0) =~= b@);
    while i < a.len() && i < b.len()
        invariant
            i <= a@.len(),
            i <= b@.len(),
            bytes_lt(a@, b@) == bytes_lt(a@.skip(i as int), b@.skip(i as int)),
        decreases a@.len() - i,
    {
        if a[i] != b[i] {
            return a[i] < b[i];
        }
        proof {
            assert(a@.skip(i as int).skip(1) =~= a@.skip(i + 1));
            assert(b@.skip(i as int).skip(1) =~= b@.skip(i + 1));
        }
        i += 1;
    }
    i < b.len()
}

/// Whether two byte strings hold the same bytes.
pub fn bytes_equal(a: &[u8], b: &[u8]) -> (equal: bool)
    ensures
        equal == (a@ == b@),
{
    if a.len() != b.len() {
        return false;
    }
    let mut i: usize = 0;
    while i < a.len()
        invariant
            i <= a@.len(),
            a@.len() == b@.len(),
            a@.take(i as int) == b@.take(i as int),
        decreases a@.len() - i,
    {
        if a[i] != b[i] {
            return false;
        }
        i += 1;
        assert(a@.take(i as int) =~= a@.take(i - 1).push(a@[i - 1]));
        assert(b@.take(i as int) =~= b@.take(i - 1).push(b@[i - 1]));
    }
    assert(a@ =~= a@.take(a@.len() as int));
    assert(b@ =~= b@.take(b@.len() as int));
    true
}

/// A bencode value: a byte string, an integer, a list or a dictionary.
#[derive(Debug, PartialEq, Eq)]
pub enum BType {
    Bytes(Vec<u8>),
    Number(i128),
    List(Vec<Box<BType>>),
    Dict(BDict),
}

/// A dictionary from byte-string keys to bencode values. No key occurs
/// twice, and the entries are kept in ascending order of their keys.
#[derive(Debug, PartialEq, Eq)]
pub struct BDict {
    entries: Vec<(Vec<u8>, BType)>,
}

/// The mathematical value that `value` stands for.
pub open spec fn value_of(value: BType) -> BValue
    decreases value,
{
    match value {
        BType::Bytes(bytes) => BValue::Bytes(bytes@),
        BType::Number(number) => BValue::Integer(number as int),
        BType::List(items) => BValue::List(values_of(items@)),
        BType::Dict(dict) => BValue::Dict(dict@),
    }
}

/// The mathematical values that the items of a list stand for, in order.
pub open spec fn values_of(items: Seq<Box<BType>>) -> Seq<BValue>
    decreases items,
{
    Seq::new(
        items.len(),
        |i: int|
            if 0 <= i < items.len() {
                value_of(*items[i])
            } else {
                BValue::Integer(0)
            },
    )
}

impl View for BDict {
    type V = Seq<(Seq<u8>, BValue)>;

    /// The entries in the order in which they are kept.
    closed spec fn view(&self) -> Seq<(Seq<u8>, BValue)>
        decreases self,
    {
        Seq::new(
            self.entries@.len(),
            |i: int|
                if 0 <= i < self.entries@.len() {
                    (self.entries@[i].0@, value_of(self.entries@[i].1))
                } else {
                    (Seq::empty(), BValue::Integer(0))
                },
        )
    }
}

impl View for BType {
    type V = BValue;

    open spec fn view(&self) -> BValue {
        value_of(*self)
    }
}

impl BDict {
    #[verifier::type_invariant]
    spec fn ordered(self) -> bool {
        keys_ascend(self@)
    }

    /// A dictionary without entries.
    pub fn new() -> (dict: BDict)
        ensures
            dict@ == Seq::<(Seq<u8>, BValue)>::empty(),
    {
        let dict = BDict { entries: Vec::new() };
        assert(dict@ =~= Seq::<(Seq<u8>, BValue)>::empty());
        dict
    }

    /// The number of entries.
    pub fn len(&self) -> (n: usize)
        ensures
            n == self@.len(),
    {
        self.entries.len()
    }

    /// The entries in ascending order of their keys.
    pub fn entries(&self) -> (entries: &Vec<(Vec<u8>, BType)>)
        ensures
            keys_ascend(self@),
            entries@.len() == self@.len(),
            forall|i: int|
                0 <= i < entries@.len() ==> (#[trigger] entries@[i]).0@ == self@[i].0
                    && entries@[i].1@ == self@[i].1,
    {
        proof {
            use_type_invariant(self);
        }
        &self.entries
    }

    /// The value stored under `key`, if there is one.
    pub fn get(&self, key: &[u8]) -> (value: Option<&BType>)
        ensures
            match dict_get(self@, key@) {
                Some(found) => value matches Some(v) && v@ == found,
                None => value is None,
            },
    {
        let mut i: usize = self.entries.len();
        assert(self@.take(i as int) =~= self@);
        while i > 0
            invariant
                i <= self.entries@.len(),
                dict_get(self@, key@) == dict_get(self@.take(i as int), key@),
            decreases i,
        {
            i -= 1;
            proof {
                assert(self@.take(i + 1).last() == self@[i as int]);
                assert(self@.take(i + 1).drop_last() =~= self@.take(i as int));
            }
            if bytes_equal(self.entries[i].0.as_slice(), key) {
                return Some(&self.entries[i].1);
            }
        }
        None
    }

    /// Whether a value is stored under `key`.
    pub fn contains_key(&self, key: &[u8]) -> (found: bool)
        ensures
            found == dict_get(self@, key@).is_some(),
    {
        self.get(key).is_some()
    }

    /// Stores `value` under `key`, in place of what was stored there before.
    pub fn insert(&mut self, key: Vec<u8>, value: BType)
        ensures
            final(self)@ == dict_insert(old(self)@, key@, value@),
    {
        proof {
            use_type_invariant(&*self);
            lemma_dict_insert_ascends(self@, key@, value@);
        }
        let ghost before = self@;
        let mut entries: Vec<(Vec<u8>, BType)> = Vec::new();
        core::mem::swap(&mut self.entries, &mut entries);
        let mut at: usize = entries.len();
        let mut found: bool = false;
        let mut scanning: bool = true;
        assert forall|j: int| 0 <= j < entries@.len() implies before[j] == (
            (#[trigger] entries@[j]).0@,
            entries@[j].1@,
        ) by {}
        while at > 0 && scanning
            invariant
                at <= entries@.len(),
                entries@ == old(self).entries@,
                scanning ==> !found,
                !scanning ==> at > 0 && if found {
                    entries@[at - 1].0@ == key@
                } else {
                    bytes_lt(entries@[at - 1].0@, key@)
                },
                forall|j: int|
                    at <= j < entries@.len() ==> !bytes_lt(#[trigger] entries@[j].0@, key@)
                        && entries@[j].0@ != key@,
            decreases at + if scanning { 1int } else { 0int },
        {
            if key_before(entries[at - 1].0.as_slice(), key.as_slice()) {
                scanning = false;
            } else if bytes_equal(entries[at - 1].0.as_slice(), key.as_slice()) {
                found = true;
                scanning = false;
            } else {
                at -= 1;
            }
        }
        if found {
            proof {
                lemma_dict_insert_over(before, key@, value@, at - 1);
            }
            entries.set(at - 1, (key, value));
        } else {
            proof {
                lemma_dict_insert_at(before, key@, value@, at as int);
            }
            entries.insert(at, (key, value));
        }
        assert((BDict { entries: entries })@ =~= dict_insert(before, key@, value@));
        core::mem::swap(&mut self.entries, &mut entries);
        assert(self@ =~= dict_insert(before, key@, value@));
    }
}

impl BType {
    /// The bytes of a byte string; nothing for the other kinds of value.
    pub fn as_bytes(&self) -> (bytes: Option<&Vec<u8>>)
        ensures
            match self@ {
                BValue::Bytes(b) => bytes matches Some(v) && v@ == b,
                _ => bytes is None,
            },
    {
        match self {
            BType::Bytes(bytes) => Some(bytes),
            _ => None,
        }
    }

    /// The number of an integer; nothing for the other kinds of value.
    pub fn as_number(&self) -> (number: Option<&i128>)
        ensures
            match self@ {
                BValue::Integer(n) => number matches Some(v) && *v == n,
                _ => number is None,
            },
    {
        match self {
            BType::Number(number) => Some(number),
            _ => None,
        }
    }

    /// The entries of a dictionary; nothing for the other kinds of value.
    pub fn as_map(&self) -> (dict: Option<&BDict>)
        ensures
            match self@ {
                BValue::Dict(d) => dict matches Some(v) && v@ == d,
                _ => dict is None,
            },
    {
        match self {
            BType::Dict(dict) => Some(dict),
            _ => None,
        }
    }
}

} // verus!
