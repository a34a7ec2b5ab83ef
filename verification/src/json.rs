//! The JSON value model: a recursive tagged union owning the parsed tree,
//! together with its mathematical view and the type-checked accessor layer.

use vstd::map::*;
use vstd::prelude::*;

verus! {

/// A decoded JSON number literal: `negative` is the leading sign,
/// `mantissa` the digits of the integer and fraction parts read as one
/// decimal integer, and `exponent` the power of ten the mantissa is
/// scaled by (the explicit exponent minus the number of fraction
/// digits).  The denoted value is `(-1)^negative * mantissa * 10^exponent`.
///
/// Digit strings whose value does not fit are saturated: `mantissa` at
/// `u64::MAX`, and the magnitudes folded into `exponent` at
/// `MAX_EXPONENT_MAGNITUDE` each.
#[derive(Clone, Copy, Debug, PartialEq, Eq, Structural)]
pub struct JsonNumber {
    pub negative: bool,
    pub mantissa: u64,
    pub exponent: i64,
}

/// An object is kept as a vector of key/value entries with pairwise
/// distinct keys; insertion order carries no meaning, and the view of an
/// object is a map.
pub type JsonObject = Vec<(Vec<u8>, JsonValue)>;

/// An array is an ordered sequence of values.
pub type JsonArray = Vec<JsonValue>;

/// The JSON value tree.  Strings are held as decoded UTF-8 bytes: every
/// escape of the source text has been resolved before the bytes were
/// stored.
#[derive(Debug)]
pub enum JsonValue {
    JsonObject(JsonObject),
    JsonArray(JsonArray),
    JsonNumber(JsonNumber),
    JsonString(Vec<u8>),
    JsonBool(bool),
    Null,
}

/// The mathematical shape of a JSON value: objects are finite maps from
/// key to value, arrays are sequences, strings are byte sequences.
pub enum SpecValue {
    Object(Map<Seq<u8>, SpecValue>),
    Array(Seq<SpecValue>),
    Number(JsonNumber),
    String(Seq<u8>),
    Bool(bool),
    Null,
}

/// The map denoted by a sequence of object entries: entries are folded
/// in order, so a later entry for a key overwrites an earlier one.
pub open spec fn object_view(entries: Seq<(Vec<u8>, JsonValue)>) -> Map<Seq<u8>, SpecValue>
    decreases entries,
{
    if entries.len() == 0 {
        Map::empty()
    } else {
        object_view(entries.drop_last()).insert(entries.last().0@, entries.last().1.view())
    }
}

/// The sequence denoted by a vector of array elements.
pub open spec fn array_view(elems: Seq<JsonValue>) -> Seq<SpecValue>
    decreases elems,
{
    if elems.len() == 0 {
        Seq::empty()
    } else {
        array_view(elems.drop_last()).push(elems.last().view())
    }
}

/// Every value nested in the entry sequence is well formed.
pub open spec fn entries_wf(entries: Seq<(Vec<u8>, JsonValue)>) -> bool
    decreases entries,
{
    if entries.len() == 0 {
        true
    } else {
        entries_wf(entries.drop_last()) && entries.last().1.wf()
    }
}

/// Every value in the element sequence is well formed.
pub open spec fn elems_wf(elems: Seq<JsonValue>) -> bool
    decreases elems,
{
    if elems.len() == 0 {
        true
    } else {
        elems_wf(elems.drop_last()) && elems.last().wf()
    }
}

/// The keys of an entry sequence are pairwise distinct.
pub open spec fn keys_distinct(entries: Seq<(Vec<u8>, JsonValue)>) -> bool {
    forall|i: int, j: int|
        0 <= i < j < entries.len() ==> entries[i].0@ != entries[j].0@
}

/// `entries_wf` says exactly that every entry's value is well formed.
pub proof fn lemma_entries_wf_index(e: Seq<(Vec<u8>, JsonValue)>)
    ensures
        entries_wf(e) <==> (forall|i: int| 0 <= i < e.len() ==> (#[trigger] e[i]).1.wf()),
    decreases e.len(),
{
    if e.len() > 0 {
        let e2 = e.drop_last();
        lemma_entries_wf_index(e2);
        assert(entries_wf(e) == (entries_wf(e2) && e.last().1.wf()));
        assert(forall|i: int| 0 <= i < e2.len() ==> #[trigger] e2[i] == e[i]);
        assert(forall|i: int| 0 <= i < e2.len() ==> e2[i] == #[trigger] e[i]);
        assert(e.last() == e[e.len() - 1]);
    }
}

/// `elems_wf` says exactly that every element is well formed.
pub proof fn lemma_elems_wf_index(e: Seq<JsonValue>)
    ensures
        elems_wf(e) <==> (forall|i: int| 0 <= i < e.len() ==> (#[trigger] e[i]).wf()),
    decreases e.len(),
{
    if e.len() > 0 {
        let e2 = e.drop_last();
        lemma_elems_wf_index(e2);
        assert(elems_wf(e) == (elems_wf(e2) && e.last().wf()));
        assert(forall|i: int| 0 <= i < e2.len() ==> #[trigger] e2[i] == e[i]);
        assert(forall|i: int| 0 <= i < e2.len() ==> e2[i] == #[trigger] e[i]);
        assert(e.last() == e[e.len() - 1]);
    }
}

/// Appending an entry inserts its key into the denoted map.
pub proof fn lemma_object_view_push(e: Seq<(Vec<u8>, JsonValue)>, p: (Vec<u8>, JsonValue))
    ensures
        object_view(e.push(p)) == object_view(e).insert(p.0@, p.1@),
{
    assert(e.push(p).drop_last() =~= e);
    assert(e.push(p).last() == p);
}

/// Appending an element pushes its view onto the denoted sequence.
pub proof fn lemma_array_view_push(e: Seq<JsonValue>, v: JsonValue)
    ensures
        array_view(e.push(v)) == array_view(e).push(v@),
{
    assert(e.push(v).drop_last() =~= e);
}

/// A key stands in the denoted map exactly when some entry holds it.
pub proof fn lemma_object_view_contains(e: Seq<(Vec<u8>, JsonValue)>, k: Seq<u8>)
    ensures
        object_view(e).contains_key(k) <==> (exists|i: int|
            0 <= i < e.len() && (#[trigger] e[i]).0@ == k),
    decreases e.len(),
{
    if e.len() > 0 {
        let e2 = e.drop_last();
        lemma_object_view_contains(e2, k);
        assert(object_view(e) == object_view(e2).insert(e.last().0@, e.last().1.view()));
        assert(forall|i: int| 0 <= i < e2.len() ==> #[trigger] e2[i] == e[i]);
        if object_view(e).contains_key(k) {
            if e.last().0@ == k {
                assert(e[e.len() - 1].0@ == k);
            } else {
                assert(object_view(e2).contains_key(k));
                let i = choose|i: int| 0 <= i < e2.len() && (#[trigger] e2[i]).0@ == k;
                assert(e[i].0@ == k);
            }
        }
        if exists|i: int| 0 <= i < e.len() && (#[trigger] e[i]).0@ == k {
            let i = choose|i: int| 0 <= i < e.len() && (#[trigger] e[i]).0@ == k;
            if i < e.len() - 1 {
                assert(e2[i].0@ == k);
            } else {
                assert(e.last().0@ == k);
            }
            assert(object_view(e).contains_key(k));
        }
    }
}

/// With pairwise distinct keys, overwriting the entry that holds a key
/// denotes the same map as inserting that key.
pub proof fn lemma_object_view_update(
    e: Seq<(Vec<u8>, JsonValue)>,
    i: int,
    p: (Vec<u8>, JsonValue),
)
    requires
        0 <= i < e.len(),
        keys_distinct(e),
        p.0@ == e[i].0@,
    ensures
        object_view(e.update(i, p)) == object_view(e).insert(p.0@, p.1@),
    decreases e.len(),
{
    if i == e.len() - 1 {
        assert(e.update(i, p).drop_last() =~= e.drop_last());
        assert(e.update(i, p).last() == p);
    } else {
        let e2 = e.drop_last();
        assert(e.update(i, p).drop_last() =~= e2.update(i, p));
        assert(e.update(i, p).last() == e.last());
        assert(keys_distinct(e2)) by {
            assert(forall|a: int, b: int|
                0 <= a < b < e2.len() ==> e2[a] == e[a] && e2[b] == e[b]);
        }
        assert(e2[i] == e[i]);
        lemma_object_view_update(e2, i, p);
        let lk = e.last().0@;
        let lv = e.last().1@;
        assert(lk != p.0@);
        assert_maps_equal!(
            object_view(e2).insert(p.0@, p.1@).insert(lk, lv),
            object_view(e2).insert(lk, lv).insert(p.0@, p.1@),
        );
    }
}

/// With pairwise distinct keys, the entry holding a key gives the
/// denoted map's value at that key.
pub proof fn lemma_object_view_index(e: Seq<(Vec<u8>, JsonValue)>, i: int)
    requires
        0 <= i < e.len(),
        keys_distinct(e),
    ensures
        object_view(e).contains_key(e[i].0@),
        object_view(e)[e[i].0@] == e[i].1@,
    decreases e.len(),
{
    assert(object_view(e) == object_view(e.drop_last()).insert(e.last().0@, e.last().1.view()));
    if i == e.len() - 1 {
        assert(e.last() == e[i]);
    } else {
        let e2 = e.drop_last();
        assert(forall|a: int, b: int| 0 <= a < b < e2.len() ==> e2[a] == e[a] && e2[b] == e[b]);
        assert(e2[i] == e[i]);
        lemma_object_view_index(e2, i);
        assert(e[i].0@ != e.last().0@);
    }
}

/// The denoted sequence of an array is as long as the element vector.
pub proof fn lemma_array_view_len(e: Seq<JsonValue>)
    ensures
        array_view(e).len() == e.len(),
    decreases e.len(),
{
    if e.len() > 0 {
        lemma_array_view_len(e.drop_last());
        assert(array_view(e) == array_view(e.drop_last()).push(e.last().view()));
    }
}

/// The denoted sequence of an array holds the elements' views, in
/// order.
pub proof fn lemma_array_view_index(e: Seq<JsonValue>, i: int)
    requires
        0 <= i < e.len(),
    ensures
        array_view(e).len() == e.len(),
        array_view(e)[i] == e[i]@,
    decreases e.len(),
{
    lemma_array_view_len(e);
    let e2 = e.drop_last();
    lemma_array_view_len(e2);
    assert(array_view(e) == array_view(e2).push(e.last().view()));
    if i == e.len() - 1 {
        assert(e.last() == e[i]);
    } else {
        lemma_array_view_index(e2, i);
        assert(e2[i] == e[i]);
    }
}

/// Overwriting the value of the entry at `i`, for every new value:
/// the denoted map gains exactly that insertion, the keys stay
/// distinct, and well-formedness follows the new value's.
pub proof fn lemma_object_view_update_entry(e: Seq<(Vec<u8>, JsonValue)>, i: int)
    requires
        0 <= i < e.len(),
        keys_distinct(e),
        entries_wf(e),
    ensures
        forall|nv: JsonValue| #[trigger] object_view(e.update(i, (e[i].0, nv))) == object_view(
            e,
        ).insert(e[i].0@, nv@),
        forall|nv: JsonValue| keys_distinct(#[trigger] e.update(i, (e[i].0, nv))),
        forall|nv: JsonValue| nv.wf() ==> entries_wf(#[trigger] e.update(i, (e[i].0, nv))),
{
    assert forall|nv: JsonValue| #[trigger] object_view(e.update(i, (e[i].0, nv))) == object_view(
        e,
    ).insert(e[i].0@, nv@) by {
        lemma_object_view_update(e, i, (e[i].0, nv));
    }
    assert forall|nv: JsonValue| keys_distinct(#[trigger] e.update(i, (e[i].0, nv))) by {
        let e2 = e.update(i, (e[i].0, nv));
        assert(forall|a: int| 0 <= a < e2.len() ==> (#[trigger] e2[a]).0@ == e[a].0@);
    }
    assert forall|nv: JsonValue| nv.wf() implies entries_wf(
        #[trigger] e.update(i, (e[i].0, nv)),
    ) by {
        let e2 = e.update(i, (e[i].0, nv));
        lemma_entries_wf_index(e);
        lemma_entries_wf_index(e2);
        assert(forall|a: int|
            0 <= a < e2.len() && a != i ==> (#[trigger] e2[a]).1 == e[a].1);
        assert(e2[i].1 == nv);
    }
}

/// Tests two byte strings for equality.
pub fn bytes_equal(a: &[u8], b: &[u8]) -> (r: bool)
    ensures
        r == (a@ == b@),
{
    if a.len() != b.len() {
        assert(a@ != b@);
        return false;
    }
    let n = a.len();
    let mut i: usize = 0;
    while i < n
        invariant
            n == a@.len() == b@.len(),
            0 <= i <= n,
            forall|k: int| 0 <= k < i ==> a@[k] == b@[k],
        decreases n - i,
    {
        if a[i] != b[i] {
            return false;
        }
        i = i + 1;
    }
    proof {
        assert(a@ =~= b@);
    }
    true
}

/// Looks a key up among an object's entries: the value at the key, as
/// the object's map denotes it, or `None` when the key is absent.
pub fn object_get<'a>(entries: &'a JsonObject, key: &[u8]) -> (r: Option<&'a JsonValue>)
    requires
        keys_distinct(entries@),
    ensures
        match r {
            Some(v) => object_view(entries@).contains_key(key@) && v@ == object_view(
                entries@,
            ).index(key@) && (entries_wf(entries@) ==> v.wf()),
            None => !object_view(entries@).contains_key(key@),
        },
{
    let n = entries.len();
    let mut i: usize = 0;
    while i < n
        invariant
            keys_distinct(entries@),
            n == entries@.len(),
            0 <= i <= n,
            forall|k: int| 0 <= k < i ==> (#[trigger] entries@[k]).0@ != key@,
        decreases n - i,
    {
        if bytes_equal(entries[i].0.as_slice(), key) {
            proof {
                lemma_object_view_index(entries@, i as int);
                lemma_entries_wf_index(entries@);
            }
            return Some(&entries[i].1);
        }
        i = i + 1;
    }
    proof {
        lemma_object_view_contains(entries@, key@);
    }
    None
}

/// Inserts a member into an object's entries: an entry already holding
/// the key is overwritten in place, otherwise the entry is appended.
/// The later write wins, and the keys stay pairwise distinct.
pub fn object_insert(entries: &mut JsonObject, key: Vec<u8>, value: JsonValue)
    requires
        keys_distinct(old(entries)@),
        entries_wf(old(entries)@),
        value.wf(),
    ensures
        object_view(final (entries)@) == object_view(old(entries)@).insert(key@, value@),
        keys_distinct(final (entries)@),
        entries_wf(final (entries)@),
{
    let ghost e0 = entries@;
    let n = entries.len();
    let mut i: usize = 0;
    while i < n
        invariant
            e0 == old(entries)@,
            entries@ == e0,
            n == e0.len(),
            0 <= i <= n,
            keys_distinct(e0),
            entries_wf(e0),
            value.wf(),
            forall|k: int| 0 <= k < i ==> (#[trigger] e0[k]).0@ != key@,
        decreases n - i,
    {
        if bytes_equal(entries[i].0.as_slice(), key.as_slice()) {
            entries.set(i, (key, value));
            proof {
                lemma_object_view_update(e0, i as int, entries@[i as int]);
                assert(forall|a: int, b: int|
                    0 <= a < b < entries@.len() ==> (#[trigger] entries@[a]).0@ == e0[a].0@ && (
                    #[trigger] entries@[b]).0@ == e0[b].0@);
                lemma_entries_wf_index(e0);
                lemma_entries_wf_index(entries@);
            }
            return ;
        }
        i = i + 1;
    }
    entries.push((key, value));
    proof {
        lemma_object_view_push(e0, entries@.last());
        assert(forall|a: int, b: int|
            0 <= a < b < entries@.len() - 1 ==> (#[trigger] entries@[a]) == e0[a] && (
            #[trigger] entries@[b]) == e0[b]);
        assert(forall|a: int|
            0 <= a < entries@.len() - 1 ==> (#[trigger] entries@[a]) == e0[a]);
        lemma_entries_wf_index(e0);
        lemma_entries_wf_index(entries@);
    }
}

impl View for JsonValue {
    type V = SpecValue;

    open spec fn view(&self) -> SpecValue
        decreases self,
    {
        match self {
            JsonValue::JsonObject(entries) => SpecValue::Object(object_view(entries@)),
            JsonValue::JsonArray(elems) => SpecValue::Array(array_view(elems@)),
            JsonValue::JsonNumber(n) => SpecValue::Number(*n),
            JsonValue::JsonString(s) => SpecValue::String(s@),
            JsonValue::JsonBool(b) => SpecValue::Bool(*b),
            JsonValue::Null => SpecValue::Null,
        }
    }
}

/// Looks a key up among an object's entries for mutation: a mutable
/// handle on the value at the key, or `None` when the key is absent.
/// Whatever the caller writes through the handle becomes the map's
/// value at that key; every other entry stays as it was.
pub fn object_get_mut<'a>(entries: &'a mut JsonObject, key: &[u8]) -> (r: Option<
    &'a mut JsonValue,
>)
    requires
        keys_distinct(old(entries)@),
        entries_wf(old(entries)@),
    ensures
        match r {
            Some(v) => object_view(old(entries)@).contains_key(key@) && (*v)@ == object_view(
                old(entries)@,
            ).index(key@) && (*v).wf() && object_view(final (entries)@) == object_view(
                old(entries)@,
            ).insert(key@, (*final (v))@) && keys_distinct(final (entries)@) && (final (v).wf()
                ==> entries_wf(final (entries)@)) && (*final (v) == *v ==> final (entries)@ == old(
                entries,
            )@),
            None => !object_view(old(entries)@).contains_key(key@) && final (entries)@ == old(
                entries,
            )@,
        },
{
    let ghost e0 = entries@;
    let n = entries.len();
    let mut i: usize = 0;
    while i < n
        invariant
            e0 == old(entries)@,
            entries@ == e0,
            keys_distinct(e0),
            entries_wf(e0),
            n == e0.len(),
            0 <= i <= n,
            forall|k: int| 0 <= k < i ==> (#[trigger] e0[k]).0@ != key@,
        decreases n - i,
    {
        if bytes_equal(entries[i].0.as_slice(), key) {
            proof {
                lemma_object_view_index(e0, i as int);
                lemma_entries_wf_index(e0);
                lemma_object_view_update_entry(e0, i as int);
            }
            return Some(&mut entries[i].1);
        }
        i = i + 1;
    }
    proof {
        lemma_object_view_contains(e0, key@);
    }
    None
}

/// Overwriting one element updates the denoted sequence at the same
/// position.
pub proof fn lemma_array_view_update(e: Seq<JsonValue>, i: int, nv: JsonValue)
    requires
        0 <= i < e.len(),
    ensures
        array_view(e.update(i, nv)) == array_view(e).update(i, nv@),
    decreases e.len(),
{
    lemma_array_view_len(e);
    lemma_array_view_len(e.drop_last());
    lemma_array_view_len(e.update(i, nv));
    assert(array_view(e) == array_view(e.drop_last()).push(e.last()@));
    assert(array_view(e.update(i, nv)) == array_view(e.update(i, nv).drop_last()).push(
        e.update(i, nv).last()@,
    ));
    if i == e.len() - 1 {
        assert(e.update(i, nv).drop_last() =~= e.drop_last());
        assert(e.update(i, nv).last() == nv);
        assert(array_view(e.drop_last()).push(nv@) =~= array_view(e).update(i, nv@));
    } else {
        let e2 = e.drop_last();
        assert(e.update(i, nv).drop_last() =~= e2.update(i, nv));
        assert(e.update(i, nv).last() == e.last());
        lemma_array_view_update(e2, i, nv);
        lemma_array_view_len(e2.update(i, nv));
        assert(array_view(e2).update(i, nv@).push(e.last()@) =~= array_view(e2).push(
            e.last()@,
        ).update(i, nv@));
    }
}

/// Overwriting the element at `i`, for every new value: the denoted
/// sequence is updated at `i`, and well-formedness follows the new
/// value's.
pub proof fn lemma_array_view_update_entry(e: Seq<JsonValue>, i: int)
    requires
        0 <= i < e.len(),
        elems_wf(e),
    ensures
        forall|nv: JsonValue| #[trigger] array_view(e.update(i, nv)) == array_view(e).update(
            i,
            nv@,
        ),
        forall|nv: JsonValue| nv.wf() ==> elems_wf(#[trigger] e.update(i, nv)),
{
    assert forall|nv: JsonValue| #[trigger] array_view(e.update(i, nv)) == array_view(e).update(
        i,
        nv@,
    ) by {
        lemma_array_view_update(e, i, nv);
    }
    assert forall|nv: JsonValue| nv.wf() implies elems_wf(#[trigger] e.update(i, nv)) by {
        let e2 = e.update(i, nv);
        lemma_elems_wf_index(e);
        lemma_elems_wf_index(e2);
        assert(forall|a: int| 0 <= a < e2.len() && a != i ==> #[trigger] e2[a] == e[a]);
        assert(e2[i] == nv);
    }
}

/// Indexes an array's elements for mutation: a mutable handle on the
/// element, or `None` when the index is out of range.  Whatever the
/// caller writes through the handle becomes the element at that index;
/// every other element stays as it was.
pub fn array_get_mut<'a>(elems: &'a mut JsonArray, index: usize) -> (r: Option<
    &'a mut JsonValue,
>)
    requires
        elems_wf(old(elems)@),
    ensures
        match r {
            Some(v) => index < old(elems)@.len() && (*v)@ == array_view(old(elems)@)[index as int]
                && (*v).wf() && array_view(final (elems)@) == array_view(old(elems)@).update(
                index as int,
                (*final (v))@,
            ) && (final (v).wf() ==> elems_wf(final (elems)@)) && (*final (v) == *v ==> final (
            elems)@ == old(elems)@),
            None => index >= old(elems)@.len() && final (elems)@ == old(elems)@,
        },
{
    if index >= elems.len() {
        return None;
    }
    proof {
        lemma_array_view_index(elems@, index as int);
        lemma_elems_wf_index(elems@);
        lemma_array_view_update_entry(elems@, index as int);
    }
    Some(&mut elems[index])
}

/// An owned object wrapper.
pub struct JsonObjectContainer(pub JsonObject);

/// A non-owning view into an object's entries.
pub struct JsonObjectContainerRef<'a>(pub &'a JsonObject);

/// A mutable non-owning view into an object's entries.
pub struct JsonObjectContainerMutRef<'a>(pub &'a mut JsonObject);

/// An owned array wrapper.
pub struct JsonArrayContainer(pub JsonArray);

/// A non-owning view into an array's elements.
pub struct JsonArrayContainerRef<'a>(pub &'a JsonArray);

/// A mutable non-owning view into an array's elements.
pub struct JsonArrayContainerMutRef<'a>(pub &'a mut JsonArray);

impl<'a> JsonObjectContainerRef<'a> {
    /// The object nested under `key`, or `None` when the key is
    /// absent; a value of another variant is refused.
    pub fn get_object_ref(&self, key: &[u8]) -> (r: Result<
        Option<JsonObjectContainerRef<'a>>,
        InvalidValueError<'a>,
    >)
        requires
            keys_distinct(self.0@),
            entries_wf(self.0@),
        ensures
            match r {
                Ok(Some(o)) => object_view(self.0@).contains_key(key@) && object_view(
                    self.0@,
                ).index(key@) == SpecValue::Object(object_view(o.0@)) && keys_distinct(o.0@)
                    && entries_wf(o.0@),
                Ok(None) => !object_view(self.0@).contains_key(key@),
                Err(e) => object_view(self.0@).contains_key(key@) && !(object_view(self.0@).index(
                    key@,
                ) is Object) && e.value@ == object_view(self.0@).index(key@),
            },
    {
        match object_get(self.0, key) {
            Some(JsonValue::JsonObject(object)) => Ok(Some(JsonObjectContainerRef(object))),
            Some(value) => Err(InvalidValueError { value }),
            None => Ok(None),
        }
    }

    /// The array nested under `key`.
    pub fn get_array_ref(&self, key: &[u8]) -> (r: Result<
        Option<JsonArrayContainerRef<'a>>,
        InvalidValueError<'a>,
    >)
        requires
            keys_distinct(self.0@),
            entries_wf(self.0@),
        ensures
            match r {
                Ok(Some(a)) => object_view(self.0@).contains_key(key@) && object_view(
                    self.0@,
                ).index(key@) == SpecValue::Array(array_view(a.0@)) && elems_wf(a.0@),
                Ok(None) => !object_view(self.0@).contains_key(key@),
                Err(e) => object_view(self.0@).contains_key(key@) && !(object_view(self.0@).index(
                    key@,
                ) is Array) && e.value@ == object_view(self.0@).index(key@),
            },
    {
        match object_get(self.0, key) {
            Some(JsonValue::JsonArray(array)) => Ok(Some(JsonArrayContainerRef(array))),
            Some(value) => Err(InvalidValueError { value }),
            None => Ok(None),
        }
    }

    /// The number under `key`.
    pub fn get_number(&self, key: &[u8]) -> (r: Result<Option<JsonNumber>, InvalidValueError<'a>>)
        requires
            keys_distinct(self.0@),
            entries_wf(self.0@),
        ensures
            match r {
                Ok(Some(n)) => object_view(self.0@).contains_key(key@) && object_view(
                    self.0@,
                ).index(key@) == SpecValue::Number(n),
                Ok(None) => !object_view(self.0@).contains_key(key@),
                Err(e) => object_view(self.0@).contains_key(key@) && !(object_view(self.0@).index(
                    key@,
                ) is Number) && e.value@ == object_view(self.0@).index(key@),
            },
    {
        match object_get(self.0, key) {
            Some(JsonValue::JsonNumber(number)) => Ok(Some(*number)),
            Some(value) => Err(InvalidValueError { value }),
            None => Ok(None),
        }
    }

    /// The boolean under `key`.
    pub fn get_bool(&self, key: &[u8]) -> (r: Result<Option<bool>, InvalidValueError<'a>>)
        requires
            keys_distinct(self.0@),
            entries_wf(self.0@),
        ensures
            match r {
                Ok(Some(b)) => object_view(self.0@).contains_key(key@) && object_view(
                    self.0@,
                ).index(key@) == SpecValue::Bool(b),
                Ok(None) => !object_view(self.0@).contains_key(key@),
                Err(e) => object_view(self.0@).contains_key(key@) && !(object_view(self.0@).index(
                    key@,
                ) is Bool) && e.value@ == object_view(self.0@).index(key@),
            },
    {
        match object_get(self.0, key) {
            Some(JsonValue::JsonBool(b)) => Ok(Some(*b)),
            Some(value) => Err(InvalidValueError { value }),
            None => Ok(None),
        }
    }

    /// The decoded bytes of the string under `key`.
    pub fn get_string_ref(&self, key: &[u8]) -> (r: Result<
        Option<&'a Vec<u8>>,
        InvalidValueError<'a>,
    >)
        requires
            keys_distinct(self.0@),
            entries_wf(self.0@),
        ensures
            match r {
                Ok(Some(s)) => object_view(self.0@).contains_key(key@) && object_view(
                    self.0@,
                ).index(key@) == SpecValue::String(s@),
                Ok(None) => !object_view(self.0@).contains_key(key@),
                Err(e) => object_view(self.0@).contains_key(key@) && !(object_view(self.0@).index(
                    key@,
                ) is String) && e.value@ == object_view(self.0@).index(key@),
            },
    {
        match object_get(self.0, key) {
            Some(JsonValue::JsonString(string)) => Ok(Some(string)),
            Some(value) => Err(InvalidValueError { value }),
            None => Ok(None),
        }
    }

    /// Whether `key` is absent or maps to `null`.
    pub fn is_null(&self, key: &[u8]) -> (r: bool)
        requires
            keys_distinct(self.0@),
        ensures
            r == (!object_view(self.0@).contains_key(key@) || object_view(self.0@).index(
                key@,
            ) is Null),
    {
        match object_get(self.0, key) {
            Some(JsonValue::Null) => true,
            Some(_) => false,
            None => true,
        }
    }

    /// The number of members.
    pub fn lenght(&self) -> (r: usize)
        ensures
            r == self.0@.len(),
    {
        self.0.len()
    }

    /// Whether `key` maps to a value.
    pub fn contains_key(&self, key: &[u8]) -> (r: bool)
        requires
            keys_distinct(self.0@),
        ensures
            r == object_view(self.0@).contains_key(key@),
    {
        match object_get(self.0, key) {
            Some(_) => true,
            None => false,
        }
    }
}

impl<'a> JsonObjectContainerMutRef<'a> {
    /// The entries as they currently stand.
    pub open spec fn entries(&self) -> Seq<(Vec<u8>, JsonValue)> {
        self.0@
    }

    /// The object nested under `key`, read-only.
    pub fn get_object_ref<'b>(&'b self, key: &[u8]) -> (r: Result<
        Option<JsonObjectContainerRef<'b>>,
        InvalidValueError<'b>,
    >)
        requires
            keys_distinct(self.entries()),
            entries_wf(self.entries()),
        ensures
            match r {
                Ok(Some(o)) => object_view(self.entries()).contains_key(key@) && object_view(
                    self.entries(),
                ).index(key@) == SpecValue::Object(object_view(o.0@)) && keys_distinct(o.0@)
                    && entries_wf(o.0@),
                Ok(None) => !object_view(self.entries()).contains_key(key@),
                Err(e) => object_view(self.entries()).contains_key(key@) && !(object_view(self.entries()).index(
                    key@,
                ) is Object) && e.value@ == object_view(self.entries()).index(key@),
            },
    {
        match object_get(&*self.0, key) {
            Some(JsonValue::JsonObject(object)) => Ok(Some(JsonObjectContainerRef(object))),
            Some(value) => Err(InvalidValueError { value }),
            None => Ok(None),
        }
    }

    /// A mutable view of the object nested under `key`: whatever the
    /// caller makes of that object becomes the map's value at `key`.
    pub fn get_object_mut<'b>(&'b mut self, key: &[u8]) -> (r: Result<
        Option<JsonObjectContainerMutRef<'b>>,
        InvalidValueError<'b>,
    >)
        requires
            keys_distinct(old(self).0@),
            entries_wf(old(self).0@),
        ensures
            match r {
                Ok(Some(o)) => object_view(old(self).0@).contains_key(key@) && object_view(
                    old(self).0@,
                ).index(key@) == SpecValue::Object(object_view(o.0@)) && keys_distinct(o.0@)
                    && entries_wf(o.0@) && object_view(final (self).0@) == object_view(
                    old(self).0@,
                ).insert(key@, SpecValue::Object(object_view(final (o.0)@))) && keys_distinct(
                    final (self).0@,
                ) && (keys_distinct(final (o.0)@) && entries_wf(final (o.0)@) ==> entries_wf(
                    final (self).0@,
                )),
                Ok(None) => !object_view(old(self).0@).contains_key(key@) && final (self).0@ == old(
                    self,
                ).0@,
                Err(e) => object_view(old(self).0@).contains_key(key@) && !(object_view(
                    old(self).0@,
                ).index(key@) is Object) && e.value@ == object_view(old(self).0@).index(key@)
                    && final (self).0@ == old(self).0@,
            },
    {
        match object_get_mut(&mut *self.0, key) {
            Some(JsonValue::JsonObject(object)) => Ok(Some(JsonObjectContainerMutRef(object))),
            Some(value) => Err(InvalidValueError { value: &*value }),
            None => Ok(None),
        }
    }

    /// The array nested under `key`, read-only.
    pub fn get_array_ref<'b>(&'b self, key: &[u8]) -> (r: Result<
        Option<JsonArrayContainerRef<'b>>,
        InvalidValueError<'b>,
    >)
        requires
            keys_distinct(self.entries()),
            entries_wf(self.entries()),
        ensures
            match r {
                Ok(Some(a)) => object_view(self.entries()).contains_key(key@) && object_view(
                    self.entries(),
                ).index(key@) == SpecValue::Array(array_view(a.0@)) && elems_wf(a.0@),
                Ok(None) => !object_view(self.entries()).contains_key(key@),
                Err(e) => object_view(self.entries()).contains_key(key@) && !(object_view(self.entries()).index(
                    key@,
                ) is Array) && e.value@ == object_view(self.entries()).index(key@),
            },
    {
        match object_get(&*self.0, key) {
            Some(JsonValue::JsonArray(array)) => Ok(Some(JsonArrayContainerRef(array))),
            Some(value) => Err(InvalidValueError { value }),
            None => Ok(None),
        }
    }

    /// A mutable view of the array nested under `key`.
    pub fn get_array_mut<'b>(&'b mut self, key: &[u8]) -> (r: Result<
        Option<JsonArrayContainerMutRef<'b>>,
        InvalidValueError<'b>,
    >)
        requires
            keys_distinct(old(self).0@),
            entries_wf(old(self).0@),
        ensures
            match r {
                Ok(Some(a)) => object_view(old(self).0@).contains_key(key@) && object_view(
                    old(self).0@,
                ).index(key@) == SpecValue::Array(array_view(a.0@)) && elems_wf(a.0@)
                    && object_view(final (self).0@) == object_view(old(self).0@).insert(
                    key@,
                    SpecValue::Array(array_view(final (a.0)@)),
                ) && keys_distinct(final (self).0@) && (elems_wf(final (a.0)@) ==> entries_wf(
                    final (self).0@,
                )),
                Ok(None) => !object_view(old(self).0@).contains_key(key@) && final (self).0@ == old(
                    self,
                ).0@,
                Err(e) => object_view(old(self).0@).contains_key(key@) && !(object_view(
                    old(self).0@,
                ).index(key@) is Array) && e.value@ == object_view(old(self).0@).index(key@)
                    && final (self).0@ == old(self).0@,
            },
    {
        match object_get_mut(&mut *self.0, key) {
            Some(JsonValue::JsonArray(array)) => Ok(Some(JsonArrayContainerMutRef(array))),
            Some(value) => Err(InvalidValueError { value: &*value }),
            None => Ok(None),
        }
    }

    /// The number under `key`.
    pub fn get_number<'b>(&'b self, key: &[u8]) -> (r: Result<
        Option<JsonNumber>,
        InvalidValueError<'b>,
    >)
        requires
            keys_distinct(self.entries()),
            entries_wf(self.entries()),
        ensures
            match r {
                Ok(Some(n)) => object_view(self.entries()).contains_key(key@) && object_view(
                    self.entries(),
                ).index(key@) == SpecValue::Number(n),
                Ok(None) => !object_view(self.entries()).contains_key(key@),
                Err(e) => object_view(self.entries()).contains_key(key@) && !(object_view(self.entries()).index(
                    key@,
                ) is Number) && e.value@ == object_view(self.entries()).index(key@),
            },
    {
        match object_get(&*self.0, key) {
            Some(JsonValue::JsonNumber(number)) => Ok(Some(*number)),
            Some(value) => Err(InvalidValueError { value }),
            None => Ok(None),
        }
    }

    /// A mutable handle on the number under `key`: what the caller
    /// writes through it becomes the map's value at `key`.
    pub fn get_number_mut<'b>(&'b mut self, key: &[u8]) -> (r: Result<
        Option<&'b mut JsonNumber>,
        InvalidValueError<'b>,
    >)
        requires
            keys_distinct(old(self).0@),
            entries_wf(old(self).0@),
        ensures
            match r {
                Ok(Some(n)) => object_view(old(self).0@).contains_key(key@) && object_view(
                    old(self).0@,
                ).index(key@) == SpecValue::Number(*n) && object_view(final (self).0@)
                    == object_view(old(self).0@).insert(key@, SpecValue::Number(*final (n)))
                    && keys_distinct(final (self).0@) && entries_wf(final (self).0@),
                Ok(None) => !object_view(old(self).0@).contains_key(key@) && final (self).0@ == old(
                    self,
                ).0@,
                Err(e) => object_view(old(self).0@).contains_key(key@) && !(object_view(
                    old(self).0@,
                ).index(key@) is Number) && e.value@ == object_view(old(self).0@).index(key@)
                    && final (self).0@ == old(self).0@,
            },
    {
        match object_get_mut(&mut *self.0, key) {
            Some(JsonValue::JsonNumber(number)) => Ok(Some(number)),
            Some(value) => Err(InvalidValueError { value: &*value }),
            None => Ok(None),
        }
    }

    /// The boolean under `key`.
    pub fn get_bool<'b>(&'b self, key: &[u8]) -> (r: Result<Option<bool>, InvalidValueError<'b>>)
        requires
            keys_distinct(self.entries()),
            entries_wf(self.entries()),
        ensures
            match r {
                Ok(Some(b)) => object_view(self.entries()).contains_key(key@) && object_view(
                    self.entries(),
                ).index(key@) == SpecValue::Bool(b),
                Ok(None) => !object_view(self.entries()).contains_key(key@),
                Err(e) => object_view(self.entries()).contains_key(key@) && !(object_view(self.entries()).index(
                    key@,
                ) is Bool) && e.value@ == object_view(self.entries()).index(key@),
            },
    {
        match object_get(&*self.0, key) {
            Some(JsonValue::JsonBool(b)) => Ok(Some(*b)),
            Some(value) => Err(InvalidValueError { value }),
            None => Ok(None),
        }
    }

    /// A mutable handle on the boolean under `key`.
    pub fn get_bool_mut<'b>(&'b mut self, key: &[u8]) -> (r: Result<
        Option<&'b mut bool>,
        InvalidValueError<'b>,
    >)
        requires
            keys_distinct(old(self).0@),
            entries_wf(old(self).0@),
        ensures
            match r {
                Ok(Some(b)) => object_view(old(self).0@).contains_key(key@) && object_view(
                    old(self).0@,
                ).index(key@) == SpecValue::Bool(*b) && object_view(final (self).0@)
                    == object_view(old(self).0@).insert(key@, SpecValue::Bool(*final (b)))
                    && keys_distinct(final (self).0@) && entries_wf(final (self).0@),
                Ok(None) => !object_view(old(self).0@).contains_key(key@) && final (self).0@ == old(
                    self,
                ).0@,
                Err(e) => object_view(old(self).0@).contains_key(key@) && !(object_view(
                    old(self).0@,
                ).index(key@) is Bool) && e.value@ == object_view(old(self).0@).index(key@)
                    && final (self).0@ == old(self).0@,
            },
    {
        match object_get_mut(&mut *self.0, key) {
            Some(JsonValue::JsonBool(b)) => Ok(Some(b)),
            Some(value) => Err(InvalidValueError { value: &*value }),
            None => Ok(None),
        }
    }

    /// The decoded bytes of the string under `key`.
    pub fn get_string_ref<'b>(&'b self, key: &[u8]) -> (r: Result<
        Option<&'b Vec<u8>>,
        InvalidValueError<'b>,
    >)
        requires
            keys_distinct(self.entries()),
            entries_wf(self.entries()),
        ensures
            match r {
                Ok(Some(s)) => object_view(self.entries()).contains_key(key@) && object_view(
                    self.entries(),
                ).index(key@) == SpecValue::String(s@),
                Ok(None) => !object_view(self.entries()).contains_key(key@),
                Err(e) => object_view(self.entries()).contains_key(key@) && !(object_view(self.entries()).index(
                    key@,
                ) is String) && e.value@ == object_view(self.entries()).index(key@),
            },
    {
        match object_get(&*self.0, key) {
            Some(JsonValue::JsonString(string)) => Ok(Some(string)),
            Some(value) => Err(InvalidValueError { value }),
            None => Ok(None),
        }
    }

    /// A mutable handle on the decoded bytes of the string under
    /// `key`.
    pub fn get_string_mut<'b>(&'b mut self, key: &[u8]) -> (r: Result<
        Option<&'b mut Vec<u8>>,
        InvalidValueError<'b>,
    >)
        requires
            keys_distinct(old(self).0@),
            entries_wf(old(self).0@),
        ensures
            match r {
                Ok(Some(s)) => object_view(old(self).0@).contains_key(key@) && object_view(
                    old(self).0@,
                ).index(key@) == SpecValue::String(s@) && object_view(final (self).0@)
                    == object_view(old(self).0@).insert(key@, SpecValue::String(final (s)@))
                    && keys_distinct(final (self).0@) && entries_wf(final (self).0@),
                Ok(None) => !object_view(old(self).0@).contains_key(key@) && final (self).0@ == old(
                    self,
                ).0@,
                Err(e) => object_view(old(self).0@).contains_key(key@) && !(object_view(
                    old(self).0@,
                ).index(key@) is String) && e.value@ == object_view(old(self).0@).index(key@)
                    && final (self).0@ == old(self).0@,
            },
    {
        match object_get_mut(&mut *self.0, key) {
            Some(JsonValue::JsonString(string)) => Ok(Some(string)),
            Some(value) => Err(InvalidValueError { value: &*value }),
            None => Ok(None),
        }
    }

    /// Whether `key` is absent or maps to `null`.
    pub fn is_null(&self, key: &[u8]) -> (r: bool)
        requires
            keys_distinct(self.entries()),
        ensures
            r == (!object_view(self.entries()).contains_key(key@) || object_view(self.entries()).index(
                key@,
            ) is Null),
    {
        match object_get(&*self.0, key) {
            Some(JsonValue::Null) => true,
            Some(_) => false,
            None => true,
        }
    }

    /// The number of members.
    pub fn lenght(&self) -> (r: usize)
        ensures
            r == self.entries().len(),
    {
        self.0.len()
    }

    /// Whether `key` maps to a value.
    pub fn contains_key(&self, key: &[u8]) -> (r: bool)
        requires
            keys_distinct(self.entries()),
        ensures
            r == object_view(self.entries()).contains_key(key@),
    {
        match object_get(&*self.0, key) {
            Some(_) => true,
            None => false,
        }
    }
}

impl<'a> JsonArrayContainerRef<'a> {
    /// The object at `index`, or `None` when the index is out of
    /// range; an element of another variant is refused.
    pub fn get_object_ref(&self, index: usize) -> (r: Result<
        Option<JsonObjectContainerRef<'a>>,
        InvalidValueError<'a>,
    >)
        requires
            elems_wf(self.0@),
        ensures
            match r {
                Ok(Some(o)) => index < array_view(self.0@).len() && array_view(self.0@)[index as int]
                    == SpecValue::Object(object_view(o.0@)) && keys_distinct(o.0@) && entries_wf(
                    o.0@,
                ),
                Ok(None) => index >= array_view(self.0@).len(),
                Err(e) => index < array_view(self.0@).len() && !(array_view(self.0@)[index as int]
                    is Object) && e.value@ == array_view(self.0@)[index as int],
            },
    {
        if index >= self.0.len() {
            proof {
                lemma_array_view_len(self.0@);
            }
            return Ok(None);
        }
        proof {
            lemma_array_view_index(self.0@, index as int);
            lemma_elems_wf_index(self.0@);
        }
        match &self.0[index] {
            JsonValue::JsonObject(object) => Ok(Some(JsonObjectContainerRef(object))),
            value => Err(InvalidValueError { value }),
        }
    }

    /// The array at `index`.
    pub fn get_array_ref(&self, index: usize) -> (r: Result<
        Option<JsonArrayContainerRef<'a>>,
        InvalidValueError<'a>,
    >)
        requires
            elems_wf(self.0@),
        ensures
            match r {
                Ok(Some(a)) => index < array_view(self.0@).len() && array_view(self.0@)[index as int]
                    == SpecValue::Array(array_view(a.0@)) && elems_wf(a.0@),
                Ok(None) => index >= array_view(self.0@).len(),
                Err(e) => index < array_view(self.0@).len() && !(array_view(self.0@)[index as int]
                    is Array) && e.value@ == array_view(self.0@)[index as int],
            },
    {
        if index >= self.0.len() {
            proof {
                lemma_array_view_len(self.0@);
            }
            return Ok(None);
        }
        proof {
            lemma_array_view_index(self.0@, index as int);
            lemma_elems_wf_index(self.0@);
        }
        match &self.0[index] {
            JsonValue::JsonArray(array) => Ok(Some(JsonArrayContainerRef(array))),
            value => Err(InvalidValueError { value }),
        }
    }

    /// The decoded bytes of the string at `index`.
    pub fn get_string_ref(&self, index: usize) -> (r: Result<
        Option<&'a Vec<u8>>,
        InvalidValueError<'a>,
    >)
        requires
            elems_wf(self.0@),
        ensures
            match r {
                Ok(Some(s)) => index < array_view(self.0@).len() && array_view(self.0@)[index as int]
                    == SpecValue::String(s@),
                Ok(None) => index >= array_view(self.0@).len(),
                Err(e) => index < array_view(self.0@).len() && !(array_view(self.0@)[index as int]
                    is String) && e.value@ == array_view(self.0@)[index as int],
            },
    {
        if index >= self.0.len() {
            proof {
                lemma_array_view_len(self.0@);
            }
            return Ok(None);
        }
        proof {
            lemma_array_view_index(self.0@, index as int);
            lemma_elems_wf_index(self.0@);
        }
        match &self.0[index] {
            JsonValue::JsonString(string) => Ok(Some(string)),
            value => Err(InvalidValueError { value }),
        }
    }

    /// The number at `index`.
    pub fn get_number(&self, index: usize) -> (r: Result<
        Option<JsonNumber>,
        InvalidValueError<'a>,
    >)
        requires
            elems_wf(self.0@),
        ensures
            match r {
                Ok(Some(n)) => index < array_view(self.0@).len() && array_view(self.0@)[index as int]
                    == SpecValue::Number(n),
                Ok(None) => index >= array_view(self.0@).len(),
                Err(e) => index < array_view(self.0@).len() && !(array_view(self.0@)[index as int]
                    is Number) && e.value@ == array_view(self.0@)[index as int],
            },
    {
        if index >= self.0.len() {
            proof {
                lemma_array_view_len(self.0@);
            }
            return Ok(None);
        }
        proof {
            lemma_array_view_index(self.0@, index as int);
            lemma_elems_wf_index(self.0@);
        }
        match &self.0[index] {
            JsonValue::JsonNumber(number) => Ok(Some(*number)),
            value => Err(InvalidValueError { value }),
        }
    }

    /// The boolean at `index`.
    pub fn get_bool(&self, index: usize) -> (r: Result<Option<bool>, InvalidValueError<'a>>)
        requires
            elems_wf(self.0@),
        ensures
            match r {
                Ok(Some(b)) => index < array_view(self.0@).len() && array_view(self.0@)[index as int]
                    == SpecValue::Bool(b),
                Ok(None) => index >= array_view(self.0@).len(),
                Err(e) => index < array_view(self.0@).len() && !(array_view(self.0@)[index as int]
                    is Bool) && e.value@ == array_view(self.0@)[index as int],
            },
    {
        if index >= self.0.len() {
            proof {
                lemma_array_view_len(self.0@);
            }
            return Ok(None);
        }
        proof {
            lemma_array_view_index(self.0@, index as int);
            lemma_elems_wf_index(self.0@);
        }
        match &self.0[index] {
            JsonValue::JsonBool(b) => Ok(Some(*b)),
            value => Err(InvalidValueError { value }),
        }
    }

    /// Whether `index` is out of range or holds `null`.
    pub fn is_null(&self, index: usize) -> (r: bool)
        ensures
            r == (index >= array_view(self.0@).len() || array_view(self.0@)[index as int] is Null),
    {
        proof {
            lemma_array_view_len(self.0@);
            if index < self.0@.len() {
                lemma_array_view_index(self.0@, index as int);
            }
        }
        if index >= self.0.len() {
            return true;
        }
        match &self.0[index] {
            JsonValue::Null => true,
            _ => false,
        }
    }

    /// The number of elements.
    pub fn lenght(&self) -> (r: usize)
        ensures
            r == array_view(self.0@).len(),
    {
        proof {
            lemma_array_view_len(self.0@);
        }
        self.0.len()
    }
}

impl<'a> JsonArrayContainerMutRef<'a> {
    /// The elements as they currently stand.
    pub open spec fn elems(&self) -> Seq<JsonValue> {
        self.0@
    }

    /// The object at `index`, read-only.
    pub fn get_object_ref<'b>(&'b self, index: usize) -> (r: Result<
        Option<JsonObjectContainerRef<'b>>,
        InvalidValueError<'b>,
    >)
        requires
            elems_wf(self.elems()),
        ensures
            match r {
                Ok(Some(o)) => index < array_view(self.elems()).len() && array_view(
                    self.elems(),
                )[index as int] == SpecValue::Object(object_view(o.0@)) && keys_distinct(o.0@)
                    && entries_wf(o.0@),
                Ok(None) => index >= array_view(self.elems()).len(),
                Err(e) => index < array_view(self.elems()).len() && !(array_view(
                    self.elems(),
                )[index as int] is Object) && e.value@ == array_view(self.elems())[index as int],
            },
    {
        if index >= self.0.len() {
            proof {
                lemma_array_view_len(self.elems());
            }
            return Ok(None);
        }
        proof {
            lemma_array_view_index(self.elems(), index as int);
            lemma_elems_wf_index(self.elems());
        }
        match &self.0[index] {
            JsonValue::JsonObject(object) => Ok(Some(JsonObjectContainerRef(object))),
            value => Err(InvalidValueError { value }),
        }
    }

    /// A mutable view of the object at `index`: whatever the caller
    /// makes of that object becomes the element at `index`.
    pub fn get_object_mut<'b>(&'b mut self, index: usize) -> (r: Result<
        Option<JsonObjectContainerMutRef<'b>>,
        InvalidValueError<'b>,
    >)
        requires
            elems_wf(old(self).elems()),
        ensures
            match r {
                Ok(Some(o)) => index < array_view(old(self).elems()).len() && array_view(
                    old(self).elems(),
                )[index as int] == SpecValue::Object(object_view(o.0@)) && keys_distinct(o.0@)
                    && entries_wf(o.0@) && array_view(final (self).elems()) == array_view(
                    old(self).elems(),
                ).update(index as int, SpecValue::Object(object_view(final (o.0)@))) && (
                keys_distinct(final (o.0)@) && entries_wf(final (o.0)@) ==> elems_wf(
                    final (self).elems(),
                )),
                Ok(None) => index >= array_view(old(self).elems()).len() && final (self).elems()
                    == old(self).elems(),
                Err(e) => index < array_view(old(self).elems()).len() && !(array_view(
                    old(self).elems(),
                )[index as int] is Object) && e.value@ == array_view(old(self).elems())[index as int]
                    && final (self).elems() == old(self).elems(),
            },
    {
        proof {
            lemma_array_view_len(old(self).elems());
        }
        match array_get_mut(&mut *self.0, index) {
            Some(JsonValue::JsonObject(object)) => Ok(Some(JsonObjectContainerMutRef(object))),
            Some(value) => Err(InvalidValueError { value: &*value }),
            None => {
                proof {
                    lemma_array_view_len(old(self).elems());
                }
                Ok(None)
            },
        }
    }

    /// The array at `index`, read-only.
    pub fn get_array_ref<'b>(&'b self, index: usize) -> (r: Result<
        Option<JsonArrayContainerRef<'b>>,
        InvalidValueError<'b>,
    >)
        requires
            elems_wf(self.elems()),
        ensures
            match r {
                Ok(Some(a)) => index < array_view(self.elems()).len() && array_view(
                    self.elems(),
                )[index as int] == SpecValue::Array(array_view(a.0@)) && elems_wf(a.0@),
                Ok(None) => index >= array_view(self.elems()).len(),
                Err(e) => index < array_view(self.elems()).len() && !(array_view(
                    self.elems(),
                )[index as int] is Array) && e.value@ == array_view(self.elems())[index as int],
            },
    {
        if index >= self.0.len() {
            proof {
                lemma_array_view_len(self.elems());
            }
            return Ok(None);
        }
        proof {
            lemma_array_view_index(self.elems(), index as int);
            lemma_elems_wf_index(self.elems());
        }
        match &self.0[index] {
            JsonValue::JsonArray(array) => Ok(Some(JsonArrayContainerRef(array))),
            value => Err(InvalidValueError { value }),
        }
    }

    /// A mutable view of the array at `index`.
    pub fn get_array_mut<'b>(&'b mut self, index: usize) -> (r: Result<
        Option<JsonArrayContainerMutRef<'b>>,
        InvalidValueError<'b>,
    >)
        requires
            elems_wf(old(self).elems()),
        ensures
            match r {
                Ok(Some(a)) => index < array_view(old(self).elems()).len() && array_view(
                    old(self).elems(),
                )[index as int] == SpecValue::Array(array_view(a.0@)) && elems_wf(a.0@)
                    && array_view(final (self).elems()) == array_view(old(self).elems()).update(
                    index as int,
                    SpecValue::Array(array_view(final (a.0)@)),
                ) && (elems_wf(final (a.0)@) ==> elems_wf(final (self).elems())),
                Ok(None) => index >= array_view(old(self).elems()).len() && final (self).elems()
                    == old(self).elems(),
                Err(e) => index < array_view(old(self).elems()).len() && !(array_view(
                    old(self).elems(),
                )[index as int] is Array) && e.value@ == array_view(old(self).elems())[index as int]
                    && final (self).elems() == old(self).elems(),
            },
    {
        proof {
            lemma_array_view_len(old(self).elems());
        }
        match array_get_mut(&mut *self.0, index) {
            Some(JsonValue::JsonArray(array)) => Ok(Some(JsonArrayContainerMutRef(array))),
            Some(value) => Err(InvalidValueError { value: &*value }),
            None => {
                proof {
                    lemma_array_view_len(old(self).elems());
                }
                Ok(None)
            },
        }
    }

    /// The decoded bytes of the string at `index`.
    pub fn get_string_ref<'b>(&'b self, index: usize) -> (r: Result<
        Option<&'b Vec<u8>>,
        InvalidValueError<'b>,
    >)
        requires
            elems_wf(self.elems()),
        ensures
            match r {
                Ok(Some(s)) => index < array_view(self.elems()).len() && array_view(
                    self.elems(),
                )[index as int] == SpecValue::String(s@),
                Ok(None) => index >= array_view(self.elems()).len(),
                Err(e) => index < array_view(self.elems()).len() && !(array_view(
                    self.elems(),
                )[index as int] is String) && e.value@ == array_view(self.elems())[index as int],
            },
    {
        if index >= self.0.len() {
            proof {
                lemma_array_view_len(self.elems());
            }
            return Ok(None);
        }
        proof {
            lemma_array_view_index(self.elems(), index as int);
            lemma_elems_wf_index(self.elems());
        }
        match &self.0[index] {
            JsonValue::JsonString(string) => Ok(Some(string)),
            value => Err(InvalidValueError { value }),
        }
    }

    /// A mutable handle on the decoded bytes of the string at
    /// `index`.
    pub fn get_string_mut<'b>(&'b mut self, index: usize) -> (r: Result<
        Option<&'b mut Vec<u8>>,
        InvalidValueError<'b>,
    >)
        requires
            elems_wf(old(self).elems()),
        ensures
            match r {
                Ok(Some(s)) => index < array_view(old(self).elems()).len() && array_view(
                    old(self).elems(),
                )[index as int] == SpecValue::String(s@) && array_view(final (self).elems())
                    == array_view(old(self).elems()).update(
                    index as int,
                    SpecValue::String(final (s)@),
                ) && elems_wf(final (self).elems()),
                Ok(None) => index >= array_view(old(self).elems()).len() && final (self).elems()
                    == old(self).elems(),
                Err(e) => index < array_view(old(self).elems()).len() && !(array_view(
                    old(self).elems(),
                )[index as int] is String) && e.value@ == array_view(old(self).elems())[index as int]
                    && final (self).elems() == old(self).elems(),
            },
    {
        proof {
            lemma_array_view_len(old(self).elems());
        }
        match array_get_mut(&mut *self.0, index) {
            Some(JsonValue::JsonString(string)) => Ok(Some(string)),
            Some(value) => Err(InvalidValueError { value: &*value }),
            None => {
                proof {
                    lemma_array_view_len(old(self).elems());
                }
                Ok(None)
            },
        }
    }

    /// The number at `index`.
    pub fn get_number<'b>(&'b self, index: usize) -> (r: Result<
        Option<JsonNumber>,
        InvalidValueError<'b>,
    >)
        requires
            elems_wf(self.elems()),
        ensures
            match r {
                Ok(Some(n)) => index < array_view(self.elems()).len() && array_view(
                    self.elems(),
                )[index as int] == SpecValue::Number(n),
                Ok(None) => index >= array_view(self.elems()).len(),
                Err(e) => index < array_view(self.elems()).len() && !(array_view(
                    self.elems(),
                )[index as int] is Number) && e.value@ == array_view(self.elems())[index as int],
            },
    {
        if index >= self.0.len() {
            proof {
                lemma_array_view_len(self.elems());
            }
            return Ok(None);
        }
        proof {
            lemma_array_view_index(self.elems(), index as int);
            lemma_elems_wf_index(self.elems());
        }
        match &self.0[index] {
            JsonValue::JsonNumber(number) => Ok(Some(*number)),
            value => Err(InvalidValueError { value }),
        }
    }

    /// A mutable handle on the number at `index`.
    pub fn get_number_mut<'b>(&'b mut self, index: usize) -> (r: Result<
        Option<&'b mut JsonNumber>,
        InvalidValueError<'b>,
    >)
        requires
            elems_wf(old(self).elems()),
        ensures
            match r {
                Ok(Some(n)) => index < array_view(old(self).elems()).len() && array_view(
                    old(self).elems(),
                )[index as int] == SpecValue::Number(*n) && array_view(final (self).elems())
                    == array_view(old(self).elems()).update(
                    index as int,
                    SpecValue::Number(*final (n)),
                ) && elems_wf(final (self).elems()),
                Ok(None) => index >= array_view(old(self).elems()).len() && final (self).elems()
                    == old(self).elems(),
                Err(e) => index < array_view(old(self).elems()).len() && !(array_view(
                    old(self).elems(),
                )[index as int] is Number) && e.value@ == array_view(old(self).elems())[index as int]
                    && final (self).elems() == old(self).elems(),
            },
    {
        proof {
            lemma_array_view_len(old(self).elems());
        }
        match array_get_mut(&mut *self.0, index) {
            Some(JsonValue::JsonNumber(number)) => Ok(Some(number)),
            Some(value) => Err(InvalidValueError { value: &*value }),
            None => {
                proof {
                    lemma_array_view_len(old(self).elems());
                }
                Ok(None)
            },
        }
    }

    /// The boolean at `index`.
    pub fn get_bool<'b>(&'b self, index: usize) -> (r: Result<Option<bool>, InvalidValueError<'b>>)
        requires
            elems_wf(self.elems()),
        ensures
            match r {
                Ok(Some(b)) => index < array_view(self.elems()).len() && array_view(
                    self.elems(),
                )[index as int] == SpecValue::Bool(b),
                Ok(None) => index >= array_view(self.elems()).len(),
                Err(e) => index < array_view(self.elems()).len() && !(array_view(
                    self.elems(),
                )[index as int] is Bool) && e.value@ == array_view(self.elems())[index as int],
            },
    {
        if index >= self.0.len() {
            proof {
                lemma_array_view_len(self.elems());
            }
            return Ok(None);
        }
        proof {
            lemma_array_view_index(self.elems(), index as int);
            lemma_elems_wf_index(self.elems());
        }
        match &self.0[index] {
            JsonValue::JsonBool(b) => Ok(Some(*b)),
            value => Err(InvalidValueError { value }),
        }
    }

    /// A mutable handle on the boolean at `index`.
    pub fn get_bool_mut<'b>(&'b mut self, index: usize) -> (r: Result<
        Option<&'b mut bool>,
        InvalidValueError<'b>,
    >)
        requires
            elems_wf(old(self).elems()),
        ensures
            match r {
                Ok(Some(b)) => index < array_view(old(self).elems()).len() && array_view(
                    old(self).elems(),
                )[index as int] == SpecValue::Bool(*b) && array_view(final (self).elems())
                    == array_view(old(self).elems()).update(
                    index as int,
                    SpecValue::Bool(*final (b)),
                ) && elems_wf(final (self).elems()),
                Ok(None) => index >= array_view(old(self).elems()).len() && final (self).elems()
                    == old(self).elems(),
                Err(e) => index < array_view(old(self).elems()).len() && !(array_view(
                    old(self).elems(),
                )[index as int] is Bool) && e.value@ == array_view(old(self).elems())[index as int]
                    && final (self).elems() == old(self).elems(),
            },
    {
        proof {
            lemma_array_view_len(old(self).elems());
        }
        match array_get_mut(&mut *self.0, index) {
            Some(JsonValue::JsonBool(b)) => Ok(Some(b)),
            Some(value) => Err(InvalidValueError { value: &*value }),
            None => {
                proof {
                    lemma_array_view_len(old(self).elems());
                }
                Ok(None)
            },
        }
    }

    /// Whether `index` is out of range or holds `null`.
    pub fn is_null(&self, index: usize) -> (r: bool)
        ensures
            r == (index >= array_view(self.elems()).len() || array_view(self.elems())[index as int]
                is Null),
    {
        proof {
            lemma_array_view_len(self.elems());
            if index < self.0.len() {
                lemma_array_view_index(self.elems(), index as int);
            }
        }
        if index >= self.0.len() {
            return true;
        }
        match &self.0[index] {
            JsonValue::Null => true,
            _ => false,
        }
    }

    /// The number of elements.
    pub fn lenght(&self) -> (r: usize)
        ensures
            r == array_view(self.elems()).len(),
    {
        proof {
            lemma_array_view_len(self.elems());
        }
        self.0.len()
    }
}

/// The failure of a typed accessor: the requested variant did not match
/// the value found, which the error borrows.
#[derive(Debug)]
pub struct InvalidValueError<'a> {
    pub value: &'a JsonValue,
}

impl<'a> InvalidValueError<'a> {
    /// A short statement of what went wrong.
    pub fn description(&self) -> (r: &'static str)
        ensures
            r@ == "Invalid json value type"@,
    {
        "Invalid json value type"
    }
}

impl JsonValue {
    /// Well-formedness of the tree: within each object the keys are
    /// pairwise distinct, recursively.
    pub open spec fn wf(&self) -> bool
        decreases self,
    {
        match self {
            JsonValue::JsonObject(entries) => keys_distinct(entries@) && entries_wf(entries@),
            JsonValue::JsonArray(elems) => elems_wf(elems@),
            _ => true,
        }
    }

    pub fn is_object(&self) -> (r: bool)
        ensures
            r == (self@ is Object),
    {
        match *self {
            JsonValue::JsonObject(_) => true,
            _ => false,
        }
    }

    pub fn is_array(&self) -> (r: bool)
        ensures
            r == (self@ is Array),
    {
        match *self {
            JsonValue::JsonArray(_) => true,
            _ => false,
        }
    }

    pub fn is_number(&self) -> (r: bool)
        ensures
            r == (self@ is Number),
    {
        match *self {
            JsonValue::JsonNumber(_) => true,
            _ => false,
        }
    }

    pub fn is_string(&self) -> (r: bool)
        ensures
            r == (self@ is String),
    {
        match *self {
            JsonValue::JsonString(_) => true,
            _ => false,
        }
    }

    pub fn is_bool(&self) -> (r: bool)
        ensures
            r == (self@ is Bool),
    {
        match *self {
            JsonValue::JsonBool(_) => true,
            _ => false,
        }
    }

    pub fn is_null(&self) -> (r: bool)
        ensures
            r == (self@ is Null),
    {
        match *self {
            JsonValue::Null => true,
            _ => false,
        }
    }

    /// The name of the variant this value holds.
    pub fn desc(&self) -> (r: &'static str)
        ensures
            self@ is Object ==> r@ == "JsonObject"@,
            self@ is Array ==> r@ == "JsonArray"@,
            self@ is Number ==> r@ == "JsonNumber"@,
            self@ is String ==> r@ == "JsonString"@,
            self@ is Bool ==> r@ == "JsonBool"@,
            self@ is Null ==> r@ == "Null"@,
    {
        match *self {
            JsonValue::JsonObject(_) => "JsonObject",
            JsonValue::JsonArray(_) => "JsonArray",
            JsonValue::JsonNumber(_) => "JsonNumber",
            JsonValue::JsonString(_) => "JsonString",
            JsonValue::JsonBool(_) => "JsonBool",
            JsonValue::Null => "Null",
        }
    }

    /// A typed view of an object value; any other variant is refused,
    /// naming the value found.
    pub fn get_object_ref<'a>(&'a self) -> (r: Result<
        JsonObjectContainerRef<'a>,
        InvalidValueError<'a>,
    >)
        requires
            self.wf(),
        ensures
            match r {
                Ok(o) => self@ == SpecValue::Object(object_view(o.0@)) && keys_distinct(o.0@)
                    && entries_wf(o.0@),
                Err(e) => !(self@ is Object) && e.value@ == self@,
            },
    {
        match self {
            JsonValue::JsonObject(object) => Ok(JsonObjectContainerRef(object)),
            value => Err(InvalidValueError { value }),
        }
    }

    /// A mutable typed view of an object value.
    pub fn get_object_mut<'a>(&'a mut self) -> (r: Result<
        JsonObjectContainerMutRef<'a>,
        InvalidValueError<'a>,
    >)
        requires
            old(self).wf(),
        ensures
            match r {
                Ok(o) => old(self)@ == SpecValue::Object(object_view(o.0@)) && keys_distinct(o.0@)
                    && entries_wf(o.0@) && final (self)@ == SpecValue::Object(
                    object_view(final (o.0)@),
                ) && (final (self).wf() <== keys_distinct(final (o.0)@) && entries_wf(
                    final (o.0)@,
                )),
                Err(e) => !(old(self)@ is Object) && *final (self) == *old(self) && e.value@ == old(
                    self,
                )@,
            },
    {
        match self {
            JsonValue::JsonObject(object) => Ok(JsonObjectContainerMutRef(object)),
            value => Err(InvalidValueError { value: &*value }),
        }
    }

    /// A typed view of an array value.
    pub fn get_array_ref<'a>(&'a self) -> (r: Result<
        JsonArrayContainerRef<'a>,
        InvalidValueError<'a>,
    >)
        requires
            self.wf(),
        ensures
            match r {
                Ok(a) => self@ == SpecValue::Array(array_view(a.0@)) && elems_wf(a.0@),
                Err(e) => !(self@ is Array) && e.value@ == self@,
            },
    {
        match self {
            JsonValue::JsonArray(array) => Ok(JsonArrayContainerRef(array)),
            value => Err(InvalidValueError { value }),
        }
    }

    /// A mutable typed view of an array value.
    pub fn get_array_mut<'a>(&'a mut self) -> (r: Result<
        JsonArrayContainerMutRef<'a>,
        InvalidValueError<'a>,
    >)
        requires
            old(self).wf(),
        ensures
            match r {
                Ok(a) => old(self)@ == SpecValue::Array(array_view(a.0@)) && elems_wf(a.0@)
                    && final (self)@ == SpecValue::Array(array_view(final (a.0)@)) && (final (
                self).wf() <== elems_wf(final (a.0)@)),
                Err(e) => !(old(self)@ is Array) && *final (self) == *old(self) && e.value@ == old(
                    self,
                )@,
            },
    {
        match self {
            JsonValue::JsonArray(array) => Ok(JsonArrayContainerMutRef(array)),
            value => Err(InvalidValueError { value: &*value }),
        }
    }

    /// The decoded bytes of a string value.
    pub fn get_string_ref<'a>(&'a self) -> (r: Result<&'a Vec<u8>, InvalidValueError<'a>>)
        ensures
            match r {
                Ok(s) => self@ == SpecValue::String(s@),
                Err(e) => !(self@ is String) && e.value@ == self@,
            },
    {
        match self {
            JsonValue::JsonString(string) => Ok(string),
            value => Err(InvalidValueError { value }),
        }
    }

    /// Mutable access to the decoded bytes of a string value.
    pub fn get_string_mut<'a>(&'a mut self) -> (r: Result<&'a mut Vec<u8>, InvalidValueError<'a>>)
        ensures
            match r {
                Ok(s) => old(self)@ == SpecValue::String(s@) && final (self)@ == SpecValue::String(
                    final (s)@,
                ) && final (self).wf(),
                Err(e) => !(old(self)@ is String) && *final (self) == *old(self) && e.value@ == old(
                    self,
                )@,
            },
    {
        match self {
            JsonValue::JsonString(string) => Ok(string),
            value => Err(InvalidValueError { value: &*value }),
        }
    }

    /// The decoded literal of a number value.
    pub fn get_number<'a>(&'a self) -> (r: Result<JsonNumber, InvalidValueError<'a>>)
        ensures
            match r {
                Ok(n) => self@ == SpecValue::Number(n),
                Err(e) => !(self@ is Number) && e.value@ == self@,
            },
    {
        match self {
            JsonValue::JsonNumber(number) => Ok(*number),
            value => Err(InvalidValueError { value }),
        }
    }

    /// Mutable access to the decoded literal of a number value.
    pub fn get_number_mut<'a>(&'a mut self) -> (r: Result<
        &'a mut JsonNumber,
        InvalidValueError<'a>,
    >)
        ensures
            match r {
                Ok(n) => old(self)@ == SpecValue::Number(*n) && final (self)@ == SpecValue::Number(
                    *final (n),
                ) && final (self).wf(),
                Err(e) => !(old(self)@ is Number) && *final (self) == *old(self) && e.value@ == old(
                    self,
                )@,
            },
    {
        match self {
            JsonValue::JsonNumber(number) => Ok(number),
            value => Err(InvalidValueError { value: &*value }),
        }
    }

    /// The truth value of a boolean value.
    pub fn get_bool<'a>(&'a self) -> (r: Result<bool, InvalidValueError<'a>>)
        ensures
            match r {
                Ok(b) => self@ == SpecValue::Bool(b),
                Err(e) => !(self@ is Bool) && e.value@ == self@,
            },
    {
        match self {
            JsonValue::JsonBool(b) => Ok(*b),
            value => Err(InvalidValueError { value }),
        }
    }

    /// Mutable access to the truth value of a boolean value.
    pub fn get_bool_mut<'a>(&'a mut self) -> (r: Result<&'a mut bool, InvalidValueError<'a>>)
        ensures
            match r {
                Ok(b) => old(self)@ == SpecValue::Bool(*b) && final (self)@ == SpecValue::Bool(
                    *final (b),
                ) && final (self).wf(),
                Err(e) => !(old(self)@ is Bool) && *final (self) == *old(self) && e.value@ == old(
                    self,
                )@,
            },
    {
        match self {
            JsonValue::JsonBool(b) => Ok(b),
            value => Err(InvalidValueError { value: &*value }),
        }
    }
}

} // verus!
