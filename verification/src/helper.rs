//! `JsonLikeHelper`: the operations that a jq-style query engine performs on
//! values (reading children, slicing, updating through paths, addition).

use vstd::prelude::*;

use crate::bounds::{abs_bound, abs_index, skip_take, spec_abs_bound, spec_take};
use crate::error::{spec_fail, JqError, PathError, PathOpt};
use crate::value::{
    entry_view, insert_entry, keys_unique, lemma_has_key, lemma_remove_unique, lookup, remove_entry,
    EntryView, JsonNumber, JsonObject, JsonValue,
};

verus! {

/// A JSON-like value as the query engine sees it.
#[derive(Debug, PartialEq)]
pub struct JsonLikeHelper(pub JsonValue);

/// What indexing `v` with `idx` yields: the value bound to a string key of an
/// object (`null` when unbound), or the element of an array at an unsigned
/// position (`null` past the end).
pub open spec fn spec_index(v: JsonValue, idx: JsonValue) -> Result<JsonValue, JqError> {
    match v {
        JsonValue::Object(o) => match idx.str_view() {
            None => Err(JqError::KeyNotString),
            Some(k) => Ok(
                match lookup(o@, k) {
                    Some(x) => x,
                    None => JsonValue::Null,
                },
            ),
        },
        JsonValue::Array(a) => match idx.u64_value() {
            None => Err(JqError::IndexNotU64),
            Some(n) => Ok(if n < a@.len() { a@[n as int] } else { JsonValue::Null }),
        },
        _ => Err(JqError::NotObjectOrArray),
    }
}

/// The children of `v`: the elements of an array, or the values of an
/// object in entry order.
pub open spec fn spec_values(v: JsonValue) -> Result<Seq<JsonValue>, JqError> {
    match v {
        JsonValue::Array(a) => Ok(a@),
        JsonValue::Object(o) => Ok(o@.map_values(|e: EntryView| e.1)),
        _ => Err(JqError::NotObjectOrArray),
    }
}

/// Truthiness: everything but `false` and `null` is true.
pub open spec fn spec_truthy(v: JsonValue) -> bool {
    match v {
        JsonValue::Bool(b) => b,
        JsonValue::Null => false,
        _ => true,
    }
}

/// The text of a value: a string itself, or the name of a boolean.
pub open spec fn spec_text(v: JsonValue) -> Option<Seq<char>> {
    match v {
        JsonValue::String(s) => Some(s@),
        JsonValue::Bool(true) => Some("true"@),
        JsonValue::Bool(false) => Some("false"@),
        _ => None,
    }
}

/// The value inside an optional bound.
pub open spec fn bound_value(b: Option<&JsonLikeHelper>) -> Option<JsonValue> {
    match b {
        Some(h) => Some(h.0),
        None => None,
    }
}

/// The bounds of a slice `.[from:upto]`: both must be integers that fit in
/// `isize`; the start is checked first.
pub open spec fn spec_slice_bounds(from: Option<JsonValue>, upto: Option<JsonValue>) -> Result<
    (int, int),
    JqError,
> {
    let f = match from {
        Some(v) => v.i64_value(),
        None => None,
    };
    let u = match upto {
        Some(v) => v.i64_value(),
        None => None,
    };
    match f {
        None => Err(JqError::FromNotNumber),
        Some(f) => match u {
            None => Err(JqError::UptoNotNumber),
            Some(u) => if !(isize::MIN <= f <= isize::MAX) {
                Err(JqError::FromNotIsize)
            } else if !(isize::MIN <= u <= isize::MAX) {
                Err(JqError::UptoNotIsize)
            } else {
                Ok((f as int, u as int))
            },
        },
    }
}

/// First position covered by the slice `from..upto` of a sequence of
/// length `len`.
pub open spec fn slice_lo(from: Option<int>, len: int) -> int {
    spec_abs_bound(from, len, 0)
}

/// Position just past the slice `from..upto` of a sequence of length `len`
/// (never before its first position).
pub open spec fn slice_hi(from: Option<int>, upto: Option<int>, len: int) -> int {
    let lo = slice_lo(from, len);
    lo + spec_take(lo, spec_abs_bound(upto, len, len))
}

/// The slice positions lie inside the sequence.
pub proof fn lemma_slice_in_bounds(from: Option<int>, upto: Option<int>, len: int)
    requires
        0 <= len,
    ensures
        0 <= slice_lo(from, len) <= slice_hi(from, upto, len) <= len,
{
}

/// Reads the integer bounds of a slice.
fn slice_bounds(from: Option<&JsonLikeHelper>, upto: Option<&JsonLikeHelper>) -> (r: Result<
    (isize, isize),
    JqError,
>)
    ensures
        match spec_slice_bounds(bound_value(from), bound_value(upto)) {
            Ok((f, u)) => r matches Ok((f2, u2)) && f2 == f && u2 == u,
            Err(e) => r == Err::<(isize, isize), JqError>(e),
        },
{
    let f = match from {
        Some(h) => h.0.as_i64(),
        None => None,
    };
    let u = match upto {
        Some(h) => h.0.as_i64(),
        None => None,
    };
    let f = match f {
        Some(f) => f,
        None => return Err(JqError::FromNotNumber),
    };
    let u = match u {
        Some(u) => u,
        None => return Err(JqError::UptoNotNumber),
    };
    if !(isize::MIN as i64 <= f && f <= isize::MAX as i64) {
        return Err(JqError::FromNotIsize);
    }
    if !(isize::MIN as i64 <= u && u <= isize::MAX as i64) {
        return Err(JqError::UptoNotIsize);
    }
    Ok((f as isize, u as isize))
}

/// The entries of `s` with those of `t` bound over them, in the order of
/// `t`: a key of `t` replaces the value of an equal key of `s` where it
/// stands, a new key goes to the end.
pub open spec fn merge_entries(s: Seq<EntryView>, t: Seq<EntryView>) -> Seq<EntryView>
    decreases t.len(),
{
    if t.len() == 0 {
        s
    } else {
        insert_entry(merge_entries(s, t.drop_last()), t.last().0, t.last().1)
    }
}

/// The object built from key-value pairs, binding them in order: a key must
/// be a string, and a later binding of a key replaces an earlier one.
pub open spec fn spec_from_pairs(p: Seq<(JsonLikeHelper, JsonLikeHelper)>) -> Result<
    Seq<EntryView>,
    JqError,
>
    decreases p.len(),
{
    if p.len() == 0 {
        Ok(Seq::empty())
    } else {
        match spec_from_pairs(p.drop_last()) {
            Err(e) => Err(e),
            Ok(s) => match p.last().0.0.str_view() {
                None => Err(JqError::KeyNotString),
                Some(k) => Ok(insert_entry(s, k, p.last().1.0)),
            },
        }
    }
}

/// Once a prefix of the pairs fails, all of them fail with the same error.
proof fn lemma_from_pairs_prefix_err(p: Seq<(JsonLikeHelper, JsonLikeHelper)>, i: int)
    requires
        0 <= i <= p.len(),
        spec_from_pairs(p.take(i)) is Err,
    ensures
        spec_from_pairs(p) == spec_from_pairs(p.take(i)),
    decreases p.len() - i,
{
    if i < p.len() {
        assert(p.take(i + 1).drop_last() =~= p.take(i));
        lemma_from_pairs_prefix_err(p, i + 1);
    } else {
        assert(p.take(i) =~= p);
    }
}

/// The value at key `k` of `s`, `null` when unbound.
pub open spec fn lookup_or_null(s: Seq<EntryView>, k: Seq<char>) -> JsonValue {
    match lookup(s, k) {
        Some(x) => x,
        None => JsonValue::Null,
    }
}

/// The outcome of updating the binding of `k` in an object with entries `s`
/// when the update function's first output is `out`: a value rebinds the key
/// (in place, or at the end if it was unbound), no output removes it, and an
/// exception is raised.
pub open spec fn object_index_outcome<E>(
    s: Seq<EntryView>,
    k: Seq<char>,
    out: Option<Result<JsonLikeHelper, E>>,
    r: Result<JsonLikeHelper, PathError<E>>,
) -> bool {
    match out {
        Some(Err(e)) => r == Err::<JsonLikeHelper, PathError<E>>(PathError::Raised(e)),
        Some(Ok(v)) => r matches Ok(h) && h.0 matches JsonValue::Object(o) && o@ == insert_entry(
            s,
            k,
            v.0,
        ),
        None => r matches Ok(h) && h.0 matches JsonValue::Object(o) && o@ == remove_entry(s, k),
    }
}

/// The outcome of updating position `n` of an array with elements `a` when
/// the update function's first output is `out`: a value replaces the
/// element, no output removes it, and an exception is raised.
pub open spec fn array_index_outcome<E>(
    a: Seq<JsonValue>,
    n: int,
    out: Option<Result<JsonLikeHelper, E>>,
    r: Result<JsonLikeHelper, PathError<E>>,
) -> bool {
    match out {
        Some(Err(e)) => r == Err::<JsonLikeHelper, PathError<E>>(PathError::Raised(e)),
        Some(Ok(v)) => r matches Ok(h) && h.0 matches JsonValue::Array(b) && b@ == a.update(n, v.0),
        None => r matches Ok(h) && h.0 matches JsonValue::Array(b) && b@ == a.remove(n),
    }
}

/// Updates the binding of `key` in `obj` with the first output of `f`.
fn update_key<E, F: Fn(JsonLikeHelper) -> Option<Result<JsonLikeHelper, E>>>(
    obj: JsonObject,
    key: String,
    f: F,
) -> (res: (Result<JsonLikeHelper, PathError<E>>, Ghost<Option<Result<JsonLikeHelper, E>>>))
    requires
        forall|v: JsonLikeHelper| f.requires((v,)),
    ensures
        f.ensures((JsonLikeHelper(lookup_or_null(obj@, key@)),), res.1@),
        object_index_outcome(obj@, key@, res.1@, res.0),
{
    let mut obj = obj;
    let ghost s = obj@;
    let ghost k = key@;
    match obj.find(&key) {
        Some(i) => {
            proof {
                lemma_has_key(s, k);
                lemma_remove_unique(s, i as int);
            }
            let (stored, item) = obj.remove_at(i);
            let ghost arg = JsonLikeHelper(item);
            let out = f(JsonLikeHelper(item));
            let r = match out {
                Some(Ok(v)) => {
                    obj.insert_at(i, stored, v.0);
                    proof {
                        assert(obj@ =~= s.update(i as int, (k, v.0)));
                    }
                    Ok(JsonLikeHelper(JsonValue::Object(obj)))
                },
                None => Ok(JsonLikeHelper(JsonValue::Object(obj))),
                Some(Err(e)) => Err(PathError::Raised(e)),
            };
            assert(lookup_or_null(s, k) == arg.0);
            (r, Ghost(out))
        },
        None => {
            let out = f(JsonLikeHelper(JsonValue::Null));
            let r = match out {
                Some(Ok(v)) => {
                    obj.push_new(key, v.0);
                    Ok(JsonLikeHelper(JsonValue::Object(obj)))
                },
                None => Ok(JsonLikeHelper(JsonValue::Object(obj))),
                Some(Err(e)) => Err(PathError::Raised(e)),
            };
            (r, Ghost(out))
        },
    }
}

/// Updates position `i` of `arr` with the first output of `f`.
fn update_position<E, F: Fn(JsonLikeHelper) -> Option<Result<JsonLikeHelper, E>>>(
    arr: Vec<JsonValue>,
    i: usize,
    f: F,
) -> (res: (Result<JsonLikeHelper, PathError<E>>, Ghost<Option<Result<JsonLikeHelper, E>>>))
    requires
        forall|v: JsonLikeHelper| f.requires((v,)),
        i < arr@.len(),
    ensures
        f.ensures((JsonLikeHelper(arr@[i as int]),), res.1@),
        array_index_outcome(arr@, i as int, res.1@, res.0),
{
    let mut arr = arr;
    let ghost a = arr@;
    let item = arr.remove(i);
    let out = f(JsonLikeHelper(item));
    let r = match out {
        Some(Ok(v)) => {
            arr.insert(i, v.0);
            proof {
                assert(arr@ =~= a.update(i as int, v.0));
            }
            Ok(JsonLikeHelper(JsonValue::Array(arr)))
        },
        None => Ok(JsonLikeHelper(JsonValue::Array(arr))),
        Some(Err(e)) => Err(PathError::Raised(e)),
    };
    (r, Ghost(out))
}

/// The bound of a slice update: absent, or not an integer, leaves the side
/// open; an integer must fit in `isize`.
pub open spec fn spec_update_bound(b: Option<JsonValue>) -> Option<Option<int>> {
    match b {
        Some(v) => match v.i64_value() {
            Some(x) => if isize::MIN <= x <= isize::MAX {
                Some(Some(x as int))
            } else {
                None
            },
            None => Some(None),
        },
        None => Some(None),
    }
}

/// The values of a sequence of wrapped values.
pub open spec fn inner_values(s: Seq<JsonLikeHelper>) -> Seq<JsonValue> {
    s.map_values(|h: JsonLikeHelper| h.0)
}

/// The outputs of an update function, one sequence per child, joined.
pub open spec fn flatten_outputs(outs: Seq<Vec<JsonLikeHelper>>) -> Seq<JsonValue>
    decreases outs.len(),
{
    if outs.len() == 0 {
        Seq::empty()
    } else {
        flatten_outputs(outs.drop_last()) + inner_values(outs.last()@)
    }
}

/// The entries kept by an object update: entry `i` keeps its key with the
/// new value `outs[i]`, or is dropped when there is none.
pub open spec fn filter_entries(s: Seq<EntryView>, outs: Seq<Option<JsonLikeHelper>>) -> Seq<EntryView>
    decreases outs.len(),
{
    if outs.len() == 0 || s.len() == 0 {
        Seq::empty()
    } else {
        let rest = filter_entries(s.drop_last(), outs.drop_last());
        match outs.last() {
            Some(v) => rest.push((s.last().0, v.0)),
            None => rest,
        }
    }
}

/// The first output of an update function that did not raise an exception.
pub open spec fn first_output<E>(x: Option<JsonLikeHelper>) -> Option<Result<JsonLikeHelper, E>> {
    match x {
        Some(v) => Some(Ok(v)),
        None => None,
    }
}

/// Applies `f` to the slice `lo..hi` of `arr` and puts all its outputs in
/// place of the slice.
fn update_slice<E, G: Fn(JsonLikeHelper) -> Result<Vec<JsonLikeHelper>, E>>(
    arr: Vec<JsonValue>,
    lo: usize,
    hi: usize,
    f: G,
) -> (res: (Result<JsonLikeHelper, PathError<E>>, Ghost<(JsonLikeHelper, Result<Vec<JsonLikeHelper>, E>)>))
    requires
        forall|v: JsonLikeHelper| f.requires((v,)),
        lo <= hi <= arr@.len(),
    ensures
        res.1@.0.0 matches JsonValue::Array(m) && m@ == arr@.subrange(lo as int, hi as int),
        f.ensures((res.1@.0,), res.1@.1),
        match res.1@.1 {
            Ok(vals) => res.0 matches Ok(h) && h.0 matches JsonValue::Array(b) && b@ == arr@.subrange(
                0,
                lo as int,
            ) + inner_values(vals@) + arr@.subrange(hi as int, arr@.len() as int),
            Err(e) => res.0 == Err::<JsonLikeHelper, PathError<E>>(PathError::Raised(e)),
        },
{
    let ghost a = arr@;
    let mut arr = arr;
    let mut tail = arr.split_off(hi);
    let mid = arr.split_off(lo);
    let ghost arg = JsonLikeHelper(JsonValue::Array(mid));
    let out = f(JsonLikeHelper(JsonValue::Array(mid)));
    match out {
        Ok(vals) => {
            let ghost vs = vals@;
            for v in it: vals.into_iter()
                invariant
                    it.seq() == vs,
                    arr@ == a.subrange(0, lo as int) + inner_values(vs.take(it.index())),
            {
                let ghost i = it.index();
                arr.push(v.0);
                proof {
                    assert(inner_values(vs.take(i + 1)) =~= inner_values(vs.take(i)).push(v.0));
                }
            }
            proof {
                assert(vs.take(vs.len() as int) =~= vs);
            }
            arr.append(&mut tail);
            (Ok(JsonLikeHelper(JsonValue::Array(arr))), Ghost((arg, out)))
        },
        Err(e) => (Err(PathError::Raised(e)), Ghost((arg, out))),
    }
}

/// Applies `f` to each element of `arr` in order and collects all outputs,
/// stopping at the first exception.
fn update_elements<E, G: Fn(JsonLikeHelper) -> Result<Vec<JsonLikeHelper>, E>>(
    arr: Vec<JsonValue>,
    f: G,
) -> (res: (Result<JsonLikeHelper, PathError<E>>, Ghost<Seq<Vec<JsonLikeHelper>>>))
    requires
        forall|v: JsonLikeHelper| f.requires((v,)),
    ensures
        forall|j: int|
            0 <= j < res.1@.len() ==> f.ensures(
                (JsonLikeHelper(arr@[j]),),
                Ok::<Vec<JsonLikeHelper>, E>(#[trigger] res.1@[j]),
            ),
        match res.0 {
            Ok(h) => res.1@.len() == arr@.len() && (h.0 matches JsonValue::Array(b) && b@
                == flatten_outputs(res.1@)),
            Err(PathError::Raised(e)) => res.1@.len() < arr@.len() && f.ensures(
                (JsonLikeHelper(arr@[res.1@.len() as int]),),
                Err::<Vec<JsonLikeHelper>, E>(e),
            ),
            Err(PathError::Failed(_)) => false,
        },
{
    let ghost a = arr@;
    let mut out_vals: Vec<JsonValue> = Vec::new();
    let ghost mut outs: Seq<Vec<JsonLikeHelper>> = Seq::empty();
    for x in it: arr.into_iter()
        invariant
            it.seq() == a,
            forall|v: JsonLikeHelper| f.requires((v,)),
            outs.len() == it.index(),
            forall|j: int|
                0 <= j < outs.len() ==> f.ensures(
                    (JsonLikeHelper(a[j]),),
                    Ok::<Vec<JsonLikeHelper>, E>(#[trigger] outs[j]),
                ),
            out_vals@ == flatten_outputs(outs),
    {
        let ghost i = it.index();
        let res = f(JsonLikeHelper(x));
        match res {
            Ok(vals) => {
                let ghost vs = vals@;
                let ghost base = out_vals@;
                let ghost vals_ghost = vals;
                for v in it2: vals.into_iter()
                    invariant
                        it2.seq() == vs,
                        out_vals@ == base + inner_values(vs.take(it2.index())),
                {
                    let ghost k = it2.index();
                    out_vals.push(v.0);
                    proof {
                        assert(inner_values(vs.take(k + 1)) =~= inner_values(vs.take(k)).push(v.0));
                    }
                }
                proof {
                    assert(vs.take(vs.len() as int) =~= vs);
                    let old_outs = outs;
                    outs = outs.push(vals_ghost);
                    assert(outs.drop_last() =~= old_outs);
                }
            },
            Err(e) => {
                return (Err(PathError::Raised(e)), Ghost(outs));
            },
        }
    }
    (Ok(JsonLikeHelper(JsonValue::Array(out_vals))), Ghost(outs))
}

/// Applies `f` to each value of an object's entries in order and keeps each
/// key with the first output, dropping the entry when there is none and
/// stopping at the first exception.
fn update_entries<E, F: Fn(JsonLikeHelper) -> Option<Result<JsonLikeHelper, E>>>(
    obj: JsonObject,
    f: F,
) -> (res: (Result<JsonLikeHelper, PathError<E>>, Ghost<Seq<Option<JsonLikeHelper>>>))
    requires
        forall|v: JsonLikeHelper| f.requires((v,)),
    ensures
        forall|j: int|
            0 <= j < res.1@.len() ==> f.ensures(
                (JsonLikeHelper(obj@[j].1),),
                first_output::<E>(#[trigger] res.1@[j]),
            ),
        match res.0 {
            Ok(h) => res.1@.len() == obj@.len() && (h.0 matches JsonValue::Object(o) && o@
                == filter_entries(obj@, res.1@)),
            Err(PathError::Raised(e)) => res.1@.len() < obj@.len() && f.ensures(
                (JsonLikeHelper(obj@[res.1@.len() as int].1),),
                Some(Err::<JsonLikeHelper, E>(e)),
            ),
            Err(PathError::Failed(_)) => false,
        },
{
    let ghost s = obj@;
    let entries = obj.into_entries();
    let mut kept = JsonObject::new();
    let ghost mut outs: Seq<Option<JsonLikeHelper>> = Seq::empty();
    for e in it: entries.into_iter()
        invariant
            it.seq() == entries@,
            entries@.map_values(|e: (String, JsonValue)| entry_view(e)) == s,
            s == obj@,
            keys_unique(s),
            forall|v: JsonLikeHelper| f.requires((v,)),
            outs.len() == it.index(),
            forall|j: int|
                0 <= j < outs.len() ==> f.ensures(
                    (JsonLikeHelper(s[j].1),),
                    first_output::<E>(#[trigger] outs[j]),
                ),
            kept@ == filter_entries(s.take(it.index()), outs),
            forall|j: int|
                0 <= j < kept@.len() ==> exists|m: int|
                    0 <= m < it.index() && #[trigger] kept@[j].0 == s[m].0,
    {
        let ghost i = it.index();
        assert(s[i] == entry_view(entries@[i]));
        let (key, value) = e;
        let res = f(JsonLikeHelper(value));
        let ghost before = kept@;
        proof {
            assert(s.take(i + 1).drop_last() =~= s.take(i));
        }
        match res {
            Some(Ok(v)) => {
                proof {
                    assert forall|j: int| 0 <= j < before.len() implies #[trigger] before[j].0 != key@ by {
                        let m = choose|m: int| 0 <= m < i && #[trigger] before[j].0 == s[m].0;
                        assert(s[m].0 != s[i].0);
                    }
                }
                let ghost vv = v;
                kept.push_new(key, v.0);
                proof {
                    let old_outs = outs;
                    outs = outs.push(Some(vv));
                    assert(outs.drop_last() =~= old_outs);
                    assert forall|j: int| 0 <= j < kept@.len() implies exists|m: int|
                        0 <= m < i + 1 && #[trigger] kept@[j].0 == s[m].0 by {
                        if j == before.len() {
                            assert(kept@[j].0 == s[i].0);
                        } else {
                            assert(kept@[j] == before[j]);
                            let m = choose|m: int| 0 <= m < i && #[trigger] before[j].0 == s[m].0;
                            assert(kept@[j].0 == s[m].0);
                        }
                    }
                }
            },
            None => {
                proof {
                    let old_outs = outs;
                    outs = outs.push(None);
                    assert(outs.drop_last() =~= old_outs);
                    assert forall|j: int| 0 <= j < kept@.len() implies exists|m: int|
                        0 <= m < i + 1 && #[trigger] kept@[j].0 == s[m].0 by {
                        let m = choose|m: int| 0 <= m < i && #[trigger] before[j].0 == s[m].0;
                        assert(kept@[j].0 == s[m].0);
                    }
                }
            },
            Some(Err(x)) => {
                return (Err(PathError::Raised(x)), Ghost(outs));
            },
        }
    }
    proof {
        assert(s.take(s.len() as int) =~= s);
    }
    (Ok(JsonLikeHelper(JsonValue::Object(kept))), Ghost(outs))
}

/// Reads a bound of a slice update.
fn update_bound(b: Option<&JsonLikeHelper>) -> (r: Option<Option<isize>>)
    ensures
        match spec_update_bound(bound_value(b)) {
            Some(Some(x)) => r == Some(Some(x as isize)),
            Some(None) => r == Some(None::<isize>),
            None => r is None,
        },
{
    match b {
        Some(h) => match h.0.as_i64() {
            Some(x) => {
                if isize::MIN as i64 <= x && x <= isize::MAX as i64 {
                    Some(Some(x as isize))
                } else {
                    None
                }
            },
            None => Some(None),
        },
        None => Some(None),
    }
}

impl core::ops::Deref for JsonLikeHelper {
    type Target = JsonValue;

    fn deref(&self) -> (r: &JsonValue)
        ensures
            *r == self.0,
    {
        &self.0
    }
}

impl From<JsonValue> for JsonLikeHelper {
    fn from(v: JsonValue) -> (r: JsonLikeHelper) {
        JsonLikeHelper(v)
    }
}

impl vstd::std_specs::convert::FromSpecImpl<JsonValue> for JsonLikeHelper {
    open spec fn obeys_from_spec() -> bool {
        true
    }

    open spec fn from_spec(v: JsonValue) -> JsonLikeHelper {
        JsonLikeHelper(v)
    }
}

impl From<String> for JsonLikeHelper {
    fn from(s: String) -> (r: JsonLikeHelper) {
        JsonLikeHelper(JsonValue::String(s))
    }
}

impl vstd::std_specs::convert::FromSpecImpl<String> for JsonLikeHelper {
    open spec fn obeys_from_spec() -> bool {
        true
    }

    open spec fn from_spec(s: String) -> JsonLikeHelper {
        JsonLikeHelper(JsonValue::String(s))
    }
}

impl From<bool> for JsonLikeHelper {
    fn from(b: bool) -> (r: JsonLikeHelper) {
        JsonLikeHelper(JsonValue::Bool(b))
    }
}

impl vstd::std_specs::convert::FromSpecImpl<bool> for JsonLikeHelper {
    open spec fn obeys_from_spec() -> bool {
        true
    }

    open spec fn from_spec(b: bool) -> JsonLikeHelper {
        JsonLikeHelper(JsonValue::Bool(b))
    }
}

/// The number that stands for the integer `i`.
pub open spec fn isize_number(i: isize) -> JsonNumber {
    if i >= 0 {
        JsonNumber::PosInt(i as u64)
    } else {
        JsonNumber::NegInt(i as i64)
    }
}

impl From<isize> for JsonLikeHelper {
    fn from(i: isize) -> (r: JsonLikeHelper) {
        if i >= 0 {
            JsonLikeHelper(JsonValue::Number(JsonNumber::PosInt(i as u64)))
        } else {
            JsonLikeHelper(JsonValue::Number(JsonNumber::NegInt(i as i64)))
        }
    }
}

impl vstd::std_specs::convert::FromSpecImpl<isize> for JsonLikeHelper {
    open spec fn obeys_from_spec() -> bool {
        true
    }

    open spec fn from_spec(i: isize) -> JsonLikeHelper {
        JsonLikeHelper(JsonValue::Number(isize_number(i)))
    }
}

impl JsonLikeHelper {
    /// The array of the given items.
    pub fn from_items(items: Vec<JsonLikeHelper>) -> (r: JsonLikeHelper)
        ensures
            r.0 matches JsonValue::Array(a) && a@ == items@.map_values(|h: JsonLikeHelper| h.0),
    {
        let mut out: Vec<JsonValue> = Vec::new();
        for h in it: items.into_iter()
            invariant
                it.seq() == items@,
                out@ == it.seq().take(it.index()).map_values(|h: JsonLikeHelper| h.0),
        {
            out.push(h.0);
            proof {
                assert(out@ =~= it.seq().take(it.index() + 1).map_values(|h: JsonLikeHelper| h.0));
            }
        }
        proof {
            assert(items@.take(items@.len() as int) =~= items@);
        }
        JsonLikeHelper(JsonValue::Array(out))
    }

    /// Truthiness of the value.
    pub fn as_bool(&self) -> (r: bool)
        ensures
            r == spec_truthy(self.0),
    {
        match &self.0 {
            JsonValue::Bool(b) => *b,
            v => !v.is_null(),
        }
    }

    /// The text of the value: a string itself, or `"true"` / `"false"` for a
    /// boolean.
    pub fn as_str(&self) -> (r: Option<&str>)
        ensures
            match r {
                Some(t) => spec_text(self.0) == Some(t@),
                None => spec_text(self.0) is None,
            },
    {
        if let Some(s) = self.0.as_str() {
            Some(s)
        } else {
            match &self.0 {
                JsonValue::Bool(b) => {
                    if *b {
                        Some("true")
                    } else {
                        Some("false")
                    }
                },
                _ => None,
            }
        }
    }

    /// The child of the value at `index`.
    pub fn index(self, index: &JsonLikeHelper) -> (r: Result<JsonLikeHelper, JqError>)
        ensures
            match spec_index(self.0, index.0) {
                Ok(x) => r == Ok::<JsonLikeHelper, JqError>(JsonLikeHelper(x)),
                Err(e) => r == Err::<JsonLikeHelper, JqError>(e),
            },
    {
        match self.0 {
            JsonValue::Object(obj) => {
                let key = match index.0.as_str() {
                    Some(k) => k.to_owned(),
                    None => return Err(JqError::KeyNotString),
                };
                match obj.find(&key) {
                    Some(i) => {
                        let mut obj = obj;
                        let ghost view = obj@;
                        proof {
                            lemma_has_key(view, key@);
                        }
                        let (_k, item) = obj.remove_at(i);
                        Ok(JsonLikeHelper(item))
                    },
                    None => Ok(JsonLikeHelper(JsonValue::Null)),
                }
            },
            JsonValue::Array(arr) => {
                let n = match index.0.as_u64() {
                    Some(n) => n,
                    None => return Err(JqError::IndexNotU64),
                };
                if n < arr.len() as u64 {
                    let mut arr = arr;
                    let item = arr.swap_remove(n as usize);
                    Ok(JsonLikeHelper(item))
                } else {
                    Ok(JsonLikeHelper(JsonValue::Null))
                }
            },
            _ => Err(JqError::NotObjectOrArray),
        }
    }

    /// The slice `.[from:upto]` of an array or a string: negative bounds
    /// count from the end, bounds are clipped to the length, and a start
    /// after the end gives an empty slice.
    pub fn range(self, from: Option<&JsonLikeHelper>, upto: Option<&JsonLikeHelper>) -> (r: Result<
        JsonLikeHelper,
        JqError,
    >)
        ensures
            match self.0 {
                JsonValue::Array(a) => match spec_slice_bounds(bound_value(from), bound_value(upto)) {
                    Ok((f, u)) => r matches Ok(h) && h.0 matches JsonValue::Array(b) && b@
                        == a@.subrange(
                        slice_lo(Some(f), a@.len() as int),
                        slice_hi(Some(f), Some(u), a@.len() as int),
                    ),
                    Err(e) => r == Err::<JsonLikeHelper, JqError>(e),
                },
                JsonValue::String(s) => match spec_slice_bounds(
                    bound_value(from),
                    bound_value(upto),
                ) {
                    Ok((f, u)) => r matches Ok(h) && h.0 matches JsonValue::String(t) && t@
                        == s@.subrange(
                        slice_lo(Some(f), s@.len() as int),
                        slice_hi(Some(f), Some(u), s@.len() as int),
                    ),
                    Err(e) => r == Err::<JsonLikeHelper, JqError>(e),
                },
                _ => r == Err::<JsonLikeHelper, JqError>(JqError::NotObjectOrArray),
            },
    {
        match self.0 {
            JsonValue::Array(arr) => {
                let len = arr.len();
                let (f, u) = slice_bounds(from, upto)?;
                let lo = abs_bound(Some(f), len, 0);
                let hi_bound = abs_bound(Some(u), len, len);
                let (skip, take) = skip_take(lo, hi_bound);
                proof {
                    lemma_slice_in_bounds(Some(f as int), Some(u as int), len as int);
                }
                let hi = skip + take;
                let mut arr = arr;
                let _tail = arr.split_off(hi);
                let mid = arr.split_off(skip);
                Ok(JsonLikeHelper(JsonValue::Array(mid)))
            },
            JsonValue::String(s) => {
                let len = s.as_str().unicode_len();
                let (f, u) = slice_bounds(from, upto)?;
                let lo = abs_bound(Some(f), len, 0);
                let hi_bound = abs_bound(Some(u), len, len);
                let (skip, take) = skip_take(lo, hi_bound);
                proof {
                    lemma_slice_in_bounds(Some(f as int), Some(u as int), len as int);
                }
                let hi = skip + take;
                let part = s.as_str().substring_char(skip, hi);
                Ok(JsonLikeHelper(JsonValue::String(String::from_str(part))))
            },
            _ => Err(JqError::NotObjectOrArray),
        }
    }

    /// The sum of two values: `null + null` is `null`, numbers are added by
    /// `num_add`, strings and arrays are concatenated, and objects are merged
    /// with the right operand's bindings winning; other pairs cannot be added.
    pub fn add<F: Fn(JsonNumber, JsonNumber) -> JsonNumber>(self, rhs: JsonLikeHelper, num_add: F) -> (r:
        Result<JsonLikeHelper, JqError>)
        requires
            forall|x: JsonNumber, y: JsonNumber| num_add.requires((x, y)),
        ensures
            match (self.0, rhs.0) {
                (JsonValue::Null, JsonValue::Null) => r == Ok::<JsonLikeHelper, JqError>(
                    JsonLikeHelper(JsonValue::Null),
                ),
                (JsonValue::Number(x), JsonValue::Number(y)) => r matches Ok(h) && h.0 matches JsonValue::Number(
                    n,
                ) && num_add.ensures((x, y), n),
                (JsonValue::String(a), JsonValue::String(b)) => r matches Ok(h) && h.0 matches JsonValue::String(
                    c,
                ) && c@ == a@ + b@,
                (JsonValue::Array(a), JsonValue::Array(b)) => r matches Ok(h) && h.0 matches JsonValue::Array(
                    c,
                ) && c@ == a@ + b@,
                (JsonValue::Object(a), JsonValue::Object(b)) => r matches Ok(h) && h.0 matches JsonValue::Object(
                    c,
                ) && c@ == merge_entries(a@, b@),
                _ => r == Err::<JsonLikeHelper, JqError>(JqError::AddMismatch),
            },
    {
        match (self.0, rhs.0) {
            (JsonValue::Null, JsonValue::Null) => Ok(JsonLikeHelper(JsonValue::Null)),
            (JsonValue::Number(x), JsonValue::Number(y)) => {
                let n = num_add(x, y);
                Ok(JsonLikeHelper(JsonValue::Number(n)))
            },
            (JsonValue::String(a), JsonValue::String(b)) => {
                let mut a = a;
                a.append(b.as_str());
                Ok(JsonLikeHelper(JsonValue::String(a)))
            },
            (JsonValue::Array(a), JsonValue::Array(b)) => {
                let mut a = a;
                let mut b = b;
                a.append(&mut b);
                Ok(JsonLikeHelper(JsonValue::Array(a)))
            },
            (JsonValue::Object(a), JsonValue::Object(b)) => {
                let mut a = a;
                let ghost base = a@;
                let ghost t = b@;
                let entries = b.into_entries();
                for e in it: entries.into_iter()
                    invariant
                        it.seq() == entries@,
                        entries@.map_values(|e: (String, JsonValue)| entry_view(e)) == t,
                        a@ == merge_entries(base, t.take(it.index())),
                {
                    let ghost i = it.index();
                    assert(t[i] == entry_view(entries@[i]));
                    a.insert_key(e.0, e.1);
                    proof {
                        assert(t.take(i + 1).drop_last() =~= t.take(i));
                    }
                }
                proof {
                    assert(t.take(t.len() as int) =~= t);
                }
                Ok(JsonLikeHelper(JsonValue::Object(a)))
            },
            _ => Err(JqError::AddMismatch),
        }
    }

    /// The object with the given key-value pairs.
    pub fn from_map(pairs: Vec<(JsonLikeHelper, JsonLikeHelper)>) -> (r: Result<
        JsonLikeHelper,
        JqError,
    >)
        ensures
            match spec_from_pairs(pairs@) {
                Ok(s) => r matches Ok(h) && h.0 matches JsonValue::Object(o) && o@ == s,
                Err(e) => r == Err::<JsonLikeHelper, JqError>(e),
            },
    {
        let mut obj = JsonObject::new();
        let ghost p = pairs@;
        for pair in it: pairs.into_iter()
            invariant
                it.seq() == p,
                spec_from_pairs(p.take(it.index())) == Ok::<Seq<EntryView>, JqError>(obj@),
        {
            let ghost i = it.index();
            proof {
                assert(p.take(i + 1).drop_last() =~= p.take(i));
                assert(p.take(i + 1).last() == pair);
            }
            let (key, value) = pair;
            match key.0 {
                JsonValue::String(k) => {
                    obj.insert_key(k, value.0);
                },
                _ => {
                    proof {
                        lemma_from_pairs_prefix_err(p, i + 1);
                    }
                    return Err(JqError::KeyNotString);
                },
            }
        }
        proof {
            assert(p.take(p.len() as int) =~= p);
        }
        Ok(JsonLikeHelper(JsonValue::Object(obj)))
    }

    /// Updates the child at `index` with the first output of `f`: an object
    /// binding (possibly new, `f` then sees `null`) or an array element.
    /// No output removes the child. Where there is no such child, `opt`
    /// decides between keeping the value and failing.
    pub fn map_index<E, F: Fn(JsonLikeHelper) -> Option<Result<JsonLikeHelper, E>>>(
        self,
        index: &JsonLikeHelper,
        opt: PathOpt,
        f: F,
    ) -> (r: Result<JsonLikeHelper, PathError<E>>)
        requires
            forall|v: JsonLikeHelper| f.requires((v,)),
            self.0 is Array ==> match index.0.u64_value() {
                Some(n) => n <= isize::MAX,
                None => true,
            },
        ensures
            match self.0 {
                JsonValue::Object(o) => match index.0.str_view() {
                    None => r == spec_fail::<JsonLikeHelper, E>(opt, self, JqError::KeyNotString),
                    Some(k) => exists|out: Option<Result<JsonLikeHelper, E>>|
                        f.ensures((JsonLikeHelper(lookup_or_null(o@, k)),), out)
                            && object_index_outcome(o@, k, out, r),
                },
                JsonValue::Array(a) => match index.0.u64_value() {
                    None => r == spec_fail::<JsonLikeHelper, E>(opt, self, JqError::IndexNotU64),
                    Some(n) => if n < a@.len() {
                        exists|out: Option<Result<JsonLikeHelper, E>>|
                            f.ensures((JsonLikeHelper(a@[n as int]),), out) && array_index_outcome(
                                a@,
                                n as int,
                                out,
                                r,
                            )
                    } else {
                        r == spec_fail::<JsonLikeHelper, E>(
                            opt,
                            self,
                            JqError::IndexOutOfBounds(n as isize),
                        )
                    },
                },
                _ => r == spec_fail::<JsonLikeHelper, E>(opt, self, JqError::NotObjectOrArray),
            },
    {
        match self.0 {
            JsonValue::Object(obj) => match index.0.as_str() {
                Some(k) => {
                    let key = k.to_owned();
                    let ghost view = obj@;
                    let ghost kv = key@;
                    assert(index.0.str_view() == Some(kv));
                    assert(self.0 == JsonValue::Object(obj));
                    let (r, Ghost(out)) = update_key(obj, key, f);
                    assert(match self.0 {
                        JsonValue::Object(o) => match index.0.str_view() {
                            None => false,
                            Some(k) => exists|out: Option<Result<JsonLikeHelper, E>>|
                                f.ensures((JsonLikeHelper(lookup_or_null(o@, k)),), out)
                                    && object_index_outcome(o@, k, out, r),
                        },
                        _ => false,
                    });
                    r
                },
                None => opt.fail(JsonLikeHelper(JsonValue::Object(obj)), JqError::KeyNotString),
            },
            JsonValue::Array(arr) => {
                let n = match index.0.as_u64() {
                    Some(n) => n,
                    None => {
                        return opt.fail(JsonLikeHelper(JsonValue::Array(arr)), JqError::IndexNotU64);
                    },
                };
                match abs_index(n as isize, arr.len()) {
                    Some(i) => {
                        let ghost a = arr@;
                        let (r, Ghost(out)) = update_position(arr, i, f);
                        assert(f.ensures((JsonLikeHelper(a[n as int]),), out)
                            && array_index_outcome(a, n as int, out, r));
                        r
                    },
                    None => opt.fail(
                        JsonLikeHelper(JsonValue::Array(arr)),
                        JqError::IndexOutOfBounds(n as isize),
                    ),
                }
            },
            v => opt.fail(JsonLikeHelper(v), JqError::NotObjectOrArray),
        }
    }

    /// Updates the slice `.[from:upto]` of an array with all outputs of `f`,
    /// which sees the slice as an array. A bound that is absent or not an
    /// integer leaves that side open. On anything but an array, or a bound
    /// that does not fit in `isize`, `opt` decides between keeping the value
    /// and failing.
    pub fn map_range<E, G: Fn(JsonLikeHelper) -> Result<Vec<JsonLikeHelper>, E>>(
        self,
        from: Option<&JsonLikeHelper>,
        upto: Option<&JsonLikeHelper>,
        opt: PathOpt,
        f: G,
    ) -> (r: Result<JsonLikeHelper, PathError<E>>)
        requires
            forall|v: JsonLikeHelper| f.requires((v,)),
        ensures
            match self.0 {
                JsonValue::Array(a) => match (
                    spec_update_bound(bound_value(from)),
                    spec_update_bound(bound_value(upto)),
                ) {
                    (Some(lb), Some(ub)) => {
                        let lo = slice_lo(lb, a@.len() as int);
                        let hi = slice_hi(lb, ub, a@.len() as int);
                        exists|arg: JsonLikeHelper, out: Result<Vec<JsonLikeHelper>, E>|
                            #![trigger f.ensures((arg,), out)]
                            {
                                &&& arg.0 matches JsonValue::Array(m) && m@ == a@.subrange(lo, hi)
                                &&& f.ensures((arg,), out)
                                &&& match out {
                                    Ok(vals) => r matches Ok(h) && h.0 matches JsonValue::Array(b)
                                        && b@ == a@.subrange(0, lo) + inner_values(vals@) + a@.subrange(
                                        hi,
                                        a@.len() as int,
                                    ),
                                    Err(e) => r == Err::<JsonLikeHelper, PathError<E>>(
                                        PathError::Raised(e),
                                    ),
                                }
                            }
                    },
                    _ => r == spec_fail::<JsonLikeHelper, E>(opt, self, JqError::RangeNotParsed),
                },
                _ => r == spec_fail::<JsonLikeHelper, E>(opt, self, JqError::NotArray),
            },
    {
        match self.0 {
            JsonValue::Array(arr) => {
                let len = arr.len();
                let lb = update_bound(from);
                let ub = update_bound(upto);
                match (lb, ub) {
                    (Some(lb), Some(ub)) => {
                        let lo = abs_bound(lb, len, 0);
                        let hi_bound = abs_bound(ub, len, len);
                        let (skip, take) = skip_take(lo, hi_bound);
                        let ghost lbi = match lb {
                            Some(x) => Some(x as int),
                            None => None,
                        };
                        let ghost ubi = match ub {
                            Some(x) => Some(x as int),
                            None => None,
                        };
                        proof {
                            lemma_slice_in_bounds(lbi, ubi, len as int);
                        }
                        let ghost a = arr@;
                        let (r, Ghost(call)) = update_slice(arr, skip, skip + take, f);
                        assert(slice_lo(lbi, len as int) == skip);
                        assert(slice_hi(lbi, ubi, len as int) == skip + take);
                        assert(match self.0 {
                            JsonValue::Array(a) => exists|arg: JsonLikeHelper, out: Result<Vec<JsonLikeHelper>, E>|
                                #![trigger f.ensures((arg,), out)]
                                {
                                    &&& arg.0 matches JsonValue::Array(m) && m@ == a@.subrange(skip as int, skip + take)
                                    &&& f.ensures((arg,), out)
                                    &&& match out {
                                        Ok(vals) => r matches Ok(h) && h.0 matches JsonValue::Array(b)
                                            && b@ == a@.subrange(0, skip as int) + inner_values(vals@) + a@.subrange(
                                            skip + take,
                                            a@.len() as int,
                                        ),
                                        Err(e) => r == Err::<JsonLikeHelper, PathError<E>>(
                                            PathError::Raised(e),
                                        ),
                                    }
                                },
                            _ => false,
                        }) by {
                            assert(f.ensures((call.0,), call.1));
                        }
                        r
                    },
                    _ => opt.fail(JsonLikeHelper(JsonValue::Array(arr)), JqError::RangeNotParsed),
                }
            },
            v => opt.fail(JsonLikeHelper(v), JqError::NotArray),
        }
    }

    /// Updates every child: each array element is replaced by all outputs of
    /// `all`, each object value by the first output of `first` (no output
    /// drops the entry), and the first exception stops the update. On
    /// anything else, `opt` decides between keeping the value and failing.
    pub fn map_values<
        E,
        F: Fn(JsonLikeHelper) -> Option<Result<JsonLikeHelper, E>>,
        G: Fn(JsonLikeHelper) -> Result<Vec<JsonLikeHelper>, E>,
    >(self, opt: PathOpt, first: F, all: G) -> (r: Result<JsonLikeHelper, PathError<E>>)
        requires
            forall|v: JsonLikeHelper| first.requires((v,)),
            forall|v: JsonLikeHelper| all.requires((v,)),
        ensures
            match self.0 {
                JsonValue::Array(a) => match r {
                    Ok(h) => exists|outs: Seq<Vec<JsonLikeHelper>>|
                        #![trigger flatten_outputs(outs)]
                        {
                            &&& outs.len() == a@.len()
                            &&& forall|j: int|
                                0 <= j < outs.len() ==> all.ensures(
                                    (JsonLikeHelper(a@[j]),),
                                    Ok::<Vec<JsonLikeHelper>, E>(#[trigger] outs[j]),
                                )
                            &&& h.0 matches JsonValue::Array(b) && b@ == flatten_outputs(outs)
                        },
                    Err(PathError::Raised(e)) => exists|outs: Seq<Vec<JsonLikeHelper>>|
                        #![trigger outs.len()]
                        {
                            &&& outs.len() < a@.len()
                            &&& forall|j: int|
                                0 <= j < outs.len() ==> all.ensures(
                                    (JsonLikeHelper(a@[j]),),
                                    Ok::<Vec<JsonLikeHelper>, E>(#[trigger] outs[j]),
                                )
                            &&& all.ensures(
                                (JsonLikeHelper(a@[outs.len() as int]),),
                                Err::<Vec<JsonLikeHelper>, E>(e),
                            )
                        },
                    Err(PathError::Failed(_)) => false,
                },
                JsonValue::Object(o) => match r {
                    Ok(h) => exists|outs: Seq<Option<JsonLikeHelper>>|
                        #![trigger filter_entries(o@, outs)]
                        {
                            &&& outs.len() == o@.len()
                            &&& forall|j: int|
                                0 <= j < outs.len() ==> first.ensures(
                                    (JsonLikeHelper(o@[j].1),),
                                    first_output::<E>(#[trigger] outs[j]),
                                )
                            &&& h.0 matches JsonValue::Object(o2) && o2@ == filter_entries(o@, outs)
                        },
                    Err(PathError::Raised(e)) => exists|outs: Seq<Option<JsonLikeHelper>>|
                        #![trigger outs.len()]
                        {
                            &&& outs.len() < o@.len()
                            &&& forall|j: int|
                                0 <= j < outs.len() ==> first.ensures(
                                    (JsonLikeHelper(o@[j].1),),
                                    first_output::<E>(#[trigger] outs[j]),
                                )
                            &&& first.ensures(
                                (JsonLikeHelper(o@[outs.len() as int].1),),
                                Some(Err::<JsonLikeHelper, E>(e)),
                            )
                        },
                    Err(PathError::Failed(_)) => false,
                },
                _ => r == spec_fail::<JsonLikeHelper, E>(opt, self, JqError::NotObjectOrArray),
            },
    {
        match self.0 {
            JsonValue::Array(arr) => {
                let (r, Ghost(_outputs)) = update_elements(arr, all);
                r
            },
            JsonValue::Object(obj) => {
                let (r, Ghost(_outputs)) = update_entries(obj, first);
                r
            },
            v => opt.fail(JsonLikeHelper(v), JqError::NotObjectOrArray),
        }
    }

    /// The children of the value.
    pub fn values(self) -> (r: Result<Vec<JsonLikeHelper>, JqError>)
        ensures
            match spec_values(self.0) {
                Ok(s) => r matches Ok(vs) && vs@ == s.map_values(|x: JsonValue| JsonLikeHelper(x)),
                Err(e) => r == Err::<Vec<JsonLikeHelper>, JqError>(e),
            },
    {
        match self.0 {
            JsonValue::Array(arr) => {
                let mut out: Vec<JsonLikeHelper> = Vec::new();
                for x in it: arr.into_iter()
                    invariant
                        it.seq() == arr@,
                        out@ == it.seq().take(it.index()).map_values(|x: JsonValue| JsonLikeHelper(x)),
                {
                    out.push(JsonLikeHelper(x));
                    proof {
                        assert(out@ =~= it.seq().take(it.index() + 1).map_values(
                            |x: JsonValue| JsonLikeHelper(x),
                        ));
                    }
                }
                proof {
                    assert(arr@.take(arr@.len() as int) =~= arr@);
                }
                Ok(out)
            },
            JsonValue::Object(obj) => {
                let ghost view = obj@;
                let entries = obj.into_entries();
                let mut out: Vec<JsonLikeHelper> = Vec::new();
                for e in it: entries.into_iter()
                    invariant
                        it.seq() == entries@,
                        entries@.map_values(|e: (String, JsonValue)| entry_view(e)) == view,
                        out@ == view.take(it.index()).map_values(|e: EntryView| JsonLikeHelper(e.1)),
                {
                    let ghost i = it.index();
                    assert(view[i] == entry_view(entries@[i]));
                    out.push(JsonLikeHelper(e.1));
                    proof {
                        assert(out@ =~= view.take(i + 1).map_values(|e: EntryView| JsonLikeHelper(e.1)));
                    }
                }
                proof {
                    assert(view.take(view.len() as int) =~= view);
                    assert(out@ =~= view.map_values(|e: EntryView| e.1).map_values(
                        |x: JsonValue| JsonLikeHelper(x),
                    ));
                }
                Ok(out)
            },
            _ => Err(JqError::NotObjectOrArray),
        }
    }
}

} // verus!
