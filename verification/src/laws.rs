//! Properties that relate the value operations to one another.

use vstd::prelude::*;

use crate::helper::{
    inner_values, merge_entries, slice_hi, slice_lo, spec_from_pairs, spec_index, spec_slice_bounds, spec_truthy, spec_update_bound,
    spec_values, flatten_outputs, filter_entries,
    JsonLikeHelper,
};
use crate::value::{
    has_key, insert_entry, key_pos, keys_unique, lemma_has_key, lemma_remove_unique,
    lemma_unique_pos, lookup, remove_entry, EntryView, JsonObject, JsonValue,
};

verus! {

/// Binding a key keeps keys distinct; reading the key back gives the bound
/// value, and every other key keeps its value.
pub proof fn law_insert_then_lookup(s: Seq<EntryView>, k: Seq<char>, v: JsonValue, k2: Seq<char>)
    requires
        keys_unique(s),
    ensures
        keys_unique(insert_entry(s, k, v)),
        lookup(insert_entry(s, k, v), k) == Some(v),
        k2 != k ==> lookup(insert_entry(s, k, v), k2) == lookup(s, k2),
{
    let t = insert_entry(s, k, v);
    if has_key(s, k) {
        lemma_has_key(s, k);
        let p = key_pos(s, k);
        assert forall|a: int, b: int|
            0 <= a < t.len() && 0 <= b < t.len() && a != b implies #[trigger] t[a].0
            != #[trigger] t[b].0 by {
            assert(t[a].0 == s[a].0);
            assert(t[b].0 == s[b].0);
        }
        lemma_unique_pos(t, k, p);
        if k2 != k {
            if has_key(s, k2) {
                lemma_has_key(s, k2);
                let q = key_pos(s, k2);
                assert(t[q] == s[q]);
                lemma_unique_pos(t, k2, q);
            } else {
                assert forall|i: int| 0 <= i < t.len() implies #[trigger] t[i].0 != k2 by {
                    if i != p {
                        assert(t[i] == s[i]);
                    }
                }
            }
        }
    } else {
        let n = s.len() as int;
        assert forall|a: int, b: int|
            0 <= a < t.len() && 0 <= b < t.len() && a != b implies #[trigger] t[a].0
            != #[trigger] t[b].0 by {
            if a == n {
                assert(t[b] == s[b]);
            } else if b == n {
                assert(t[a] == s[a]);
            } else {
                assert(t[a] == s[a]);
                assert(t[b] == s[b]);
            }
        }
        lemma_unique_pos(t, k, n);
        if k2 != k {
            if has_key(s, k2) {
                lemma_has_key(s, k2);
                let q = key_pos(s, k2);
                assert(t[q] == s[q]);
                lemma_unique_pos(t, k2, q);
            } else {
                assert forall|i: int| 0 <= i < t.len() implies #[trigger] t[i].0 != k2 by {
                    if i < n {
                        assert(t[i] == s[i]);
                    }
                }
            }
        }
    }
}

/// Removing a key keeps keys distinct; the key is then unbound, and every
/// other key keeps its value.
pub proof fn law_remove_then_lookup(s: Seq<EntryView>, k: Seq<char>, k2: Seq<char>)
    requires
        keys_unique(s),
    ensures
        keys_unique(remove_entry(s, k)),
        lookup(remove_entry(s, k), k) is None,
        k2 != k ==> lookup(remove_entry(s, k), k2) == lookup(s, k2),
{
    if has_key(s, k) {
        lemma_has_key(s, k);
        let p = key_pos(s, k);
        let t = s.remove(p);
        lemma_remove_unique(s, p);
        if k2 != k {
            if has_key(s, k2) {
                lemma_has_key(s, k2);
                let q = key_pos(s, k2);
                let q2 = if q < p { q } else { q - 1 };
                assert(t[q2] == s[q]);
                lemma_unique_pos(t, k2, q2);
            } else {
                assert forall|i: int| 0 <= i < t.len() implies #[trigger] t[i].0 != k2 by {
                    assert(t[i] == s[if i < p { i } else { i + 1 }]);
                }
            }
        }
    }
}

/// Indexing an object after a path update bound `v` to a key gives `v`.
pub proof fn law_index_after_object_update(o: JsonObject, o2: JsonObject, idx: JsonValue, v: JsonValue)
    requires
        keys_unique(o@),
        idx.str_view() is Some,
        o2@ == insert_entry(o@, idx.str_view()->0, v),
    ensures
        spec_index(JsonValue::Object(o2), idx) == Ok::<JsonValue, crate::error::JqError>(v),
{
    law_insert_then_lookup(o@, idx.str_view()->0, v, idx.str_view()->0);
}

/// Indexing an object after a path update removed a key gives `null`.
pub proof fn law_index_after_object_removal(o: JsonObject, o2: JsonObject, idx: JsonValue)
    requires
        keys_unique(o@),
        idx.str_view() is Some,
        o2@ == remove_entry(o@, idx.str_view()->0),
    ensures
        spec_index(JsonValue::Object(o2), idx) == Ok::<JsonValue, crate::error::JqError>(
            JsonValue::Null,
        ),
{
    law_remove_then_lookup(o@, idx.str_view()->0, idx.str_view()->0);
}

/// Indexing an array after a path update replaced position `n` by `v` gives `v`.
pub proof fn law_index_after_array_update(
    a: Vec<JsonValue>,
    b: Vec<JsonValue>,
    idx: JsonValue,
    v: JsonValue,
)
    requires
        idx.u64_value() is Some,
        idx.u64_value()->0 < a@.len(),
        b@ == a@.update(idx.u64_value()->0 as int, v),
    ensures
        spec_index(JsonValue::Array(b), idx) == Ok::<JsonValue, crate::error::JqError>(v),
{
}

/// A child read by indexing is one of the children, unless indexing reads
/// past an array's end or an unbound key.
pub proof fn law_index_in_values(v: JsonValue, idx: JsonValue, x: JsonValue)
    requires
        spec_index(v, idx) == Ok::<JsonValue, crate::error::JqError>(x),
        v matches JsonValue::Object(o) ==> has_key(o@, idx.str_view()->0),
        v matches JsonValue::Array(a) ==> idx.u64_value()->0 < a@.len(),
    ensures
        spec_values(v) matches Ok(s) && s.contains(x),
{
    match v {
        JsonValue::Object(o) => {
            let k = idx.str_view()->0;
            lemma_has_key(o@, k);
            let p = key_pos(o@, k);
            let s = o@.map_values(|e: EntryView| e.1);
            assert(s[p] == x);
        },
        JsonValue::Array(a) => {
            let n = idx.u64_value()->0 as int;
            assert(a@[n] == x);
        },
        _ => {},
    }
}

/// Updating a binding with the value it already has leaves the object as it is.
pub proof fn law_rebind_same_value(s: Seq<EntryView>, k: Seq<char>)
    requires
        keys_unique(s),
        has_key(s, k),
    ensures
        insert_entry(s, k, lookup(s, k)->0) == s,
{
    lemma_has_key(s, k);
    let p = key_pos(s, k);
    assert(insert_entry(s, k, lookup(s, k)->0) =~= s);
}

/// Updating a slice with its own elements leaves the array as it is.
pub proof fn law_slice_update_identity(
    a: Seq<JsonValue>,
    lo: int,
    hi: int,
    vals: Seq<JsonLikeHelper>,
)
    requires
        0 <= lo <= hi <= a.len(),
        inner_values(vals) == a.subrange(lo, hi),
    ensures
        a.subrange(0, lo) + inner_values(vals) + a.subrange(hi, a.len() as int) == a,
{
    assert(a.subrange(0, lo) + a.subrange(lo, hi) + a.subrange(hi, a.len() as int) =~= a);
}

/// Adjacent slices with in-range, non-negative bounds join into one slice.
pub proof fn law_adjacent_slices(a: Seq<JsonValue>, lo: int, mid: int, hi: int)
    requires
        0 <= lo <= mid <= hi <= a.len(),
    ensures
        a.subrange(
            slice_lo(Some(lo), a.len() as int),
            slice_hi(Some(lo), Some(mid), a.len() as int),
        ) + a.subrange(
            slice_lo(Some(mid), a.len() as int),
            slice_hi(Some(mid), Some(hi), a.len() as int),
        ) == a.subrange(
            slice_lo(Some(lo), a.len() as int),
            slice_hi(Some(lo), Some(hi), a.len() as int),
        ),
{
    let n = a.len() as int;
    if hi == n {
        assert(slice_hi(Some(mid), Some(hi), n) == n);
    }
    assert(a.subrange(lo, mid) + a.subrange(mid, hi) =~= a.subrange(lo, hi));
}

/// A slice update's bound that is absent or not an integer never fails: it
/// covers the same positions as `0` for the start and the length for the end,
/// so the update sees the same slice and splices the same positions back.
pub proof fn law_open_update_bounds(
    b: Option<JsonValue>,
    from: Option<int>,
    upto: Option<int>,
    len: int,
)
    requires
        0 <= len,
        b matches Some(v) ==> v.i64_value() is None,
    ensures
        spec_update_bound(b) == Some(None::<int>),
        slice_lo(None, len) == slice_lo(Some(0), len),
        slice_hi(None, upto, len) == slice_hi(Some(0), upto, len),
        slice_hi(from, None, len) == slice_hi(from, Some(len), len),
{
}

/// Adding objects lets the right operand's bindings win: a key bound on the
/// right reads its right value, any other key its left value.
pub proof fn law_merge_lookup(s: Seq<EntryView>, t: Seq<EntryView>, k: Seq<char>)
    requires
        keys_unique(s),
        keys_unique(t),
    ensures
        keys_unique(merge_entries(s, t)),
        lookup(merge_entries(s, t), k) == (if has_key(t, k) {
            lookup(t, k)
        } else {
            lookup(s, k)
        }),
    decreases t.len(),
{
    if t.len() > 0 {
        let t2 = t.drop_last();
        let n = t.len() - 1;
        let (lk, lv) = t.last();
        assert forall|a: int, b: int|
            0 <= a < t2.len() && 0 <= b < t2.len() && a != b implies #[trigger] t2[a].0
            != #[trigger] t2[b].0 by {
            assert(t2[a] == t[a] && t2[b] == t[b]);
        }
        law_merge_lookup(s, t2, k);
        law_insert_then_lookup(merge_entries(s, t2), lk, lv, k);
        if k == lk {
            lemma_unique_pos(t, k, n);
        } else {
            if has_key(t2, k) {
                lemma_has_key(t2, k);
                let q = key_pos(t2, k);
                assert(t[q] == t2[q]);
                lemma_unique_pos(t, k, q);
            } else {
                assert forall|i: int| 0 <= i < t.len() implies #[trigger] t[i].0 != k by {
                    if i < n {
                        assert(t[i] == t2[i]);
                    }
                }
            }
        }
    }
}

/// The value of the last pair with key `k`.
pub open spec fn last_binding(p: Seq<(JsonLikeHelper, JsonLikeHelper)>, k: Seq<char>) -> Option<
    JsonValue,
>
    decreases p.len(),
{
    if p.len() == 0 {
        None
    } else if p.last().0.0.str_view() == Some(k) {
        Some(p.last().1.0)
    } else {
        last_binding(p.drop_last(), k)
    }
}

/// An object built from pairs has distinct keys, and each key reads the
/// value of its last pair.
pub proof fn law_from_pairs_last_wins(p: Seq<(JsonLikeHelper, JsonLikeHelper)>, k: Seq<char>)
    requires
        spec_from_pairs(p) is Ok,
    ensures
        keys_unique(spec_from_pairs(p)->Ok_0),
        lookup(spec_from_pairs(p)->Ok_0, k) == last_binding(p, k),
    decreases p.len(),
{
    if p.len() > 0 {
        let p2 = p.drop_last();
        law_from_pairs_last_wins(p2, k);
        let s2 = spec_from_pairs(p2)->Ok_0;
        let lk = p.last().0.0.str_view()->0;
        law_insert_then_lookup(s2, lk, p.last().1.0, k);
    }
}

/// Collecting the children of an array gives back its elements.
pub proof fn law_values_collect(a: Vec<JsonValue>)
    ensures
        spec_values(JsonValue::Array(a)) matches Ok(s) && inner_values(
            s.map_values(|x: JsonValue| JsonLikeHelper(x)),
        ) == a@,
{
    let s = a@;
    assert(inner_values(s.map_values(|x: JsonValue| JsonLikeHelper(x))) =~= s);
}

/// The keys of entries, in order.
pub open spec fn keys_of(s: Seq<EntryView>) -> Seq<Seq<char>> {
    s.map_values(|e: EntryView| e.0)
}

/// Binding a key keeps every key where it stands when the key is bound
/// already, and otherwise appends the key after all the others.
pub proof fn law_insert_entry_keys(s: Seq<EntryView>, k: Seq<char>, v: JsonValue)
    ensures
        has_key(s, k) ==> keys_of(insert_entry(s, k, v)) == keys_of(s),
        !has_key(s, k) ==> insert_entry(s, k, v) == s.push((k, v)),
{
    if has_key(s, k) {
        lemma_has_key(s, k);
        assert(keys_of(insert_entry(s, k, v)) =~= keys_of(s));
    }
}

/// Integer slice bounds that fit in `isize` are taken as they are, negative
/// ones included: reading them never fails.
pub proof fn law_slice_bounds_accept_integers(f: JsonValue, u: JsonValue)
    requires
        f.i64_value() is Some,
        u.i64_value() is Some,
        isize::MIN <= f.i64_value()->0 <= isize::MAX,
        isize::MIN <= u.i64_value()->0 <= isize::MAX,
    ensures
        spec_slice_bounds(Some(f), Some(u)) == Ok::<(int, int), crate::error::JqError>(
            (f.i64_value()->0 as int, u.i64_value()->0 as int),
        ),
{
}

/// Where a slice starts and ends in a sequence of length `n`: a bound counts
/// from the start when non-negative and back from the end when negative,
/// and is then clipped to `[0, n]`; the end is never before the start.
pub proof fn law_slice_positions(f: int, u: int, n: int)
    requires
        0 <= n,
    ensures
        ({
            let lo = if f >= 0 {
                if f < n { f } else { n }
            } else if n + f >= 0 {
                n + f
            } else {
                0
            };
            let end = if u >= 0 {
                if u < n { u } else { n }
            } else if n + u >= 0 {
                n + u
            } else {
                0
            };
            &&& slice_lo(Some(f), n) == lo
            &&& slice_hi(Some(f), Some(u), n) == if end >= lo { end } else { lo }
        }),
{
}

/// Adding objects keeps the left operand's keys in their order, and appends
/// the keys that only the right operand binds, in the right operand's order.
pub proof fn law_merge_key_order(s: Seq<EntryView>, t: Seq<EntryView>)
    requires
        keys_unique(s),
        keys_unique(t),
    ensures
        keys_of(merge_entries(s, t)) == keys_of(s) + keys_of(t).filter(
            |k: Seq<char>| !has_key(s, k),
        ),
    decreases t.len(),
{
    let p = |k: Seq<char>| !has_key(s, k);
    reveal(Seq::filter);
    if t.len() == 0 {
        assert(keys_of(t) =~= Seq::<Seq<char>>::empty());
        assert(keys_of(s) + keys_of(t).filter(p) =~= keys_of(s));
    } else {
        let t2 = t.drop_last();
        let (k, v) = t.last();
        let n = t.len() - 1;
        assert forall|a: int, b: int|
            0 <= a < t2.len() && 0 <= b < t2.len() && a != b implies #[trigger] t2[a].0
            != #[trigger] t2[b].0 by {
            assert(t2[a] == t[a] && t2[b] == t[b]);
        }
        law_merge_key_order(s, t2);
        let m = merge_entries(s, t2);
        law_merge_lookup(s, t2, k);
        assert(!has_key(t2, k)) by {
            if has_key(t2, k) {
                let j = choose|j: int| 0 <= j < t2.len() && #[trigger] t2[j].0 == k;
                assert(t[j].0 == t[n].0);
            }
        }
        assert(has_key(m, k) == has_key(s, k)) by {
            if has_key(m, k) {
                lemma_has_key(m, k);
            }
            if has_key(s, k) {
                lemma_has_key(s, k);
            }
        }
        law_insert_entry_keys(m, k, v);
        assert(keys_of(t).drop_last() =~= keys_of(t2));
        assert(keys_of(t).last() == k);
        if has_key(s, k) {
            assert(keys_of(t).filter(p) == keys_of(t2).filter(p));
        } else {
            assert(keys_of(t).filter(p) == keys_of(t2).filter(p).push(k));
            assert(keys_of(m.push((k, v))) =~= keys_of(m).push(k));
            assert((keys_of(s) + keys_of(t2).filter(p)).push(k) =~= keys_of(s) + keys_of(
                t2,
            ).filter(p).push(k));
        }
    }
}

/// The outputs of an element update are joined in order: one element's
/// outputs stay in the order produced, and joining respects concatenation.
pub proof fn law_flatten_outputs(
    a: Seq<Vec<JsonLikeHelper>>,
    b: Seq<Vec<JsonLikeHelper>>,
    vs: Vec<JsonLikeHelper>,
)
    ensures
        flatten_outputs(Seq::empty()) == Seq::<JsonValue>::empty(),
        flatten_outputs(seq![vs]) == inner_values(vs@),
        flatten_outputs(a + b) == flatten_outputs(a) + flatten_outputs(b),
    decreases b.len(),
{
    assert(seq![vs].drop_last() =~= Seq::<Vec<JsonLikeHelper>>::empty());
    assert(flatten_outputs(Seq::<Vec<JsonLikeHelper>>::empty()) == Seq::<JsonValue>::empty());
    assert(seq![vs].last() == vs);
    assert(flatten_outputs(seq![vs]) =~= inner_values(vs@));
    if b.len() == 0 {
        assert(a + b =~= a);
        assert(flatten_outputs(a) + flatten_outputs(b) =~= flatten_outputs(a));
    } else {
        law_flatten_outputs(a, b.drop_last(), vs);
        assert((a + b).drop_last() =~= a + b.drop_last());
        assert((a + b).last() == b.last());
        assert(flatten_outputs(a + b) =~= flatten_outputs(a) + flatten_outputs(b));
    }
}

/// The entries kept by an object update stay in order: an entry with an
/// output keeps its key with that output, one without is dropped, and
/// updating a concatenation updates each part.
pub proof fn law_filter_entries(
    s1: Seq<EntryView>,
    o1: Seq<Option<JsonLikeHelper>>,
    s2: Seq<EntryView>,
    o2: Seq<Option<JsonLikeHelper>>,
    e: EntryView,
    v: JsonLikeHelper,
)
    requires
        s1.len() == o1.len(),
        s2.len() == o2.len(),
    ensures
        filter_entries(seq![e], seq![Some(v)]) == seq![(e.0, v.0)],
        filter_entries(seq![e], seq![None::<JsonLikeHelper>]) == Seq::<EntryView>::empty(),
        filter_entries(s1 + s2, o1 + o2) == filter_entries(s1, o1) + filter_entries(s2, o2),
    decreases s2.len(),
{
    assert(seq![e].drop_last() =~= Seq::<EntryView>::empty());
    assert(seq![Some(v)].drop_last() =~= Seq::<Option<JsonLikeHelper>>::empty());
    assert(seq![None::<JsonLikeHelper>].drop_last() =~= Seq::<Option<JsonLikeHelper>>::empty());
    assert(filter_entries(Seq::<EntryView>::empty(), Seq::<Option<JsonLikeHelper>>::empty())
        == Seq::<EntryView>::empty());
    assert(seq![e].last() == e);
    assert(seq![Some(v)].last() == Some(v));
    assert(seq![None::<JsonLikeHelper>].last() == None::<JsonLikeHelper>);
    assert(filter_entries(seq![e], seq![Some(v)]) =~= seq![(e.0, v.0)]);
    if s2.len() == 0 {
        assert(s1 + s2 =~= s1);
        assert(o1 + o2 =~= o1);
        assert(filter_entries(s1, o1) + filter_entries(s2, o2) =~= filter_entries(s1, o1));
    } else {
        law_filter_entries(s1, o1, s2.drop_last(), o2.drop_last(), e, v);
        assert((s1 + s2).drop_last() =~= s1 + s2.drop_last());
        assert((o1 + o2).drop_last() =~= o1 + o2.drop_last());
        assert((s1 + s2).last() == s2.last());
        assert((o1 + o2).last() == o2.last());
        assert(filter_entries(s1 + s2, o1 + o2) =~= filter_entries(s1, o1) + filter_entries(
            s2,
            o2,
        ));
    }
}

/// Only `null` and `false` are false: every number (whatever its
/// representation), string, array and object is true.
pub proof fn law_truthiness(v: JsonValue)
    ensures
        v is Null ==> !spec_truthy(v),
        v matches JsonValue::Bool(b) ==> spec_truthy(v) == b,
        !(v is Null) && !(v is Bool) ==> spec_truthy(v),
{
}

/// The entries that pairs with string keys stand for, in the pairs' order.
pub open spec fn pair_entries(p: Seq<(JsonLikeHelper, JsonLikeHelper)>) -> Seq<EntryView> {
    p.map_values(|q: (JsonLikeHelper, JsonLikeHelper)| (q.0.0.str_view()->0, q.1.0))
}

/// Pairs with distinct string keys build the object whose entries are the
/// pairs themselves, in the same order.
pub proof fn law_from_pairs_in_order(p: Seq<(JsonLikeHelper, JsonLikeHelper)>)
    requires
        forall|i: int| 0 <= i < p.len() ==> (#[trigger] p[i]).0.0.str_view() is Some,
        forall|i: int, j: int|
            0 <= i < p.len() && 0 <= j < p.len() && i != j ==> (#[trigger] p[i]).0.0.str_view()
                != (#[trigger] p[j]).0.0.str_view(),
    ensures
        spec_from_pairs(p) == Ok::<Seq<EntryView>, crate::error::JqError>(pair_entries(p)),
    decreases p.len(),
{
    if p.len() == 0 {
        assert(pair_entries(p) =~= Seq::<EntryView>::empty());
    } else {
        let p2 = p.drop_last();
        let n = p.len() - 1;
        assert forall|i: int| 0 <= i < p2.len() implies (#[trigger] p2[i]).0.0.str_view() is Some by {
            assert(p2[i] == p[i]);
        }
        assert forall|i: int, j: int|
            0 <= i < p2.len() && 0 <= j < p2.len() && i != j implies (#[trigger] p2[i]).0.0.str_view()
            != (#[trigger] p2[j]).0.0.str_view() by {
            assert(p2[i] == p[i] && p2[j] == p[j]);
        }
        law_from_pairs_in_order(p2);
        let s2 = pair_entries(p2);
        let k = p[n].0.0.str_view()->0;
        assert(p.last() == p[n]);
        assert(!has_key(s2, k)) by {
            if has_key(s2, k) {
                let j = choose|j: int| 0 <= j < s2.len() && #[trigger] s2[j].0 == k;
                assert(p2[j] == p[j]);
                assert(p[j].0.0.str_view() == p[n].0.0.str_view());
            }
        }
        assert(pair_entries(p) =~= s2.push((k, p[n].1.0)));
    }
}

} // verus!
