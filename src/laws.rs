use vstd::prelude::*;
use crate::json::Json;
use crate::json::{find_key, get_field, is_scalar, keys_of, lemma_find_key, set_field, Fields};
use crate::mapping::{
    overlay, compile, descend, dest_for, distinct_in_order, exhausted, heads, lift, project, project_fields,
    project_items, project_value, segments, starts_with, well_formed, JsonMapperError, Path, Rules,
};

verus! {

proof fn lemma_not_exhausted(rules: Rules)
    requires
        well_formed(rules),
        rules.len() > 0,
    ensures
        !exhausted(rules),
{
    assert(rules[0].0.len() > 0);
}

/// Every element of `rows` is an object.
pub open spec fn rows_only(rows: Seq<Json>) -> bool {
    forall|i: int| 0 <= i < rows.len() ==> (#[trigger] rows[i]) is Object
}

/// An object, or an array whose elements are all objects.
pub open spec fn flat_shape(v: Json) -> bool {
    v is Object || (v is Array && rows_only(v->Array_0))
}

/// An error that only a defect could give.
pub open spec fn defect(e: JsonMapperError) -> bool {
    e == JsonMapperError::ExpectedArrayOrObject || e == JsonMapperError::MapInternalReturnedInvalidData
}

proof fn lemma_lift_shape(list: Seq<Json>, flat: Fields)
    ensures
        lift(list, flat) != Err::<Seq<Json>, JsonMapperError>(JsonMapperError::Empty),
        rows_only(list) ==> lift(list, flat) is Ok,
        lift(list, flat) matches Ok(rows) ==> rows_only(rows),
    decreases list.len(),
{
    if list.len() > 0 {
        lemma_lift_shape(list.drop_last(), flat);
        if rows_only(list) {
            assert(rows_only(list.drop_last()));
            assert(list.last() is Object);
        }
    }
}

proof fn lemma_value_shape(rules: Rules, v: Json)
    ensures
        project_value(rules, v) != Err::<Option<Json>, JsonMapperError>(JsonMapperError::Empty),
        project_value(rules, v) matches Ok(Some(w)) ==> flat_shape(w),
        !(project_value(rules, v) matches Err(e) && defect(e)),
    decreases v, 0nat,
{
    if !exhausted(rules) {
        match v {
            Json::Array(items) => {
                lemma_items_shape(rules, items);
            },
            Json::Object(fields) => {
                lemma_fields_shape(rules, fields, segments(rules));
                match project_fields(rules, fields, segments(rules)) {
                    Ok((flat, Some(list))) => {
                        lemma_lift_shape(list, flat);
                    },
                    _ => {},
                }
            },
            _ => {},
        }
    }
}

proof fn lemma_items_shape(rules: Rules, items: Seq<Json>)
    ensures
        project_items(rules, items) != Err::<Seq<Json>, JsonMapperError>(JsonMapperError::Empty),
        project_items(rules, items) matches Ok(rows) ==> rows_only(rows),
        !exhausted(rules) ==> !(project_items(rules, items) matches Err(e) && defect(e)),
    decreases items, 0nat,
{
    if items.len() > 0 {
        lemma_items_shape(rules, items.subrange(0, items.len() - 1));
        lemma_value_shape(rules, items[items.len() - 1]);
        match project_items(rules, items.subrange(0, items.len() - 1)) {
            Ok(acc) => {
                match project_value(rules, items[items.len() - 1]) {
                    Ok(Some(Json::Array(xs))) => {
                        assert(rows_only(xs));
                        assert(rows_only(acc + xs));
                    },
                    Ok(Some(Json::Object(f))) => {
                        assert(rows_only(acc.push(Json::Object(f))));
                    },
                    _ => {},
                }
            },
            _ => {},
        }
    }
}

proof fn lemma_fields_shape(rules: Rules, fields: Fields, segs: Seq<Seq<char>>)
    ensures
        project_fields(rules, fields, segs) != Err::<(Fields, Option<Seq<Json>>), JsonMapperError>(
            JsonMapperError::Empty,
        ),
        project_fields(rules, fields, segs) matches Ok((flat, Some(list))) ==> rows_only(list),
        !(project_fields(rules, fields, segs) matches Err(e) && defect(e)),
    decreases fields, segs.len(),
{
    if segs.len() > 0 {
        lemma_fields_shape(rules, fields, segs.drop_last());
        let seg = segs.last();
        let i = find_key(fields, seg);
        if 0 <= i < fields.len() && !is_scalar(fields[i].1) {
            lemma_value_shape(descend(rules, seg), fields[i].1);
        }
    }
}

/// Whatever the table and the document, a projection reports `Empty` only
/// for a table whose paths are all consumed, never fails with an error that
/// only a defect could give, and returns an object or an array of objects.
pub proof fn law_projection_shape(rules: Rules, doc: Json)
    ensures
        project(rules, doc) matches Ok(w) ==> flat_shape(w),
        project(rules, doc) == Err::<Json, JsonMapperError>(JsonMapperError::Empty) <==> exhausted(
            rules,
        ),
        !(project(rules, doc) matches Err(e) && defect(e)),
{
    lemma_value_shape(rules, doc);
}

/// A table compiled from an empty specification rejects every document
/// with `Empty`.
pub proof fn law_empty_table_rejected(doc: Json)
    ensures
        project(compile(Seq::empty()), doc) == Err::<Json, JsonMapperError>(JsonMapperError::Empty),
{
}

/// A well-formed table gives `Empty` exactly when it has no rule.
pub proof fn law_empty_only_without_rules(rules: Rules, doc: Json)
    requires
        well_formed(rules),
    ensures
        (project(rules, doc) == Err::<Json, JsonMapperError>(JsonMapperError::Empty)) <==> rules.len()
            == 0,
{
    lemma_value_shape(rules, doc);
    if rules.len() > 0 {
        lemma_not_exhausted(rules);
    }
}

/// Projecting an array of documents that each project to a list gives the
/// concatenation of those lists: one flat array, never a nested one.
pub proof fn law_array_flattening(rules: Rules, docs: Seq<Json>, rows: Seq<Seq<Json>>)
    requires
        well_formed(rules),
        rules.len() > 0,
        rows.len() == docs.len(),
        forall|i: int|
            0 <= i < docs.len() ==> project(rules, #[trigger] docs[i]) == Ok::<Json, JsonMapperError>(
                Json::Array(rows[i]),
            ),
    ensures
        project(rules, Json::Array(docs)) == Ok::<Json, JsonMapperError>(Json::Array(rows.flatten())),
{
    lemma_not_exhausted(rules);
    lemma_items_flatten(rules, docs, rows, docs.len() as int);
    assert(docs.take(docs.len() as int) =~= docs);
    assert(rows.take(rows.len() as int) =~= rows);
}

proof fn lemma_items_flatten(rules: Rules, docs: Seq<Json>, rows: Seq<Seq<Json>>, n: int)
    requires
        0 <= n <= docs.len(),
        rows.len() == docs.len(),
        !exhausted(rules),
        forall|i: int|
            0 <= i < docs.len() ==> project(rules, #[trigger] docs[i]) == Ok::<Json, JsonMapperError>(
                Json::Array(rows[i]),
            ),
    ensures
        project_items(rules, docs.take(n)) == Ok::<Seq<Json>, JsonMapperError>(
            rows.take(n).flatten(),
        ),
    decreases n,
{
    if n == 0 {
        assert(rows.take(0) =~= Seq::<Seq<Json>>::empty());
    } else {
        let m = n - 1;
        lemma_items_flatten(rules, docs, rows, m);
        assert(docs.take(n).subrange(0, m) =~= docs.take(m));
        assert(docs.take(n)[m] == docs[m]);
        assert(project(rules, docs[m]) == Ok::<Json, JsonMapperError>(Json::Array(rows[m])));
        assert(rows.take(n) =~= rows.take(m).push(rows[m]));
        rows.take(m).lemma_flatten_push(rows[m]);
    }
}

/// Every path of the table is non-empty.
pub open spec fn paths_nonempty(rules: Rules) -> bool {
    forall|i: int| 0 <= i < rules.len() ==> (#[trigger] rules[i]).0.len() > 0
}

/// No two rules start with the same segment.
pub open spec fn distinct_heads(rules: Rules) -> bool {
    forall|i: int, j: int|
        0 <= i < rules.len() && 0 <= j < rules.len() && i != j ==> (#[trigger] rules[i]).0[0]
            != (#[trigger] rules[j]).0[0]
}

/// No two rules name the same destination.
pub open spec fn distinct_dests(rules: Rules) -> bool {
    forall|i: int, j: int|
        0 <= i < rules.len() && 0 <= j < rules.len() && i != j ==> (#[trigger] rules[i]).1
            != (#[trigger] rules[j]).1
}

/// Where the non-empty path `p` leads in `x`: `Some(Some(v))` where it
/// reaches `v` (a scalar met early, or whatever stands at its end),
/// `Some(None)` where a key on the way is absent, and `None` where it meets
/// a list or a document that is no object.
pub open spec fn reach(x: Json, p: Path) -> Option<Option<Json>>
    decreases p.len(),
{
    if p.len() == 0 {
        Some(Some(x))
    } else {
        match x {
            Json::Object(f) => match get_field(f, p[0]) {
                None => Some(None),
                Some(v) => if is_scalar(v) || p.len() == 1 {
                    Some(Some(v))
                } else if v is Object {
                    reach(v, p.drop_first())
                } else {
                    None
                },
            },
            _ => None,
        }
    }
}

/// The destination and the reached value of each rule whose path is
/// present in `x`, in table order.
pub open spec fn reached_entries(rules: Rules, x: Json) -> Fields
    decreases rules.len(),
{
    if rules.len() == 0 {
        Seq::empty()
    } else {
        let e = reached_entries(rules.drop_last(), x);
        match reach(x, rules.last().0) {
            Some(Some(v)) => e.push((rules.last().1, v)),
            _ => e,
        }
    }
}

proof fn lemma_heads_of(rules: Rules)
    requires
        paths_nonempty(rules),
    ensures
        heads(rules) =~= Seq::new(rules.len(), |i: int| rules[i].0[0]),
    decreases rules.len(),
{
    if rules.len() > 0 {
        let r = rules.drop_last();
        assert(paths_nonempty(r)) by {
            assert forall|i: int| 0 <= i < r.len() implies (#[trigger] r[i]).0.len() > 0 by {
                assert(r[i] == rules[i]);
            }
        }
        lemma_heads_of(r);
        assert(rules.last() == rules[rules.len() - 1]);
    }
}

proof fn lemma_distinct_in_order_keeps(s: Seq<Seq<char>>)
    requires
        s.no_duplicates(),
    ensures
        distinct_in_order(s) == s,
    decreases s.len(),
{
    if s.len() > 0 {
        let d = s.drop_last();
        assert(d.no_duplicates());
        lemma_distinct_in_order_keeps(d);
        assert(!d.contains(s.last()));
        assert(d.push(s.last()) =~= s);
    }
}

proof fn lemma_dest_of_head(rules: Rules, k: int)
    requires
        0 <= k < rules.len(),
        paths_nonempty(rules),
        distinct_heads(rules),
    ensures
        dest_for(rules, rules[k].0[0]) == rules[k].1,
    decreases k,
{
    if k > 0 {
        let r = rules.drop_first();
        assert(rules[0].0[0] != rules[k].0[0]);
        assert(r[k - 1] == rules[k]);
        assert(paths_nonempty(r)) by {
            assert forall|i: int| 0 <= i < r.len() implies (#[trigger] r[i]).0.len() > 0 by {
                assert(r[i] == rules[i + 1]);
            }
        }
        assert(distinct_heads(r)) by {
            assert forall|i: int, j: int|
                0 <= i < r.len() && 0 <= j < r.len() && i != j implies (#[trigger] r[i]).0[0]
                    != (#[trigger] r[j]).0[0] by {
                assert(r[i] == rules[i + 1] && r[j] == rules[j + 1]);
            }
        }
        lemma_dest_of_head(r, k - 1);
    }
}

proof fn lemma_descend_none(rules: Rules, seg: Seq<char>)
    requires
        forall|i: int| 0 <= i < rules.len() ==> !starts_with(#[trigger] rules[i], seg),
    ensures
        descend(rules, seg) == Seq::<(Path, Seq<char>)>::empty(),
    decreases rules.len(),
{
    if rules.len() > 0 {
        let r = rules.drop_last();
        assert forall|i: int| 0 <= i < r.len() implies !starts_with(#[trigger] r[i], seg) by {
            assert(r[i] == rules[i]);
        }
        lemma_descend_none(r, seg);
        assert(rules.last() == rules[rules.len() - 1]);
    }
}

proof fn lemma_descend_head(rules: Rules, k: int)
    requires
        0 <= k < rules.len(),
        paths_nonempty(rules),
        distinct_heads(rules),
    ensures
        descend(rules, rules[k].0[0]) == seq![(rules[k].0.drop_first(), rules[k].1)],
    decreases rules.len(),
{
    let seg = rules[k].0[0];
    let r = rules.drop_last();
    let n = rules.len() - 1;
    assert(rules.last() == rules[n]);
    if k == n {
        assert forall|i: int| 0 <= i < r.len() implies !starts_with(#[trigger] r[i], seg) by {
            assert(r[i] == rules[i]);
        }
        lemma_descend_none(r, seg);
        assert(Seq::<(Path, Seq<char>)>::empty().push((rules[k].0.drop_first(), rules[k].1))
            =~= seq![(rules[k].0.drop_first(), rules[k].1)]);
    } else {
        assert(r[k] == rules[k]);
        assert(paths_nonempty(r)) by {
            assert forall|i: int| 0 <= i < r.len() implies (#[trigger] r[i]).0.len() > 0 by {
                assert(r[i] == rules[i]);
            }
        }
        assert(distinct_heads(r)) by {
            assert forall|i: int, j: int|
                0 <= i < r.len() && 0 <= j < r.len() && i != j implies (#[trigger] r[i]).0[0]
                    != (#[trigger] r[j]).0[0] by {
                assert(r[i] == rules[i] && r[j] == rules[j]);
            }
        }
        lemma_descend_head(r, k);
        assert(rules[n].0[0] != rules[k].0[0]);
    }
}

proof fn lemma_entries_avoid(rules: Rules, x: Json, d: Seq<char>)
    requires
        forall|i: int| 0 <= i < rules.len() ==> (#[trigger] rules[i]).1 != d,
    ensures
        !keys_of(reached_entries(rules, x)).contains(d),
    decreases rules.len(),
{
    if rules.len() > 0 {
        let r = rules.drop_last();
        assert forall|i: int| 0 <= i < r.len() implies (#[trigger] r[i]).1 != d by {
            assert(r[i] == rules[i]);
        }
        lemma_entries_avoid(r, x, d);
        assert(rules.last() == rules[rules.len() - 1]);
        let e = reached_entries(r, x);
        match reach(x, rules.last().0) {
            Some(Some(v)) => {
                assert(keys_of(e.push((rules.last().1, v))) =~= keys_of(e).push(rules.last().1));
            },
            _ => {},
        }
    }
}

proof fn lemma_set_new_key(f: Fields, d: Seq<char>, v: Json)
    requires
        !keys_of(f).contains(d),
    ensures
        set_field(f, d, v) == f.push((d, v)),
{
    lemma_find_key(f, d);
    assert forall|j: int| 0 <= j < f.len() implies f[j].0 != d by {
        assert(keys_of(f)[j] == f[j].0);
    }
}

proof fn lemma_exact_value(rules: Rules, x: Json)
    requires
        rules.len() > 0,
        paths_nonempty(rules),
        distinct_heads(rules),
        distinct_dests(rules),
        x is Object,
        forall|i: int| 0 <= i < rules.len() ==> (#[trigger] reach(x, rules[i].0)) is Some,
    ensures
        project_value(rules, x) == Ok::<Option<Json>, JsonMapperError>(
            Some(Json::Object(reached_entries(rules, x))),
        ),
    decreases x, 0nat,
{
    assert(rules[0].0.len() > 0);
    let hs = Seq::new(rules.len(), |i: int| rules[i].0[0]);
    lemma_heads_of(rules);
    assert(hs.no_duplicates()) by {
        assert forall|i: int, j: int| 0 <= i < hs.len() && 0 <= j < hs.len() && i != j implies hs[i]
            != hs[j] by {
            assert(rules[i].0[0] != rules[j].0[0]);
        }
    }
    lemma_distinct_in_order_keeps(hs);
    let fx = x->Object_0;
    lemma_exact_fields(rules, fx, rules.len() as int);
    assert(hs.take(rules.len() as int) =~= hs);
    assert(rules.take(rules.len() as int) =~= rules);
}

proof fn lemma_exact_fields(rules: Rules, fx: Fields, k: int)
    requires
        0 <= k <= rules.len(),
        paths_nonempty(rules),
        distinct_heads(rules),
        distinct_dests(rules),
        forall|i: int| 0 <= i < rules.len() ==> (#[trigger] reach(Json::Object(fx), rules[i].0)) is Some,
    ensures
        project_fields(rules, fx, Seq::new(rules.len(), |i: int| rules[i].0[0]).take(k)) == Ok::<
            (Fields, Option<Seq<Json>>),
            JsonMapperError,
        >((reached_entries(rules.take(k), Json::Object(fx)), None)),
    decreases fx, k,
{
    let x = Json::Object(fx);
    let hs = Seq::new(rules.len(), |i: int| rules[i].0[0]);
    if k == 0 {
        assert(hs.take(0) =~= Seq::<Seq<char>>::empty());
        assert(rules.take(0) =~= Seq::<(Path, Seq<char>)>::empty());
    } else {
        let m = k - 1;
        lemma_exact_fields(rules, fx, m);
        assert(hs.take(k).drop_last() =~= hs.take(m));
        assert(rules.take(k).drop_last() =~= rules.take(m));
        assert(rules.take(k).last() == rules[m]);
        let p = rules[m].0;
        let d = rules[m].1;
        let seg = p[0];
        assert(hs.take(k).last() == seg);
        lemma_dest_of_head(rules, m);
        lemma_descend_head(rules, m);
        let flat = reached_entries(rules.take(m), x);
        assert forall|i: int| 0 <= i < rules.take(m).len() implies (#[trigger] rules.take(m)[i]).1
            != d by {
            assert(rules.take(m)[i] == rules[i]);
        }
        lemma_entries_avoid(rules.take(m), x, d);
        lemma_find_key(fx, seg);
        let i = find_key(fx, seg);
        assert(reach(x, p) is Some);
        if 0 <= i < fx.len() {
            let v = fx[i].1;
            if is_scalar(v) || p.len() == 1 {
                lemma_set_new_key(flat, d, v);
                if !is_scalar(v) {
                    let sub = seq![(p.drop_first(), d)];
                    assert(exhausted(sub)) by {
                        assert forall|j: int| 0 <= j < sub.len() implies (#[trigger] sub[j]).0.len()
                            == 0 by {
                            assert(sub[j] == (p.drop_first(), d));
                        }
                    }
                }
            } else {
                let tail = p.drop_first();
                let sub = seq![(tail, d)];
                assert(v is Object);
                assert(sub[0] == (tail, d));
                assert(paths_nonempty(sub));
                assert(distinct_heads(sub));
                assert(distinct_dests(sub));
                assert(reach(v, tail) == reach(x, p));
                lemma_exact_value(sub, v);
                assert(sub.drop_last() =~= Seq::<(Path, Seq<char>)>::empty());
                assert(reached_entries(sub.drop_last(), v) == Seq::<(Seq<char>, Json)>::empty());
                assert(sub.last() == (tail, d));
                match reach(v, tail) {
                    Some(Some(w)) => {
                        assert(reached_entries(sub, v) == Seq::<(Seq<char>, Json)>::empty().push(
                            (d, w),
                        ));
                        lemma_set_new_key(flat, d, w);
                    },
                    _ => {
                        assert(reached_entries(sub, v) == Seq::<(Seq<char>, Json)>::empty());
                    },
                }
            }
        }
    }
}

/// For a table whose rules start with distinct segments and name distinct
/// destinations, and a document object in which no rule's path meets a list:
/// the projection is the object that holds, in table order, exactly the
/// destinations whose source path is present, each with what its path
/// reaches.
pub proof fn law_exact_destinations(rules: Rules, doc: Json)
    requires
        well_formed(rules),
        rules.len() > 0,
        distinct_heads(rules),
        distinct_dests(rules),
        doc is Object,
        forall|i: int| 0 <= i < rules.len() ==> (#[trigger] reach(doc, rules[i].0)) is Some,
    ensures
        project(rules, doc) == Ok::<Json, JsonMapperError>(Json::Object(reached_entries(rules, doc))),
{
    lemma_exact_value(rules, doc);
}

proof fn lemma_find_in_push(f: Fields, e: (Seq<char>, Json), k: Seq<char>)
    requires
        find_key(f, k) >= 0,
    ensures
        find_key(f.push(e), k) == find_key(f, k),
{
    assert(f.push(e).drop_last() =~= f);
}

proof fn lemma_entry_of_rule(rules: Rules, x: Json, i: int, v: Json)
    requires
        0 <= i < rules.len(),
        distinct_dests(rules),
        reach(x, rules[i].0) == Some(Some(v)),
    ensures
        get_field(reached_entries(rules, x), rules[i].1) == Some(v),
    decreases rules.len(),
{
    let r = rules.drop_last();
    let n = rules.len() - 1;
    let d = rules[i].1;
    assert(rules.last() == rules[n]);
    let e = reached_entries(r, x);
    if i == n {
        assert forall|j: int| 0 <= j < r.len() implies (#[trigger] r[j]).1 != d by {
            assert(r[j] == rules[j]);
        }
        lemma_entries_avoid(r, x, d);
        lemma_find_key(e, d);
        assert forall|j: int| 0 <= j < e.len() implies e[j].0 != d by {
            assert(keys_of(e)[j] == e[j].0);
        }
        assert(e.push((d, v)).drop_last() =~= e);
    } else {
        assert(r[i] == rules[i]);
        assert(distinct_dests(r)) by {
            assert forall|a: int, b: int|
                0 <= a < r.len() && 0 <= b < r.len() && a != b implies (#[trigger] r[a]).1 != (
                #[trigger] r[b]).1 by {
                assert(r[a] == rules[a] && r[b] == rules[b]);
            }
        }
        lemma_entry_of_rule(r, x, i, v);
        lemma_find_key(e, d);
        match reach(x, rules.last().0) {
            Some(Some(w)) => {
                lemma_find_in_push(e, (rules.last().1, w), d);
                lemma_find_key(e.push((rules.last().1, w)), d);
                assert(e.push((rules.last().1, w))[find_key(e, d)] == e[find_key(e, d)]);
            },
            _ => {},
        }
    }
}

/// Under the same conditions, whatever a rule's path reaches (a scalar
/// where the document stops early, or the whole value under a leaf rule) is
/// copied into the result unchanged, under the rule's destination.
pub proof fn law_reached_values_copied(rules: Rules, doc: Json, i: int, v: Json)
    requires
        well_formed(rules),
        distinct_heads(rules),
        distinct_dests(rules),
        doc is Object,
        forall|j: int| 0 <= j < rules.len() ==> (#[trigger] reach(doc, rules[j].0)) is Some,
        0 <= i < rules.len(),
        reach(doc, rules[i].0) == Some(Some(v)),
    ensures
        project(rules, doc) matches Ok(Json::Object(out)) && get_field(out, rules[i].1) == Some(v),
{
    law_exact_destinations(rules, doc);
    lemma_entry_of_rule(rules, doc, i, v);
}

/// The destination names of the table.
pub open spec fn dest_names(rules: Rules) -> Set<Seq<char>> {
    Set::new(|d: Seq<char>| exists|i: int| 0 <= i < rules.len() && (#[trigger] rules[i]).1 == d)
}

/// Every key of the entries is one of `names`.
pub open spec fn keys_within(f: Fields, names: Set<Seq<char>>) -> bool {
    forall|j: int| 0 <= j < f.len() ==> names.contains((#[trigger] f[j]).0)
}

/// Every element of `rows` is an object whose keys are all among `names`.
pub open spec fn rows_within(rows: Seq<Json>, names: Set<Seq<char>>) -> bool {
    forall|i: int|
        0 <= i < rows.len() ==> (#[trigger] rows[i]) is Object && keys_within(rows[i]->Object_0, names)
}

/// An object or an array of objects whose keys are all among `names`.
pub open spec fn named_within(v: Json, names: Set<Seq<char>>) -> bool {
    match v {
        Json::Object(f) => keys_within(f, names),
        Json::Array(rows) => rows_within(rows, names),
        _ => false,
    }
}

proof fn lemma_heads_start(rules: Rules, seg: Seq<char>)
    requires
        heads(rules).contains(seg),
    ensures
        exists|i: int| 0 <= i < rules.len() && starts_with(#[trigger] rules[i], seg),
    decreases rules.len(),
{
    let r = rules.drop_last();
    let n = rules.len() - 1;
    assert(rules.last() == rules[n]);
    if heads(r).contains(seg) {
        lemma_heads_start(r, seg);
        let i = choose|i: int| 0 <= i < r.len() && starts_with(#[trigger] r[i], seg);
        assert(r[i] == rules[i]);
    } else {
        assert(starts_with(rules[n], seg));
    }
}

proof fn lemma_distinct_in_order_within(s: Seq<Seq<char>>, x: Seq<char>)
    requires
        distinct_in_order(s).contains(x),
    ensures
        s.contains(x),
    decreases s.len(),
{
    if s.len() > 0 {
        let d = s.drop_last();
        if distinct_in_order(d).contains(x) {
            lemma_distinct_in_order_within(d, x);
            let k = choose|k: int| 0 <= k < d.len() && d[k] == x;
            assert(s[k] == x);
        } else {
            assert(s[s.len() - 1] == x);
        }
    }
}

proof fn lemma_dest_named(rules: Rules, seg: Seq<char>)
    requires
        exists|i: int| 0 <= i < rules.len() && starts_with(#[trigger] rules[i], seg),
    ensures
        dest_names(rules).contains(dest_for(rules, seg)),
    decreases rules.len(),
{
    if !starts_with(rules[0], seg) {
        let r = rules.drop_first();
        let i = choose|i: int| 0 <= i < rules.len() && starts_with(#[trigger] rules[i], seg);
        assert(r[i - 1] == rules[i]);
        lemma_dest_named(r, seg);
        let k = choose|k: int| 0 <= k < r.len() && (#[trigger] r[k]).1 == dest_for(r, seg);
        assert(rules[k + 1] == r[k]);
    }
}

proof fn lemma_descend_named(rules: Rules, seg: Seq<char>)
    ensures
        dest_names(descend(rules, seg)).subset_of(dest_names(rules)),
    decreases rules.len(),
{
    if rules.len() > 0 {
        let r = rules.drop_last();
        let n = rules.len() - 1;
        lemma_descend_named(r, seg);
        assert(rules.last() == rules[n]);
        let d = descend(r, seg);
        assert forall|x: Seq<char>| dest_names(descend(rules, seg)).contains(x) implies dest_names(
            rules,
        ).contains(x) by {
            let dd = descend(rules, seg);
            let i = choose|i: int| 0 <= i < dd.len() && (#[trigger] dd[i]).1 == x;
            if i < d.len() {
                assert(dd[i] == d[i]);
                assert(dest_names(d).contains(x));
                let k = choose|k: int| 0 <= k < r.len() && (#[trigger] r[k]).1 == x;
                assert(rules[k] == r[k]);
            } else {
                assert(rules[n].1 == x);
            }
        }
    }
}

proof fn lemma_set_within(f: Fields, k: Seq<char>, v: Json, names: Set<Seq<char>>)
    requires
        keys_within(f, names),
        names.contains(k),
    ensures
        keys_within(set_field(f, k, v), names),
{
    lemma_find_key(f, k);
}

proof fn lemma_overlay_within(row: Fields, flat: Fields, names: Set<Seq<char>>)
    requires
        keys_within(row, names),
        keys_within(flat, names),
    ensures
        keys_within(overlay(row, flat), names),
    decreases flat.len(),
{
    if flat.len() > 0 {
        let fl = flat.drop_last();
        assert(keys_within(fl, names)) by {
            assert forall|j: int| 0 <= j < fl.len() implies names.contains((#[trigger] fl[j]).0) by {
                assert(fl[j] == flat[j]);
            }
        }
        lemma_overlay_within(row, fl, names);
        assert(flat.last() == flat[flat.len() - 1]);
        lemma_set_within(overlay(row, fl), flat.last().0, flat.last().1, names);
    }
}

proof fn lemma_lift_within(list: Seq<Json>, flat: Fields, names: Set<Seq<char>>)
    requires
        rows_within(list, names),
        keys_within(flat, names),
    ensures
        lift(list, flat) matches Ok(rows) ==> rows_within(rows, names),
    decreases list.len(),
{
    if list.len() > 0 {
        let l = list.drop_last();
        assert(rows_within(l, names)) by {
            assert forall|i: int| 0 <= i < l.len() implies (#[trigger] l[i]) is Object && keys_within(
                l[i]->Object_0,
                names,
            ) by {
                assert(l[i] == list[i]);
            }
        }
        lemma_lift_within(l, flat, names);
        assert(list.last() == list[list.len() - 1]);
        match list.last() {
            Json::Object(row) => {
                lemma_overlay_within(row, flat, names);
            },
            _ => {},
        }
    }
}

proof fn lemma_value_within(rules: Rules, v: Json)
    ensures
        project_value(rules, v) matches Ok(Some(w)) ==> named_within(w, dest_names(rules)),
    decreases v, 0nat,
{
    if !exhausted(rules) {
        match v {
            Json::Array(items) => {
                lemma_items_within(rules, items);
            },
            Json::Object(fields) => {
                let segs = segments(rules);
                assert forall|k: int| 0 <= k < segs.len() implies heads(rules).contains(
                    #[trigger] segs[k],
                ) by {
                    assert(distinct_in_order(heads(rules)).contains(segs[k]));
                    lemma_distinct_in_order_within(heads(rules), segs[k]);
                }
                lemma_fields_within(rules, fields, segs);
                match project_fields(rules, fields, segs) {
                    Ok((flat, Some(list))) => {
                        lemma_lift_within(list, flat, dest_names(rules));
                    },
                    _ => {},
                }
            },
            _ => {},
        }
    }
}

proof fn lemma_items_within(rules: Rules, items: Seq<Json>)
    ensures
        project_items(rules, items) matches Ok(rows) ==> rows_within(rows, dest_names(rules)),
    decreases items, 0nat,
{
    if items.len() > 0 {
        let pre = items.subrange(0, items.len() - 1);
        lemma_items_within(rules, pre);
        lemma_value_within(rules, items[items.len() - 1]);
        match project_items(rules, pre) {
            Ok(acc) => {
                match project_value(rules, items[items.len() - 1]) {
                    Ok(Some(Json::Array(xs))) => {
                        assert(rows_within(acc + xs, dest_names(rules))) by {
                            assert forall|i: int| 0 <= i < (acc + xs).len() implies #[trigger] (acc
                                + xs)[i] is Object && keys_within(
                                (acc + xs)[i]->Object_0,
                                dest_names(rules),
                            ) by {
                                if i >= acc.len() {
                                    assert((acc + xs)[i] == xs[i - acc.len()]);
                                }
                            }
                        }
                    },
                    Ok(Some(Json::Object(f))) => {
                        assert(rows_within(acc.push(Json::Object(f)), dest_names(rules))) by {
                            assert forall|i: int|
                                0 <= i < acc.push(Json::Object(f)).len() implies #[trigger] acc.push(
                                Json::Object(f),
                            )[i] is Object && keys_within(
                                acc.push(Json::Object(f))[i]->Object_0,
                                dest_names(rules),
                            ) by {
                                if i < acc.len() {
                                    assert(acc.push(Json::Object(f))[i] == acc[i]);
                                }
                            }
                        }
                    },
                    _ => {},
                }
            },
            _ => {},
        }
    }
}

proof fn lemma_fields_within(rules: Rules, fields: Fields, segs: Seq<Seq<char>>)
    requires
        forall|k: int| 0 <= k < segs.len() ==> heads(rules).contains(#[trigger] segs[k]),
    ensures
        project_fields(rules, fields, segs) matches Ok((flat, pending)) ==> keys_within(
            flat,
            dest_names(rules),
        ) && (pending matches Some(list) ==> rows_within(list, dest_names(rules))),
    decreases fields, segs.len(),
{
    let names = dest_names(rules);
    if segs.len() > 0 {
        let pre = segs.drop_last();
        assert forall|k: int| 0 <= k < pre.len() implies heads(rules).contains(#[trigger] pre[k]) by {
            assert(pre[k] == segs[k]);
        }
        lemma_fields_within(rules, fields, pre);
        let seg = segs.last();
        assert(heads(rules).contains(segs[segs.len() - 1]));
        lemma_heads_start(rules, seg);
        lemma_dest_named(rules, seg);
        let dest = dest_for(rules, seg);
        let i = find_key(fields, seg);
        match project_fields(rules, fields, pre) {
            Ok((flat, pending)) => {
                if 0 <= i < fields.len() {
                    let val = fields[i].1;
                    lemma_set_within(flat, dest, val, names);
                    if !is_scalar(val) {
                        let sub = descend(rules, seg);
                        lemma_value_within(sub, val);
                        lemma_descend_named(rules, seg);
                        match project_value(sub, val) {
                            Ok(Some(Json::Object(inner))) => {
                                if inner.len() > 0 {
                                    lemma_set_within(flat, dest, inner.last().1, names);
                                }
                            },
                            Ok(Some(Json::Array(list))) => {
                                assert(rows_within(list, names)) by {
                                    assert forall|a: int| 0 <= a < list.len() implies (
                                    #[trigger] list[a]) is Object && keys_within(
                                        list[a]->Object_0,
                                        names,
                                    ) by {
                                        let r = list[a]->Object_0;
                                        assert forall|j: int| 0 <= j < r.len() implies names.contains(
                                            (#[trigger] r[j]).0,
                                        ) by {
                                            assert(dest_names(sub).contains(r[j].0));
                                        }
                                    }
                                }
                            },
                            _ => {},
                        }
                    }
                }
            },
            _ => {},
        }
    }
}

/// Whatever the table and the document, every key of the result, and of
/// every row of a resulting array, is a destination name of the table.
pub proof fn law_only_destination_names(rules: Rules, doc: Json)
    ensures
        project(rules, doc) matches Ok(w) ==> named_within(w, dest_names(rules)),
{
    lemma_value_within(rules, doc);
}

} // verus!
