use itertools::Itertools;
use vstd::prelude::*;
use vstd::std_specs::iter::IteratorSpec;
use crate::json::{
    deep_copy, fields_view, find_field, find_key, is_scalar, items_view, lemma_array_view,
    lemma_find_key, lemma_object_view, set_field, set_field_value, Fields, Json, JsonValue,
};

verus! {

/// A source path: the segments of a dotted path, in order.
pub type Path = Seq<Seq<char>>;

/// A rule table: pairs of source path and destination name, in table order.
pub type Rules = Seq<(Path, Seq<char>)>;

/// What can go wrong while projecting a document.
#[derive(Debug, Clone, Copy, PartialEq, Eq, Structural)]
pub enum JsonMapperError {
    /// Two sibling segments of one object both projected to lists.
    ParallelListMapping,
    /// An element of an array projected to something other than an array or
    /// an object.
    ExpectedArrayOrObject,
    /// A nested projection returned a shape that only a defect could give.
    MapInternalReturnedInvalidData,
    /// The document ends in a scalar where the rules still descend.
    InvalidInput,
    /// The table had no rule at all, so nothing was produced.
    Empty,
}

/// The segments of a dotted path, split on every `.`; the empty path has
/// one empty segment.
pub open spec fn split_dots(s: Seq<char>) -> Path
    decreases s.len(),
{
    if s.len() == 0 {
        seq![Seq::empty()]
    } else {
        let p = split_dots(s.drop_last());
        if s.last() == '.' {
            p.push(Seq::empty())
        } else {
            p.update(p.len() - 1, p.last().push(s.last()))
        }
    }
}

pub proof fn lemma_split_dots_nonempty(s: Seq<char>)
    ensures
        split_dots(s).len() >= 1,
    decreases s.len(),
{
    if s.len() > 0 {
        lemma_split_dots_nonempty(s.drop_last());
    }
}

/// The table with the rule for `path` set to `dest`: a path that is already
/// there keeps its place and takes the new destination.
pub open spec fn add_rule(rules: Rules, path: Path, dest: Seq<char>) -> Rules {
    let i = find_key(rules, path);
    if 0 <= i < rules.len() {
        rules.update(i, (path, dest))
    } else {
        rules.push((path, dest))
    }
}

/// The table compiled from (destination, dotted path) entries, in order.
pub open spec fn compile(entries: Seq<(Seq<char>, Seq<char>)>) -> Rules
    decreases entries.len(),
{
    if entries.len() == 0 {
        Seq::empty()
    } else {
        add_rule(compile(entries.drop_last()), split_dots(entries.last().1), entries.last().0)
    }
}

/// A mapping specification: an object whose values are all strings.
pub open spec fn is_flat_mapping(m: Json) -> bool {
    &&& m is Object
    &&& forall|i: int| 0 <= i < m->Object_0.len() ==> (#[trigger] m->Object_0[i]).1 is Str
}

/// The (destination, dotted path) entries of a mapping specification.
pub open spec fn mapping_entries(f: Fields) -> Seq<(Seq<char>, Seq<char>)> {
    f.map_values(|e: (Seq<char>, Json)| (e.0, e.1->Str_0))
}

/// Every path is non-empty and no path occurs twice.
pub open spec fn well_formed(rules: Rules) -> bool {
    &&& forall|i: int| 0 <= i < rules.len() ==> (#[trigger] rules[i]).0.len() > 0
    &&& forall|i: int, j: int|
        0 <= i < rules.len() && 0 <= j < rules.len() && i != j ==> (#[trigger] rules[i]).0
            != (#[trigger] rules[j]).0
}

/// Every path has been consumed.
pub open spec fn exhausted(rules: Rules) -> bool {
    forall|i: int| 0 <= i < rules.len() ==> (#[trigger] rules[i]).0.len() == 0
}

/// The first segment of each non-empty path, in table order.
pub open spec fn heads(rules: Rules) -> Seq<Seq<char>>
    decreases rules.len(),
{
    if rules.len() == 0 {
        Seq::empty()
    } else {
        let h = heads(rules.drop_last());
        if rules.last().0.len() > 0 {
            h.push(rules.last().0[0])
        } else {
            h
        }
    }
}

/// The elements of `s`, each kept at its first occurrence only.
pub open spec fn distinct_in_order(s: Seq<Seq<char>>) -> Seq<Seq<char>>
    decreases s.len(),
{
    if s.len() == 0 {
        Seq::empty()
    } else {
        let p = distinct_in_order(s.drop_last());
        if p.contains(s.last()) {
            p
        } else {
            p.push(s.last())
        }
    }
}

/// The distinct first segments of the table, in order of first discovery.
pub open spec fn segments(rules: Rules) -> Seq<Seq<char>> {
    distinct_in_order(heads(rules))
}

/// The rule's path starts with `seg`.
pub open spec fn starts_with(rule: (Path, Seq<char>), seg: Seq<char>) -> bool {
    rule.0.len() > 0 && rule.0[0] == seg
}

/// The destination of the first rule whose path starts with `seg`.
pub open spec fn dest_for(rules: Rules, seg: Seq<char>) -> Seq<char>
    decreases rules.len(),
{
    if rules.len() == 0 {
        Seq::empty()
    } else if starts_with(rules[0], seg) {
        rules[0].1
    } else {
        dest_for(rules.drop_first(), seg)
    }
}

/// The rules that start with `seg`, with that segment taken off, in order.
pub open spec fn descend(rules: Rules, seg: Seq<char>) -> Rules
    decreases rules.len(),
{
    if rules.len() == 0 {
        Seq::empty()
    } else {
        let d = descend(rules.drop_last(), seg);
        if starts_with(rules.last(), seg) {
            d.push((rules.last().0.drop_first(), rules.last().1))
        } else {
            d
        }
    }
}

/// `row` with every entry of `flat` set on top of it, in order.
pub open spec fn overlay(row: Fields, flat: Fields) -> Fields
    decreases flat.len(),
{
    if flat.len() == 0 {
        row
    } else {
        set_field(overlay(row, flat.drop_last()), flat.last().0, flat.last().1)
    }
}

/// Each row of `list` with the parent's flat entries broadcast onto it.
pub open spec fn lift(list: Seq<Json>, flat: Fields) -> Result<Seq<Json>, JsonMapperError>
    decreases list.len(),
{
    if list.len() == 0 {
        Ok(Seq::empty())
    } else {
        match lift(list.drop_last(), flat) {
            Err(e) => Err(e),
            Ok(rows) => match list.last() {
                Json::Object(row) => Ok(rows.push(Json::Object(overlay(row, flat)))),
                _ => Err(JsonMapperError::MapInternalReturnedInvalidData),
            },
        }
    }
}

/// Projection of `v` under `rules`: `Ok(None)` where the rules are
/// exhausted, else an object, an array, or an error.
pub open spec fn project_value(rules: Rules, v: Json) -> Result<Option<Json>, JsonMapperError>
    decreases v, 0nat,
{
    if exhausted(rules) {
        Ok(None)
    } else {
        match v {
            Json::Array(items) => match project_items(rules, items) {
                Ok(rows) => Ok(Some(Json::Array(rows))),
                Err(e) => Err(e),
            },
            Json::Object(fields) => match project_fields(rules, fields, segments(rules)) {
                Err(e) => Err(e),
                Ok((flat, None)) => Ok(Some(Json::Object(flat))),
                Ok((flat, Some(list))) => match lift(list, flat) {
                    Ok(rows) => Ok(Some(Json::Array(rows))),
                    Err(e) => Err(e),
                },
            },
            _ => Err(JsonMapperError::InvalidInput),
        }
    }
}

/// Projection of each element of an array under the same rules: objects
/// are appended, arrays are spliced in, anything else is an error.
pub open spec fn project_items(rules: Rules, items: Seq<Json>) -> Result<
    Seq<Json>,
    JsonMapperError,
>
    decreases items, 0nat,
{
    if items.len() == 0 {
        Ok(Seq::empty())
    } else {
        match project_items(rules, items.subrange(0, items.len() - 1)) {
            Err(e) => Err(e),
            Ok(acc) => match project_value(rules, items[items.len() - 1]) {
                Err(e) => Err(e),
                Ok(Some(Json::Object(f))) => Ok(acc.push(Json::Object(f))),
                Ok(Some(Json::Array(xs))) => Ok(acc + xs),
                Ok(_) => Err(JsonMapperError::ExpectedArrayOrObject),
            },
        }
    }
}

/// The flat entries and the pending list of an object after the segments
/// `segs` have been visited in order. A present key whose value is a scalar,
/// or whose rules are consumed, is copied under the segment's destination.
/// A nested object collapses under that destination: its fields are set
/// there one after the other, so the last one stays. A nested list becomes
/// the pending list; a second one is an error.
pub open spec fn project_fields(rules: Rules, fields: Fields, segs: Seq<Seq<char>>) -> Result<
    (Fields, Option<Seq<Json>>),
    JsonMapperError,
>
    decreases fields, segs.len(),
{
    if segs.len() == 0 {
        Ok((Seq::empty(), None))
    } else {
        match project_fields(rules, fields, segs.drop_last()) {
            Err(e) => Err(e),
            Ok((flat, pending)) => {
                let seg = segs.last();
                let dest = dest_for(rules, seg);
                let i = find_key(fields, seg);
                if !(0 <= i < fields.len()) {
                    Ok((flat, pending))
                } else if is_scalar(fields[i].1) {
                    Ok((set_field(flat, dest, fields[i].1), pending))
                } else {
                    match project_value(descend(rules, seg), fields[i].1) {
                        Err(e) => Err(e),
                        Ok(None) => Ok((set_field(flat, dest, fields[i].1), pending)),
                        Ok(Some(Json::Object(inner))) => if inner.len() == 0 {
                            Ok((flat, pending))
                        } else {
                            Ok((set_field(flat, dest, inner.last().1), pending))
                        },
                        Ok(Some(Json::Array(list))) => if pending is Some {
                            Err(JsonMapperError::ParallelListMapping)
                        } else {
                            Ok((flat, Some(list)))
                        },
                        Ok(Some(_)) => Err(JsonMapperError::MapInternalReturnedInvalidData),
                    }
                }
            },
        }
    }
}

/// The result of projecting a whole document: no value at all is an error.
pub open spec fn project(rules: Rules, doc: Json) -> Result<Json, JsonMapperError> {
    match project_value(rules, doc) {
        Ok(Some(v)) => Ok(v),
        Ok(None) => Err(JsonMapperError::Empty),
        Err(e) => Err(e),
    }
}

/// The model of a sequence of strings.
pub open spec fn strs_view(v: Seq<String>) -> Seq<Seq<char>> {
    v.map_values(|s: String| s@)
}

/// The model of a rule table held as (path segments, destination) pairs.
pub open spec fn rules_of(k: Seq<(Vec<String>, String)>) -> Rules {
    Seq::new(k.len(), |i: int| (strs_view(k[i].0@), k[i].1@))
}

pub type RuleVec = Vec<(Vec<String>, String)>;

/// Whether every path of the table has been consumed.
fn is_exhausted(keys: &RuleVec) -> (r: bool)
    ensures
        r == exhausted(rules_of(keys@)),
{
    let mut i: usize = 0;
    while i < keys.len()
        invariant
            i <= keys.len(),
            forall|j: int| 0 <= j < i ==> (#[trigger] rules_of(keys@)[j]).0.len() == 0,
        decreases keys.len() - i,
    {
        if keys[i].0.len() > 0 {
            assert(rules_of(keys@)[i as int].0.len() > 0);
            return false;
        }
        i = i + 1;
    }
    true
}

/// The first segment of each non-empty path, in table order.
fn first_segments(keys: &RuleVec) -> (r: Vec<String>)
    ensures
        strs_view(r@) == heads(rules_of(keys@)),
{
    let mut out: Vec<String> = Vec::new();
    let mut i: usize = 0;
    while i < keys.len()
        invariant
            i <= keys.len(),
            strs_view(out@) == heads(rules_of(keys@).take(i as int)),
        decreases keys.len() - i,
    {
        proof {
            assert(rules_of(keys@).take(i + 1).drop_last() =~= rules_of(keys@).take(i as int));
        }
        if keys[i].0.len() > 0 {
            out.push(keys[i].0[0].clone());
        }
        assert(strs_view(out@) =~= heads(rules_of(keys@).take(i + 1)));
        i = i + 1;
    }
    assert(rules_of(keys@).take(keys.len() as int) =~= rules_of(keys@));
    out
}

/// Relies on itertools' `Itertools::unique`: it yields each element at its
/// first occurrence, in the order of the input.
#[verifier::external_body]
fn unique_in_order(v: Vec<String>) -> (r: Vec<String>)
    ensures
        strs_view(r@) == distinct_in_order(strs_view(v@)),
{
    v.into_iter().unique().collect()
}

/// The destination of the first rule whose path starts with `seg`.
fn dest_of(keys: &RuleVec, seg: &String) -> (r: String)
    ensures
        r@ == dest_for(rules_of(keys@), seg@),
{
    let ghost rs = rules_of(keys@);
    assert(rs.subrange(0, rs.len() as int) =~= rs);
    let mut i: usize = 0;
    while i < keys.len()
        invariant
            i <= keys.len(),
            rs == rules_of(keys@),
            dest_for(rs.subrange(i as int, rs.len() as int), seg@) == dest_for(rs, seg@),
        decreases keys.len() - i,
    {
        let ghost rest = rs.subrange(i as int, rs.len() as int);
        assert(rest.drop_first() =~= rs.subrange(i + 1, rs.len() as int));
        assert(rest[0] == rs[i as int]);
        if keys[i].0.len() > 0 && keys[i].0[0] == *seg {
            return keys[i].1.clone();
        }
        i = i + 1;
    }
    String::new()
}

/// The rules that start with `seg`, with that segment taken off.
fn descend_keys(keys: &RuleVec, seg: &String) -> (r: RuleVec)
    ensures
        rules_of(r@) == descend(rules_of(keys@), seg@),
{
    let ghost rs = rules_of(keys@);
    let mut out: RuleVec = Vec::new();
    let mut i: usize = 0;
    while i < keys.len()
        invariant
            i <= keys.len(),
            rs == rules_of(keys@),
            rules_of(out@) == descend(rs.take(i as int), seg@),
        decreases keys.len() - i,
    {
        assert(rs.take(i + 1).drop_last() =~= rs.take(i as int));
        let ghost before = out@;
        if keys[i].0.len() > 0 && keys[i].0[0] == *seg {
            let mut tail: Vec<String> = Vec::new();
            let mut j: usize = 1;
            while j < keys[i].0.len()
                invariant
                    1 <= j <= keys@[i as int].0.len(),
                    i < keys.len(),
                    tail.len() == j - 1,
                    forall|k: int| 0 <= k < tail.len() ==> tail@[k]@ == keys@[i as int].0@[k + 1]@,
                decreases keys@[i as int].0.len() - j,
            {
                tail.push(keys[i].0[j].clone());
                j = j + 1;
            }
            assert(strs_view(tail@) =~= rs[i as int].0.drop_first());
            out.push((tail, keys[i].1.clone()));
            assert(rules_of(out@) =~= rules_of(before).push((rs[i as int].0.drop_first(), rs[i as int].1)));
        }
        assert(rules_of(out@) =~= descend(rs.take(i + 1), seg@));
        i = i + 1;
    }
    assert(rs.take(keys.len() as int) =~= rs);
    out
}

/// The model of a projection outcome.
pub open spec fn outcome_view(r: Result<Option<JsonValue>, JsonMapperError>) -> Result<
    Option<Json>,
    JsonMapperError,
> {
    match r {
        Ok(Some(v)) => Ok(Some(v.view())),
        Ok(None) => Ok(None),
        Err(e) => Err(e),
    }
}

/// The model of a pending list.
pub open spec fn pending_view(p: Option<Vec<JsonValue>>) -> Option<Seq<Json>> {
    match p {
        Some(v) => Some(items_view(v@)),
        None => None,
    }
}

proof fn lemma_items_err_stays(rules: Rules, items: Seq<Json>, n: int)
    requires
        0 <= n <= items.len(),
        project_items(rules, items.take(n)) is Err,
    ensures
        project_items(rules, items) == project_items(rules, items.take(n)),
    decreases items.len() - n,
{
    if n < items.len() {
        assert(items.take(n + 1).subrange(0, n) =~= items.take(n));
        lemma_items_err_stays(rules, items, n + 1);
    } else {
        assert(items.take(n) =~= items);
    }
}

proof fn lemma_fields_err_stays(rules: Rules, fields: Fields, segs: Seq<Seq<char>>, n: int)
    requires
        0 <= n <= segs.len(),
        project_fields(rules, fields, segs.take(n)) is Err,
    ensures
        project_fields(rules, fields, segs) == project_fields(rules, fields, segs.take(n)),
    decreases segs.len() - n,
{
    if n < segs.len() {
        assert(segs.take(n + 1).drop_last() =~= segs.take(n));
        lemma_fields_err_stays(rules, fields, segs, n + 1);
    } else {
        assert(segs.take(n) =~= segs);
    }
}

proof fn lemma_lift_err_stays(list: Seq<Json>, flat: Fields, n: int)
    requires
        0 <= n <= list.len(),
        lift(list.take(n), flat) is Err,
    ensures
        lift(list, flat) == lift(list.take(n), flat),
    decreases list.len() - n,
{
    if n < list.len() {
        assert(list.take(n + 1).drop_last() =~= list.take(n));
        lemma_lift_err_stays(list, flat, n + 1);
    } else {
        assert(list.take(n) =~= list);
    }
}

/// Sets every entry of `flat` on `row`, in order.
fn overlay_row(row: &mut Vec<(String, JsonValue)>, flat: &Vec<(String, JsonValue)>)
    ensures
        fields_view(final(row)@) == overlay(fields_view(old(row)@), fields_view(flat@)),
{
    let ghost fl = fields_view(flat@);
    let mut i: usize = 0;
    while i < flat.len()
        invariant
            i <= flat.len(),
            fl == fields_view(flat@),
            fields_view(row@) == overlay(fields_view(old(row)@), fl.take(i as int)),
        decreases flat.len() - i,
    {
        assert(fl.take(i + 1).drop_last() =~= fl.take(i as int));
        set_field_value(row, flat[i].0.clone(), deep_copy(&flat[i].1));
        i = i + 1;
    }
    assert(fl.take(flat.len() as int) =~= fl);
}

/// Each row of `list` with the parent's flat entries broadcast onto it.
fn lift_rows(list: &Vec<JsonValue>, flat: &Vec<(String, JsonValue)>) -> (r: Result<
    Vec<JsonValue>,
    JsonMapperError,
>)
    ensures
        match r {
            Ok(rows) => lift(items_view(list@), fields_view(flat@)) == Ok::<Seq<Json>, JsonMapperError>(items_view(rows@)),
            Err(e) => lift(items_view(list@), fields_view(flat@)) == Err::<Seq<Json>, JsonMapperError>(e),
        },
{
    let ghost lv = items_view(list@);
    let ghost fl = fields_view(flat@);
    let mut rows: Vec<JsonValue> = Vec::new();
    assert(items_view(rows@) =~= Seq::<Json>::empty());
    assert(lv.take(0).len() == 0);
    let mut i: usize = 0;
    while i < list.len()
        invariant
            i <= list.len(),
            lv == items_view(list@),
            fl == fields_view(flat@),
            lift(lv.take(i as int), fl) == Ok::<Seq<Json>, JsonMapperError>(items_view(rows@)),
        decreases list.len() - i,
    {
        assert(lv.take(i + 1).drop_last() =~= lv.take(i as int));
        assert(lv.take(i + 1).last() == list@[i as int].view());
        match &list[i] {
            JsonValue::Object(row) => {
                let mut new_row: Vec<(String, JsonValue)> = Vec::new();
                let mut j: usize = 0;
                while j < row.len()
                    invariant
                        j <= row.len(),
                        new_row.len() == j,
                        forall|k: int| 0 <= k < j ==> (#[trigger] new_row@[k]).0@ == row@[k].0@
                            && new_row@[k].1.view() == row@[k].1.view(),
                    decreases row.len() - j,
                {
                    new_row.push((row[j].0.clone(), deep_copy(&row[j].1)));
                    j = j + 1;
                }
                assert(fields_view(new_row@) =~= fields_view(row@));
                proof {
                    lemma_object_view(*row);
                }
                overlay_row(&mut new_row, flat);
                let ghost before = rows@;
                rows.push(JsonValue::Object(new_row));
                proof {
                    lemma_object_view(new_row);
                    assert(items_view(rows@) =~= items_view(before).push(
                        Json::Object(overlay(fields_view(row@), fl)),
                    ));
                }
            },
            _ => {
                proof {
                    lemma_lift_err_stays(lv, fl, i + 1);
                }
                return Err(JsonMapperError::MapInternalReturnedInvalidData);
            },
        }
        i = i + 1;
    }
    assert(lv.take(list.len() as int) =~= lv);
    Ok(rows)
}

/// Relies on `String::push`: appends one character at the end.
#[verifier::external_body]
fn push_char(s: &mut String, c: char)
    ensures
        final(s)@ == old(s)@.push(c),
{
    s.push(c)
}

/// The segments of a dotted path.
pub fn split_path(path: &String) -> (r: Vec<String>)
    ensures
        strs_view(r@) == split_dots(path@),
{
    let mut parts: Vec<String> = Vec::new();
    let mut cur = String::new();
    let mut chars = path.as_str().chars();
    let ghost mut seen: Seq<char> = Seq::empty();
    assert(strs_view(parts@).push(cur@) =~= split_dots(seen));
    loop
        invariant
            path@ == seen + chars.remaining(),
            chars.obeys_prophetic_iter_laws(),
            strs_view(parts@).push(cur@) == split_dots(seen),
        ensures
            strs_view(parts@).push(cur@) == split_dots(path@),
        decreases path@.len() - seen.len(),
    {
        let ghost seen_before = seen;
        match chars.next() {
            Some(c) => {
                proof {
                    seen = seen.push(c);
                    assert(seen.drop_last() =~= seen_before);
                }
                if c == '.' {
                    parts.push(cur);
                    cur = String::new();
                    assert(strs_view(parts@).push(cur@) =~= split_dots(seen));
                } else {
                    push_char(&mut cur, c);
                    assert(strs_view(parts@).push(cur@) =~= split_dots(seen));
                }
            },
            None => {
                assert(seen =~= path@);
                break;
            },
        }
    }
    let ghost before = parts@;
    parts.push(cur);
    assert(strs_view(parts@) =~= strs_view(before).push(cur@));
    parts
}

/// Whether two paths have the same segments.
fn same_path(a: &Vec<String>, b: &Vec<String>) -> (r: bool)
    ensures
        r == (strs_view(a@) == strs_view(b@)),
{
    if a.len() != b.len() {
        assert(strs_view(a@).len() != strs_view(b@).len());
        return false;
    }
    let mut i: usize = 0;
    while i < a.len()
        invariant
            i <= a.len(),
            a.len() == b.len(),
            forall|j: int| 0 <= j < i ==> a@[j]@ == b@[j]@,
        decreases a.len() - i,
    {
        if a[i] != b[i] {
            assert(strs_view(a@)[i as int] != strs_view(b@)[i as int]);
            return false;
        }
        i = i + 1;
    }
    assert(strs_view(a@) =~= strs_view(b@));
    true
}

/// Position of the rule for `path`, where there is one.
fn find_rule(keys: &RuleVec, path: &Vec<String>) -> (r: Option<usize>)
    ensures
        match r {
            Some(i) => i == find_key(rules_of(keys@), strs_view(path@)),
            None => find_key(rules_of(keys@), strs_view(path@)) == -1,
        },
{
    let ghost rs = rules_of(keys@);
    let ghost p = strs_view(path@);
    proof {
        lemma_find_key(rs, p);
    }
    let mut i: usize = 0;
    while i < keys.len()
        invariant
            i <= keys.len(),
            rs == rules_of(keys@),
            p == strs_view(path@),
            forall|j: int| 0 <= j < i ==> rs[j].0 != p,
        decreases keys.len() - i,
    {
        if same_path(&keys[i].0, path) {
            proof {
                lemma_find_key(rs, p);
                assert(rs[i as int].0 == p);
            }
            return Some(i);
        }
        i = i + 1;
    }
    proof {
        lemma_find_key(rs, p);
    }
    None
}

proof fn lemma_add_rule_well_formed(rules: Rules, path: Path, dest: Seq<char>)
    requires
        well_formed(rules),
        path.len() > 0,
    ensures
        well_formed(add_rule(rules, path, dest)),
{
    lemma_find_key(rules, path);
}

proof fn lemma_compile_well_formed(entries: Seq<(Seq<char>, Seq<char>)>)
    ensures
        well_formed(compile(entries)),
    decreases entries.len(),
{
    if entries.len() > 0 {
        lemma_compile_well_formed(entries.drop_last());
        lemma_split_dots_nonempty(entries.last().1);
        lemma_add_rule_well_formed(
            compile(entries.drop_last()),
            split_dots(entries.last().1),
            entries.last().0,
        );
    }
}

/// A compiled rule table; immutable once built.
pub struct JsonMapper {
    keys: RuleVec,
}

impl View for JsonMapper {
    type V = Rules;

    closed spec fn view(&self) -> Rules {
        rules_of(self.keys@)
    }
}

/// The model of the result of a whole projection.
pub open spec fn result_view(r: Result<JsonValue, JsonMapperError>) -> Result<Json, JsonMapperError> {
    match r {
        Ok(v) => Ok(v.view()),
        Err(e) => Err(e),
    }
}

impl JsonMapper {
    /// Compiles a mapping specification, an object from destination name to
    /// dotted source path. A path that occurs twice keeps its first place and
    /// takes the destination given last.
    pub fn new(mapping: JsonValue) -> (r: Self)
        requires
            is_flat_mapping(mapping.view()),
        ensures
            r@ == compile(mapping_entries(mapping.view()->Object_0)),
            well_formed(r@),
    {
        let mut keys: RuleVec = Vec::new();
        match mapping {
            JsonValue::Object(fields) => {
                let ghost ents = mapping_entries(fields_view(fields@));
                proof {
                    lemma_object_view(fields);
                }
                assert(rules_of(keys@) =~= compile(ents.take(0)));
                let mut i: usize = 0;
                while i < fields.len()
                    invariant
                        i <= fields.len(),
                        ents == mapping_entries(fields_view(fields@)),
                        is_flat_mapping(Json::Object(fields_view(fields@))),
                        rules_of(keys@) == compile(ents.take(i as int)),
                    decreases fields.len() - i,
                {
                    assert(ents.take(i + 1).drop_last() =~= ents.take(i as int));
                    assert(fields_view(fields@)[i as int].1 is Str);
                    match &fields[i].1 {
                        JsonValue::String(p) => {
                            let path = split_path(p);
                            let dest = fields[i].0.clone();
                            let ghost before = keys@;
                            assert(ents[i as int] == (fields@[i as int].0@, p@));
                            assert(ents.take(i + 1).last() == ents[i as int]);
                            proof {
                                lemma_find_key(rules_of(keys@), strs_view(path@));
                            }
                            match find_rule(&keys, &path) {
                                Some(j) => {
                                    keys.set(j, (path, dest));
                                },
                                None => {
                                    keys.push((path, dest));
                                },
                            }
                            assert(rules_of(keys@) =~= compile(ents.take(i + 1)));
                        },
                        _ => {},
                    }
                    i = i + 1;
                }
                assert(ents.take(fields.len() as int) =~= ents);
            },
            _ => {},
        }
        proof {
            lemma_compile_well_formed(mapping_entries(mapping.view()->Object_0));
        }
        JsonMapper { keys }
    }

    /// Compiles a mapping specification where it is an object whose values
    /// are all strings; anything else is a configuration error, `None`.
    pub fn try_new(mapping: JsonValue) -> (r: Option<Self>)
        ensures
            r is Some <==> is_flat_mapping(mapping.view()),
            r matches Some(m) ==> m@ == compile(mapping_entries(mapping.view()->Object_0))
                && well_formed(m@),
    {
        let flat = match &mapping {
            JsonValue::Object(fields) => {
                proof {
                    lemma_object_view(*fields);
                }
                let mut i: usize = 0;
                let mut all_text = true;
                while i < fields.len()
                    invariant
                        i <= fields.len(),
                        mapping.view() == Json::Object(fields_view(fields@)),
                        all_text <==> forall|j: int|
                            0 <= j < i ==> (#[trigger] fields_view(fields@)[j]).1 is Str,
                    decreases fields.len() - i,
                {
                    assert(fields_view(fields@)[i as int].1 == fields@[i as int].1.view());
                    match &fields[i].1 {
                        JsonValue::String(_) => {},
                        _ => {
                            all_text = false;
                        },
                    }
                    i = i + 1;
                }
                all_text
            },
            _ => false,
        };
        if flat {
            Some(JsonMapper::new(mapping))
        } else {
            None
        }
    }

    /// Projects `input` under the whole table. A table with no rule gives
    /// `Empty`; otherwise the result is the projection that `project` defines.
    pub fn map(&self, input: &JsonValue) -> (r: Result<JsonValue, JsonMapperError>)
        ensures
            result_view(r) == project(self@, input.view()),
    {
        match self.map_internal(&self.keys, input) {
            Ok(Some(v)) => Ok(v),
            Ok(None) => Err(JsonMapperError::Empty),
            Err(e) => Err(e),
        }
    }

    /// Projects `input` under `keys`, the rules that remain at this depth.
    fn map_internal(&self, keys: &RuleVec, input: &JsonValue) -> (r: Result<
        Option<JsonValue>,
        JsonMapperError,
    >)
        ensures
            outcome_view(r) == project_value(rules_of(keys@), input.view()),
        decreases input,
    {
        let ghost rules = rules_of(keys@);
        if is_exhausted(keys) {
            return Ok(None);
        }
        match input {
            JsonValue::Array(items) => {
                let ghost iv = items_view(items@);
                proof {
                    lemma_array_view(*items);
                }
                let mut out: Vec<JsonValue> = Vec::new();
                assert(items_view(out@) =~= Seq::<Json>::empty());
                assert(iv.take(0).len() == 0);
                let mut i: usize = 0;
                while i < items.len()
                    invariant
                        i <= items.len(),
                        *input == JsonValue::Array(*items),
                        input.view() == Json::Array(iv),
                        !exhausted(rules),
                        rules == rules_of(keys@),
                        iv == items_view(items@),
                        project_items(rules, iv.take(i as int)) == Ok::<Seq<Json>, JsonMapperError>(
                            items_view(out@),
                        ),
                    decreases items.len() - i,
                {
                    assert(iv.take(i + 1).subrange(0, i as int) =~= iv.take(i as int));
                    assert(iv.take(i + 1)[i as int] == items@[i as int].view());
                    proof {
                        assert(decreases_to!(*input => (*input)->Array_0));
                        assert(decreases_to!(*items => items@));
                        assert(decreases_to!(*input => items@[i as int]));
                    }
                    match self.map_internal(keys, &items[i]) {
                        Err(e) => {
                            proof {
                                lemma_items_err_stays(rules, iv, i + 1);
                            }
                            return Err(e);
                        },
                        Ok(Some(JsonValue::Object(f))) => {
                            let ghost before = out@;
                            let ghost fv = JsonValue::Object(f).view();
                            proof {
                                lemma_object_view(f);
                            }
                            out.push(JsonValue::Object(f));
                            assert(items_view(out@) =~= items_view(before).push(fv));
                        },
                        Ok(Some(JsonValue::Array(xs))) => {
                            let ghost before = out@;
                            proof {
                                lemma_array_view(xs);
                            }
                            let ghost xv = items_view(xs@);
                            let mut xs = xs;
                            out.append(&mut xs);
                            assert(items_view(out@) =~= items_view(before) + xv);
                        },
                        Ok(_) => {
                            proof {
                                lemma_items_err_stays(rules, iv, i + 1);
                            }
                            return Err(JsonMapperError::ExpectedArrayOrObject);
                        },
                    }
                    i = i + 1;
                }
                assert(iv.take(items.len() as int) =~= iv);
                proof {
                    lemma_array_view(*items);
                    lemma_array_view(out);
                }
                Ok(Some(JsonValue::Array(out)))
            },
            JsonValue::Object(fields) => {
                let ghost fv = fields_view(fields@);
                proof {
                    lemma_object_view(*fields);
                }
                let segs = unique_in_order(first_segments(keys));
                let ghost sv = strs_view(segs@);
                let mut out: Vec<(String, JsonValue)> = Vec::new();
                let mut pending: Option<Vec<JsonValue>> = None;
                assert(fields_view(out@) =~= Seq::<(Seq<char>, Json)>::empty());
                assert(sv.take(0).len() == 0);
                let mut i: usize = 0;
                while i < segs.len()
                    invariant
                        i <= segs.len(),
                        *input == JsonValue::Object(*fields),
                        input.view() == Json::Object(fv),
                        !exhausted(rules),
                        rules == rules_of(keys@),
                        fv == fields_view(fields@),
                        sv == strs_view(segs@),
                        sv == segments(rules),
                        project_fields(rules, fv, sv.take(i as int)) == Ok::<
                            (Fields, Option<Seq<Json>>),
                            JsonMapperError,
                        >((fields_view(out@), pending_view(pending))),
                    decreases segs.len() - i,
                {
                    assert(sv.take(i + 1).drop_last() =~= sv.take(i as int));
                    assert(sv.take(i + 1).last() == segs@[i as int]@);
                    let seg = &segs[i];
                    let dest = dest_of(keys, seg);
                    proof {
                        lemma_find_key(fv, seg@);
                    }
                    match find_field(fields, seg) {
                        None => {},
                        Some(j) => {
                            let val = &fields[j].1;
                            assert(fv[j as int].1 == val.view());
                            match val {
                                JsonValue::Object(_) | JsonValue::Array(_) => {
                                    let sub = descend_keys(keys, seg);
                                    proof {
                                        assert(decreases_to!(*input => (*input)->Object_0));
                                        assert(decreases_to!(*fields => fields@));
                                        assert(decreases_to!(*input => fields@[j as int].1));
                                    }
                                    match self.map_internal(&sub, val) {
                                        Err(e) => {
                                            proof {
                                                lemma_fields_err_stays(rules, fv, sv, i + 1);
                                            }
                                            return Err(e);
                                        },
                                        Ok(None) => {
                                            set_field_value(&mut out, dest, deep_copy(val));
                                        },
                                        Ok(Some(JsonValue::Object(inner))) => {
                                            proof {
                                                lemma_object_view(inner);
                                            }
                                            let n = inner.len();
                                            if n > 0 {
                                                set_field_value(
                                                    &mut out,
                                                    dest,
                                                    deep_copy(&inner[n - 1].1),
                                                );
                                            }
                                        },
                                        Ok(Some(JsonValue::Array(list))) => {
                                            proof {
                                                lemma_array_view(list);
                                            }
                                            if pending.is_some() {
                                                proof {
                                                    lemma_fields_err_stays(rules, fv, sv, i + 1);
                                                }
                                                return Err(JsonMapperError::ParallelListMapping);
                                            }
                                            pending = Some(list);
                                        },
                                        Ok(Some(_)) => {
                                            proof {
                                                lemma_fields_err_stays(rules, fv, sv, i + 1);
                                            }
                                            return Err(JsonMapperError::MapInternalReturnedInvalidData);
                                        },
                                    }
                                },
                                _ => {
                                    set_field_value(&mut out, dest, deep_copy(val));
                                },
                            }
                        },
                    }
                    i = i + 1;
                }
                assert(sv.take(segs.len() as int) =~= sv);
                match pending {
                    None => {
                        proof {
                            lemma_object_view(out);
                        }
                        Ok(Some(JsonValue::Object(out)))
                    },
                    Some(list) => match lift_rows(&list, &out) {
                        Ok(rows) => {
                            proof {
                                lemma_array_view(rows);
                            }
                            Ok(Some(JsonValue::Array(rows)))
                        },
                        Err(e) => Err(e),
                    },
                }
            },
            _ => Err(JsonMapperError::InvalidInput),
        }
    }
}

} // verus!
