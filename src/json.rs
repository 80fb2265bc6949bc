use vstd::prelude::*;

verus! {

/// The entries of an object, in order.
pub type Fields = Seq<(Seq<char>, Json)>;

/// Model of a JSON number, in the three kinds that a JSON number is read as.
pub enum Num {
    PosInt(u64),
    NegInt(i64),
    Float(Seq<char>),
}

/// Mathematical model of a JSON value: objects are ordered sequences of
/// key/value entries, arrays are sequences of values.
pub enum Json {
    Null,
    Bool(bool),
    Number(Num),
    Str(Seq<char>),
    Array(Seq<Json>),
    Object(Fields),
}

/// A JSON number: a non-negative integer, a negative integer, or any other
/// number kept as its decimal text, so that it passes through unchanged.
#[derive(Debug, PartialEq, Eq)]
pub enum JsonNumber {
    PosInt(u64),
    NegInt(i64),
    Float(String),
}

impl JsonNumber {
    pub open spec fn view(&self) -> Num {
        match self {
            JsonNumber::PosInt(n) => Num::PosInt(*n),
            JsonNumber::NegInt(n) => Num::NegInt(*n),
            JsonNumber::Float(t) => Num::Float(t@),
        }
    }

    /// A copy of the number.
    pub fn copy(&self) -> (r: JsonNumber)
        ensures
            r.view() == self.view(),
    {
        match self {
            JsonNumber::PosInt(n) => JsonNumber::PosInt(*n),
            JsonNumber::NegInt(n) => JsonNumber::NegInt(*n),
            JsonNumber::Float(t) => JsonNumber::Float(t.clone()),
        }
    }
}

/// A JSON value held by the library.
#[derive(Debug, PartialEq, Eq)]
pub enum JsonValue {
    Null,
    Bool(bool),
    Number(JsonNumber),
    String(String),
    Array(Vec<JsonValue>),
    Object(Vec<(String, JsonValue)>),
}

impl JsonValue {
    /// The model of the value.
    pub open spec fn view(&self) -> Json
        decreases self,
    {
        match self {
            JsonValue::Null => Json::Null,
            JsonValue::Bool(b) => Json::Bool(*b),
            JsonValue::Number(n) => Json::Number(n.view()),
            JsonValue::String(s) => Json::Str(s@),
            JsonValue::Array(items) => Json::Array(
                Seq::new(items.len() as nat, |i: int| if 0 <= i < items.len() { items@[i].view() } else { Json::Null }),
            ),
            JsonValue::Object(fields) => Json::Object(
                Seq::new(fields.len() as nat, |i: int| if 0 <= i < fields.len() { (fields@[i].0@, fields@[i].1.view()) } else { (Seq::empty(), Json::Null) }),
            ),
        }
    }
}

/// A copy of `v` that is equal to it in the model.
pub fn deep_copy(v: &JsonValue) -> (r: JsonValue)
    ensures
        r.view() == v.view(),
    decreases v,
{
    match v {
        JsonValue::Null => JsonValue::Null,
        JsonValue::Bool(b) => JsonValue::Bool(*b),
        JsonValue::Number(n) => JsonValue::Number(n.copy()),
        JsonValue::String(s) => JsonValue::String(s.clone()),
        JsonValue::Array(items) => {
            let mut out: Vec<JsonValue> = Vec::new();
            let mut i: usize = 0;
            while i < items.len()
                invariant
                    i <= items.len(),
                    out.len() == i,
                    *v == JsonValue::Array(*items),
                    forall|j: int| 0 <= j < i ==> out@[j].view() == items@[j].view(),
                decreases items.len() - i,
            {
                proof {
                    assert(decreases_to!(*v => (*v)->Array_0));
                    assert(decreases_to!(*items => items@));
                    assert(decreases_to!(*v => items@[i as int]));
                }
                out.push(deep_copy(&items[i]));
                i = i + 1;
            }
            let r = JsonValue::Array(out);
            assert(r.view()->Array_0 =~= v.view()->Array_0);
            r
        },
        JsonValue::Object(fields) => {
            let mut out: Vec<(String, JsonValue)> = Vec::new();
            let mut i: usize = 0;
            while i < fields.len()
                invariant
                    i <= fields.len(),
                    out.len() == i,
                    *v == JsonValue::Object(*fields),
                    forall|j: int| 0 <= j < i ==> out@[j].0@ == fields@[j].0@ && out@[j].1.view() == fields@[j].1.view(),
                decreases fields.len() - i,
            {
                proof {
                    assert(decreases_to!(*v => (*v)->Object_0));
                    assert(decreases_to!(*fields => fields@));
                    assert(decreases_to!(fields@[i as int] => fields@[i as int].1));
                    assert(decreases_to!(fields@ => fields@[i as int]));
                    assert(decreases_to!(*v => fields@[i as int].1));
                }
                out.push((fields[i].0.clone(), deep_copy(&fields[i].1)));
                i = i + 1;
            }
            let r = JsonValue::Object(out);
            assert(r.view()->Object_0 =~= v.view()->Object_0);
            r
        },
    }
}

/// The model of a sequence of object entries.
pub open spec fn fields_view(f: Seq<(String, JsonValue)>) -> Fields {
    Seq::new(f.len(), |i: int| (f[i].0@, f[i].1.view()))
}

/// The model of a sequence of values.
pub open spec fn items_view(v: Seq<JsonValue>) -> Seq<Json> {
    Seq::new(v.len(), |i: int| v[i].view())
}

pub proof fn lemma_object_view(fields: Vec<(String, JsonValue)>)
    ensures
        JsonValue::Object(fields).view() == Json::Object(fields_view(fields@)),
{
    assert(JsonValue::Object(fields).view()->Object_0 =~= fields_view(fields@));
}

pub proof fn lemma_array_view(items: Vec<JsonValue>)
    ensures
        JsonValue::Array(items).view() == Json::Array(items_view(items@)),
{
    assert(JsonValue::Array(items).view()->Array_0 =~= items_view(items@));
}

/// True of a value that is neither an object nor an array.
pub open spec fn is_scalar(v: Json) -> bool {
    !(v is Object) && !(v is Array)
}

/// Index of the first pair whose first component is `k`, or -1 where there
/// is none.
pub open spec fn find_key<K, V>(f: Seq<(K, V)>, k: K) -> int
    decreases f.len(),
{
    if f.len() == 0 {
        -1
    } else {
        let p = find_key(f.drop_last(), k);
        if p >= 0 {
            p
        } else if f.last().0 == k {
            f.len() - 1
        } else {
            -1
        }
    }
}

/// The value under key `k`, where there is one.
pub open spec fn get_field(f: Fields, k: Seq<char>) -> Option<Json> {
    let i = find_key(f, k);
    if 0 <= i < f.len() {
        Some(f[i].1)
    } else {
        None
    }
}

/// `f` with `k` set to `v`: the entry keeps its place where the key is
/// already there, and is appended where it is not.
pub open spec fn set_field(f: Fields, k: Seq<char>, v: Json) -> Fields {
    let i = find_key(f, k);
    if 0 <= i < f.len() {
        f.update(i, (k, v))
    } else {
        f.push((k, v))
    }
}

/// The keys of the entries, in order.
pub open spec fn keys_of(f: Fields) -> Seq<Seq<char>> {
    f.map_values(|e: (Seq<char>, Json)| e.0)
}

pub proof fn lemma_find_key<K, V>(f: Seq<(K, V)>, k: K)
    ensures
        -1 <= find_key(f, k) < f.len(),
        find_key(f, k) >= 0 ==> f[find_key(f, k)].0 == k,
        find_key(f, k) >= 0 ==> forall|j: int| 0 <= j < find_key(f, k) ==> f[j].0 != k,
        find_key(f, k) == -1 <==> forall|j: int| 0 <= j < f.len() ==> f[j].0 != k,
    decreases f.len(),
{
    if f.len() > 0 {
        lemma_find_key(f.drop_last(), k);
        assert(forall|j: int| 0 <= j < f.len() - 1 ==> f.drop_last()[j] == f[j]);
    }
}

/// Position of the first entry of `fields` whose key is `k`.
pub fn find_field(fields: &Vec<(String, JsonValue)>, k: &String) -> (r: Option<usize>)
    ensures
        match r {
            Some(i) => i == find_key(fields_view(fields@), k@),
            None => find_key(fields_view(fields@), k@) == -1,
        },
{
    let mut i: usize = 0;
    while i < fields.len()
        invariant
            i <= fields.len(),
            forall|j: int| 0 <= j < i ==> fields@[j].0@ != k@,
        decreases fields.len() - i,
    {
        if fields[i].0 == *k {
            proof {
                let fv = fields_view(fields@);
                lemma_find_key(fv, k@);
                assert(fv[i as int].0 == k@);
                assert(forall|j: int| 0 <= j < i ==> fv[j].0 != k@);
            }
            return Some(i);
        }
        i = i + 1;
    }
    proof {
        let fv = fields_view(fields@);
        lemma_find_key(fv, k@);
        assert(forall|j: int| 0 <= j < fv.len() ==> fv[j].0 != k@);
    }
    None
}

/// Sets key `k` of an object's entries to `v`.
pub fn set_field_value(fields: &mut Vec<(String, JsonValue)>, k: String, v: JsonValue)
    ensures
        fields_view(final(fields)@) == set_field(fields_view(old(fields)@), k@, v.view()),
{
    proof {
        lemma_find_key(fields_view(old(fields)@), k@);
    }
    match find_field(fields, &k) {
        Some(i) => {
            fields.set(i, (k, v));
            assert(fields_view(fields@) =~= set_field(fields_view(old(fields)@), k@, v.view()));
        },
        None => {
            fields.push((k, v));
            assert(fields_view(fields@) =~= set_field(fields_view(old(fields)@), k@, v.view()));
        },
    }
}

} // verus!
