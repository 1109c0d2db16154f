use vstd::prelude::*;

verus! {

/// A parsed JSON value.
///
/// A number written with a decimal point is kept exactly, as the parts the
/// numeral was read from: its sign, the digits before the point, the digits
/// after it, and how many of those there were. Its magnitude is
/// `whole + fraction / 10^scale`.
///
/// An object is a list of key and value pairs; a parsed object holds no key
/// twice, so the list stands for a mapping from keys to values.
#[derive(Debug)]
pub enum JSONValue {
    Integer(i64),
    Decimal { negative: bool, whole: i64, fraction: i64, scale: usize },
    List(Vec<JSONValue>),
    Object(Vec<(String, JSONValue)>),
    Boolean(bool),
    String(String),
    Null,
}

/// The mathematical content of a [`JSONValue`].
pub ghost enum Json {
    Integer(int),
    Decimal { negative: bool, whole: int, fraction: int, scale: nat },
    List(Seq<Json>),
    Object(Map<Seq<char>, Json>),
    Boolean(bool),
    String(Seq<char>),
    Null,
}

/// The mapping that results from writing the pairs in order, a later pair
/// replacing an earlier one with the same key.
pub open spec fn map_of(entries: Seq<(Seq<char>, Json)>) -> Map<Seq<char>, Json>
    decreases entries.len(),
{
    if entries.len() == 0 {
        Map::empty()
    } else {
        map_of(entries.drop_last()).insert(entries.last().0, entries.last().1)
    }
}

/// The pairs of an object with each key and value as mathematical content.
pub open spec fn entries_view(entries: Seq<(String, JSONValue)>) -> Seq<(Seq<char>, Json)> {
    Seq::new(entries.len(), |i: int| (entries[i].0@, entries[i].1@))
}

/// The items of a list, each as mathematical content.
pub open spec fn items_view(items: Seq<JSONValue>) -> Seq<Json> {
    Seq::new(items.len(), |i: int| items[i]@)
}

/// No two pairs have the same key.
pub open spec fn distinct_keys(entries: Seq<(String, JSONValue)>) -> bool {
    forall|i: int, j: int| 0 <= i < j < entries.len() ==> entries[i].0@ != entries[j].0@
}

impl JSONValue {
    /// No object in the value, at any depth, holds a key twice.
    pub open spec fn wf(&self) -> bool
        decreases self,
    {
        match self {
            JSONValue::List(items) => forall|i: int|
                0 <= i < items.len() ==> (#[trigger] items[i]).wf(),
            JSONValue::Object(entries) => distinct_keys(entries@) && forall|i: int|
                0 <= i < entries.len() ==> (#[trigger] entries[i]).1.wf(),
            _ => true,
        }
    }

    /// The content of a list is that of its items, in order.
    pub proof fn lemma_list_view(items: Vec<JSONValue>)
        ensures
            JSONValue::List(items)@ == Json::List(items_view(items@)),
    {
        assert(json_of(JSONValue::List(items))->List_0 =~= items_view(items@));
    }

    /// The content of an object is the mapping that its pairs give.
    pub proof fn lemma_object_view(entries: Vec<(String, JSONValue)>)
        ensures
            JSONValue::Object(entries)@ == Json::Object(map_of(entries_view(entries@))),
    {
        let m = json_of(JSONValue::Object(entries))->Object_0;
        assert(exists|x: Seq<(Seq<char>, Json)>|
            {
                &&& #[trigger] map_of(x) == m
                &&& x.len() == entries.len()
                &&& forall|i: int|
                    0 <= i < entries.len() ==> x[i] == (entries[i].0@, json_of(entries[i].1))
            });
        let x = choose|x: Seq<(Seq<char>, Json)>|
            {
                &&& #[trigger] map_of(x) == m
                &&& x.len() == entries.len()
                &&& forall|i: int|
                    0 <= i < entries.len() ==> x[i] == (entries[i].0@, json_of(entries[i].1))
            };
        assert(x =~= entries_view(entries@));
    }
}

/// Writing a pair over the one that has its key changes the mapping as an
/// insertion does.
pub proof fn lemma_map_of_update(entries: Seq<(Seq<char>, Json)>, j: int, key: Seq<char>, v: Json)
    requires
        0 <= j < entries.len(),
        entries[j].0 == key,
        forall|a: int, b: int| 0 <= a < b < entries.len() ==> entries[a].0 != entries[b].0,
    ensures
        map_of(entries.update(j, (key, v))) == map_of(entries).insert(key, v),
    decreases entries.len(),
{
    let updated = entries.update(j, (key, v));
    if j == entries.len() - 1 {
        assert(updated.drop_last() =~= entries.drop_last());
        assert(map_of(updated) =~= map_of(entries).insert(key, v));
    } else {
        assert(updated.drop_last() =~= entries.drop_last().update(j, (key, v)));
        lemma_map_of_update(entries.drop_last(), j, key, v);
        assert(entries.last().0 != key);
        assert(map_of(updated) =~= map_of(entries).insert(key, v));
    }
}

/// The mathematical content of `v`.
pub open spec fn json_of(v: JSONValue) -> Json
    decreases v,
{
    match v {
        JSONValue::Integer(n) => Json::Integer(n as int),
        JSONValue::Decimal { negative, whole, fraction, scale } => Json::Decimal {
            negative,
            whole: whole as int,
            fraction: fraction as int,
            scale: scale as nat,
        },
        JSONValue::List(items) => Json::List(
            Seq::new(
                items.len() as nat,
                |i: int|
                    if 0 <= i < items.len() {
                        json_of(items[i])
                    } else {
                        Json::Null
                    },
            ),
        ),
        JSONValue::Object(entries) => Json::Object(
            map_of(
                Seq::new(
                    entries.len() as nat,
                    |i: int|
                        if 0 <= i < entries.len() {
                            (entries[i].0@, json_of(entries[i].1))
                        } else {
                            (Seq::empty(), Json::Null)
                        },
                ),
            ),
        ),
        JSONValue::Boolean(b) => Json::Boolean(b),
        JSONValue::String(s) => Json::String(s@),
        JSONValue::Null => Json::Null,
    }
}

impl View for JSONValue {
    type V = Json;

    open spec fn view(&self) -> Json {
        json_of(*self)
    }
}

} // verus!
