//! Operations on tree values: depth, equality, copies, and objects as
//! lists of fields ordered by name; and copies of change trees.

use vstd::prelude::*;
use crate::text::{
    lemma_precedes_total, lemma_precedes_transitive, nat_string, nat_text, precedes, text_precedes,
};
use crate::types::{
    entries_model, fields_model, lemma_entries_model, lemma_fields_model, lemma_notes_model,
    lemma_values_model, notes_model, values_model, Change, Field, FieldChange, FieldContentChange, Header,
    Json, Value, ValueChange,
};

verus! {

/// How deep a tree nests: 0 for a leaf, one more than the deepest child
/// for an array or an object.
pub open spec fn height(v: Json) -> nat
    decreases v,
{
    match v {
        Json::Array(xs) => 1 + items_height(xs),
        Json::Object(fs) => 1 + fields_height(fs),
        _ => 0,
    }
}

/// The greatest height among the items.
pub open spec fn items_height(xs: Seq<Json>) -> nat
    decreases xs,
{
    if xs.len() == 0 {
        0
    } else if height(xs.last()) > items_height(xs.drop_last()) {
        height(xs.last())
    } else {
        items_height(xs.drop_last())
    }
}

/// The greatest height among the fields' values.
pub open spec fn fields_height(fs: Seq<(Seq<char>, Json)>) -> nat
    decreases fs,
{
    if fs.len() == 0 {
        0
    } else if height(fs.last().1) > fields_height(fs.drop_last()) {
        height(fs.last().1)
    } else {
        fields_height(fs.drop_last())
    }
}

/// Every value of `fs` is less than `h` deep.
pub open spec fn bounded(fs: Seq<(Seq<char>, Json)>, h: nat) -> bool {
    forall|i: int| 0 <= i < fs.len() ==> height((#[trigger] fs[i]).1) < h
}

/// No item is deeper than the deepest.
pub proof fn lemma_items_height(xs: Seq<Json>, i: int)
    requires
        0 <= i < xs.len(),
    ensures
        height(xs[i]) <= items_height(xs),
    decreases xs.len(),
{
    if i < xs.len() - 1 {
        lemma_items_height(xs.drop_last(), i);
    }
}

/// No field is deeper than the deepest.
pub proof fn lemma_fields_height(fs: Seq<(Seq<char>, Json)>, i: int)
    requires
        0 <= i < fs.len(),
    ensures
        height(fs[i].1) <= fields_height(fs),
    decreases fs.len(),
{
    if i < fs.len() - 1 {
        lemma_fields_height(fs.drop_last(), i);
    }
}

/// The fields of an object lie strictly below it.
pub proof fn lemma_object_bounded(fs: Seq<(Seq<char>, Json)>)
    ensures
        bounded(fs, height(Json::Object(fs))),
{
    assert forall|i: int| 0 <= i < fs.len() implies height((#[trigger] fs[i]).1) < height(
        Json::Object(fs),
    ) by {
        lemma_fields_height(fs, i);
    }
}

/// The value of the first entry called `key`, if there is one.
pub open spec fn find<V>(fs: Seq<(Seq<char>, V)>, key: Seq<char>) -> Option<V>
    decreases fs.len(),
{
    if fs.len() == 0 {
        None
    } else if fs[0].0 == key {
        Some(fs[0].1)
    } else {
        find(fs.drop_first(), key)
    }
}

/// The field `key` of `v`; null where `v` is no object or has no such
/// field.
pub open spec fn lookup(key: Seq<char>, v: Json) -> Json {
    match v {
        Json::Object(fs) => match find(fs, key) {
            Some(x) => x,
            None => Json::Null,
        },
        _ => Json::Null,
    }
}

/// What `find` returns is the value of an entry of that name, and it
/// returns nothing only where no entry has that name.
pub proof fn lemma_find_is_field<V>(fs: Seq<(Seq<char>, V)>, key: Seq<char>)
    ensures
        find(fs, key) matches Some(x) ==> exists|i: int|
            0 <= i < fs.len() && (#[trigger] fs[i]).0 == key && fs[i].1 == x,
        find(fs, key) is None ==> forall|i: int| 0 <= i < fs.len() ==> (#[trigger] fs[i]).0 != key,
    decreases fs.len(),
{
    if fs.len() > 0 && fs[0].0 != key {
        let rest = fs.drop_first();
        lemma_find_is_field(rest, key);
        if find(rest, key) is Some {
            let i = choose|i: int| 0 <= i < rest.len() && (#[trigger] rest[i]).0 == key && rest[i].1 == find(rest, key)->0;
            assert(fs[i + 1] == rest[i]);
        } else {
            assert forall|i: int| 0 <= i < fs.len() implies (#[trigger] fs[i]).0 != key by {
                if i > 0 {
                    assert(fs[i] == rest[i - 1]);
                }
            }
        }
    } else if fs.len() > 0 {
        assert(fs[0].0 == key);
    }
}

/// What `lookup` finds is never deeper than the value it looked in.
pub proof fn lemma_lookup_height(key: Seq<char>, v: Json)
    ensures
        height(lookup(key, v)) <= height(v),
{
    if let Json::Object(fs) = v {
        lemma_find_is_field(fs, key);
        if find(fs, key) is Some {
            let i = choose|i: int| 0 <= i < fs.len() && (#[trigger] fs[i]).0 == key && fs[i].1 == find(fs, key)->0;
            lemma_fields_height(fs, i);
        }
    }
}

/// How many leading entries of `fs` have a name that comes before `name`.
pub open spec fn position<V>(fs: Seq<(Seq<char>, V)>, name: Seq<char>) -> int
    decreases fs.len(),
{
    if fs.len() > 0 && precedes(fs[0].0, name) {
        1 + position(fs.drop_first(), name)
    } else {
        0
    }
}

/// `fs` with the entry `name` set to `v`: in place of the entry of that
/// name where it stands at the position found, else inserted there.
pub open spec fn put<V>(fs: Seq<(Seq<char>, V)>, name: Seq<char>, v: V) -> Seq<(Seq<char>, V)> {
    let p = position(fs, name);
    if p < fs.len() && fs[p].0 == name {
        fs.update(p, (name, v))
    } else {
        fs.insert(p, (name, v))
    }
}

/// A position lies within the list or at its end.
pub proof fn lemma_position_range<V>(fs: Seq<(Seq<char>, V)>, name: Seq<char>)
    ensures
        0 <= position(fs, name) <= fs.len(),
    decreases fs.len(),
{
    if fs.len() > 0 && precedes(fs[0].0, name) {
        lemma_position_range(fs.drop_first(), name);
    }
}

/// The names of a list of entries strictly increase.
pub open spec fn ordered<V>(fs: Seq<(Seq<char>, V)>) -> bool {
    forall|i: int, j: int| 0 <= i < j < fs.len() ==> precedes(#[trigger] fs[i].0, #[trigger] fs[j].0)
}

/// Where `position` points: every field before it has a name that comes
/// before `name`, and the field at it has not.
pub proof fn lemma_position<V>(fs: Seq<(Seq<char>, V)>, name: Seq<char>)
    ensures
        0 <= position(fs, name) <= fs.len(),
        forall|k: int| 0 <= k < position(fs, name) ==> precedes((#[trigger] fs[k]).0, name),
        position(fs, name) < fs.len() ==> !precedes(fs[position(fs, name)].0, name),
    decreases fs.len(),
{
    if fs.len() > 0 && precedes(fs[0].0, name) {
        let rest = fs.drop_first();
        lemma_position(rest, name);
        let p = position(rest, name);
        assert forall|k: int| 0 <= k < p + 1 implies precedes((#[trigger] fs[k]).0, name) by {
            if k > 0 {
                assert(fs[k] == rest[k - 1]);
            }
        }
        if p + 1 < fs.len() {
            assert(fs[p + 1] == rest[p]);
        }
    }
}

/// Setting an entry keeps an ordered list ordered.
pub proof fn lemma_put_ordered<V>(fs: Seq<(Seq<char>, V)>, name: Seq<char>, v: V)
    requires
        ordered(fs),
    ensures
        ordered(put(fs, name, v)),
{
    lemma_position(fs, name);
    let p = position(fs, name);
    let out = put(fs, name, v);
    if p < fs.len() && fs[p].0 == name {
        assert forall|i: int, j: int| 0 <= i < j < out.len() implies precedes(
            #[trigger] out[i].0,
            #[trigger] out[j].0,
        ) by {
            assert(out[i].0 == fs[i].0 && out[j].0 == fs[j].0);
        }
    } else {
        if p < fs.len() {
            if !precedes(name, fs[p].0) {
                lemma_precedes_total(name, fs[p].0);
            }
        }
        assert forall|i: int, j: int| 0 <= i < j < out.len() implies precedes(
            #[trigger] out[i].0,
            #[trigger] out[j].0,
        ) by {
            if j < p {
                assert(out[i] == fs[i] && out[j] == fs[j]);
            } else if j == p {
                assert(out[i] == fs[i]);
            } else if i < p {
                assert(out[i] == fs[i] && out[j] == fs[j - 1]);
            } else if i == p {
                assert(out[j] == fs[j - 1]);
                if j - 1 > p {
                    assert(precedes(fs[p].0, fs[j - 1].0));
                    lemma_precedes_transitive(name, fs[p].0, fs[j - 1].0);
                }
            } else {
                assert(out[i] == fs[i - 1] && out[j] == fs[j - 1]);
            }
        }
    }
}

/// The items of an array as fields named by their index in decimal, in
/// the order of those names.
pub open spec fn index_fields(xs: Seq<Json>) -> Seq<(Seq<char>, Json)>
    decreases xs.len(),
{
    if xs.len() == 0 {
        Seq::empty()
    } else {
        put(index_fields(xs.drop_last()), nat_text((xs.len() - 1) as nat), xs.last())
    }
}

/// Sets the field `name` of a list of fields to `value`, keeping a list
/// that is ordered by name in that order.
pub fn put_field(fields: &mut Vec<Field>, name: String, value: Value)
    ensures
        fields_model(final(fields)@) == put(fields_model(old(fields)@), name@, value@),
        ordered(fields_model(old(fields)@)) ==> ordered(fields_model(final(fields)@)),
{
    let ghost before = fields_model(fields@);
    proof {
        lemma_fields_model(fields@);
        assert(before.skip(0) =~= before);
    }
    let mut p: usize = 0;
    while p < fields.len() && text_precedes(fields[p].name.as_str(), name.as_str())
        invariant
            p <= fields.len(),
            before == fields_model(fields@),
            before.len() == fields.len(),
            forall|i: int| 0 <= i < fields.len() ==> (#[trigger] before[i]) == (fields@[i].name@, fields@[i].value@),
            position(before, name@) == p + position(before.skip(p as int), name@),
        decreases fields.len() - p,
    {
        proof {
            assert(before.skip(p as int).drop_first() =~= before.skip(p + 1));
        }
        p += 1;
    }
    assert(position(before, name@) == p);
    let hit: bool = p < fields.len() && fields[p].name == name;
    if hit {
        fields.remove(p);
    }
    fields.insert(p, Field { name, value });
    proof {
        lemma_fields_model(fields@);
        assert(fields_model(fields@) =~= put(before, name@, value@));
        if ordered(before) {
            lemma_put_ordered(before, name@, value@);
        }
    }
}

/// The fields of `fs` gathered one after the other with `put`: ordered by
/// name, and of several fields of one name the last.
pub open spec fn gathered(fs: Seq<(Seq<char>, Json)>) -> Seq<(Seq<char>, Json)>
    decreases fs.len(),
{
    if fs.len() == 0 {
        Seq::empty()
    } else {
        put(gathered(fs.drop_last()), fs.last().0, fs.last().1)
    }
}

/// Where all items are well formed, so are the first `n`.
pub proof fn lemma_items_prefix(xs: Seq<Json>, n: int)
    requires
        0 <= n <= xs.len(),
        items_well_formed(xs),
    ensures
        items_well_formed(xs.take(n)),
    decreases xs.len(),
{
    if n < xs.len() {
        lemma_items_prefix(xs.drop_last(), n);
        assert(xs.drop_last().take(n) =~= xs.take(n));
    } else {
        assert(xs.take(n) =~= xs);
    }
}

/// Where all fields are well formed, so are the first `n`.
pub proof fn lemma_fields_prefix(fs: Seq<(Seq<char>, Json)>, n: int)
    requires
        0 <= n <= fs.len(),
        fields_well_formed(fs),
    ensures
        fields_well_formed(fs.take(n)),
    decreases fs.len(),
{
    if n < fs.len() {
        lemma_fields_prefix(fs.drop_last(), n);
        assert(fs.drop_last().take(n) =~= fs.take(n));
    } else {
        assert(fs.take(n) =~= fs);
    }
}

/// A tree is well formed where the fields of every object in it are
/// ordered by name.
pub open spec fn well_formed(v: Json) -> bool
    decreases v,
{
    match v {
        Json::Array(xs) => items_well_formed(xs),
        Json::Object(fs) => ordered(fs) && fields_well_formed(fs),
        _ => true,
    }
}

/// Every item is well formed.
pub open spec fn items_well_formed(xs: Seq<Json>) -> bool
    decreases xs,
{
    xs.len() == 0 || (items_well_formed(xs.drop_last()) && well_formed(xs.last()))
}

/// Every field's value is well formed.
pub open spec fn fields_well_formed(fs: Seq<(Seq<char>, Json)>) -> bool
    decreases fs,
{
    fs.len() == 0 || (fields_well_formed(fs.drop_last()) && well_formed(fs.last().1))
}

/// The fields are well formed exactly where each value is.
pub proof fn lemma_fields_well_formed(fs: Seq<(Seq<char>, Json)>)
    ensures
        fields_well_formed(fs) <==> forall|i: int| 0 <= i < fs.len() ==> well_formed((#[trigger] fs[i]).1),
    decreases fs.len(),
{
    if fs.len() > 0 {
        let rest = fs.drop_last();
        lemma_fields_well_formed(rest);
        if fields_well_formed(fs) {
            assert forall|i: int| 0 <= i < fs.len() implies well_formed((#[trigger] fs[i]).1) by {
                if i < rest.len() {
                    assert(rest[i] == fs[i]);
                }
            }
        }
        if forall|i: int| 0 <= i < fs.len() ==> well_formed((#[trigger] fs[i]).1) {
            assert forall|i: int| 0 <= i < rest.len() implies well_formed((#[trigger] rest[i]).1) by {
                assert(rest[i] == fs[i]);
            }
            assert(well_formed(fs[fs.len() - 1].1));
        }
    }
}

/// Setting a field to a well-formed value keeps well-formed fields well
/// formed.
pub proof fn lemma_put_well_formed(fs: Seq<(Seq<char>, Json)>, name: Seq<char>, v: Json)
    requires
        fields_well_formed(fs),
        well_formed(v),
    ensures
        fields_well_formed(put(fs, name, v)),
{
    let out = put(fs, name, v);
    let p = position(fs, name);
    lemma_position_range(fs, name);
    lemma_fields_well_formed(fs);
    lemma_fields_well_formed(out);
    assert forall|i: int| 0 <= i < out.len() implies well_formed((#[trigger] out[i]).1) by {
        if p < fs.len() && fs[p].0 == name {
            if i != p {
                assert(out[i] == fs[i]);
            }
        } else if i < p {
            assert(out[i] == fs[i]);
        } else if i > p {
            assert(out[i] == fs[i - 1]);
        }
    }
}

/// Gathering well-formed fields gives well-formed fields.
pub proof fn lemma_gathered_well_formed(fs: Seq<(Seq<char>, Json)>)
    requires
        fields_well_formed(fs),
    ensures
        fields_well_formed(gathered(fs)),
    decreases fs.len(),
{
    if fs.len() > 0 {
        lemma_gathered_well_formed(fs.drop_last());
        lemma_put_well_formed(gathered(fs.drop_last()), fs.last().0, fs.last().1);
    }
}

/// A list in which every name comes before the next is ordered.
pub proof fn lemma_steps_ordered<V>(fs: Seq<(Seq<char>, V)>, i: int, j: int)
    requires
        forall|k: int| 0 < k < fs.len() ==> precedes(#[trigger] fs[k - 1].0, fs[k].0),
        0 <= i < j < fs.len(),
    ensures
        precedes(fs[i].0, fs[j].0),
    decreases j - i,
{
    assert(precedes(fs[j - 1].0, fs[j].0));
    if i < j - 1 {
        lemma_steps_ordered(fs, i, j - 1);
        lemma_precedes_transitive(fs[i].0, fs[j - 1].0, fs[j].0);
    }
}

/// Whether the names of a list of fields strictly increase.
pub fn fields_ordered(fields: &Vec<Field>) -> (r: bool)
    ensures
        r == ordered(fields_model(fields@)),
{
    let ghost fs = fields_model(fields@);
    proof {
        lemma_fields_model(fields@);
    }
    let mut i: usize = 1;
    while i < fields.len()
        invariant
            1 <= i,
            fs == fields_model(fields@),
            fs.len() == fields.len(),
            forall|k: int| 0 <= k < fs.len() ==> (#[trigger] fs[k]) == (fields@[k].name@, fields@[k].value@),
            forall|k: int| 0 < k < i ==> precedes(#[trigger] fs[k - 1].0, fs[k].0),
        decreases fields.len() - i,
    {
        if !text_precedes(fields[i - 1].name.as_str(), fields[i].name.as_str()) {
            assert(!precedes(fs[i - 1].0, fs[i as int].0));
            return false;
        }
        i += 1;
    }
    proof {
        assert forall|a: int, b: int| 0 <= a < b < fs.len() implies precedes(
            #[trigger] fs[a].0,
            #[trigger] fs[b].0,
        ) by {
            lemma_steps_ordered(fs, a, b);
        }
    }
    true
}

impl Value {
    /// Whether the fields of every object in the tree are ordered by
    /// name.
    pub fn is_well_formed(&self) -> (r: bool)
        ensures
            r == well_formed(self@),
        decreases height(self@),
    {
        match self {
            Value::Array(xs) => {
                let ghost items = values_model(xs@);
                proof {
                    lemma_values_model(xs@);
                }
                let mut i: usize = 0;
                while i < xs.len()
                    invariant
                        i <= xs.len(),
                        self@ == Json::Array(items),
                        items == values_model(xs@),
                        items.len() == xs.len(),
                        forall|j: int| 0 <= j < xs.len() ==> (#[trigger] items[j]) == xs@[j]@,
                        items_well_formed(items.take(i as int)),
                    decreases xs.len() - i,
                {
                    proof {
                        lemma_items_height(items, i as int);
                        assert(items.take(i + 1).drop_last() =~= items.take(i as int));
                    }
                    if !xs[i].is_well_formed() {
                        proof {
                            if items_well_formed(items) {
                                lemma_items_prefix(items, i + 1);
                                assert(items.take(i + 1).last() == items[i as int]);
                            }
                        }
                        return false;
                    }
                    i += 1;
                }
                proof {
                    assert(items.take(xs.len() as int) =~= items);
                }
                true
            },
            Value::Object(fs) => {
                let ghost fields = fields_model(fs@);
                proof {
                    lemma_fields_model(fs@);
                }
                if !fields_ordered(fs) {
                    return false;
                }
                let mut i: usize = 0;
                while i < fs.len()
                    invariant
                        i <= fs.len(),
                        self@ == Json::Object(fields),
                        fields == fields_model(fs@),
                        fields.len() == fs.len(),
                        ordered(fields),
                        forall|j: int| 0 <= j < fs.len() ==> (#[trigger] fields[j]) == (fs@[j].name@, fs@[j].value@),
                        fields_well_formed(fields.take(i as int)),
                    decreases fs.len() - i,
                {
                    proof {
                        lemma_fields_height(fields, i as int);
                        assert(fields.take(i + 1).drop_last() =~= fields.take(i as int));
                    }
                    if !fs[i].value.is_well_formed() {
                        proof {
                            if fields_well_formed(fields) {
                                lemma_fields_prefix(fields, i + 1);
                                assert(fields.take(i + 1).last() == fields[i as int]);
                            }
                        }
                        return false;
                    }
                    i += 1;
                }
                proof {
                    assert(fields.take(fs.len() as int) =~= fields);
                }
                true
            },
            _ => true,
        }
    }

    /// The object with the given fields, ordered by name; where a name
    /// comes twice, its last value stands.
    pub fn object(fields: &Vec<Field>) -> (r: Value)
        ensures
            r@ == Json::Object(gathered(fields_model(fields@))),
            ordered(gathered(fields_model(fields@))),
            fields_well_formed(fields_model(fields@)) ==> well_formed(r@),
    {
        let ghost all = fields_model(fields@);
        proof {
            lemma_fields_model(fields@);
        }
        let mut out: Vec<Field> = Vec::new();
        let mut i: usize = 0;
        while i < fields.len()
            invariant
                i <= fields.len(),
                all == fields_model(fields@),
                all.len() == fields.len(),
                forall|j: int| 0 <= j < all.len() ==> (#[trigger] all[j]) == (fields@[j].name@, fields@[j].value@),
                fields_model(out@) == gathered(all.take(i as int)),
                ordered(fields_model(out@)),
            decreases fields.len() - i,
        {
            proof {
                assert(all.take(i + 1).drop_last() =~= all.take(i as int));
            }
            let value: Value = fields[i].value.copy();
            put_field(&mut out, fields[i].name.clone(), value);
            i += 1;
        }
        proof {
            assert(all.take(fields.len() as int) =~= all);
            if fields_well_formed(all) {
                lemma_gathered_well_formed(all);
            }
        }
        Value::Object(out)
    }

    /// Whether two trees are structurally equal: objects are compared
    /// as lists of fields, which is as maps where both are well formed.
    pub fn same(&self, other: &Value) -> (r: bool)
        ensures
            r == (self@ == other@),
        decreases height(self@),
    {
        match self {
            Value::Null => match other {
                Value::Null => true,
                _ => false,
            },
            Value::Bool(a) => match other {
                Value::Bool(b) => *a == *b,
                _ => false,
            },
            Value::Number(a) => match other {
                Value::Number(b) => *a == *b,
                _ => false,
            },
            Value::Decimal(a) => match other {
                Value::Decimal(b) => *a == *b,
                _ => false,
            },
            Value::String(a) => match other {
                Value::String(b) => *a == *b,
                _ => false,
            },
            Value::Array(xs) => match other {
                Value::Array(ys) => {
                    proof {
                        lemma_values_model(xs@);
                        lemma_values_model(ys@);
                    }
                    if xs.len() != ys.len() {
                        return false;
                    }
                    let mut i: usize = 0;
                    while i < xs.len()
                        invariant
                            i <= xs.len(),
                            xs.len() == ys.len(),
                            self@ == Json::Array(values_model(xs@)),
                            other@ == Json::Array(values_model(ys@)),
                            values_model(xs@).len() == xs.len(),
                            values_model(ys@).len() == ys.len(),
                            forall|j: int| 0 <= j < xs.len() ==> (#[trigger] values_model(xs@)[j]) == xs@[j]@,
                            forall|j: int| 0 <= j < ys.len() ==> (#[trigger] values_model(ys@)[j]) == ys@[j]@,
                            forall|j: int| 0 <= j < i ==> xs@[j]@ == ys@[j]@,
                        decreases xs.len() - i,
                    {
                        proof {
                            lemma_items_height(values_model(xs@), i as int);
                        }
                        if !xs[i].same(&ys[i]) {
                            assert(values_model(xs@)[i as int] != values_model(ys@)[i as int]);
                            return false;
                        }
                        i += 1;
                    }
                    assert(values_model(xs@) =~= values_model(ys@));
                    true
                },
                _ => false,
            },
            Value::Object(fs) => match other {
                Value::Object(gs) => {
                    proof {
                        lemma_fields_model(fs@);
                        lemma_fields_model(gs@);
                    }
                    if fs.len() != gs.len() {
                        return false;
                    }
                    let mut i: usize = 0;
                    while i < fs.len()
                        invariant
                            i <= fs.len(),
                            fs.len() == gs.len(),
                            self@ == Json::Object(fields_model(fs@)),
                            other@ == Json::Object(fields_model(gs@)),
                            fields_model(fs@).len() == fs.len(),
                            fields_model(gs@).len() == gs.len(),
                            forall|j: int| 0 <= j < fs.len() ==> (#[trigger] fields_model(fs@)[j]) == (fs@[j].name@, fs@[j].value@),
                            forall|j: int| 0 <= j < gs.len() ==> (#[trigger] fields_model(gs@)[j]) == (gs@[j].name@, gs@[j].value@),
                            forall|j: int| 0 <= j < i ==> fs@[j].name@ == gs@[j].name@ && fs@[j].value@ == gs@[j].value@,
                        decreases fs.len() - i,
                    {
                        proof {
                            lemma_fields_height(fields_model(fs@), i as int);
                        }
                        if !(fs[i].name == gs[i].name) || !fs[i].value.same(&gs[i].value) {
                            assert(fields_model(fs@)[i as int] != fields_model(gs@)[i as int]);
                            return false;
                        }
                        i += 1;
                    }
                    assert(fields_model(fs@) =~= fields_model(gs@));
                    true
                },
                _ => false,
            },
        }
    }

    /// A copy of the tree.
    pub fn copy(&self) -> (r: Value)
        ensures
            r@ == self@,
        decreases height(self@),
    {
        match self {
            Value::Null => Value::Null,
            Value::Bool(a) => Value::Bool(*a),
            Value::Number(a) => Value::Number(*a),
            Value::Decimal(a) => Value::Decimal(a.clone()),
            Value::String(a) => Value::String(a.clone()),
            Value::Array(xs) => {
                let mut out: Vec<Value> = Vec::new();
                let mut i: usize = 0;
                proof {
                    lemma_values_model(xs@);
                }
                while i < xs.len()
                    invariant
                        i <= xs.len(),
                        out.len() == i,
                        self@ == Json::Array(values_model(xs@)),
                        values_model(xs@).len() == xs.len(),
                        forall|j: int| 0 <= j < xs.len() ==> (#[trigger] values_model(xs@)[j]) == xs@[j]@,
                        forall|j: int| 0 <= j < i ==> out@[j]@ == xs@[j]@,
                    decreases xs.len() - i,
                {
                    proof {
                        lemma_items_height(values_model(xs@), i as int);
                    }
                    let x: Value = xs[i].copy();
                    out.push(x);
                    i += 1;
                }
                proof {
                    lemma_values_model(out@);
                    assert(values_model(out@) =~= values_model(xs@));
                }
                Value::Array(out)
            },
            Value::Object(fs) => {
                let mut out: Vec<Field> = Vec::new();
                let mut i: usize = 0;
                proof {
                    lemma_fields_model(fs@);
                }
                while i < fs.len()
                    invariant
                        i <= fs.len(),
                        out.len() == i,
                        self@ == Json::Object(fields_model(fs@)),
                        fields_model(fs@).len() == fs.len(),
                        forall|j: int| 0 <= j < fs.len() ==> (#[trigger] fields_model(fs@)[j]) == (fs@[j].name@, fs@[j].value@),
                        forall|j: int| 0 <= j < i ==> out@[j].name@ == fs@[j].name@ && out@[j].value@ == fs@[j].value@,
                    decreases fs.len() - i,
                {
                    proof {
                        lemma_fields_height(fields_model(fs@), i as int);
                    }
                    let value: Value = fs[i].value.copy();
                    out.push(Field { name: fs[i].name.clone(), value });
                    i += 1;
                }
                proof {
                    lemma_fields_model(out@);
                    assert(fields_model(out@) =~= fields_model(fs@));
                }
                Value::Object(out)
            },
        }
    }
}

impl Clone for Value {
    /// A copy of the tree.
    fn clone(&self) -> (r: Value)
        ensures
            r@ == self@,
    {
        self.copy()
    }
}

impl Clone for Field {
    /// A copy of the field.
    fn clone(&self) -> (r: Field)
        ensures
            r.name@ == self.name@,
            r.value@ == self.value@,
    {
        Field { name: self.name.clone(), value: self.value.copy() }
    }
}

/// The items of an array as a list of fields named by their index (see
/// `index_fields`).
pub fn to_field_map(ls: &Vec<Value>) -> (r: Vec<Field>)
    ensures
        fields_model(r@) == index_fields(values_model(ls@)),
        ordered(fields_model(r@)),
{
    let mut out: Vec<Field> = Vec::new();
    let mut i: usize = 0;
    proof {
        lemma_values_model(ls@);
    }
    while i < ls.len()
        invariant
            i <= ls.len(),
            values_model(ls@).len() == ls.len(),
            forall|j: int| 0 <= j < ls.len() ==> (#[trigger] values_model(ls@)[j]) == ls@[j]@,
            fields_model(out@) == index_fields(values_model(ls@).take(i as int)),
            ordered(fields_model(out@)),
        decreases ls.len() - i,
    {
        proof {
            assert(values_model(ls@).take(i + 1).drop_last() =~= values_model(ls@).take(i as int));
        }
        let value: Value = ls[i].copy();
        put_field(&mut out, nat_string(i as u128), value);
        i += 1;
    }
    proof {
        assert(values_model(ls@).take(ls.len() as int) =~= values_model(ls@));
    }
    out
}

/// Fields made of items that lie below `h` lie below `h`.
pub proof fn lemma_index_fields_bounded(xs: Seq<Json>, h: nat)
    requires
        forall|i: int| 0 <= i < xs.len() ==> height(#[trigger] xs[i]) < h,
    ensures
        bounded(index_fields(xs), h),
    decreases xs.len(),
{
    if xs.len() > 0 {
        let rest = index_fields(xs.drop_last());
        let name = nat_text((xs.len() - 1) as nat);
        assert forall|i: int| 0 <= i < xs.drop_last().len() implies height(#[trigger] xs.drop_last()[i]) < h by {
            assert(xs.drop_last()[i] == xs[i]);
        }
        lemma_index_fields_bounded(xs.drop_last(), h);
        lemma_position_range(rest, name);
        assert(height(xs.last()) < h);
        let p = position(rest, name);
        let out = put(rest, name, xs.last());
        assert forall|i: int| 0 <= i < out.len() implies height((#[trigger] out[i]).1) < h by {
            if p < rest.len() && rest[p].0 == name {
                if i != p {
                    assert(out[i] == rest[i]);
                }
            } else {
                if i < p {
                    assert(out[i] == rest[i]);
                } else if i > p {
                    assert(out[i] == rest[i - 1]);
                }
            }
        }
    }
}

/// A copy of a change.
pub fn copy_change(c: &ValueChange) -> (r: ValueChange)
    ensures
        r@ == c@,
    decreases c, 0nat,
{
    match c {
        ValueChange::Entries(es) => {
            proof {
                lemma_entries_model(es@);
            }
            let out: Vec<FieldChange> = copy_entries(es, es.len());
            proof {
                lemma_entries_model(out@);
                assert(entries_model(out@) =~= entries_model(es@));
            }
            ValueChange::Entries(out)
        },
        ValueChange::Value(ch) => ValueChange::Value(Change { before: ch.before.copy(), after: ch.after.copy() }),
        ValueChange::Number(ch) => ValueChange::Number(Change { before: ch.before, after: ch.after }),
        ValueChange::Date(ch) => ValueChange::Date(Change { before: ch.before, after: ch.after }),
        ValueChange::String(ch) => ValueChange::String(
            Change { before: ch.before.clone(), after: ch.after.clone() },
        ),
        ValueChange::Bool(ch) => ValueChange::Bool(Change { before: ch.before, after: ch.after }),
    }
}

/// Copies of the first `n` field changes.
fn copy_entries(es: &Vec<FieldChange>, n: usize) -> (r: Vec<FieldChange>)
    requires
        n <= es.len(),
    ensures
        r.len() == n,
        forall|i: int| 0 <= i < n ==> (#[trigger] r@[i])@ == es@[i]@,
    decreases es, n,
{
    if n == 0 {
        Vec::new()
    } else {
        let mut out: Vec<FieldChange> = copy_entries(es, n - 1);
        out.push(copy_field(&es[n - 1]));
        out
    }
}

/// Copies of the first `n` headers.
fn copy_headers(hs: &Vec<Header>, n: usize) -> (r: Vec<Header>)
    requires
        n <= hs.len(),
    ensures
        r.len() == n,
        forall|i: int| 0 <= i < n ==> (#[trigger] r@[i])@ == hs@[i]@,
    decreases hs, n,
{
    if n == 0 {
        Vec::new()
    } else {
        let mut out: Vec<Header> = copy_headers(hs, n - 1);
        let content: ValueChange = copy_change(&hs[n - 1].content);
        out.push(Header { name: hs[n - 1].name.clone(), content });
        out
    }
}

/// A copy of a field change.
pub fn copy_field(e: &FieldChange) -> (r: FieldChange)
    ensures
        r@ == e@,
    decreases e, 0nat,
{
    let headers: Vec<Header> = copy_headers(&e.headers, e.headers.len());
    proof {
        lemma_notes_model(headers@);
        lemma_notes_model(e.headers@);
        assert(notes_model(headers@) =~= notes_model(e.headers@));
    }
    let content: FieldContentChange = match &e.content {
        FieldContentChange::Deleted(v) => FieldContentChange::Deleted(v.copy()),
        FieldContentChange::New(v) => FieldContentChange::New(v.copy()),
        FieldContentChange::Diff(d) => FieldContentChange::Diff(copy_change(d)),
    };
    FieldChange { name: e.name.clone(), headers, content }
}

impl Clone for ValueChange {
    /// A copy of the change.
    fn clone(&self) -> (r: ValueChange)
        ensures
            r@ == self@,
    {
        copy_change(self)
    }
}

impl Clone for FieldChange {
    /// A copy of the field change.
    fn clone(&self) -> (r: FieldChange)
        ensures
            r@ == self@,
    {
        copy_field(self)
    }
}

impl Clone for Header {
    /// A copy of the header.
    fn clone(&self) -> (r: Header)
        ensures
            r@ == self@,
    {
        Header { name: self.name.clone(), content: copy_change(&self.content) }
    }
}

impl Clone for FieldContentChange {
    /// A copy of the content.
    fn clone(&self) -> (r: FieldContentChange)
        ensures
            r@ == self@,
    {
        match self {
            FieldContentChange::Deleted(v) => FieldContentChange::Deleted(v.copy()),
            FieldContentChange::New(v) => FieldContentChange::New(v.copy()),
            FieldContentChange::Diff(d) => FieldContentChange::Diff(copy_change(d)),
        }
    }
}

} // verus!
