//! The diff engine: from two trees and a configuration to a change tree.

use vstd::prelude::*;
use crate::text::{
    lemma_precedes_irreflexive, lemma_precedes_total, precedes, text_equal, text_precedes, texts,
};
use crate::theory::{delta_ordered, lemma_diff_ordered};
use crate::tree::{
    bounded, find, height, index_fields, lemma_index_fields_bounded, lemma_items_height, lemma_lookup_height,
    copy_field, lemma_object_bounded, lemma_put_ordered, lookup, ordered, position, put, to_field_map,
    well_formed,
};
use crate::types::{
    entries_model, fields_model, lemma_entries_model, lemma_fields_model, notes_model, values_model, Change, Content, Delta, Entry,
    Field, FieldChange, FieldContentChange, Header, Instant, Json, Note, Value, ValueChange,
};

verus! {

/// The registered headers: each name with its visibility as an ordinary
/// field, in the order of their latest registration.
#[derive(Debug)]
pub struct DiffLogger {
    headers: Vec<(String, bool)>,
}

/// Whether a field called `name` is shown as an ordinary field: as the
/// latest registration of that name says, and `true` where there is none.
pub open spec fn visible(cfg: Seq<(Seq<char>, bool)>, name: Seq<char>) -> bool
    decreases cfg.len(),
{
    if cfg.len() == 0 {
        true
    } else if cfg.last().0 == name {
        cfg.last().1
    } else {
        visible(cfg.drop_last(), name)
    }
}

/// `cfg` after `name` is registered with visibility `show`: in place of
/// an earlier registration of that name, else at its place in the order
/// of names.
pub open spec fn register(cfg: Seq<(Seq<char>, bool)>, name: Seq<char>, show: bool) -> Seq<(Seq<char>, bool)> {
    put(cfg, name, show)
}

/// The names and flags of a list of registrations.
pub open spec fn registrations(entries: Seq<(String, bool)>) -> Seq<(Seq<char>, bool)> {
    entries.map_values(|e: (String, bool)| (e.0@, e.1))
}

impl View for DiffLogger {
    type V = Seq<(Seq<char>, bool)>;

    closed spec fn view(&self) -> Seq<(Seq<char>, bool)> {
        registrations(self.headers@)
    }
}

impl Clone for DiffLogger {
    /// A copy of the configuration.
    fn clone(&self) -> (r: DiffLogger)
        ensures
            r@ == self@,
    {
        let mut headers: Vec<(String, bool)> = Vec::new();
        let mut i: usize = 0;
        while i < self.headers.len()
            invariant
                i <= self.headers.len(),
                registrations(headers@) == self@.take(i as int),
            decreases self.headers.len() - i,
        {
            let ghost before = headers@;
            headers.push((self.headers[i].0.clone(), self.headers[i].1));
            proof {
                assert(self@[i as int] == (self.headers@[i as int].0@, self.headers@[i as int].1));
                assert(registrations(headers@) =~= registrations(before).push(self@[i as int]));
                assert(registrations(headers@) =~= self@.take(i + 1));
            }
            i += 1;
        }
        proof {
            use_type_invariant(self);
            assert(self@.take(self.headers.len() as int) =~= self@);
        }
        DiffLogger { headers }
    }
}

impl DiffLogger {
    /// The names of the registrations strictly increase.
    #[verifier::type_invariant]
    closed spec fn well_formed(&self) -> bool {
        ordered(self@)
    }

    /// A configuration without headers.
    pub fn new() -> (r: DiffLogger)
        ensures
            r@ == Seq::<(Seq<char>, bool)>::empty(),
    {
        let headers: Vec<(String, bool)> = Vec::new();
        assert(registrations(headers@) =~= Seq::<(Seq<char>, bool)>::empty());
        DiffLogger { headers }
    }

    /// Whether a field called `name` is shown as an ordinary field.
    pub fn field_visibility(&self, name: &str) -> (r: bool)
        ensures
            r == visible(self@, name@),
    {
        let mut i: usize = self.headers.len();
        proof {
            assert(self@.take(i as int) =~= self@);
        }
        while i > 0
            invariant
                i <= self.headers.len(),
                visible(self@, name@) == visible(self@.take(i as int), name@),
            decreases i,
        {
            proof {
                assert(self@.take(i as int).drop_last() =~= self@.take(i - 1));
            }
            i -= 1;
            if text_equal(self.headers[i].0.as_str(), name) {
                return self.headers[i].1;
            }
        }
        true
    }

    /// The configuration with `header` registered: its change is shown
    /// beside the changes of its sibling fields, and `show_in_fields`
    /// says whether fields of that name still appear as ordinary fields.
    /// A later registration of a name replaces the earlier one, and the
    /// names are kept in their order.
    pub fn set_header(&self, header: &str, show_in_fields: bool) -> (r: DiffLogger)
        ensures
            r@ == register(self@, header@, show_in_fields),
            ordered(r@),
    {
        let ghost cfg = self@;
        let n: usize = self.headers.len();
        let mut headers: Vec<(String, bool)> = Vec::new();
        let mut i: usize = 0;
        proof {
            use_type_invariant(self);
            assert(cfg.skip(0) =~= cfg);
            assert(registrations(headers@) =~= cfg.take(0));
        }
        while i < n && text_precedes(self.headers[i].0.as_str(), header)
            invariant
                i <= n,
                n == self.headers.len(),
                cfg == self@,
                cfg.len() == n,
                registrations(headers@) == cfg.take(i as int),
                position(cfg, header@) == i + position(cfg.skip(i as int), header@),
            decreases n - i,
        {
            proof {
                assert(cfg.skip(i as int).drop_first() =~= cfg.skip(i + 1));
            }
            let ghost before = headers@;
            headers.push((self.headers[i].0.clone(), self.headers[i].1));
            proof {
                assert(cfg[i as int] == (self.headers@[i as int].0@, self.headers@[i as int].1));
                assert(registrations(headers@) =~= registrations(before).push(cfg[i as int]));
                assert(registrations(headers@) =~= cfg.take(i + 1));
            }
            i += 1;
        }
        assert(position(cfg, header@) == i);
        let hit: bool = i < n && text_equal(self.headers[i].0.as_str(), header);
        headers.push((header.to_owned(), show_in_fields));
        let start: usize = if hit {
            i + 1
        } else {
            i
        };
        let mut k: usize = start;
        assert(registrations(headers@) =~= cfg.take(i as int).push((header@, show_in_fields)) + cfg.subrange(
            start as int,
            k as int,
        ));
        while k < n
            invariant
                i <= start <= k <= n,
                n == self.headers.len(),
                cfg == self@,
                cfg.len() == n,
                registrations(headers@) == cfg.take(i as int).push((header@, show_in_fields)) + cfg.subrange(
                    start as int,
                    k as int,
                ),
            decreases n - k,
        {
            let ghost before = headers@;
            headers.push((self.headers[k].0.clone(), self.headers[k].1));
            proof {
                assert(cfg[k as int] == (self.headers@[k as int].0@, self.headers@[k as int].1));
                assert(registrations(headers@) =~= registrations(before).push(cfg[k as int]));
                assert(registrations(headers@) =~= cfg.take(i as int).push((header@, show_in_fields))
                    + cfg.subrange(start as int, k + 1));
            }
            k += 1;
        }
        proof {
            assert(registrations(headers@) =~= put(cfg, header@, show_in_fields));
            lemma_put_ordered(cfg, header@, show_in_fields);
        }
        DiffLogger { headers }
    }
}

/// The instant that chrono reads from a text in the format of RFC 3339, as
/// seconds since the epoch, nanoseconds within the second and the offset
/// from UTC in seconds; `None` where chrono rejects the text.
pub uninterp spec fn rfc3339_instant(text: Seq<char>) -> Option<(i64, u32, i32)>;

/// Calls `chrono::DateTime::parse_from_rfc3339`. Nothing is proved of it:
/// the contract only names what the parser returns for a text, read off
/// through `timestamp`, `timestamp_subsec_nanos` and the offset's
/// `local_minus_utc`.
#[verifier::external_body]
fn parse_rfc3339(text: &str) -> (r: Option<(i64, u32, i32)>)
    ensures
        r == rfc3339_instant(text@),
{
    match chrono::DateTime::parse_from_rfc3339(text) {
        Ok(t) => Some((t.timestamp(), t.timestamp_subsec_nanos(), t.offset().local_minus_utc())),
        Err(_) => None,
    }
}

/// The instant made of the three numbers of a parsed text.
pub open spec fn instant_of(p: (i64, u32, i32)) -> Instant {
    Instant { seconds: p.0, nanos: p.1, offset: p.2 }
}

/// The two instants, where both texts were read as one.
pub open spec fn stamps(s: Option<(i64, u32, i32)>, t: Option<(i64, u32, i32)>) -> Option<(Instant, Instant)> {
    if s is Some && t is Some {
        Some((instant_of(s->0), instant_of(t->0)))
    } else {
        None
    }
}

/// The change between two unequal texts: temporal where both were read
/// as instants, textual otherwise.
pub open spec fn text_delta(before: Seq<char>, after: Seq<char>, both: Option<(Instant, Instant)>) -> Delta {
    match both {
        Some(p) => Delta::Date(p.0, p.1),
        None => Delta::Text(before, after),
    }
}

/// The entry alone where its name is visible, nothing where it is hidden.
pub open spec fn shown(e: Entry, cfg: Seq<(Seq<char>, bool)>) -> Seq<Entry> {
    if visible(cfg, e.name) {
        seq![e]
    } else {
        Seq::empty()
    }
}

/// The entries of `es` whose names are visible, in their order.
pub open spec fn kept(es: Seq<Entry>, cfg: Seq<(Seq<char>, bool)>) -> Seq<Entry>
    decreases es.len(),
{
    if es.len() == 0 {
        Seq::empty()
    } else {
        kept(es.drop_last(), cfg) + shown(es.last(), cfg)
    }
}

/// The change from `a` to `b`: none where they are equal; a composite
/// for two objects or two arrays; a typed leaf for two numbers, two texts
/// or two booleans; the two values as they are in every other case.
/// Objects are walked as lists of fields ordered by name: what is proved
/// of the composite as a change between maps asks for `ordered` lists.
pub open spec fn diff(a: Json, b: Json, cfg: Seq<(Seq<char>, bool)>) -> Option<Delta>
    decreases height(a) + 1, 0nat, 0nat,
{
    if a == b {
        None
    } else {
        Some(
            match a {
                Json::Object(fa) => match b {
                    Json::Object(fb) => Delta::Entries(kept(merge(fa, fb, 0, 0, cfg, height(a)), cfg)),
                    _ => Delta::Value(a, b),
                },
                Json::Array(xs) => match b {
                    Json::Array(ys) => Delta::Entries(
                        kept(merge(index_fields(xs), index_fields(ys), 0, 0, cfg, height(a)), cfg),
                    ),
                    _ => Delta::Value(a, b),
                },
                Json::Number(x) => match b {
                    Json::Number(y) => Delta::Number(x, y),
                    _ => Delta::Value(a, b),
                },
                Json::Text(x) => match b {
                    Json::Text(y) => text_delta(x, y, stamps(rfc3339_instant(x), rfc3339_instant(y))),
                    _ => Delta::Value(a, b),
                },
                Json::Bool(x) => match b {
                    Json::Bool(y) => Delta::Bool(x, y),
                    _ => Delta::Value(a, b),
                },
                _ => Delta::Value(a, b),
            },
        )
    }
}

/// The entries for the fields of two lists that are ordered by name,
/// from the positions `i` and `j` on, in the order of the names, before
/// the hidden names are dropped: a
/// name only in `fa` is deleted, one only in `fb` is new, one in both is
/// compared and left out where nothing changed; each entry carries its
/// headers. `h` bounds the depth of the values of `fa`; it holds of every
/// list of fields taken from a tree of height `h` (`lemma_object_bounded`,
/// `lemma_index_fields_bounded`), and such a tree has a height above 0.
pub open spec fn merge(
    fa: Seq<(Seq<char>, Json)>,
    fb: Seq<(Seq<char>, Json)>,
    i: int,
    j: int,
    cfg: Seq<(Seq<char>, bool)>,
    h: nat,
) -> Seq<Entry>
    decreases h, 1nat, fa.len() - i + fb.len() - j,
{
    if i < 0 || j < 0 || i > fa.len() || j > fb.len() || (i == fa.len() && j == fb.len()) {
        Seq::empty()
    } else if j == fb.len() || (i < fa.len() && precedes(fa[i].0, fb[j].0)) {
        seq![removed(fa[i].0, fa[i].1, cfg, h)] + merge(fa, fb, i + 1, j, cfg, h)
    } else if i == fa.len() || precedes(fb[j].0, fa[i].0) {
        seq![added(fb[j].0, fb[j].1, cfg, h)] + merge(fa, fb, i, j + 1, cfg, h)
    } else {
        (match modified(fa[i].0, fa[i].1, fb[j].1, cfg, h) {
            Some(e) => seq![e],
            None => Seq::empty(),
        }) + merge(fa, fb, i + 1, j + 1, cfg, h)
    }
}

/// The entry of a field that stands only on the old side: its value as
/// deleted, with its headers, the missing side counting as null.
pub open spec fn removed(name: Seq<char>, x: Json, cfg: Seq<(Seq<char>, bool)>, h: nat) -> Entry
    decreases h, 0nat, cfg.len() + 1,
{
    Entry { name, headers: notes(cfg, cfg.len(), x, Json::Null, h), content: Content::Deleted(x) }
}

/// The entry of a field that stands only on the new side: its value as
/// new, with its headers, the missing side counting as null.
pub open spec fn added(name: Seq<char>, y: Json, cfg: Seq<(Seq<char>, bool)>, h: nat) -> Entry
    decreases h, 0nat, cfg.len() + 1,
{
    Entry { name, headers: notes(cfg, cfg.len(), Json::Null, y, h), content: Content::New(y) }
}

/// The entry of a field that stands on both sides: none where its two
/// values are equal, else their change with its headers.
pub open spec fn modified(name: Seq<char>, x: Json, y: Json, cfg: Seq<(Seq<char>, bool)>, h: nat) -> Option<Entry>
    decreases h, 0nat, cfg.len() + 1,
{
    if height(x) < h {
        match diff(x, y, cfg) {
            None => None,
            Some(d) => Some(Entry { name, headers: notes(cfg, cfg.len(), x, y, h), content: Content::Diff(d) }),
        }
    } else {
        None
    }
}

/// The headers of a field with the values `x` and `y`, for the first `n`
/// registered names: for each of them the change between the fields of
/// that name in `x` and in `y`, where there is one.
pub open spec fn notes(cfg: Seq<(Seq<char>, bool)>, n: nat, x: Json, y: Json, h: nat) -> Seq<Note>
    decreases h, 0nat, n,
{
    if n == 0 || n > cfg.len() {
        Seq::empty()
    } else {
        let name = cfg[n - 1].0;
        let rest = notes(cfg, (n - 1) as nat, x, y, h);
        if height(lookup(name, x)) < h {
            match diff(lookup(name, x), lookup(name, y), cfg) {
                Some(d) => rest.push(Note { name, content: d }),
                None => rest,
            }
        } else {
            rest
        }
    }
}

/// The model of an optional change.
pub open spec fn option_delta(r: Option<ValueChange>) -> Option<Delta> {
    match r {
        Some(c) => Some(c@),
        None => None,
    }
}

/// The model of an optional header.
pub open spec fn option_note(r: Option<Header>) -> Option<Note> {
    match r {
        Some(c) => Some(c@),
        None => None,
    }
}

/// The header `key` of a field with the values `x` and `y`: the change
/// between their fields of that name, where there is one.
pub open spec fn header_change(key: Seq<char>, x: Json, y: Json, cfg: Seq<(Seq<char>, bool)>) -> Option<Note> {
    match diff(lookup(key, x), lookup(key, y), cfg) {
        Some(d) => Some(Note { name: key, content: d }),
        None => None,
    }
}

/// The model of an optional field change.
pub open spec fn option_entry(r: Option<FieldChange>) -> Option<Entry> {
    match r {
        Some(c) => Some(c@),
        None => None,
    }
}

/// The field `key` of `value`, or null.
pub fn lookup_header(key: &str, value: &Value) -> (r: Value)
    ensures
        r@ == lookup(key@, value@),
{
    match value {
        Value::Object(hm) => {
            let ghost fs = fields_model(hm@);
            proof {
                lemma_fields_model(hm@);
                assert(fs.skip(0) =~= fs);
            }
            let mut i: usize = 0;
            while i < hm.len()
                invariant
                    i <= hm.len(),
                    fs == fields_model(hm@),
                    value@ == Json::Object(fs),
                    fs.len() == hm.len(),
                    forall|k: int| 0 <= k < fs.len() ==> (#[trigger] fs[k]) == (hm@[k].name@, hm@[k].value@),
                    find(fs, key@) == find(fs.skip(i as int), key@),
                decreases hm.len() - i,
            {
                assert(fs.skip(i as int)[0] == fs[i as int]);
                if text_equal(hm[i].name.as_str(), key) {
                    return hm[i].value.copy();
                }
                proof {
                    assert(fs.skip(i as int).drop_first() =~= fs.skip(i + 1));
                }
                i += 1;
            }
            Value::Null
        },
        _ => Value::Null,
    }
}

/// Reads both texts as instants in the format of RFC 3339.
pub fn to_timestamps(x: &String, y: &String) -> (r: Option<(Instant, Instant)>)
    ensures
        r == stamps(rfc3339_instant(x@), rfc3339_instant(y@)),
{
    match parse_rfc3339(x.as_str()) {
        Some(o) => match parse_rfc3339(y.as_str()) {
            Some(c) => Some(
                (
                    Instant { seconds: o.0, nanos: o.1, offset: o.2 },
                    Instant { seconds: c.0, nanos: c.1, offset: c.2 },
                ),
            ),
            None => None,
        },
        None => None,
    }
}

/// The change between two unequal texts, given what `to_timestamps` made
/// of them.
pub fn text_change(before: &String, after: &String, both: Option<(Instant, Instant)>) -> (r: ValueChange)
    ensures
        r@ == text_delta(before@, after@, both),
{
    match both {
        Some(p) => ValueChange::Date(Change { before: p.0, after: p.1 }),
        None => ValueChange::String(Change { before: before.clone(), after: after.clone() }),
    }
}

/// Appends `e` to `fields` unless its name is hidden.
fn keep_visible(fields: &mut Vec<FieldChange>, e: FieldChange, options: &DiffLogger)
    ensures
        entries_model(final(fields)@) == entries_model(old(fields)@) + shown(e@, options@),
{
    if options.field_visibility(e.name.as_str()) {
        let ghost before = fields@;
        fields.push(e);
        proof {
            assert(fields@.drop_last() =~= before);
            assert(entries_model(before).push(e@) =~= entries_model(before) + seq![e@]);
        }
    } else {
        assert(entries_model(fields@) + Seq::<Entry>::empty() =~= entries_model(fields@));
    }
}

/// Appends `e` to `fields`.
fn append_entry(fields: &mut Vec<FieldChange>, e: FieldChange)
    ensures
        entries_model(final(fields)@) == entries_model(old(fields)@) + seq![e@],
{
    let ghost before = fields@;
    fields.push(e);
    proof {
        assert(fields@.drop_last() =~= before);
        assert(entries_model(before).push(e@) =~= entries_model(before) + seq![e@]);
    }
}

/// The field changes whose names are visible, in their order: a name
/// registered as hidden is dropped, every other entry stays as it is.
pub fn drop_headers(fields: Vec<FieldChange>, options: &DiffLogger) -> (r: Vec<FieldChange>)
    ensures
        entries_model(r@) == kept(entries_model(fields@), options@),
{
    let ghost all = entries_model(fields@);
    proof {
        lemma_entries_model(fields@);
    }
    let mut out: Vec<FieldChange> = Vec::new();
    let mut i: usize = 0;
    assert(all.take(0) =~= Seq::<Entry>::empty());
    while i < fields.len()
        invariant
            i <= fields.len(),
            all == entries_model(fields@),
            all.len() == fields.len(),
            forall|k: int| 0 <= k < all.len() ==> (#[trigger] all[k]) == fields@[k]@,
            entries_model(out@) == kept(all.take(i as int), options@),
        decreases fields.len() - i,
    {
        proof {
            assert(all.take(i + 1).drop_last() =~= all.take(i as int));
        }
        keep_visible(&mut out, copy_field(&fields[i]), options);
        i += 1;
    }
    proof {
        assert(all.take(fields.len() as int) =~= all);
    }
    out
}

/// The header `key` of a field with the values `old` and `cur`, where
/// the two differ in it.
fn get_header(key: &str, old: &Value, cur: &Value, options: &DiffLogger, Ghost(h): Ghost<nat>) -> (r: Option<Header>)
    requires
        height(old@) < h,
    ensures
        option_note(r) == header_change(key@, old@, cur@, options@),
    decreases h, 0nat, 1nat,
{
    let before: Value = lookup_header(key, old);
    let after: Value = lookup_header(key, cur);
    proof {
        lemma_lookup_height(key@, old@);
    }
    match diff_values(&before, &after, options) {
        Some(content) => Some(Header { name: key.to_owned(), content }),
        None => None,
    }
}

/// The headers of a field with the values `old_field` and
/// `current_field`, one for each registered name in which they differ.
fn gen_headers(old_field: &Value, current_field: &Value, options: &DiffLogger, Ghost(h): Ghost<nat>) -> (r: Vec<Header>)
    requires
        height(old_field@) < h,
    ensures
        notes_model(r@) == notes(options@, options@.len(), old_field@, current_field@, h),
    decreases h, 0nat, 2nat,
{
    let mut out: Vec<Header> = Vec::new();
    let mut i: usize = 0;
    while i < options.headers.len()
        invariant
            i <= options.headers.len(),
            options@.len() == options.headers.len(),
            height(old_field@) < h,
            notes_model(out@) == notes(options@, i as nat, old_field@, current_field@, h),
        decreases options.headers.len() - i,
    {
        proof {
            lemma_lookup_height(options@[i as int].0, old_field@);
        }
        match get_header(options.headers[i].0.as_str(), old_field, current_field, options, Ghost(h)) {
            Some(x) => {
                let ghost before = out@;
                out.push(x);
                proof {
                    assert(out@.drop_last() =~= before);
                }
            },
            None => {},
        }
        i += 1;
    }
    out
}

/// The entry of a field that stands on both sides, or `None` where its
/// two values are equal.
fn diff_field(
    name: String,
    old_field: &Value,
    current_field: &Value,
    options: &DiffLogger,
    Ghost(h): Ghost<nat>,
) -> (r: Option<FieldChange>)
    requires
        height(old_field@) < h,
    ensures
        option_entry(r) == modified(name@, old_field@, current_field@, options@, h),
    decreases h, 0nat, 3nat,
{
    match diff_values(old_field, current_field, options) {
        None => None,
        Some(value) => {
            let headers: Vec<Header> = gen_headers(old_field, current_field, options, Ghost(h));
            Some(FieldChange { name, headers, content: FieldContentChange::Diff(value) })
        },
    }
}

/// The names of two lists of fields from the positions `i` and `j` on,
/// as a walk along both finds them: of two lists that are ordered by name
/// the names of either, each once, in their order.
pub open spec fn union_names(fa: Seq<(Seq<char>, Json)>, fb: Seq<(Seq<char>, Json)>, i: int, j: int) -> Seq<
    Seq<char>,
>
    decreases fa.len() - i + fb.len() - j,
{
    if i < 0 || j < 0 || i > fa.len() || j > fb.len() || (i == fa.len() && j == fb.len()) {
        Seq::empty()
    } else if j == fb.len() || (i < fa.len() && precedes(fa[i].0, fb[j].0)) {
        seq![fa[i].0] + union_names(fa, fb, i + 1, j)
    } else if i == fa.len() || precedes(fb[j].0, fa[i].0) {
        seq![fb[j].0] + union_names(fa, fb, i, j + 1)
    } else {
        seq![fa[i].0] + union_names(fa, fb, i + 1, j + 1)
    }
}

/// The names of the fields of either list, each once, in their order.
pub fn all_keys(old_map: &Vec<Field>, current_map: &Vec<Field>) -> (r: Vec<String>)
    ensures
        texts(r@) == union_names(fields_model(old_map@), fields_model(current_map@), 0, 0),
{
    let ghost fa = fields_model(old_map@);
    let ghost fb = fields_model(current_map@);
    proof {
        lemma_fields_model(old_map@);
        lemma_fields_model(current_map@);
    }
    let mut out: Vec<String> = Vec::new();
    let mut i: usize = 0;
    let mut j: usize = 0;
    assert(texts(out@) + union_names(fa, fb, 0, 0) =~= union_names(fa, fb, 0, 0));
    while i < old_map.len() || j < current_map.len()
        invariant
            i <= old_map.len(),
            j <= current_map.len(),
            fa == fields_model(old_map@),
            fb == fields_model(current_map@),
            fa.len() == old_map.len(),
            fb.len() == current_map.len(),
            forall|k: int| 0 <= k < fa.len() ==> (#[trigger] fa[k]) == (old_map@[k].name@, old_map@[k].value@),
            forall|k: int| 0 <= k < fb.len() ==> (#[trigger] fb[k]) == (current_map@[k].name@, current_map@[k].value@),
            union_names(fa, fb, 0, 0) == texts(out@) + union_names(fa, fb, i as int, j as int),
        decreases (old_map.len() - i) + (current_map.len() - j),
    {
        let ghost done = texts(out@);
        let ghost rest = union_names(fa, fb, i as int, j as int);
        let take_old: bool = j == current_map.len() || (i < old_map.len() && text_precedes(
            old_map[i].name.as_str(),
            current_map[j].name.as_str(),
        ));
        if take_old {
            out.push(old_map[i].name.clone());
            i += 1;
        } else if i == old_map.len() || text_precedes(current_map[j].name.as_str(), old_map[i].name.as_str()) {
            out.push(current_map[j].name.clone());
            j += 1;
        } else {
            out.push(old_map[i].name.clone());
            i += 1;
            j += 1;
        }
        proof {
            assert(texts(out@) =~= done.push(rest[0]));
            assert(done.push(rest[0]) + union_names(fa, fb, i as int, j as int) =~= done + rest);
        }
    }
    assert(texts(out@) + Seq::<Seq<char>>::empty() =~= texts(out@));
    out
}

/// The entries for two lists of fields that are ordered by name, hidden
/// names included: for each name of `all_keys`, what became of the field
/// of that name.
fn diff_fields(old_map: &Vec<Field>, current_map: &Vec<Field>, options: &DiffLogger, Ghost(h): Ghost<nat>) -> (r: Vec<FieldChange>)
    requires
        bounded(fields_model(old_map@), h),
        h > 0,
    ensures
        entries_model(r@) == merge(fields_model(old_map@), fields_model(current_map@), 0, 0, options@, h),
    decreases h, 1nat, 0nat,
{
    let ghost fa = fields_model(old_map@);
    let ghost fb = fields_model(current_map@);
    let ghost cfg = options@;
    proof {
        lemma_fields_model(old_map@);
        lemma_fields_model(current_map@);
    }
    let keys: Vec<String> = all_keys(old_map, current_map);
    let ghost names = texts(keys@);
    let mut out: Vec<FieldChange> = Vec::new();
    let mut i: usize = 0;
    let mut j: usize = 0;
    let mut t: usize = 0;
    proof {
        assert(entries_model(out@) + merge(fa, fb, 0, 0, cfg, h) =~= merge(fa, fb, 0, 0, cfg, h));
        assert(names.skip(0) =~= names);
    }
    while t < keys.len()
        invariant
            i <= old_map.len(),
            j <= current_map.len(),
            t <= keys.len(),
            names == texts(keys@),
            fa == fields_model(old_map@),
            fb == fields_model(current_map@),
            cfg == options@,
            fa.len() == old_map.len(),
            fb.len() == current_map.len(),
            forall|k: int| 0 <= k < fa.len() ==> (#[trigger] fa[k]) == (old_map@[k].name@, old_map@[k].value@),
            forall|k: int| 0 <= k < fb.len() ==> (#[trigger] fb[k]) == (current_map@[k].name@, current_map@[k].value@),
            bounded(fa, h),
            h > 0,
            names.skip(t as int) == union_names(fa, fb, i as int, j as int),
            merge(fa, fb, 0, 0, cfg, h) == entries_model(out@) + merge(fa, fb, i as int, j as int, cfg, h),
        decreases keys.len() - t,
    {
        let ghost done = entries_model(out@);
        let ghost i0 = i as int;
        let ghost j0 = j as int;
        let key: &String = &keys[t];
        proof {
            assert(names.skip(t as int)[0] == key@);
            assert(names.skip(t as int).drop_first() =~= names.skip(t + 1));
            if i0 < fa.len() && j0 < fb.len() {
                lemma_precedes_irreflexive(fa[i0].0);
                lemma_precedes_irreflexive(fb[j0].0);
                if !precedes(fa[i0].0, fb[j0].0) && !precedes(fb[j0].0, fa[i0].0) {
                    lemma_precedes_total(fa[i0].0, fb[j0].0);
                }
            }
        }
        let old_field: Option<&Field> = if i < old_map.len() && text_equal(
            old_map[i].name.as_str(),
            key.as_str(),
        ) {
            Some(&old_map[i])
        } else {
            None
        };
        let current_field: Option<&Field> = if j < current_map.len() && text_equal(
            current_map[j].name.as_str(),
            key.as_str(),
        ) {
            Some(&current_map[j])
        } else {
            None
        };
        match old_field {
            None => match current_field {
                None => {
                    assert(false);
                },
                Some(v) => {
                    let missing: Value = Value::Null;
                    let headers: Vec<Header> = gen_headers(&missing, &v.value, options, Ghost(h));
                    let e = FieldChange {
                        name: key.clone(),
                        headers,
                        content: FieldContentChange::New(v.value.copy()),
                    };
                    assert(e@ == added(fb[j0].0, fb[j0].1, cfg, h));
                    append_entry(&mut out, e);
                    j += 1;
                },
            },
            Some(o) => match current_field {
                None => {
                    assert(height(fa[i0].1) < h);
                    let missing: Value = Value::Null;
                    let headers: Vec<Header> = gen_headers(&o.value, &missing, options, Ghost(h));
                    let e = FieldChange {
                        name: key.clone(),
                        headers,
                        content: FieldContentChange::Deleted(o.value.copy()),
                    };
                    assert(e@ == removed(fa[i0].0, fa[i0].1, cfg, h));
                    append_entry(&mut out, e);
                    i += 1;
                },
                Some(c) => {
                    assert(height(fa[i0].1) < h);
                    match diff_field(key.clone(), &o.value, &c.value, options, Ghost(h)) {
                        Some(e) => {
                            append_entry(&mut out, e);
                        },
                        None => {
                            assert(done + Seq::<Entry>::empty() =~= done);
                        },
                    }
                    i += 1;
                    j += 1;
                },
            },
        }
        t += 1;
        proof {
            let piece = entries_model(out@).skip(done.len() as int);
            assert(entries_model(out@) =~= done + piece);
            assert(merge(fa, fb, i0, j0, cfg, h) =~= piece + merge(fa, fb, i as int, j as int, cfg, h));
            assert(done + (piece + merge(fa, fb, i as int, j as int, cfg, h)) =~= (done + piece) + merge(
                fa,
                fb,
                i as int,
                j as int,
                cfg,
                h,
            ));
        }
    }
    proof {
        assert(names.skip(t as int) =~= Seq::<Seq<char>>::empty());
        assert(i == old_map.len() && j == current_map.len());
        assert(entries_model(out@) + Seq::<Entry>::empty() =~= entries_model(out@));
    }
    out
}

/// The change from `value` to `changed`, or `None` where the two are
/// structurally equal. The result is that of the walk `diff` describes
/// for every pair of trees; it is the change between two maps, with
/// every changed name once and in order at every depth, where both trees
/// are well formed (`is_well_formed` tests that).
pub fn diff_values(value: &Value, changed: &Value, logger: &DiffLogger) -> (r: Option<ValueChange>)
    ensures
        option_delta(r) == diff(value@, changed@, logger@),
        r is None <==> value@ == changed@,
        well_formed(value@) && well_formed(changed@) ==> (r matches Some(c) ==> delta_ordered(c@)),
    decreases height(value@) + 1, 0nat, 0nat,
{
    proof {
        if well_formed(value@) && well_formed(changed@) {
            lemma_diff_ordered(value@, changed@, logger@);
        }
    }
    if value.same(changed) {
        return None;
    }
    match value {
        Value::Object(map1) => match changed {
            Value::Object(map2) => {
                proof {
                    lemma_object_bounded(fields_model(map1@));
                }
                let fields: Vec<FieldChange> = diff_fields(map1, map2, logger, Ghost(height(value@)));
                Some(ValueChange::Entries(drop_headers(fields, logger)))
            },
            _ => Some(ValueChange::Value(Change { before: value.copy(), after: changed.copy() })),
        },
        Value::Array(ls1) => match changed {
            Value::Array(ls2) => {
                let old_map: Vec<Field> = to_field_map(ls1);
                let current_map: Vec<Field> = to_field_map(ls2);
                proof {
                    let xs = values_model(ls1@);
                    assert forall|i: int| 0 <= i < xs.len() implies height(#[trigger] xs[i]) < height(value@) by {
                        lemma_items_height(xs, i);
                    }
                    lemma_index_fields_bounded(xs, height(value@));
                }
                let fields: Vec<FieldChange> = diff_fields(
                    &old_map,
                    &current_map,
                    logger,
                    Ghost(height(value@)),
                );
                Some(ValueChange::Entries(drop_headers(fields, logger)))
            },
            _ => Some(ValueChange::Value(Change { before: value.copy(), after: changed.copy() })),
        },
        Value::Number(x) => match changed {
            Value::Number(y) => Some(ValueChange::Number(Change { before: *x, after: *y })),
            _ => Some(ValueChange::Value(Change { before: value.copy(), after: changed.copy() })),
        },
        Value::String(b) => match changed {
            Value::String(a) => Some(text_change(b, a, to_timestamps(b, a))),
            _ => Some(ValueChange::Value(Change { before: value.copy(), after: changed.copy() })),
        },
        Value::Bool(before) => match changed {
            Value::Bool(after) => Some(ValueChange::Bool(Change { before: *before, after: *after })),
            _ => Some(ValueChange::Value(Change { before: value.copy(), after: changed.copy() })),
        },
        _ => Some(ValueChange::Value(Change { before: value.copy(), after: changed.copy() })),
    }
}

/// What can be compared with a value of its own type.
pub trait Diff {
    /// The change that `diff_value` returns.
    spec fn delta(&self, changed: &Self, cfg: Seq<(Seq<char>, bool)>) -> Option<Delta>;

    /// The change from `self` to `changed`, or `None` where there is
    /// none. Of trees it is meaningful as a change between maps only
    /// where both are well formed.
    fn diff_value(&self, changed: &Self, logger: &DiffLogger) -> (r: Option<ValueChange>)
        ensures
            option_delta(r) == self.delta(changed, logger@),
    ;
}

impl Diff for Value {
    open spec fn delta(&self, changed: &Self, cfg: Seq<(Seq<char>, bool)>) -> Option<Delta> {
        diff(self@, changed@, cfg)
    }

    fn diff_value(&self, changed: &Self, logger: &DiffLogger) -> (r: Option<ValueChange>) {
        diff_values(self, changed, logger)
    }
}

} // verus!
