//! What holds of the engine as a whole: equal trees never differ and
//! unequal trees always do; a composite holds exactly the visible fields
//! that changed, each with its change and its headers, in the order of
//! their names, and so at every depth for well-formed trees; hidden names
//! are dropped and nothing else is; registrations can come in any order.

use vstd::prelude::*;
use crate::diff::{
    added, diff, kept, merge, modified, notes, register, removed, shown, union_names, visible,
};
use crate::pretty::{option_text, painted, Format, Style};
use crate::text::{
    lemma_nat_text_injective, lemma_precedes_irreflexive, lemma_precedes_total, lemma_precedes_transitive,
    nat_text, precedes,
};
use crate::tree::{
    bounded, find, gathered, height, index_fields, lemma_find_is_field, lemma_index_fields_bounded,
    fields_well_formed, items_well_formed, lemma_fields_well_formed, lemma_items_height, lemma_lookup_height,
    lemma_object_bounded, lemma_position, lemma_put_ordered, lemma_put_well_formed, lookup, ordered, position,
    put, well_formed,
};
use crate::types::{Content, Delta, Entry, Json, Note};

verus! {

/// A tree does not differ from itself, whatever the configuration.
pub proof fn lemma_no_change(v: Json, cfg: Seq<(Seq<char>, bool)>)
    ensures
        diff(v, v, cfg) is None,
        forall|format: Format| (#[trigger] option_text(diff(v, v, cfg), format)).len() == 0,
{
}

/// There is a change exactly where the two trees are not equal.
pub proof fn lemma_change_iff_unequal(a: Json, b: Json, cfg: Seq<(Seq<char>, bool)>)
    ensures
        diff(a, b, cfg) is Some <==> a != b,
{
}

/// Some entry of `es` is called `name`.
pub open spec fn named(es: Seq<Entry>, name: Seq<char>) -> bool {
    exists|i: int| 0 <= i < es.len() && (#[trigger] es[i]).name == name
}

/// A name is in a concatenation where it is in one of the parts.
proof fn lemma_named_concat(a: Seq<Entry>, b: Seq<Entry>, name: Seq<char>)
    ensures
        named(a + b, name) <==> named(a, name) || named(b, name),
{
    if named(a, name) {
        let i = choose|i: int| 0 <= i < a.len() && (#[trigger] a[i]).name == name;
        assert((a + b)[i].name == name);
    }
    if named(b, name) {
        let i = choose|i: int| 0 <= i < b.len() && (#[trigger] b[i]).name == name;
        assert((a + b)[a.len() + i].name == name);
    }
    if named(a + b, name) {
        let i = choose|i: int| 0 <= i < (a + b).len() && (#[trigger] (a + b)[i]).name == name;
        if i < a.len() {
            assert(a[i].name == name);
        } else {
            assert(b[i - a.len()].name == name);
        }
    }
}

/// A list of one entry holds the name of that entry and no other.
proof fn lemma_named_one(e: Entry, name: Seq<char>)
    ensures
        named(seq![e], name) <==> e.name == name,
{
    assert(seq![e][0] == e);
}

/// Among the entries that are kept, a name occurs exactly where it is
/// visible and occurs among all of them: no hidden name is left, and no
/// visible one is lost.
pub proof fn lemma_kept_named(es: Seq<Entry>, cfg: Seq<(Seq<char>, bool)>, name: Seq<char>)
    ensures
        named(kept(es, cfg), name) <==> visible(cfg, name) && named(es, name),
    decreases es.len(),
{
    if es.len() > 0 {
        let rest = es.drop_last();
        lemma_kept_named(rest, cfg, name);
        lemma_named_concat(kept(rest, cfg), shown(es.last(), cfg), name);
        lemma_named_shown(es.last(), cfg, name);
        assert(es =~= rest + seq![es.last()]);
        lemma_named_concat(rest, seq![es.last()], name);
        lemma_named_one(es.last(), name);
    }
}

/// Every entry that is kept has a visible name and is one of the
/// entries, as it was.
pub proof fn lemma_kept_member(es: Seq<Entry>, cfg: Seq<(Seq<char>, bool)>, k: int)
    requires
        0 <= k < kept(es, cfg).len(),
    ensures
        visible(cfg, kept(es, cfg)[k].name),
        exists|i: int| 0 <= i < es.len() && #[trigger] es[i] == kept(es, cfg)[k],
    decreases es.len(),
{
    let rest = es.drop_last();
    if k < kept(rest, cfg).len() {
        lemma_kept_member(rest, cfg, k);
        let i = choose|i: int| 0 <= i < rest.len() && #[trigger] rest[i] == kept(rest, cfg)[k];
        assert(es[i] == rest[i]);
    } else {
        assert(es[es.len() - 1] == kept(es, cfg)[k]);
    }
}

/// Every entry with a visible name is kept, as it was.
pub proof fn lemma_kept_holds(es: Seq<Entry>, cfg: Seq<(Seq<char>, bool)>, i: int)
    requires
        0 <= i < es.len(),
        visible(cfg, es[i].name),
    ensures
        exists|k: int| 0 <= k < kept(es, cfg).len() && #[trigger] kept(es, cfg)[k] == es[i],
    decreases es.len(),
{
    let rest = es.drop_last();
    if i < rest.len() {
        lemma_kept_holds(rest, cfg, i);
        let k = choose|k: int| 0 <= k < kept(rest, cfg).len() && #[trigger] kept(rest, cfg)[k] == rest[i];
        assert(kept(es, cfg)[k] == kept(rest, cfg)[k]);
    } else {
        assert(kept(es, cfg)[kept(rest, cfg).len() as int] == es[i]);
    }
}

/// What is shown of one entry holds its name where that is visible.
proof fn lemma_named_shown(e: Entry, cfg: Seq<(Seq<char>, bool)>, name: Seq<char>)
    ensures
        named(shown(e, cfg), name) <==> visible(cfg, name) && e.name == name,
{
    if visible(cfg, e.name) {
        assert(shown(e, cfg)[0] == e);
    }
}

/// In an ordered list no field from `from` on is called `name` where
/// `name` is the name just before `from`, or comes before the name at
/// `from`.
proof fn lemma_absent_after(fs: Seq<(Seq<char>, Json)>, from: int, name: Seq<char>)
    requires
        ordered(fs),
        0 <= from <= fs.len(),
        (from > 0 && fs[from - 1].0 == name) || (from < fs.len() && precedes(name, fs[from].0)),
    ensures
        find(fs.skip(from), name) is None,
{
    let rest = fs.skip(from);
    lemma_find_is_field(rest, name);
    if find(rest, name) is Some {
        let k = choose|k: int| 0 <= k < rest.len() && (#[trigger] rest[k]).0 == name;
        assert(rest[k] == fs[from + k]);
        lemma_precedes_irreflexive(name);
        if from > 0 && fs[from - 1].0 == name {
            assert(precedes(fs[from - 1].0, fs[from + k].0));
        } else {
            if k > 0 {
                assert(precedes(fs[from].0, fs[from + k].0));
                lemma_precedes_transitive(name, fs[from].0, fs[from + k].0);
            }
        }
    }
}

/// Looking from `i` on is looking at `i` and then from `i + 1` on.
proof fn lemma_find_step(fs: Seq<(Seq<char>, Json)>, i: int, name: Seq<char>)
    requires
        0 <= i < fs.len(),
    ensures
        find(fs.skip(i), name) == if fs[i].0 == name {
            Some(fs[i].1)
        } else {
            find(fs.skip(i + 1), name)
        },
{
    assert(fs.skip(i).drop_first() =~= fs.skip(i + 1));
}

/// From any two positions of two ordered lists on, the entries hold one
/// called `name` exactly where the rest of the two lists do not agree on
/// it.
pub proof fn lemma_merge_names(
    fa: Seq<(Seq<char>, Json)>,
    fb: Seq<(Seq<char>, Json)>,
    i: int,
    j: int,
    cfg: Seq<(Seq<char>, bool)>,
    h: nat,
    name: Seq<char>,
)
    requires
        ordered(fa),
        ordered(fb),
        bounded(fa, h),
        0 <= i <= fa.len(),
        0 <= j <= fb.len(),
    ensures
        named(merge(fa, fb, i, j, cfg, h), name) <==> find(fa.skip(i), name) != find(fb.skip(j), name),
    decreases fa.len() - i + fb.len() - j,
{
    if i == fa.len() && j == fb.len() {
        assert(fa.skip(i) =~= Seq::empty());
        assert(fb.skip(j) =~= Seq::empty());
    } else if j == fb.len() || (i < fa.len() && precedes(fa[i].0, fb[j].0)) {
        let e = removed(fa[i].0, fa[i].1, cfg, h);
        let rest = merge(fa, fb, i + 1, j, cfg, h);
        lemma_merge_names(fa, fb, i + 1, j, cfg, h, name);
        lemma_named_concat(seq![e], rest, name);
        lemma_named_one(e, name);
        lemma_find_step(fa, i, name);
        if fa[i].0 == name {
            lemma_absent_after(fa, i + 1, name);
            if j < fb.len() {
                lemma_absent_after(fb, j, name);
            } else {
                assert(fb.skip(j) =~= Seq::empty());
            }
        }
    } else if i == fa.len() || precedes(fb[j].0, fa[i].0) {
        let e = added(fb[j].0, fb[j].1, cfg, h);
        let rest = merge(fa, fb, i, j + 1, cfg, h);
        lemma_merge_names(fa, fb, i, j + 1, cfg, h, name);
        lemma_named_concat(seq![e], rest, name);
        lemma_named_one(e, name);
        lemma_find_step(fb, j, name);
        if fb[j].0 == name {
            lemma_absent_after(fb, j + 1, name);
            if i < fa.len() {
                lemma_absent_after(fa, i, name);
            } else {
                assert(fa.skip(i) =~= Seq::empty());
            }
        }
    } else {
        lemma_precedes_total(fa[i].0, fb[j].0);
        let rest = merge(fa, fb, i + 1, j + 1, cfg, h);
        let first = match modified(fa[i].0, fa[i].1, fb[j].1, cfg, h) {
            Some(e) => seq![e],
            None => Seq::empty(),
        };
        lemma_merge_names(fa, fb, i + 1, j + 1, cfg, h, name);
        lemma_named_concat(first, rest, name);
        lemma_find_step(fa, i, name);
        lemma_find_step(fb, j, name);
        assert(height(fa[i].1) < h);
        match modified(fa[i].0, fa[i].1, fb[j].1, cfg, h) {
            Some(e) => {
                lemma_named_one(e, name);
            },
            None => {},
        }
        if fa[i].0 == name {
            lemma_absent_after(fa, i + 1, name);
            lemma_absent_after(fb, j + 1, name);
        }
    }
}

/// The composite for two unequal objects whose fields are ordered by
/// name holds an entry called `name` exactly where `name` is visible and
/// is a field of only one of the objects, or a field of both with
/// unequal values.
pub proof fn lemma_key_coverage(
    fa: Seq<(Seq<char>, Json)>,
    fb: Seq<(Seq<char>, Json)>,
    cfg: Seq<(Seq<char>, bool)>,
    name: Seq<char>,
)
    requires
        ordered(fa),
        ordered(fb),
        fa != fb,
    ensures
        diff(Json::Object(fa), Json::Object(fb), cfg) matches Some(Delta::Entries(es)) && (named(
            es,
            name,
        ) <==> visible(cfg, name) && find(fa, name) != find(fb, name)),
{
    lemma_object_bounded(fa);
    lemma_merge_names(fa, fb, 0, 0, cfg, height(Json::Object(fa)), name);
    lemma_kept_named(merge(fa, fb, 0, 0, cfg, height(Json::Object(fa))), cfg, name);
    assert(fa.skip(0) =~= fa);
    assert(fb.skip(0) =~= fb);
}

/// The fields that stand for the items of an array are ordered by name.
pub proof fn lemma_index_fields_ordered(xs: Seq<Json>)
    ensures
        ordered(index_fields(xs)),
    decreases xs.len(),
{
    if xs.len() > 0 {
        lemma_index_fields_ordered(xs.drop_last());
        lemma_put_ordered(index_fields(xs.drop_last()), nat_text((xs.len() - 1) as nat), xs.last());
    }
}

/// Fields gathered with `put` are ordered by name.
pub proof fn lemma_gathered_ordered(fs: Seq<(Seq<char>, Json)>)
    ensures
        ordered(gathered(fs)),
    decreases fs.len(),
{
    if fs.len() > 0 {
        lemma_gathered_ordered(fs.drop_last());
        lemma_put_ordered(gathered(fs.drop_last()), fs.last().0, fs.last().1);
    }
}

/// The names of a list of field changes strictly increase.
pub open spec fn entries_ordered(es: Seq<Entry>) -> bool {
    forall|p: int, q: int| 0 <= p < q < es.len() ==> precedes(#[trigger] es[p].name, #[trigger] es[q].name)
}

/// What is found from `from` on stands at an index from `from` on.
proof fn lemma_find_from(fs: Seq<(Seq<char>, Json)>, from: int, name: Seq<char>)
    requires
        0 <= from <= fs.len(),
        find(fs.skip(from), name) is Some,
    ensures
        exists|k: int| from <= k < fs.len() && (#[trigger] fs[k]).0 == name,
{
    let rest = fs.skip(from);
    lemma_find_is_field(rest, name);
    let k = choose|k: int| 0 <= k < rest.len() && (#[trigger] rest[k]).0 == name;
    assert(fs[from + k] == rest[k]);
}

/// In an ordered list every name from `from + 1` on comes after the name
/// at `from`.
proof fn lemma_later_names(fs: Seq<(Seq<char>, Json)>, from: int, first: Seq<char>, name: Seq<char>)
    requires
        ordered(fs),
        0 <= from <= fs.len(),
        from < fs.len() ==> precedes(first, fs[from].0),
        find(fs.skip(from), name) is Some,
    ensures
        precedes(first, name),
{
    lemma_find_from(fs, from, name);
    let k = choose|k: int| from <= k < fs.len() && (#[trigger] fs[k]).0 == name;
    if k > from {
        assert(precedes(fs[from].0, fs[k].0));
        lemma_precedes_transitive(first, fs[from].0, fs[k].0);
    }
}

/// From any two positions of two ordered lists on, the entries are
/// ordered by name.
pub proof fn lemma_merge_ordered(
    fa: Seq<(Seq<char>, Json)>,
    fb: Seq<(Seq<char>, Json)>,
    i: int,
    j: int,
    cfg: Seq<(Seq<char>, bool)>,
    h: nat,
)
    requires
        ordered(fa),
        ordered(fb),
        bounded(fa, h),
        0 <= i <= fa.len(),
        0 <= j <= fb.len(),
    ensures
        entries_ordered(merge(fa, fb, i, j, cfg, h)),
    decreases fa.len() - i + fb.len() - j,
{
    if i == fa.len() && j == fb.len() {
    } else {
        let old_first = j == fb.len() || (i < fa.len() && precedes(fa[i].0, fb[j].0));
        let new_first = !old_first && (i == fa.len() || precedes(fb[j].0, fa[i].0));
        let ni = if new_first { i } else { i + 1 };
        let nj = if old_first { j } else { j + 1 };
        let first_name = if new_first { fb[j].0 } else { fa[i].0 };
        if !old_first && !new_first {
            lemma_precedes_total(fa[i].0, fb[j].0);
        }
        let rest = merge(fa, fb, ni, nj, cfg, h);
        let all = merge(fa, fb, i, j, cfg, h);
        let first = if old_first {
            seq![removed(fa[i].0, fa[i].1, cfg, h)]
        } else if new_first {
            seq![added(fb[j].0, fb[j].1, cfg, h)]
        } else {
            match modified(fa[i].0, fa[i].1, fb[j].1, cfg, h) {
                Some(e) => seq![e],
                None => Seq::empty(),
            }
        };
        assert(all == first + rest);
        assert(first.len() <= 1);
        assert(first.len() == 1 ==> first[0].name == first_name);
        lemma_merge_ordered(fa, fb, ni, nj, cfg, h);
        assert forall|p: int, q: int| 0 <= p < q < all.len() implies precedes(
            #[trigger] all[p].name,
            #[trigger] all[q].name,
        ) by {
            if p >= first.len() {
                assert(all[p] == rest[p - first.len()] && all[q] == rest[q - first.len()]);
            } else {
                let name = all[q].name;
                assert(all[q] == rest[q - 1]);
                assert(named(rest, name));
                lemma_merge_names(fa, fb, ni, nj, cfg, h, name);
                if find(fa.skip(ni), name) is Some {
                    if ni == i {
                        lemma_later_names(fa, ni, first_name, name);
                    } else {
                        if ni < fa.len() {
                            assert(precedes(fa[i].0, fa[ni].0));
                        }
                        lemma_later_names(fa, ni, first_name, name);
                    }
                } else {
                    assert(find(fb.skip(nj), name) is Some);
                    if nj == j {
                        lemma_later_names(fb, nj, first_name, name);
                    } else {
                        if nj < fb.len() {
                            assert(precedes(fb[j].0, fb[nj].0));
                        }
                        lemma_later_names(fb, nj, first_name, name);
                    }
                }
            }
        }
    }
}

/// Dropping the hidden names keeps ordered entries ordered.
pub proof fn lemma_kept_ordered(es: Seq<Entry>, cfg: Seq<(Seq<char>, bool)>)
    requires
        entries_ordered(es),
    ensures
        entries_ordered(kept(es, cfg)),
    decreases es.len(),
{
    if es.len() > 0 {
        let rest = es.drop_last();
        assert forall|p: int, q: int| 0 <= p < q < rest.len() implies precedes(
            #[trigger] rest[p].name,
            #[trigger] rest[q].name,
        ) by {
            assert(rest[p] == es[p] && rest[q] == es[q]);
        }
        lemma_kept_ordered(rest, cfg);
        let front = kept(rest, cfg);
        let all = kept(es, cfg);
        assert forall|p: int, q: int| 0 <= p < q < all.len() implies precedes(
            #[trigger] all[p].name,
            #[trigger] all[q].name,
        ) by {
            if q < front.len() {
                assert(all[p] == front[p] && all[q] == front[q]);
            } else {
                assert(all[q] == es.last());
                assert(all[p] == front[p]);
                lemma_kept_member(rest, cfg, p);
                let i = choose|i: int| 0 <= i < rest.len() && #[trigger] rest[i] == front[p];
                assert(rest[i] == es[i]);
                assert(precedes(es[i].name, es[es.len() - 1].name));
            }
        }
    }
}

/// The entries of the composite for two unequal objects whose fields
/// are ordered by name are ordered by name.
pub proof fn lemma_entries_ordered(
    fa: Seq<(Seq<char>, Json)>,
    fb: Seq<(Seq<char>, Json)>,
    cfg: Seq<(Seq<char>, bool)>,
)
    requires
        ordered(fa),
        ordered(fb),
        fa != fb,
    ensures
        diff(Json::Object(fa), Json::Object(fb), cfg) matches Some(Delta::Entries(es))
            && entries_ordered(es),
{
    lemma_object_bounded(fa);
    lemma_merge_ordered(fa, fb, 0, 0, cfg, height(Json::Object(fa)));
    lemma_kept_ordered(merge(fa, fb, 0, 0, cfg, height(Json::Object(fa))), cfg);
}

/// The entries of the composite for two unequal arrays are ordered by
/// the decimal text of their index.
pub proof fn lemma_array_entries_ordered(xs: Seq<Json>, ys: Seq<Json>, cfg: Seq<(Seq<char>, bool)>)
    requires
        xs != ys,
    ensures
        diff(Json::Array(xs), Json::Array(ys), cfg) matches Some(Delta::Entries(es))
            && entries_ordered(es),
{
    lemma_index_fields_ordered(xs);
    lemma_index_fields_ordered(ys);
    let h = height(Json::Array(xs));
    assert forall|i: int| 0 <= i < xs.len() implies height(#[trigger] xs[i]) < h by {
        lemma_items_height(xs, i);
    }
    lemma_index_fields_bounded(xs, h);
    lemma_merge_ordered(index_fields(xs), index_fields(ys), 0, 0, cfg, h);
    lemma_kept_ordered(merge(index_fields(xs), index_fields(ys), 0, 0, cfg, h), cfg);
}

/// The headers of a field with the values `x` and `y`, for the first `n`
/// registered names: for each name, in the order of registration, the
/// change between the fields of that name in `x` and in `y`, where they
/// differ.
pub open spec fn headers_of(cfg: Seq<(Seq<char>, bool)>, n: nat, x: Json, y: Json) -> Seq<Note>
    decreases n,
{
    if n == 0 || n > cfg.len() {
        Seq::empty()
    } else {
        let name = cfg[n - 1].0;
        let rest = headers_of(cfg, (n - 1) as nat, x, y);
        match diff(lookup(name, x), lookup(name, y), cfg) {
            Some(d) => rest.push(Note { name, content: d }),
            None => rest,
        }
    }
}

/// What a composite says of the field `name` of two objects, before the
/// hidden names are dropped: nothing where neither has it or both have it
/// with equal values; that it is deleted or new where only one has it;
/// else the change of its value. Each comes with its headers, a missing
/// side counting as null.
pub open spec fn field_change(
    name: Seq<char>,
    fa: Seq<(Seq<char>, Json)>,
    fb: Seq<(Seq<char>, Json)>,
    cfg: Seq<(Seq<char>, bool)>,
) -> Option<Entry> {
    match find(fa, name) {
        None => match find(fb, name) {
            None => None,
            Some(y) => Some(
                Entry { name, headers: headers_of(cfg, cfg.len(), Json::Null, y), content: Content::New(y) },
            ),
        },
        Some(x) => match find(fb, name) {
            None => Some(
                Entry { name, headers: headers_of(cfg, cfg.len(), x, Json::Null), content: Content::Deleted(x) },
            ),
            Some(y) => match diff(x, y, cfg) {
                None => None,
                Some(d) => Some(
                    Entry { name, headers: headers_of(cfg, cfg.len(), x, y), content: Content::Diff(d) },
                ),
            },
        },
    }
}

/// Below the bound, the headers are those of `headers_of`.
pub proof fn lemma_notes_plain(cfg: Seq<(Seq<char>, bool)>, n: nat, x: Json, y: Json, h: nat)
    requires
        height(x) < h,
    ensures
        notes(cfg, n, x, y, h) == headers_of(cfg, n, x, y),
    decreases n,
{
    if n > 0 && n <= cfg.len() {
        lemma_notes_plain(cfg, (n - 1) as nat, x, y, h);
        lemma_lookup_height(cfg[n - 1].0, x);
    }
}

/// From any two positions of two ordered lists on, every entry is what
/// `field_change` says of its name in the rest of the two lists.
pub proof fn lemma_merge_content(
    fa: Seq<(Seq<char>, Json)>,
    fb: Seq<(Seq<char>, Json)>,
    i: int,
    j: int,
    cfg: Seq<(Seq<char>, bool)>,
    h: nat,
    k: int,
)
    requires
        ordered(fa),
        ordered(fb),
        bounded(fa, h),
        h > 0,
        0 <= i <= fa.len(),
        0 <= j <= fb.len(),
        0 <= k < merge(fa, fb, i, j, cfg, h).len(),
    ensures
        Some(merge(fa, fb, i, j, cfg, h)[k]) == field_change(
            merge(fa, fb, i, j, cfg, h)[k].name,
            fa.skip(i),
            fb.skip(j),
            cfg,
        ),
    decreases fa.len() - i + fb.len() - j,
{
    let old_first = j == fb.len() || (i < fa.len() && precedes(fa[i].0, fb[j].0));
    let new_first = !old_first && (i == fa.len() || precedes(fb[j].0, fa[i].0));
    let ni = if new_first { i } else { i + 1 };
    let nj = if old_first { j } else { j + 1 };
    let first_name = if new_first { fb[j].0 } else { fa[i].0 };
    if !old_first && !new_first {
        lemma_precedes_total(fa[i].0, fb[j].0);
        assert(height(fa[i].1) < h);
        lemma_notes_plain(cfg, cfg.len(), fa[i].1, fb[j].1, h);
    } else if old_first {
        assert(height(fa[i].1) < h);
        lemma_notes_plain(cfg, cfg.len(), fa[i].1, Json::Null, h);
    } else {
        lemma_notes_plain(cfg, cfg.len(), Json::Null, fb[j].1, h);
    }
    let rest = merge(fa, fb, ni, nj, cfg, h);
    let all = merge(fa, fb, i, j, cfg, h);
    let first = if old_first {
        seq![removed(fa[i].0, fa[i].1, cfg, h)]
    } else if new_first {
        seq![added(fb[j].0, fb[j].1, cfg, h)]
    } else {
        match modified(fa[i].0, fa[i].1, fb[j].1, cfg, h) {
            Some(e) => seq![e],
            None => Seq::empty(),
        }
    };
    assert(all == first + rest);
    let name = all[k].name;
    if i < fa.len() {
        lemma_find_step(fa, i, name);
    } else {
        assert(fa.skip(i) =~= Seq::empty());
    }
    if j < fb.len() {
        lemma_find_step(fb, j, name);
    } else {
        assert(fb.skip(j) =~= Seq::empty());
    }
    lemma_precedes_irreflexive(first_name);
    if k < first.len() {
        assert(name == first_name);
        if ni > i {
            lemma_absent_after(fa, ni, name);
        } else if i < fa.len() {
            lemma_absent_after(fa, i, name);
        }
        if nj > j {
            lemma_absent_after(fb, nj, name);
        } else if j < fb.len() {
            lemma_absent_after(fb, j, name);
        }
    } else {
        assert(all[k] == rest[k - first.len()]);
        lemma_merge_content(fa, fb, ni, nj, cfg, h, k - first.len());
        assert(named(rest, name));
        lemma_merge_names(fa, fb, ni, nj, cfg, h, name);
        if find(fa.skip(ni), name) is Some {
            if ni > i && ni < fa.len() {
                assert(precedes(fa[i].0, fa[ni].0));
            }
            lemma_later_names(fa, ni, first_name, name);
        } else {
            if nj > j && nj < fb.len() {
                assert(precedes(fb[j].0, fb[nj].0));
            }
            lemma_later_names(fb, nj, first_name, name);
        }
        assert(name != first_name);
    }
}

/// Every entry of the composite for two unequal objects whose fields are
/// ordered by name is what `field_change` says of its name.
pub proof fn lemma_entry_content(
    fa: Seq<(Seq<char>, Json)>,
    fb: Seq<(Seq<char>, Json)>,
    cfg: Seq<(Seq<char>, bool)>,
    k: int,
)
    requires
        ordered(fa),
        ordered(fb),
        fa != fb,
    ensures
        diff(Json::Object(fa), Json::Object(fb), cfg) matches Some(Delta::Entries(es)) && (0 <= k
            < es.len() ==> Some(es[k]) == field_change(es[k].name, fa, fb, cfg)),
{
    lemma_object_bounded(fa);
    let h = height(Json::Object(fa));
    let all = merge(fa, fb, 0, 0, cfg, h);
    if 0 <= k < kept(all, cfg).len() {
        lemma_kept_member(all, cfg, k);
        let i = choose|i: int| 0 <= i < all.len() && #[trigger] all[i] == kept(all, cfg)[k];
        lemma_merge_content(fa, fb, 0, 0, cfg, h, i);
    }
    assert(fa.skip(0) =~= fa);
    assert(fb.skip(0) =~= fb);
}

/// In an ordered list the entry of a name is the one that stands there.
pub proof fn lemma_find_at<V>(fs: Seq<(Seq<char>, V)>, k: int)
    requires
        ordered(fs),
        0 <= k < fs.len(),
    ensures
        find(fs, fs[k].0) == Some(fs[k].1),
{
    let key = fs[k].0;
    lemma_find_is_field(fs, key);
    lemma_precedes_irreflexive(key);
    let i = choose|i: int| 0 <= i < fs.len() && (#[trigger] fs[i]).0 == key && fs[i].1 == find(fs, key)->0;
    if i < k {
        assert(precedes(fs[i].0, fs[k].0));
    } else if k < i {
        assert(precedes(fs[k].0, fs[i].0));
    }
}

/// After an entry is set in an ordered list, its name has the new value
/// and every other name the value it had.
pub proof fn lemma_find_put<V>(fs: Seq<(Seq<char>, V)>, name: Seq<char>, v: V, other: Seq<char>)
    requires
        ordered(fs),
    ensures
        find(put(fs, name, v), other) == if other == name {
            Some(v)
        } else {
            find(fs, other)
        },
{
    let p = position(fs, name);
    let out = put(fs, name, v);
    let replaced = p < fs.len() && fs[p].0 == name;
    lemma_position(fs, name);
    lemma_put_ordered(fs, name, v);
    lemma_find_is_field(fs, other);
    lemma_find_is_field(out, other);
    if other == name {
        assert(out[p] == (name, v));
        lemma_find_at(out, p);
    } else if find(fs, other) is Some {
        let k = choose|k: int| 0 <= k < fs.len() && (#[trigger] fs[k]).0 == other && fs[k].1 == find(fs, other)->0;
        let moved = if !replaced && k >= p {
            k + 1
        } else {
            k
        };
        assert(out[moved] == fs[k]);
        lemma_find_at(out, moved);
    } else {
        if find(out, other) is Some {
            let k = choose|k: int| 0 <= k < out.len() && (#[trigger] out[k]).0 == other;
            if replaced {
                assert(out[k] == fs[k]);
            } else if k < p {
                assert(out[k] == fs[k]);
            } else {
                assert(out[k] == fs[k - 1]);
            }
        }
    }
}

/// Two ordered lists that give every name the same value are equal.
pub proof fn lemma_same_entries<V>(c: Seq<(Seq<char>, V)>, d: Seq<(Seq<char>, V)>)
    requires
        ordered(c),
        ordered(d),
        forall|m: Seq<char>| find(c, m) == find(d, m),
    ensures
        c == d,
    decreases c.len(),
{
    if c.len() == 0 {
        if d.len() > 0 {
            lemma_find_at(d, 0);
            assert(find(c, d[0].0) == find(d, d[0].0));
        }
        assert(c =~= d);
    } else {
        lemma_find_at(c, 0);
        assert(find(c, c[0].0) == find(d, c[0].0));
        if d.len() == 0 {
            assert(false);
        }
        lemma_find_at(d, 0);
        assert(find(c, d[0].0) == find(d, d[0].0));
        lemma_find_is_field(d, c[0].0);
        lemma_find_is_field(c, d[0].0);
        let k = choose|k: int| 0 <= k < d.len() && (#[trigger] d[k]).0 == c[0].0;
        let l = choose|l: int| 0 <= l < c.len() && (#[trigger] c[l]).0 == d[0].0;
        if k > 0 {
            assert(precedes(d[0].0, d[k].0));
            if l > 0 {
                assert(precedes(c[0].0, c[l].0));
                lemma_precedes_transitive(d[0].0, c[0].0, d[0].0);
            }
            lemma_precedes_irreflexive(d[0].0);
            assert(false);
        }
        assert(c[0].0 == d[0].0);
        assert(c[0] == d[0]);
        let ct = c.drop_first();
        let dt = d.drop_first();
        assert forall|i: int, j: int| 0 <= i < j < ct.len() implies precedes(
            #[trigger] ct[i].0,
            #[trigger] ct[j].0,
        ) by {
            assert(ct[i] == c[i + 1] && ct[j] == c[j + 1]);
        }
        assert forall|i: int, j: int| 0 <= i < j < dt.len() implies precedes(
            #[trigger] dt[i].0,
            #[trigger] dt[j].0,
        ) by {
            assert(dt[i] == d[i + 1] && dt[j] == d[j + 1]);
        }
        assert forall|m: Seq<char>| find(ct, m) == find(dt, m) by {
            assert(find(c, m) == find(d, m));
            if m == c[0].0 {
                lemma_find_is_field(ct, m);
                lemma_find_is_field(dt, m);
                lemma_precedes_irreflexive(m);
                if find(ct, m) is Some {
                    let i = choose|i: int| 0 <= i < ct.len() && (#[trigger] ct[i]).0 == m;
                    assert(ct[i] == c[i + 1]);
                    assert(precedes(c[0].0, c[i + 1].0));
                }
                if find(dt, m) is Some {
                    let i = choose|i: int| 0 <= i < dt.len() && (#[trigger] dt[i]).0 == m;
                    assert(dt[i] == d[i + 1]);
                    assert(precedes(d[0].0, d[i + 1].0));
                }
            }
        }
        lemma_same_entries(ct, dt);
        assert(c =~= seq![c[0]] + ct);
        assert(d =~= seq![d[0]] + dt);
    }
}

/// Entries of different names can be set in either order.
pub proof fn lemma_put_commutes<V>(fs: Seq<(Seq<char>, V)>, a: Seq<char>, s: V, b: Seq<char>, t: V)
    requires
        ordered(fs),
        a != b,
    ensures
        put(put(fs, a, s), b, t) == put(put(fs, b, t), a, s),
{
    let c = put(put(fs, a, s), b, t);
    let d = put(put(fs, b, t), a, s);
    lemma_put_ordered(fs, a, s);
    lemma_put_ordered(fs, b, t);
    lemma_put_ordered(put(fs, a, s), b, t);
    lemma_put_ordered(put(fs, b, t), a, s);
    assert forall|m: Seq<char>| find(c, m) == find(d, m) by {
        lemma_find_put(fs, a, s, m);
        lemma_find_put(put(fs, a, s), b, t, m);
        lemma_find_put(fs, b, t, m);
        lemma_find_put(put(fs, b, t), a, s, m);
    }
    lemma_same_entries(c, d);
}

/// In an ordered configuration a name is visible as its registration
/// says, and visible where it has none.
pub proof fn lemma_visible_is_entry(cfg: Seq<(Seq<char>, bool)>, name: Seq<char>)
    requires
        ordered(cfg),
    ensures
        visible(cfg, name) == match find(cfg, name) {
            Some(show) => show,
            None => true,
        },
    decreases cfg.len(),
{
    lemma_find_is_field(cfg, name);
    if cfg.len() > 0 {
        let rest = cfg.drop_last();
        let last = cfg.len() - 1;
        assert forall|i: int, j: int| 0 <= i < j < rest.len() implies precedes(
            #[trigger] rest[i].0,
            #[trigger] rest[j].0,
        ) by {
            assert(rest[i] == cfg[i] && rest[j] == cfg[j]);
        }
        if cfg.last().0 == name {
            lemma_find_at(cfg, last);
        } else {
            lemma_visible_is_entry(rest, name);
            lemma_find_is_field(rest, name);
            if find(rest, name) is Some {
                let k = choose|k: int| 0 <= k < rest.len() && (#[trigger] rest[k]).0 == name;
                assert(rest[k] == cfg[k]);
                lemma_find_at(cfg, k);
                lemma_find_at(rest, k);
            } else if find(cfg, name) is Some {
                let k = choose|k: int| 0 <= k < cfg.len() && (#[trigger] cfg[k]).0 == name;
                assert(rest[k] == cfg[k]);
            }
        }
    }
}

/// After a registration the name is visible as registered, and every
/// other name as before.
pub proof fn lemma_register_visible(cfg: Seq<(Seq<char>, bool)>, name: Seq<char>, show: bool, other: Seq<char>)
    requires
        ordered(cfg),
    ensures
        visible(register(cfg, name, show), other) == if other == name {
            show
        } else {
            visible(cfg, other)
        },
{
    lemma_put_ordered(cfg, name, show);
    lemma_visible_is_entry(register(cfg, name, show), other);
    lemma_visible_is_entry(cfg, other);
    lemma_find_put(cfg, name, show, other);
}

/// Registrations of different names give the same configuration in
/// either order.
pub proof fn lemma_registration_order(
    cfg: Seq<(Seq<char>, bool)>,
    a: Seq<char>,
    s: bool,
    b: Seq<char>,
    t: bool,
)
    requires
        ordered(cfg),
        a != b,
    ensures
        register(register(cfg, a, s), b, t) == register(register(cfg, b, t), a, s),
{
    lemma_put_commutes(cfg, a, s, b, t);
}

/// `name` is one of `names`.
pub open spec fn listed(names: Seq<Seq<char>>, name: Seq<char>) -> bool {
    exists|t: int| 0 <= t < names.len() && #[trigger] names[t] == name
}

/// The names strictly increase.
pub open spec fn names_ordered(names: Seq<Seq<char>>) -> bool {
    forall|p: int, q: int| 0 <= p < q < names.len() ==> precedes(#[trigger] names[p], #[trigger] names[q])
}

/// From any two positions on, the names found are those of the fields
/// that are left in either list.
pub proof fn lemma_union_names(
    fa: Seq<(Seq<char>, Json)>,
    fb: Seq<(Seq<char>, Json)>,
    i: int,
    j: int,
    name: Seq<char>,
)
    requires
        0 <= i <= fa.len(),
        0 <= j <= fb.len(),
    ensures
        listed(union_names(fa, fb, i, j), name) <==> find(fa.skip(i), name) is Some || find(fb.skip(j), name)
            is Some,
    decreases fa.len() - i + fb.len() - j,
{
    if i == fa.len() && j == fb.len() {
        assert(fa.skip(i) =~= Seq::empty());
        assert(fb.skip(j) =~= Seq::empty());
    } else {
        let old_first = j == fb.len() || (i < fa.len() && precedes(fa[i].0, fb[j].0));
        let new_first = !old_first && (i == fa.len() || precedes(fb[j].0, fa[i].0));
        let ni = if new_first { i } else { i + 1 };
        let nj = if old_first { j } else { j + 1 };
        let first_name = if new_first { fb[j].0 } else { fa[i].0 };
        if !old_first && !new_first {
            lemma_precedes_total(fa[i].0, fb[j].0);
        }
        let all = union_names(fa, fb, i, j);
        let rest = union_names(fa, fb, ni, nj);
        assert(all == seq![first_name] + rest);
        lemma_union_names(fa, fb, ni, nj, name);
        if i < fa.len() {
            lemma_find_step(fa, i, name);
        } else {
            assert(fa.skip(i) =~= Seq::empty());
        }
        if j < fb.len() {
            lemma_find_step(fb, j, name);
        } else {
            assert(fb.skip(j) =~= Seq::empty());
        }
        if listed(rest, name) {
            let t = choose|t: int| 0 <= t < rest.len() && #[trigger] rest[t] == name;
            assert(all[t + 1] == name);
        }
        if name == first_name {
            assert(all[0] == name);
        }
        if listed(all, name) {
            let t = choose|t: int| 0 <= t < all.len() && #[trigger] all[t] == name;
            if t > 0 {
                assert(rest[t - 1] == name);
            }
        }
    }
}

/// From any two positions of two ordered lists on, the names found
/// strictly increase.
pub proof fn lemma_union_ordered(fa: Seq<(Seq<char>, Json)>, fb: Seq<(Seq<char>, Json)>, i: int, j: int)
    requires
        ordered(fa),
        ordered(fb),
        0 <= i <= fa.len(),
        0 <= j <= fb.len(),
    ensures
        names_ordered(union_names(fa, fb, i, j)),
    decreases fa.len() - i + fb.len() - j,
{
    if i == fa.len() && j == fb.len() {
    } else {
        let old_first = j == fb.len() || (i < fa.len() && precedes(fa[i].0, fb[j].0));
        let new_first = !old_first && (i == fa.len() || precedes(fb[j].0, fa[i].0));
        let ni = if new_first { i } else { i + 1 };
        let nj = if old_first { j } else { j + 1 };
        let first_name = if new_first { fb[j].0 } else { fa[i].0 };
        if !old_first && !new_first {
            lemma_precedes_total(fa[i].0, fb[j].0);
        }
        let all = union_names(fa, fb, i, j);
        let rest = union_names(fa, fb, ni, nj);
        assert(all == seq![first_name] + rest);
        lemma_union_ordered(fa, fb, ni, nj);
        assert forall|p: int, q: int| 0 <= p < q < all.len() implies precedes(
            #[trigger] all[p],
            #[trigger] all[q],
        ) by {
            if p > 0 {
                assert(all[p] == rest[p - 1] && all[q] == rest[q - 1]);
            } else {
                let name = all[q];
                assert(rest[q - 1] == name);
                lemma_union_names(fa, fb, ni, nj, name);
                if find(fa.skip(ni), name) is Some {
                    if ni > i && ni < fa.len() {
                        assert(precedes(fa[i].0, fa[ni].0));
                    }
                    lemma_later_names(fa, ni, first_name, name);
                } else {
                    if nj > j && nj < fb.len() {
                        assert(precedes(fb[j].0, fb[nj].0));
                    }
                    lemma_later_names(fb, nj, first_name, name);
                }
            }
        }
    }
}

/// The names that `all_keys` finds in two lists that are ordered by name
/// are the names of the fields of either, in their order.
pub proof fn lemma_all_keys(fa: Seq<(Seq<char>, Json)>, fb: Seq<(Seq<char>, Json)>, name: Seq<char>)
    requires
        ordered(fa),
        ordered(fb),
    ensures
        names_ordered(union_names(fa, fb, 0, 0)),
        listed(union_names(fa, fb, 0, 0), name) <==> find(fa, name) is Some || find(fb, name) is Some,
{
    lemma_union_ordered(fa, fb, 0, 0);
    lemma_union_names(fa, fb, 0, 0, name);
    assert(fa.skip(0) =~= fa);
    assert(fb.skip(0) =~= fb);
}

/// Among the fields that stand for the items of an array, the one
/// named by the numeral of `i` holds the item at `i`, and a name that is
/// no numeral of an index holds nothing.
pub proof fn lemma_index_find(xs: Seq<Json>, name: Seq<char>)
    ensures
        forall|i: nat| i < xs.len() && name == #[trigger] nat_text(i) ==> find(index_fields(xs), name) == Some(
            xs[i as int],
        ),
        (forall|i: nat| i < xs.len() ==> name != #[trigger] nat_text(i)) ==> find(index_fields(xs), name)
            is None,
    decreases xs.len(),
{
    if xs.len() > 0 {
        let rest = xs.drop_last();
        let last = (xs.len() - 1) as nat;
        lemma_index_find(rest, name);
        lemma_index_fields_ordered(rest);
        lemma_find_put(index_fields(rest), nat_text(last), xs.last(), name);
        assert forall|i: nat| i < xs.len() && name == #[trigger] nat_text(i) implies find(
            index_fields(xs),
            name,
        ) == Some(xs[i as int]) by {
            if i < last {
                assert(rest[i as int] == xs[i as int]);
                if name == nat_text(last) {
                    lemma_nat_text_injective(i, last);
                }
            }
        }
        if forall|i: nat| i < xs.len() ==> name != #[trigger] nat_text(i) {
            assert(name != nat_text(last));
            assert forall|i: nat| i < rest.len() implies name != #[trigger] nat_text(i) by {
                assert(i < xs.len());
            }
        }
    }
}

/// Arrays are compared by position: the composite for two unequal arrays
/// holds an entry named by the numeral of `i` exactly where that name is
/// visible and only one array has an item at `i`, or both have one and
/// the two are not equal.
pub proof fn lemma_array_coverage(xs: Seq<Json>, ys: Seq<Json>, cfg: Seq<(Seq<char>, bool)>, i: nat)
    requires
        xs != ys,
    ensures
        diff(Json::Array(xs), Json::Array(ys), cfg) matches Some(Delta::Entries(es)) && (named(
            es,
            nat_text(i),
        ) <==> visible(cfg, nat_text(i)) && if i < xs.len() && i < ys.len() {
            xs[i as int] != ys[i as int]
        } else {
            i < xs.len() || i < ys.len()
        }),
{
    let h = height(Json::Array(xs));
    let name = nat_text(i);
    lemma_index_fields_ordered(xs);
    lemma_index_fields_ordered(ys);
    assert forall|k: int| 0 <= k < xs.len() implies height(#[trigger] xs[k]) < h by {
        lemma_items_height(xs, k);
    }
    lemma_index_fields_bounded(xs, h);
    lemma_merge_names(index_fields(xs), index_fields(ys), 0, 0, cfg, h, name);
    lemma_kept_named(merge(index_fields(xs), index_fields(ys), 0, 0, cfg, h), cfg, name);
    assert(index_fields(xs).skip(0) =~= index_fields(xs));
    assert(index_fields(ys).skip(0) =~= index_fields(ys));
    lemma_index_find(xs, name);
    lemma_index_find(ys, name);
    if i >= xs.len() {
        assert forall|k: nat| k < xs.len() implies name != #[trigger] nat_text(k) by {
            if name == nat_text(k) {
                lemma_nat_text_injective(i, k);
            }
        }
    }
    if i >= ys.len() {
        assert forall|k: nat| k < ys.len() implies name != #[trigger] nat_text(k) by {
            if name == nat_text(k) {
                lemma_nat_text_injective(i, k);
            }
        }
    }
}

/// Every entry of the composite for two unequal arrays is what
/// `field_change` says of its name among the fields that stand for the
/// items.
pub proof fn lemma_array_entry_content(xs: Seq<Json>, ys: Seq<Json>, cfg: Seq<(Seq<char>, bool)>, k: int)
    requires
        xs != ys,
    ensures
        diff(Json::Array(xs), Json::Array(ys), cfg) matches Some(Delta::Entries(es)) && (0 <= k < es.len()
            ==> Some(es[k]) == field_change(es[k].name, index_fields(xs), index_fields(ys), cfg)),
{
    let h = height(Json::Array(xs));
    lemma_index_fields_ordered(xs);
    lemma_index_fields_ordered(ys);
    assert forall|i: int| 0 <= i < xs.len() implies height(#[trigger] xs[i]) < h by {
        lemma_items_height(xs, i);
    }
    lemma_index_fields_bounded(xs, h);
    let all = merge(index_fields(xs), index_fields(ys), 0, 0, cfg, h);
    if 0 <= k < kept(all, cfg).len() {
        lemma_kept_member(all, cfg, k);
        let i = choose|i: int| 0 <= i < all.len() && #[trigger] all[i] == kept(all, cfg)[k];
        lemma_merge_content(index_fields(xs), index_fields(ys), 0, 0, cfg, h, i);
    }
    assert(index_fields(xs).skip(0) =~= index_fields(xs));
    assert(index_fields(ys).skip(0) =~= index_fields(ys));
}

/// What a style puts before a text.
pub open spec fn style_lead(style: Style, code: Seq<char>) -> Seq<char> {
    match style {
        Style::Plain => Seq::empty(),
        Style::Ansi => "\u{1b}["@ + code + "m"@,
    }
}

/// What a style puts behind a text.
pub open spec fn style_tail(style: Style) -> Seq<char> {
    match style {
        Style::Plain => Seq::empty(),
        Style::Ansi => "\u{1b}[0m"@,
    }
}

/// Styling leaves the text whole: it only puts a mark before it and one
/// behind it, neither of which depends on the text, and the plain style
/// puts nothing.
pub proof fn lemma_painted_frames(style: Style, code: Seq<char>, text: Seq<char>)
    ensures
        painted(style, code, text) == style_lead(style, code) + text + style_tail(style),
        painted(Style::Plain, code, text) == text,
{
    assert(painted(style, code, text) =~= style_lead(style, code) + text + style_tail(style));
}

/// A name registered as visible stays an ordinary field: every entry of
/// that name is kept, as it was.
pub proof fn lemma_visible_header_stays(cfg: Seq<(Seq<char>, bool)>, name: Seq<char>, es: Seq<Entry>, i: int)
    requires
        ordered(cfg),
        0 <= i < es.len(),
        es[i].name == name,
    ensures
        exists|k: int|
            0 <= k < kept(es, register(cfg, name, true)).len() && #[trigger] kept(
                es,
                register(cfg, name, true),
            )[k] == es[i],
{
    lemma_register_visible(cfg, name, true, name);
    lemma_kept_holds(es, register(cfg, name, true), i);
}

/// A name registered as hidden is no ordinary field: no entry of that
/// name is kept.
pub proof fn lemma_hidden_header_dropped(cfg: Seq<(Seq<char>, bool)>, name: Seq<char>, es: Seq<Entry>)
    requires
        ordered(cfg),
    ensures
        !named(kept(es, register(cfg, name, false)), name),
{
    lemma_register_visible(cfg, name, false, name);
    lemma_kept_named(es, register(cfg, name, false), name);
}

/// Every composite in the change, at whatever depth and in whatever
/// header, has its entries ordered by name.
pub open spec fn delta_ordered(d: Delta) -> bool
    decreases d, 0nat,
{
    match d {
        Delta::Entries(es) => entries_ordered(es) && entries_deep(es, es.len()),
        _ => true,
    }
}

/// `delta_ordered` holds within each of the first `n` entries.
pub open spec fn entries_deep(es: Seq<Entry>, n: nat) -> bool
    decreases es, n,
{
    if n == 0 || n > es.len() {
        true
    } else {
        entries_deep(es, (n - 1) as nat) && entry_deep(es[n - 1])
    }
}

/// `delta_ordered` holds of the entry's headers and of its change.
pub open spec fn entry_deep(e: Entry) -> bool
    decreases e, 0nat,
{
    notes_deep(e.headers, e.headers.len()) && match e.content {
        Content::Diff(d) => delta_ordered(d),
        _ => true,
    }
}

/// `delta_ordered` holds of each of the first `n` headers.
pub open spec fn notes_deep(hs: Seq<Note>, n: nat) -> bool
    decreases hs, n,
{
    if n == 0 || n > hs.len() {
        true
    } else {
        notes_deep(hs, (n - 1) as nat) && delta_ordered(hs[n - 1].content)
    }
}

/// What holds within each entry holds within the first `n`.
pub proof fn lemma_entries_deep(es: Seq<Entry>, n: nat)
    requires
        n <= es.len(),
        forall|i: int| 0 <= i < n ==> entry_deep(#[trigger] es[i]),
    ensures
        entries_deep(es, n),
    decreases n,
{
    if n > 0 {
        lemma_entries_deep(es, (n - 1) as nat);
    }
}

/// What holds of each header holds of the first `n`.
pub proof fn lemma_notes_deep(hs: Seq<Note>, n: nat)
    requires
        n <= hs.len(),
        forall|i: int| 0 <= i < n ==> delta_ordered((#[trigger] hs[i]).content),
    ensures
        notes_deep(hs, n),
    decreases n,
{
    if n > 0 {
        lemma_notes_deep(hs, (n - 1) as nat);
    }
}

/// What is looked up in a well-formed tree is well formed.
pub proof fn lemma_lookup_well_formed(key: Seq<char>, v: Json)
    requires
        well_formed(v),
    ensures
        well_formed(lookup(key, v)),
{
    if let Json::Object(fs) = v {
        lemma_find_is_field(fs, key);
        lemma_fields_well_formed(fs);
    }
}

/// The fields that stand for well-formed items are well formed.
pub proof fn lemma_index_fields_well_formed(xs: Seq<Json>)
    requires
        items_well_formed(xs),
    ensures
        fields_well_formed(index_fields(xs)),
    decreases xs.len(),
{
    if xs.len() > 0 {
        lemma_index_fields_well_formed(xs.drop_last());
        lemma_put_well_formed(index_fields(xs.drop_last()), nat_text((xs.len() - 1) as nat), xs.last());
    }
}

/// The change between two well-formed trees has the entries of every
/// composite in it ordered by name.
pub proof fn lemma_diff_ordered(a: Json, b: Json, cfg: Seq<(Seq<char>, bool)>)
    requires
        well_formed(a),
        well_formed(b),
    ensures
        diff(a, b, cfg) matches Some(d) ==> delta_ordered(d),
    decreases height(a) + 1, 0nat, 0nat,
{
    let h = height(a);
    if a != b {
        if a is Object && b is Object {
            let fa = a->Object_0;
            let fb = b->Object_0;
            lemma_object_bounded(fa);
            lemma_composite_ordered(fa, fb, cfg, h);
        } else if a is Array && b is Array {
            let xs = a->Array_0;
            let ys = b->Array_0;
            lemma_index_fields_ordered(xs);
            lemma_index_fields_ordered(ys);
            lemma_index_fields_well_formed(xs);
            lemma_index_fields_well_formed(ys);
            assert forall|i: int| 0 <= i < xs.len() implies height(#[trigger] xs[i]) < h by {
                lemma_items_height(xs, i);
            }
            lemma_index_fields_bounded(xs, h);
            lemma_composite_ordered(index_fields(xs), index_fields(ys), cfg, h);
        }
    }
}

/// The composite for two ordered lists of well-formed fields is ordered
/// at every depth.
pub proof fn lemma_composite_ordered(
    fa: Seq<(Seq<char>, Json)>,
    fb: Seq<(Seq<char>, Json)>,
    cfg: Seq<(Seq<char>, bool)>,
    h: nat,
)
    requires
        ordered(fa),
        ordered(fb),
        fields_well_formed(fa),
        fields_well_formed(fb),
        bounded(fa, h),
        h > 0,
    ensures
        delta_ordered(Delta::Entries(kept(merge(fa, fb, 0, 0, cfg, h), cfg))),
    decreases h, 2nat, 0nat,
{
    let all = merge(fa, fb, 0, 0, cfg, h);
    let es = kept(all, cfg);
    lemma_merge_ordered(fa, fb, 0, 0, cfg, h);
    lemma_kept_ordered(all, cfg);
    assert forall|k: int| 0 <= k < es.len() implies entry_deep(#[trigger] es[k]) by {
        lemma_kept_member(all, cfg, k);
        let i = choose|i: int| 0 <= i < all.len() && #[trigger] all[i] == es[k];
        lemma_merge_deep(fa, fb, 0, 0, cfg, h, i);
    }
    lemma_entries_deep(es, es.len());
}

/// From any two positions on, every entry for well-formed fields is
/// ordered at every depth.
pub proof fn lemma_merge_deep(
    fa: Seq<(Seq<char>, Json)>,
    fb: Seq<(Seq<char>, Json)>,
    i: int,
    j: int,
    cfg: Seq<(Seq<char>, bool)>,
    h: nat,
    k: int,
)
    requires
        fields_well_formed(fa),
        fields_well_formed(fb),
        bounded(fa, h),
        h > 0,
        0 <= i <= fa.len(),
        0 <= j <= fb.len(),
        0 <= k < merge(fa, fb, i, j, cfg, h).len(),
    ensures
        entry_deep(merge(fa, fb, i, j, cfg, h)[k]),
    decreases h, 1nat, fa.len() - i + fb.len() - j,
{
    lemma_fields_well_formed(fa);
    lemma_fields_well_formed(fb);
    let old_first = j == fb.len() || (i < fa.len() && precedes(fa[i].0, fb[j].0));
    let new_first = !old_first && (i == fa.len() || precedes(fb[j].0, fa[i].0));
    let ni = if new_first { i } else { i + 1 };
    let nj = if old_first { j } else { j + 1 };
    let rest = merge(fa, fb, ni, nj, cfg, h);
    let all = merge(fa, fb, i, j, cfg, h);
    let first = if old_first {
        seq![removed(fa[i].0, fa[i].1, cfg, h)]
    } else if new_first {
        seq![added(fb[j].0, fb[j].1, cfg, h)]
    } else {
        match modified(fa[i].0, fa[i].1, fb[j].1, cfg, h) {
            Some(e) => seq![e],
            None => Seq::empty(),
        }
    };
    assert(all == first + rest);
    if k < first.len() {
        let e = all[k];
        if old_first {
            assert(height(fa[i].1) < h);
            lemma_notes_all_deep(cfg, cfg.len(), fa[i].1, Json::Null, h);
        } else if new_first {
            lemma_notes_all_deep(cfg, cfg.len(), Json::Null, fb[j].1, h);
        } else {
            assert(height(fa[i].1) < h);
            lemma_notes_all_deep(cfg, cfg.len(), fa[i].1, fb[j].1, h);
            lemma_diff_ordered(fa[i].1, fb[j].1, cfg);
        }
        lemma_notes_deep(e.headers, e.headers.len());
    } else {
        assert(all[k] == rest[k - first.len()]);
        lemma_merge_deep(fa, fb, ni, nj, cfg, h, k - first.len());
    }
}

/// The headers of a field with well-formed values are ordered at every
/// depth.
pub proof fn lemma_notes_all_deep(cfg: Seq<(Seq<char>, bool)>, n: nat, x: Json, y: Json, h: nat)
    requires
        well_formed(x),
        well_formed(y),
        height(x) < h,
    ensures
        forall|t: int|
            0 <= t < notes(cfg, n, x, y, h).len() ==> delta_ordered((#[trigger] notes(cfg, n, x, y, h)[t]).content),
    decreases h, 0nat, n,
{
    if n > 0 && n <= cfg.len() {
        let name = cfg[n - 1].0;
        let rest = notes(cfg, (n - 1) as nat, x, y, h);
        lemma_notes_all_deep(cfg, (n - 1) as nat, x, y, h);
        lemma_lookup_height(name, x);
        lemma_lookup_well_formed(name, x);
        lemma_lookup_well_formed(name, y);
        lemma_diff_ordered(lookup(name, x), lookup(name, y), cfg);
        let all = notes(cfg, n, x, y, h);
        assert forall|t: int| 0 <= t < all.len() implies delta_ordered((#[trigger] all[t]).content) by {
            if t < rest.len() {
                assert(all[t] == rest[t]);
            }
        }
    }
}

} // verus!
