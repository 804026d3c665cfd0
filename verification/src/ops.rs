//! The pure cores of the user-facing commands: the cumulative upsert of
//! `set`, the remove-with-warnings loop of `unset`, and the sorted
//! name/key listings of `list`.

use vstd::prelude::*;
use vstd::string::StringExecFns;
use crate::store::{
    EnvMap, parse_text, parse_kvs, kvs_insert, kvs_remove, serialize_kvs, line_of,
    update, remove, wf_key, wf_val,
    lemma_parse_normal_form, lemma_kvs_insert, lemma_kvs_remove,
    lemma_serialize_parse_round_trip,
};
use crate::text::{lex_lt, str_lt, str_eq, lemma_lex_lt_ne, lemma_lex_lt_trans, lemma_lex_lt_total};
use crate::rbw::ListItem;

verus! {

/// The note text after upserting `entries` in order, each step parsing,
/// binding one key, and re-serializing.
pub open spec fn updated_text(text: Seq<char>, entries: Seq<(Seq<char>, Seq<char>)>) -> Seq<char>
    decreases entries.len(),
{
    if entries.len() == 0 {
        text
    } else {
        updated_text(
            serialize_kvs(kvs_insert(parse_kvs(text), entries[0].0, entries[0].1)),
            entries.skip(1),
        )
    }
}

/// The mapping after binding `entries` in order.
pub open spec fn updated_map(
    m: Map<Seq<char>, Seq<char>>,
    entries: Seq<(Seq<char>, Seq<char>)>,
) -> Map<Seq<char>, Seq<char>>
    decreases entries.len(),
{
    if entries.len() == 0 {
        m
    } else {
        updated_map(m.insert(entries[0].0, entries[0].1), entries.skip(1))
    }
}

/// The pairs a vector of owned strings denotes.
pub open spec fn pairs_view(ps: Seq<(String, String)>) -> Seq<(Seq<char>, Seq<char>)> {
    ps.map(|i: int, p: (String, String)| (p.0@, p.1@))
}

/// All entries fit the encoding: keys and values the round trip keeps.
pub open spec fn wf_entries(entries: Seq<(Seq<char>, Seq<char>)>) -> bool {
    forall|i: int| 0 <= i < entries.len()
        ==> wf_key((#[trigger] entries[i]).0) && wf_val(entries[i].1)
}

/// Upserting well-formed entries changes the denoted mapping by exactly
/// those bindings, in order.
pub proof fn lemma_updated_text_map(text: Seq<char>, entries: Seq<(Seq<char>, Seq<char>)>)
    requires
        wf_entries(entries),
    ensures
        parse_text(updated_text(text, entries)) == updated_map(parse_text(text), entries),
    decreases entries.len(),
{
    if entries.len() > 0 {
        let k = entries[0].0;
        let v = entries[0].1;
        lemma_parse_normal_form(text);
        lemma_kvs_insert(parse_kvs(text), k, v);
        lemma_serialize_parse_round_trip(kvs_insert(parse_kvs(text), k, v));
        let t2 = serialize_kvs(kvs_insert(parse_kvs(text), k, v));
        assert(parse_text(t2) == parse_text(text).insert(k, v));
        assert(forall|i: int| 0 <= i < entries.skip(1).len()
            ==> #[trigger] entries.skip(1)[i] == entries[i + 1]);
        lemma_updated_text_map(t2, entries.skip(1));
    }
}

/// The `set` core: prompt-collected values are bound one after the
/// other, each upsert working on the text the previous one produced, and
/// the final text is what one write-back stores.
pub fn apply_updates(existing: &str, entries: &Vec<(String, String)>) -> (r: String)
    ensures
        r@ == updated_text(existing@, pairs_view(entries@)),
        wf_entries(pairs_view(entries@))
            ==> parse_text(r@) == updated_map(parse_text(existing@), pairs_view(entries@)),
{
    let ghost all = pairs_view(entries@);
    let n = entries.len();
    let mut notes = existing.to_owned();
    let mut i: usize = 0;
    proof {
        assert(all.skip(0) =~= all);
    }
    while i < n
        invariant
            i <= n,
            n == entries@.len(),
            all == pairs_view(entries@),
            all.len() == n,
            updated_text(notes@, all.skip(i as int)) == updated_text(existing@, all),
        decreases n - i,
    {
        proof {
            assert(all[i as int] == (entries@[i as int].0@, entries@[i as int].1@));
            assert(forall|j: int| 0 <= j < all.skip(i as int).len()
                ==> #[trigger] all.skip(i as int)[j] == all[i + j]);
            assert(all.skip(i as int).skip(1) =~= all.skip(i as int + 1));
        }
        notes = update(notes.as_str(), entries[i].0.as_str(), entries[i].1.as_str());
        i = i + 1;
    }
    proof {
        assert(all.skip(n as int) =~= Seq::<(Seq<char>, Seq<char>)>::empty());
        if wf_entries(all) {
            lemma_updated_text_map(existing@, all);
        }
    }
    notes
}

/// The note text after attempting to remove `keys` in order; a key that
/// is absent at its turn leaves the text unchanged.
pub open spec fn removed_text(text: Seq<char>, keys: Seq<Seq<char>>) -> Seq<char>
    decreases keys.len(),
{
    if keys.len() == 0 {
        text
    } else if parse_text(text).dom().contains(keys[0]) {
        removed_text(serialize_kvs(kvs_remove(parse_kvs(text), keys[0])), keys.skip(1))
    } else {
        removed_text(text, keys.skip(1))
    }
}

/// The keys that were absent at their turn, in the order given.
pub open spec fn absent_keys(text: Seq<char>, keys: Seq<Seq<char>>) -> Seq<Seq<char>>
    decreases keys.len(),
{
    if keys.len() == 0 {
        Seq::empty()
    } else if parse_text(text).dom().contains(keys[0]) {
        absent_keys(serialize_kvs(kvs_remove(parse_kvs(text), keys[0])), keys.skip(1))
    } else {
        seq![keys[0]] + absent_keys(text, keys.skip(1))
    }
}

/// The mapping after removing every listed key.
pub open spec fn removed_map(
    m: Map<Seq<char>, Seq<char>>,
    keys: Seq<Seq<char>>,
) -> Map<Seq<char>, Seq<char>>
    decreases keys.len(),
{
    if keys.len() == 0 {
        m
    } else {
        removed_map(m.remove(keys[0]), keys.skip(1))
    }
}

/// Removing keys changes the denoted mapping by exactly those removals,
/// whether or not each key was present.
pub proof fn lemma_removed_text_map(text: Seq<char>, keys: Seq<Seq<char>>)
    ensures
        parse_text(removed_text(text, keys)) == removed_map(parse_text(text), keys),
    decreases keys.len(),
{
    if keys.len() > 0 {
        let k = keys[0];
        if parse_text(text).dom().contains(k) {
            lemma_parse_normal_form(text);
            lemma_kvs_remove(parse_kvs(text), k);
            lemma_serialize_parse_round_trip(kvs_remove(parse_kvs(text), k));
            let t2 = serialize_kvs(kvs_remove(parse_kvs(text), k));
            assert(parse_text(t2) == parse_text(text).remove(k));
            lemma_removed_text_map(t2, keys.skip(1));
        } else {
            lemma_removed_text_map(text, keys.skip(1));
            assert(parse_text(text).remove(k) =~= parse_text(text));
        }
    }
}

/// The strings a vector of owned strings denotes.
pub open spec fn names_view(vs: Seq<String>) -> Seq<Seq<char>> {
    vs.map(|i: int, s: String| s@)
}

/// The `unset` core: each key is removed in turn from the running text;
/// an absent key is reported back (for a warning) and leaves the text as
/// it was.  The final text is written back unconditionally.
pub fn apply_removals(existing: &str, keys: &Vec<String>) -> (r: (String, Vec<String>))
    ensures
        r.0@ == removed_text(existing@, names_view(keys@)),
        names_view(r.1@) == absent_keys(existing@, names_view(keys@)),
        parse_text(r.0@) == removed_map(parse_text(existing@), names_view(keys@)),
{
    let ghost all = names_view(keys@);
    let n = keys.len();
    let mut notes = existing.to_owned();
    let mut missing: Vec<String> = Vec::new();
    let mut i: usize = 0;
    proof {
        assert(all.skip(0) =~= all);
        assert(names_view(missing@) =~= Seq::<Seq<char>>::empty());
    }
    while i < n
        invariant
            i <= n,
            n == keys@.len(),
            all == names_view(keys@),
            all.len() == n,
            removed_text(notes@, all.skip(i as int)) == removed_text(existing@, all),
            names_view(missing@) + absent_keys(notes@, all.skip(i as int))
                == absent_keys(existing@, all),
        decreases n - i,
    {
        proof {
            assert(all[i as int] == keys@[i as int]@);
            assert(forall|j: int| 0 <= j < all.skip(i as int).len()
                ==> #[trigger] all.skip(i as int)[j] == all[i + j]);
            assert(all.skip(i as int).skip(1) =~= all.skip(i as int + 1));
        }
        let ghost notes0 = notes@;
        let ghost missing0 = missing@;
        match remove(notes.as_str(), keys[i].as_str()) {
            Some(updated) => {
                notes = updated;
            },
            None => {
                missing.push(keys[i].clone());
                proof {
                    assert(names_view(missing@)
                        =~= names_view(missing0).push(keys@[i as int]@));
                    assert(names_view(missing0) + (seq![all[i as int]]
                        + absent_keys(notes@, all.skip(i as int + 1)))
                        =~= names_view(missing0).push(all[i as int])
                            + absent_keys(notes@, all.skip(i as int + 1)));
                }
            },
        }
        i = i + 1;
    }
    proof {
        assert(all.skip(n as int) =~= Seq::<Seq<char>>::empty());
        assert(names_view(missing@) + Seq::<Seq<char>>::empty() =~= names_view(missing@));
        lemma_removed_text_map(existing@, all);
    }
    (notes, missing)
}

/// Ascending (not necessarily strict) lexicographic order.
pub open spec fn sorted_le(vs: Seq<Seq<char>>) -> bool {
    forall|i: int, j: int| 0 <= i < j < vs.len() ==> !lex_lt(#[trigger] vs[j], #[trigger] vs[i])
}

/// Insert a name into an ascending vector, keeping it ascending and
/// adding exactly that name to the contents.
fn insert_sorted(out: &mut Vec<String>, s: String)
    requires
        sorted_le(names_view(old(out)@)),
    ensures
        sorted_le(names_view(final(out)@)),
        names_view(final(out)@).to_multiset()
            == names_view(old(out)@).to_multiset().insert(s@),
{
    let ghost nv = names_view(old(out)@);
    let n = out.len();
    proof {
        assert(nv.len() == n);
    }
    let mut i: usize = 0;
    loop
        invariant_except_break
            i <= n,
            n == out.len(),
            *out == *old(out),
            nv == names_view(old(out)@),
            nv.len() == n,
            forall|j: int| 0 <= j < i ==> lex_lt(#[trigger] nv[j], s@),
        ensures
            i <= n,
            n == out.len(),
            *out == *old(out),
            nv == names_view(old(out)@),
            nv.len() == n,
            forall|j: int| 0 <= j < i ==> lex_lt(#[trigger] nv[j], s@),
            i == n || !lex_lt(nv[i as int], s@),
        decreases n - i,
    {
        if i == n {
            break;
        }
        proof {
            assert(nv[i as int] == out@[i as int]@);
        }
        if !str_lt(out[i].as_str(), s.as_str()) {
            break;
        }
        i = i + 1;
    }
    let ghost pos = i as int;
    out.insert(i, s);
    proof {
        let t = names_view(out@);
        assert(out@ == old(out)@.insert(pos, s));
        assert(t.len() == nv.len() + 1);
        assert(t[pos] == s@);
        assert(forall|j: int| 0 <= j < pos ==> #[trigger] t[j] == nv[j]);
        assert(forall|j: int| pos < j < t.len() ==> #[trigger] t[j] == nv[j - 1]);
        assert(t =~= nv.insert(pos, s@));
        // order: everything before the spot is below `s`, everything
        // after is not below it, and the old order carries over
        assert forall|x: int, y: int| 0 <= x < y < t.len()
            implies !lex_lt(#[trigger] t[y], #[trigger] t[x]) by {
            if x < pos && y == pos {
                if lex_lt(t[y], t[x]) {
                    lemma_lex_lt_trans(s@, nv[x], s@);
                    lemma_lex_lt_ne(s@, s@);
                }
            } else if x == pos && y > pos {
                if lex_lt(t[y], t[x]) {
                    if y - 1 == pos {
                    } else {
                        if lex_lt(nv[pos], nv[y - 1]) {
                            lemma_lex_lt_trans(nv[pos], nv[y - 1], s@);
                        } else {
                            lemma_lex_lt_total(nv[pos], nv[y - 1]);
                        }
                    }
                }
            } else if x < pos && y > pos {
                assert(t[x] == nv[x] && t[y] == nv[y - 1]);
            } else if y < pos {
                assert(t[x] == nv[x] && t[y] == nv[y]);
            } else if x > pos {
                assert(t[x] == nv[x - 1] && t[y] == nv[y - 1]);
            }
        }
        // contents: one copy of `s` joins the multiset
        t.to_multiset_ensures();
        nv.to_multiset_ensures();
        assert(t.remove(pos) =~= nv);
        assert(t.to_multiset().remove(s@) == nv.to_multiset());
        assert(t.contains(s@));
        assert(t.to_multiset().count(s@) > 0);
        assert(t.to_multiset() =~= nv.to_multiset().insert(s@));
    }
}

/// The `list` core for namespaces: the names in ascending lexicographic
/// order -- the same names, kept with their multiplicities.
pub fn sorted_names(names: &Vec<String>) -> (r: Vec<String>)
    ensures
        sorted_le(names_view(r@)),
        names_view(r@).to_multiset() == names_view(names@).to_multiset(),
{
    let n = names.len();
    let mut out: Vec<String> = Vec::new();
    let mut i: usize = 0;
    proof {
        assert(names_view(out@) =~= Seq::<Seq<char>>::empty());
        assert(names_view(names@.take(0)) =~= Seq::<Seq<char>>::empty());
        names_view(names@.take(0)).to_multiset_ensures();
        assert(names_view(out@).to_multiset() =~= names_view(names@.take(0)).to_multiset());
    }
    while i < n
        invariant
            i <= n,
            n == names@.len(),
            sorted_le(names_view(out@)),
            names_view(out@).to_multiset() == names_view(names@.take(i as int)).to_multiset(),
        decreases n - i,
    {
        let ghost before = names_view(names@.take(i as int));
        let ghost after = names_view(names@.take(i as int + 1));
        insert_sorted(&mut out, names[i].clone());
        proof {
            assert(after =~= before.push(names@[i as int]@));
            before.to_multiset_ensures();
            assert(after.to_multiset() == before.to_multiset().insert(names@[i as int]@));
        }
        i = i + 1;
    }
    proof {
        assert(names@.take(n as int) =~= names@);
    }
    out
}

/// The names of the items that sit in `folder` (an item without a
/// folder counts as folder `""`), in listing order.
pub open spec fn selected_names(items: Seq<ListItem>, folder: Seq<char>) -> Seq<Seq<char>>
    decreases items.len(),
{
    if items.len() == 0 {
        Seq::empty()
    } else {
        let rest = selected_names(items.drop_last(), folder);
        let it = items.last();
        let f = match it.folder {
            Some(s) => s@,
            None => Seq::empty(),
        };
        if f == folder {
            rest.push(it.name@)
        } else {
            rest
        }
    }
}

/// The `list` core for a folder: every listed item that sits in the
/// folder contributes its name, in listing order.
pub fn namespace_names(items: &Vec<ListItem>, folder: &str) -> (r: Vec<String>)
    ensures
        names_view(r@) == selected_names(items@, folder@),
{
    let n = items.len();
    let mut out: Vec<String> = Vec::new();
    let mut i: usize = 0;
    proof {
        assert(names_view(out@) =~= Seq::<Seq<char>>::empty());
        assert(selected_names(items@.take(0), folder@) =~= Seq::<Seq<char>>::empty());
    }
    while i < n
        invariant
            i <= n,
            n == items@.len(),
            names_view(out@) == selected_names(items@.take(i as int), folder@),
        decreases n - i,
    {
        let ghost out0 = out@;
        proof {
            assert(items@.take(i + 1).drop_last() =~= items@.take(i as int));
            assert(items@.take(i + 1).last() == items@[i as int]);
        }
        let matches_folder = match &items[i].folder {
            Some(f) => str_eq(f.as_str(), folder),
            None => folder.is_empty(),
        };
        if matches_folder {
            out.push(items[i].name.clone());
            proof {
                assert(names_view(out@) =~= names_view(out0).push(items@[i as int].name@));
            }
        }
        proof {
            match items@[i as int].folder {
                Some(f) => {},
                None => {
                    if folder@.len() == 0 {
                        assert(folder@ =~= Seq::<char>::empty());
                    }
                },
            }
        }
        i = i + 1;
    }
    proof {
        assert(items@.take(n as int) =~= items@);
    }
    out
}

/// The `list` core for one namespace: one line per pair, keys ascending
/// (as the mapping keeps them), as `key` or `key=value`.
pub fn list_lines(m: &EnvMap, show_value: bool) -> (r: Vec<String>)
    ensures
        r@.len() == m.kvs().len(),
        forall|i: int| 0 <= i < r@.len() ==> (#[trigger] r@[i])@ == if show_value {
            line_of(m.kvs()[i].0, m.kvs()[i].1)
        } else {
            m.kvs()[i].0
        },
{
    let entries = m.entries();
    let n = entries.len();
    let mut out: Vec<String> = Vec::new();
    let mut i: usize = 0;
    while i < n
        invariant
            i <= n,
            n == entries@.len(),
            entries@.len() == m.kvs().len(),
            forall|j: int| 0 <= j < entries@.len()
                ==> ((#[trigger] entries@[j]).0@, entries@[j].1@) == m.kvs()[j],
            out@.len() == i,
            forall|j: int| 0 <= j < i ==> (#[trigger] out@[j])@ == if show_value {
                line_of(m.kvs()[j].0, m.kvs()[j].1)
            } else {
                m.kvs()[j].0
            },
        decreases n - i,
    {
        let mut line = entries[i].0.clone();
        if show_value {
            line.append("=");
            line.append(entries[i].1.as_str());
            proof {
                reveal_strlit("=");
                assert("="@ =~= seq!['=']);
                assert(line@ =~= line_of(m.kvs()[i as int].0, m.kvs()[i as int].1));
            }
        }
        out.push(line);
        i = i + 1;
    }
    out
}

} // verus!
