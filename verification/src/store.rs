//! The note encoding: parsing `KEY=VALUE` lines into a mapping,
//! canonical (sorted, comment-free) re-serialization, and upsert/remove
//! over the encoded text, all proved against a sequence/map model.

use vstd::prelude::*;
use crate::text::{
    is_space, find_char, trim, trim_start, lex_lt,
    lemma_find_char, lemma_find_char_at, lemma_trim_start_range, lemma_trim_end_range,
    lemma_trim_fixed, lemma_trim_start_is_suffix, lemma_trim_end_is_prefix,
    lemma_lex_lt_ne, lemma_lex_lt_trans, lemma_lex_lt_total,
    str_lt, str_eq, space_char,
};

verus! {

/// What one line contributes: `None` for blank, comment, or `=`-free
/// lines, else the key before the first `=` and the value after it.
pub open spec fn parse_line(line: Seq<char>) -> Option<(Seq<char>, Seq<char>)> {
    let t = trim(line);
    if t.len() == 0 || t[0] == '#' {
        None
    } else {
        let e = find_char(t, '=');
        if e < 0 {
            None
        } else {
            Some((t.subrange(0, e), t.subrange(e + 1, t.len() as int)))
        }
    }
}

/// The mapping a whole note text denotes: lines split on `'\n'`, later
/// occurrences of a key overriding earlier ones.
pub open spec fn parse_text(text: Seq<char>) -> Map<Seq<char>, Seq<char>>
    decreases text.len(),
    via parse_text_dec
{
    let n = find_char(text, '\n');
    if n < 0 {
        match parse_line(text) {
            None => Map::empty(),
            Some(kv) => Map::empty().insert(kv.0, kv.1),
        }
    } else {
        let rest = parse_text(text.subrange(n + 1, text.len() as int));
        match parse_line(text.subrange(0, n)) {
            None => rest,
            Some(kv) => if rest.dom().contains(kv.0) {
                rest
            } else {
                rest.insert(kv.0, kv.1)
            },
        }
    }
}

#[via_fn]
proof fn parse_text_dec(text: Seq<char>) {
    lemma_find_char(text, '\n');
}

/// Insertion into a key-sorted pair sequence: replaces the matching key
/// or splices the new pair in at its ordered position.
pub open spec fn kvs_insert(
    ps: Seq<(Seq<char>, Seq<char>)>,
    k: Seq<char>,
    v: Seq<char>,
) -> Seq<(Seq<char>, Seq<char>)>
    decreases ps.len(),
{
    if ps.len() == 0 {
        seq![(k, v)]
    } else if lex_lt(ps[0].0, k) {
        seq![ps[0]] + kvs_insert(ps.skip(1), k, v)
    } else if ps[0].0 == k {
        seq![(k, v)] + ps.skip(1)
    } else {
        seq![(k, v)] + ps
    }
}

/// Removal of the first pair carrying key `k`, if any.
pub open spec fn kvs_remove(
    ps: Seq<(Seq<char>, Seq<char>)>,
    k: Seq<char>,
) -> Seq<(Seq<char>, Seq<char>)>
    decreases ps.len(),
{
    if ps.len() == 0 {
        ps
    } else if ps[0].0 == k {
        ps.skip(1)
    } else {
        seq![ps[0]] + kvs_remove(ps.skip(1), k)
    }
}

/// The mapping an association sequence denotes, first occurrence winning.
pub open spec fn map_of(ps: Seq<(Seq<char>, Seq<char>)>) -> Map<Seq<char>, Seq<char>>
    decreases ps.len(),
{
    if ps.len() == 0 {
        Map::empty()
    } else {
        let rest = map_of(ps.skip(1));
        if rest.dom().contains(ps[0].0) {
            rest
        } else {
            rest.insert(ps[0].0, ps[0].1)
        }
    }
}

/// Keys in strictly ascending lexicographic order.
pub open spec fn sorted_keys(ps: Seq<(Seq<char>, Seq<char>)>) -> bool {
    forall|i: int, j: int|
        0 <= i < j < ps.len() ==> lex_lt((#[trigger] ps[i]).0, (#[trigger] ps[j]).0)
}

/// Whether `p` occurs in `ps`.
pub open spec fn has_pair(ps: Seq<(Seq<char>, Seq<char>)>, p: (Seq<char>, Seq<char>)) -> bool {
    exists|i: int| 0 <= i < ps.len() && #[trigger] ps[i] == p
}

/// A key that survives a parse/serialize round trip: no newline or `=`,
/// and nothing a leading trim or the comment test would take.
pub open spec fn wf_key(k: Seq<char>) -> bool {
    &&& forall|i: int| 0 <= i < k.len() ==> #[trigger] k[i] != '\n' && k[i] != '='
    &&& k.len() > 0 ==> !is_space(k[0]) && k[0] != '#'
}

/// A value that survives a round trip: no newline, no trailing whitespace.
pub open spec fn wf_val(v: Seq<char>) -> bool {
    &&& forall|i: int| 0 <= i < v.len() ==> #[trigger] v[i] != '\n'
    &&& v.len() > 0 ==> !is_space(v[v.len() - 1])
}

pub open spec fn wf_kvs(ps: Seq<(Seq<char>, Seq<char>)>) -> bool {
    forall|i: int| 0 <= i < ps.len() ==> wf_key((#[trigger] ps[i]).0) && wf_val(ps[i].1)
}

/// One serialized record.
pub open spec fn line_of(k: Seq<char>, v: Seq<char>) -> Seq<char> {
    k + seq!['='] + v
}

/// The canonical text of a pair sequence: `key=value` lines joined by a
/// single `'\n'`, no trailing newline.
pub open spec fn serialize_kvs(ps: Seq<(Seq<char>, Seq<char>)>) -> Seq<char>
    decreases ps.len(),
{
    if ps.len() == 0 {
        seq![]
    } else if ps.len() == 1 {
        line_of(ps[0].0, ps[0].1)
    } else {
        serialize_kvs(ps.drop_last()) + seq!['\n'] + line_of(ps.last().0, ps.last().1)
    }
}

/// In a sorted sequence all keys are distinct.
pub proof fn lemma_sorted_distinct(ps: Seq<(Seq<char>, Seq<char>)>)
    requires
        sorted_keys(ps),
    ensures
        forall|i: int, j: int| 0 <= i < j < ps.len() ==> (#[trigger] ps[i]).0 != (#[trigger] ps[j]).0,
{
    assert forall|i: int, j: int| 0 <= i < j < ps.len() implies (#[trigger] ps[i]).0 != (#[trigger] ps[j]).0 by {
        lemma_lex_lt_ne(ps[i].0, ps[j].0);
    }
}

/// What `map_of` holds: exactly the first binding of each listed key.
pub proof fn lemma_map_of(ps: Seq<(Seq<char>, Seq<char>)>)
    requires
        forall|i: int, j: int| 0 <= i < j < ps.len() ==> (#[trigger] ps[i]).0 != (#[trigger] ps[j]).0,
    ensures
        forall|i: int| 0 <= i < ps.len() ==> map_of(ps).dom().contains((#[trigger] ps[i]).0)
            && map_of(ps)[ps[i].0] == ps[i].1,
        forall|k: Seq<char>| map_of(ps).dom().contains(k)
            ==> exists|i: int| 0 <= i < ps.len() && (#[trigger] ps[i]).0 == k,
    decreases ps.len(),
{
    if ps.len() > 0 {
        lemma_map_of(ps.skip(1));
        let rest = map_of(ps.skip(1));
        assert forall|i: int| 0 <= i < ps.len() implies map_of(ps).dom().contains((#[trigger] ps[i]).0)
            && map_of(ps)[ps[i].0] == ps[i].1 by {
            if i > 0 {
                assert(ps.skip(1)[i - 1] == ps[i]);
                if rest.dom().contains(ps[0].0) {
                    let w = choose|w: int| 0 <= w < ps.skip(1).len() && ps.skip(1)[w].0 == ps[0].0;
                    assert(ps[w + 1].0 == ps[0].0);
                }
            } else {
                if rest.dom().contains(ps[0].0) {
                    let w = choose|w: int| 0 <= w < ps.skip(1).len() && ps.skip(1)[w].0 == ps[0].0;
                    assert(ps[w + 1].0 == ps[0].0);
                }
            }
        }
        assert forall|k: Seq<char>| map_of(ps).dom().contains(k)
            implies exists|i: int| 0 <= i < ps.len() && (#[trigger] ps[i]).0 == k by {
            if rest.dom().contains(k) {
                let w = choose|w: int| 0 <= w < ps.skip(1).len() && (#[trigger] ps.skip(1)[w]).0 == k;
                assert(ps[w + 1].0 == k);
            } else {
                assert(ps[0].0 == k);
            }
        }
    }
}

/// Removing the head of a sorted sequence removes its key from the map.
pub proof fn lemma_map_of_head(ps: Seq<(Seq<char>, Seq<char>)>)
    requires
        sorted_keys(ps),
        ps.len() > 0,
    ensures
        !map_of(ps.skip(1)).dom().contains(ps[0].0),
        map_of(ps) == map_of(ps.skip(1)).insert(ps[0].0, ps[0].1),
        map_of(ps.skip(1)) == map_of(ps).remove(ps[0].0),
{
    lemma_sorted_distinct(ps);
    assert(forall|i: int, j: int| 0 <= i < j < ps.skip(1).len()
        ==> (#[trigger] ps.skip(1)[i]).0 != (#[trigger] ps.skip(1)[j]).0) by {
        assert(forall|i: int| 0 <= i < ps.skip(1).len() ==> #[trigger] ps.skip(1)[i] == ps[i + 1]);
    }
    lemma_map_of(ps.skip(1));
    if map_of(ps.skip(1)).dom().contains(ps[0].0) {
        let w = choose|w: int| 0 <= w < ps.skip(1).len() && (#[trigger] ps.skip(1)[w]).0 == ps[0].0;
        assert(ps[w + 1].0 == ps[0].0);
    }
    assert(map_of(ps.skip(1)) =~= map_of(ps).remove(ps[0].0));
}

/// Effect of `kvs_insert` on order, contents, and the denoted map.
pub proof fn lemma_kvs_insert(ps: Seq<(Seq<char>, Seq<char>)>, k: Seq<char>, v: Seq<char>)
    requires
        sorted_keys(ps),
    ensures
        sorted_keys(kvs_insert(ps, k, v)),
        map_of(kvs_insert(ps, k, v)) == map_of(ps).insert(k, v),
        forall|j: int| 0 <= j < kvs_insert(ps, k, v).len()
            ==> (#[trigger] kvs_insert(ps, k, v)[j]) == (k, v)
                || has_pair(ps, kvs_insert(ps, k, v)[j]),
        wf_kvs(ps) && wf_key(k) && wf_val(v) ==> wf_kvs(kvs_insert(ps, k, v)),
    decreases ps.len(),
{
    let r = kvs_insert(ps, k, v);
    lemma_sorted_distinct(ps);
    lemma_map_of(ps);
    if ps.len() == 0 {
        assert(r == seq![(k, v)]);
        assert(map_of(r.skip(1)) =~= Map::<Seq<char>, Seq<char>>::empty());
        assert(r.skip(1) =~= Seq::<(Seq<char>, Seq<char>)>::empty());
        assert(map_of(r) =~= map_of(ps).insert(k, v));
    } else {
        let tail = ps.skip(1);
        assert(forall|i: int| 0 <= i < tail.len() ==> #[trigger] tail[i] == ps[i + 1]);
        assert(sorted_keys(tail));
        lemma_map_of_head(ps);
        if lex_lt(ps[0].0, k) {
            lemma_kvs_insert(tail, k, v);
            let rr = kvs_insert(tail, k, v);
            assert(r == seq![ps[0]] + rr);
            assert(r.len() == rr.len() + 1);
            assert(r[0] == ps[0]);
            assert(forall|i: int| 0 <= i < rr.len() ==> #[trigger] r[i + 1] == rr[i]);
            // order: head key is below the new key and every old tail key
            assert forall|i: int, j: int| 0 <= i < j < r.len()
                implies lex_lt((#[trigger] r[i]).0, (#[trigger] r[j]).0) by {
                if i == 0 {
                    assert(r[j] == rr[j - 1]);
                    if rr[j - 1] == (k, v) {
                    } else {
                        assert(has_pair(tail, rr[j - 1]));
                        let w = choose|w: int| 0 <= w < tail.len() && #[trigger] tail[w] == rr[j - 1];
                        assert(ps[w + 1] == rr[j - 1]);
                    }
                } else {
                    assert(r[i] == rr[i - 1] && r[j] == rr[j - 1]);
                }
            }
            // map: both sides insert distinct keys in either order
            assert(r.skip(1) =~= rr);
            lemma_map_of_head(r);
            assert(map_of(r) == map_of(rr).insert(ps[0].0, ps[0].1));
            assert(map_of(rr) == map_of(tail).insert(k, v));
            assert(ps[0].0 != k) by { lemma_lex_lt_ne(ps[0].0, k); }
            assert(map_of(r) =~= map_of(ps).insert(k, v));
            assert forall|j: int| 0 <= j < r.len()
                implies (#[trigger] r[j]) == (k, v) || has_pair(ps, r[j]) by {
                if j == 0 {
                    assert(ps[0] == r[0]);
                } else {
                    if rr[j - 1] == (k, v) {
                    } else {
                        assert(has_pair(tail, rr[j - 1]));
                        let w = choose|w: int| 0 <= w < tail.len() && #[trigger] tail[w] == rr[j - 1];
                        assert(ps[w + 1] == r[j]);
                    }
                }
            }
        } else if ps[0].0 == k {
            assert(r == seq![(k, v)] + tail);
            assert(r.skip(1) =~= tail);
            assert(r[0] == (k, v));
            assert(forall|i: int| 0 <= i < tail.len() ==> #[trigger] r[i + 1] == tail[i]);
            assert forall|i: int, j: int| 0 <= i < j < r.len()
                implies lex_lt((#[trigger] r[i]).0, (#[trigger] r[j]).0) by {
                if i == 0 {
                    assert(r[j] == ps[j]);
                } else {
                    assert(r[i] == ps[i] && r[j] == ps[j]);
                }
            }
            lemma_map_of_head(r);
            assert(map_of(r) == map_of(tail).insert(k, v));
            assert(map_of(r) =~= map_of(ps).insert(k, v));
            assert forall|j: int| 0 <= j < r.len()
                implies (#[trigger] r[j]) == (k, v) || has_pair(ps, r[j]) by {
                if j > 0 {
                    assert(ps[j] == r[j]);
                }
            }
        } else {
            if !lex_lt(k, ps[0].0) {
                lemma_lex_lt_total(ps[0].0, k);
            }
            assert(lex_lt(k, ps[0].0));
            assert(r == seq![(k, v)] + ps);
            assert(r.skip(1) =~= ps);
            assert(r[0] == (k, v));
            assert(forall|i: int| 0 <= i < ps.len() ==> #[trigger] r[i + 1] == ps[i]);
            assert forall|i: int, j: int| 0 <= i < j < r.len()
                implies lex_lt((#[trigger] r[i]).0, (#[trigger] r[j]).0) by {
                if i == 0 {
                    if j > 0 {
                        if ps[j - 1].0 == ps[0].0 {
                        } else {
                            if j - 1 > 0 {
                                lemma_lex_lt_trans(k, ps[0].0, ps[j - 1].0);
                            }
                        }
                    }
                } else {
                    assert(r[i] == ps[i - 1] && r[j] == ps[j - 1]);
                }
            }
            lemma_map_of_head(r);
            assert(map_of(r) =~= map_of(ps).insert(k, v));
            assert forall|j: int| 0 <= j < r.len()
                implies (#[trigger] r[j]) == (k, v) || has_pair(ps, r[j]) by {
                if j > 0 {
                    assert(ps[j - 1] == r[j]);
                }
            }
        }
    }
}

/// Effect of `kvs_remove` on order, contents, and the denoted map.
pub proof fn lemma_kvs_remove(ps: Seq<(Seq<char>, Seq<char>)>, k: Seq<char>)
    requires
        sorted_keys(ps),
    ensures
        sorted_keys(kvs_remove(ps, k)),
        map_of(kvs_remove(ps, k)) == map_of(ps).remove(k),
        forall|j: int| 0 <= j < kvs_remove(ps, k).len()
            ==> has_pair(ps, #[trigger] kvs_remove(ps, k)[j]),
        wf_kvs(ps) ==> wf_kvs(kvs_remove(ps, k)),
    decreases ps.len(),
{
    let r = kvs_remove(ps, k);
    lemma_sorted_distinct(ps);
    lemma_map_of(ps);
    if ps.len() == 0 {
        assert(map_of(r) =~= map_of(ps).remove(k));
    } else {
        let tail = ps.skip(1);
        assert(forall|i: int| 0 <= i < tail.len() ==> #[trigger] tail[i] == ps[i + 1]);
        assert(sorted_keys(tail));
        lemma_map_of_head(ps);
        if ps[0].0 == k {
            assert(r == tail);
            assert(map_of(r) =~= map_of(ps).remove(k));
            assert forall|j: int| 0 <= j < r.len() implies has_pair(ps, r[j]) by {
                assert(ps[j + 1] == r[j]);
            }
        } else {
            lemma_kvs_remove(tail, k);
            let rr = kvs_remove(tail, k);
            assert(r == seq![ps[0]] + rr);
            assert(r.skip(1) =~= rr);
            assert(r[0] == ps[0]);
            assert(forall|i: int| 0 <= i < rr.len() ==> #[trigger] r[i + 1] == rr[i]);
            assert forall|i: int, j: int| 0 <= i < j < r.len()
                implies lex_lt((#[trigger] r[i]).0, (#[trigger] r[j]).0) by {
                if i == 0 {
                    assert(has_pair(tail, rr[j - 1]));
                    let w = choose|w: int| 0 <= w < tail.len() && #[trigger] tail[w] == rr[j - 1];
                    assert(ps[w + 1] == rr[j - 1]);
                } else {
                    assert(r[i] == rr[i - 1] && r[j] == rr[j - 1]);
                }
            }
            lemma_map_of_head(r);
            assert(map_of(r) == map_of(rr).insert(ps[0].0, ps[0].1));
            assert(map_of(rr) == map_of(tail).remove(k));
            assert(map_of(r) =~= map_of(ps).remove(k));
            assert forall|j: int| 0 <= j < r.len()
                implies has_pair(ps, r[j]) by {
                if j == 0 {
                    assert(ps[0] == r[0]);
                } else {
                    assert(has_pair(tail, rr[j - 1]));
                    let w = choose|w: int| 0 <= w < tail.len() && #[trigger] tail[w] == rr[j - 1];
                    assert(ps[w + 1] == r[j]);
                }
            }
        }
    }
}

/// A serialized sequence splits as first line, newline, rest.
pub proof fn lemma_serialize_front(ps: Seq<(Seq<char>, Seq<char>)>)
    requires
        ps.len() >= 1,
    ensures
        ps.len() == 1 ==> serialize_kvs(ps) == line_of(ps[0].0, ps[0].1),
        ps.len() > 1 ==> serialize_kvs(ps)
            == line_of(ps[0].0, ps[0].1) + seq!['\n'] + serialize_kvs(ps.skip(1)),
    decreases ps.len(),
{
    let a = line_of(ps[0].0, ps[0].1);
    let nl = seq!['\n'];
    if ps.len() == 2 {
        let dl = ps.drop_last();
        assert(dl.len() == 1);
        assert(dl[0] == ps[0]);
        assert(serialize_kvs(dl) == line_of(dl[0].0, dl[0].1));
        let s1 = ps.skip(1);
        assert(s1.len() == 1);
        assert(s1[0] == ps[1]);
        assert(serialize_kvs(s1) == line_of(ps[1].0, ps[1].1));
        assert(ps.last() == ps[1]);
        assert(serialize_kvs(ps) == a + nl + serialize_kvs(ps.skip(1)));
    } else if ps.len() > 2 {
        let dl = ps.drop_last();
        lemma_serialize_front(dl);
        assert(dl[0] == ps[0]);
        let x = serialize_kvs(dl.skip(1));
        assert(serialize_kvs(dl) == a + nl + x);
        let s1 = ps.skip(1);
        let ll = line_of(ps.last().0, ps.last().1);
        assert(s1.len() >= 2);
        assert(s1.drop_last() =~= dl.skip(1));
        assert(s1.last() == ps.last());
        assert(serialize_kvs(s1) == x + nl + ll);
        assert(serialize_kvs(ps) == serialize_kvs(dl) + nl + ll);
        assert((a + nl + x) + nl + ll =~= a + nl + (x + nl + ll));
    }
}

/// A well-formed pair's line parses back to exactly that pair.
pub proof fn lemma_parse_line_of(k: Seq<char>, v: Seq<char>)
    requires
        wf_key(k),
        wf_val(v),
    ensures
        parse_line(line_of(k, v)) == Some((k, v)),
        forall|i: int| 0 <= i < line_of(k, v).len() ==> #[trigger] line_of(k, v)[i] != '\n',
    decreases k.len(),
{
    let s = line_of(k, v);
    assert(s.len() == k.len() + 1 + v.len());
    assert(forall|i: int| 0 <= i < k.len() ==> #[trigger] s[i] == k[i]);
    assert(s[k.len() as int] == '=');
    assert(forall|i: int| k.len() + 1 <= i < s.len() ==> #[trigger] s[i] == v[i - k.len() - 1]);
    assert forall|i: int| 0 <= i < s.len() implies #[trigger] s[i] != '\n' by {
        if i < k.len() {
            assert(s[i] == k[i]);
        } else if i == k.len() {
        } else {
            assert(s[i] == v[i - k.len() - 1]);
        }
    }
    assert(!is_space('='));
    assert(s[0] != '#' && !is_space(s[0]));
    assert(!is_space(s[s.len() - 1]));
    lemma_trim_fixed(s);
    lemma_find_char_at(s, '=', k.len() as int);
    assert(s.subrange(0, k.len() as int) =~= k);
    assert(s.subrange(k.len() + 1 as int, s.len() as int) =~= v);
}

/// A line holding no newline yields a well-formed key and value, if any.
pub proof fn lemma_parse_line_wf(line: Seq<char>)
    requires
        forall|i: int| 0 <= i < line.len() ==> #[trigger] line[i] != '\n',
    ensures
        match parse_line(line) {
            Some(kv) => wf_key(kv.0) && wf_val(kv.1),
            None => true,
        },
{
    let ts = trim_start(line);
    let t = trim(line);
    lemma_trim_start_is_suffix(line);
    lemma_trim_end_is_prefix(ts);
    let d = line.len() - ts.len();
    assert(forall|i: int| 0 <= i < ts.len() ==> #[trigger] ts[i] == line[d + i]);
    assert(forall|i: int| 0 <= i < t.len() ==> #[trigger] t[i] == ts[i]);
    if t.len() > 0 && t[0] != '#' {
        let e = find_char(t, '=');
        lemma_find_char(t, '=');
        if e >= 0 {
            let k = t.subrange(0, e);
            let v = t.subrange(e + 1, t.len() as int);
            assert(forall|i: int| 0 <= i < k.len() ==> #[trigger] k[i] == t[i]);
            assert(forall|i: int| 0 <= i < v.len() ==> #[trigger] v[i] == t[e + 1 + i]);
            assert(t[0] == ts[0]);
            assert(wf_key(k));
            if v.len() > 0 {
                assert(v[v.len() - 1] == t[t.len() - 1]);
            }
            assert(wf_val(v));
        }
    }
}

/// Parsing a canonical serialization recovers exactly the mapping (for
/// every key-sorted, well-formed pair sequence).
pub proof fn lemma_serialize_parse_round_trip(ps: Seq<(Seq<char>, Seq<char>)>)
    requires
        sorted_keys(ps),
        wf_kvs(ps),
    ensures
        parse_text(serialize_kvs(ps)) == map_of(ps),
    decreases ps.len(),
{
    let s = serialize_kvs(ps);
    if ps.len() == 0 {
        lemma_find_char(s, '\n');
        assert(trim(s) =~= s);
        assert(parse_text(s) =~= map_of(ps));
    } else {
        let k0 = ps[0].0;
        let v0 = ps[0].1;
        let l0 = line_of(k0, v0);
        lemma_parse_line_of(k0, v0);
        lemma_serialize_front(ps);
        if ps.len() == 1 {
            assert(s == l0);
            lemma_find_char(s, '\n');
            if find_char(s, '\n') >= 0 {
                assert(s[find_char(s, '\n')] == '\n');
            }
            assert(find_char(s, '\n') < 0);
            assert(parse_text(s) == Map::<Seq<char>, Seq<char>>::empty().insert(k0, v0));
            lemma_map_of_head(ps);
            assert(ps.skip(1).len() == 0);
            assert(parse_text(s) =~= map_of(ps));
        } else {
            let tail = ps.skip(1);
            assert(forall|i: int| 0 <= i < tail.len() ==> #[trigger] tail[i] == ps[i + 1]);
            assert(sorted_keys(tail));
            assert(wf_kvs(tail));
            let rs = serialize_kvs(tail);
            assert(s == l0 + seq!['\n'] + rs);
            assert(s[l0.len() as int] == '\n');
            assert(forall|i: int| 0 <= i < l0.len() ==> #[trigger] s[i] == l0[i]);
            lemma_find_char_at(s, '\n', l0.len() as int);
            let n = l0.len() as int;
            assert(s.subrange(0, n) =~= l0);
            assert(s.subrange(n + 1, s.len() as int) =~= rs);
            lemma_serialize_parse_round_trip(tail);
            lemma_map_of_head(ps);
            assert(parse_text(s) == map_of(tail).insert(k0, v0));
            assert(parse_text(s) =~= map_of(ps));
        }
    }
}

/// Two key-sorted sequences denoting the same mapping are identical:
/// the canonical form is unique.
pub proof fn lemma_sorted_unique(ps1: Seq<(Seq<char>, Seq<char>)>, ps2: Seq<(Seq<char>, Seq<char>)>)
    requires
        sorted_keys(ps1),
        sorted_keys(ps2),
        map_of(ps1) == map_of(ps2),
    ensures
        ps1 == ps2,
    decreases ps1.len(),
{
    lemma_sorted_distinct(ps1);
    lemma_sorted_distinct(ps2);
    lemma_map_of(ps1);
    lemma_map_of(ps2);
    if ps1.len() == 0 {
        if ps2.len() > 0 {
            assert(map_of(ps2).dom().contains(ps2[0].0));
        }
        assert(ps1 =~= ps2);
    } else if ps2.len() == 0 {
        assert(map_of(ps1).dom().contains(ps1[0].0));
        assert(ps1 =~= ps2);
    } else {
        let k1 = ps1[0].0;
        let k2 = ps2[0].0;
        if k1 != k2 {
            assert(map_of(ps2).dom().contains(k1));
            let j = choose|j: int| 0 <= j < ps2.len() && (#[trigger] ps2[j]).0 == k1;
            assert(j > 0);
            assert(lex_lt(k2, k1));
            assert(map_of(ps1).dom().contains(k2));
            let i = choose|i: int| 0 <= i < ps1.len() && (#[trigger] ps1[i]).0 == k2;
            assert(i > 0);
            assert(lex_lt(k1, k2));
            lemma_lex_lt_trans(k1, k2, k1);
            lemma_lex_lt_ne(k1, k1);
        }
        assert(ps1[0].1 == map_of(ps1)[k1]);
        assert(ps2[0].1 == map_of(ps2)[k1]);
        lemma_map_of_head(ps1);
        lemma_map_of_head(ps2);
        let t1 = ps1.skip(1);
        let t2 = ps2.skip(1);
        assert(forall|i: int| 0 <= i < t1.len() ==> #[trigger] t1[i] == ps1[i + 1]);
        assert(forall|i: int| 0 <= i < t2.len() ==> #[trigger] t2[i] == ps2[i + 1]);
        assert(sorted_keys(t1));
        assert(sorted_keys(t2));
        assert(map_of(t1) == map_of(t2));
        lemma_sorted_unique(t1, t2);
        assert(ps1.len() == ps2.len());
        assert forall|i: int| 0 <= i < ps1.len() implies ps1[i] == ps2[i] by {
            if i == 0 {
                assert(ps1[0].0 == ps2[0].0);
                assert(ps1[0].1 == ps2[0].1);
                assert(ps1[0] =~= ps2[0]);
            } else {
                assert(ps1[i] == t1[i - 1]);
                assert(ps2[i] == t2[i - 1]);
            }
        }
        assert(ps1 =~= ps2);
    }
}

/// The pair sequence obtained by reading `text` line by line into `acc`,
/// later bindings of a key replacing earlier ones.
pub open spec fn parse_kvs_from(
    acc: Seq<(Seq<char>, Seq<char>)>,
    text: Seq<char>,
) -> Seq<(Seq<char>, Seq<char>)>
    decreases text.len(),
    via parse_kvs_from_dec
{
    let n = find_char(text, '\n');
    if n < 0 {
        match parse_line(text) {
            None => acc,
            Some(kv) => kvs_insert(acc, kv.0, kv.1),
        }
    } else {
        let acc2 = match parse_line(text.subrange(0, n)) {
            None => acc,
            Some(kv) => kvs_insert(acc, kv.0, kv.1),
        };
        parse_kvs_from(acc2, text.subrange(n + 1, text.len() as int))
    }
}

#[via_fn]
proof fn parse_kvs_from_dec(acc: Seq<(Seq<char>, Seq<char>)>, text: Seq<char>) {
    lemma_find_char(text, '\n');
}

/// The key-sorted pair sequence a note text parses to.
pub open spec fn parse_kvs(text: Seq<char>) -> Seq<(Seq<char>, Seq<char>)> {
    parse_kvs_from(Seq::empty(), text)
}

/// Folding lines into `acc` keeps order and well-formedness, and denotes
/// `acc` overridden by the text's own mapping.
pub proof fn lemma_parse_from(acc: Seq<(Seq<char>, Seq<char>)>, text: Seq<char>)
    requires
        sorted_keys(acc),
    ensures
        sorted_keys(parse_kvs_from(acc, text)),
        map_of(parse_kvs_from(acc, text)) == map_of(acc).union_prefer_right(parse_text(text)),
        wf_kvs(acc) ==> wf_kvs(parse_kvs_from(acc, text)),
    decreases text.len(),
{
    lemma_find_char(text, '\n');
    let n = find_char(text, '\n');
    if n < 0 {
        lemma_parse_line_wf(text);
        match parse_line(text) {
            None => {
                assert(map_of(acc).union_prefer_right(Map::empty()) =~= map_of(acc));
            },
            Some(kv) => {
                lemma_kvs_insert(acc, kv.0, kv.1);
                assert(map_of(acc).insert(kv.0, kv.1)
                    =~= map_of(acc).union_prefer_right(Map::empty().insert(kv.0, kv.1)));
            },
        }
    } else {
        let line = text.subrange(0, n);
        let rest = text.subrange(n + 1, text.len() as int);
        lemma_parse_line_wf(line);
        let rest_m = parse_text(rest);
        match parse_line(line) {
            None => {
                lemma_parse_from(acc, rest);
            },
            Some(kv) => {
                lemma_kvs_insert(acc, kv.0, kv.1);
                let acc2 = kvs_insert(acc, kv.0, kv.1);
                lemma_parse_from(acc2, rest);
                assert(map_of(parse_kvs_from(acc, text))
                    == map_of(acc).insert(kv.0, kv.1).union_prefer_right(rest_m));
                if rest_m.dom().contains(kv.0) {
                    assert(map_of(acc).insert(kv.0, kv.1).union_prefer_right(rest_m)
                        =~= map_of(acc).union_prefer_right(rest_m));
                } else {
                    assert(map_of(acc).insert(kv.0, kv.1).union_prefer_right(rest_m)
                        =~= map_of(acc).union_prefer_right(rest_m.insert(kv.0, kv.1)));
                }
            },
        }
    }
}

/// The parsed pair sequence is key-sorted, well-formed, and denotes
/// exactly the text's mapping.
pub proof fn lemma_parse_normal_form(text: Seq<char>)
    ensures
        sorted_keys(parse_kvs(text)),
        wf_kvs(parse_kvs(text)),
        map_of(parse_kvs(text)) == parse_text(text),
{
    let e = Seq::<(Seq<char>, Seq<char>)>::empty();
    lemma_parse_from(e, text);
    assert(map_of(e).union_prefer_right(parse_text(text)) =~= parse_text(text));
}

/// Normalizing is idempotent: parsing, serializing and parsing again
/// yields the same pairs -- and the same mapping -- as parsing once.
pub proof fn lemma_parse_idempotent(text: Seq<char>)
    ensures
        parse_kvs(serialize_kvs(parse_kvs(text))) == parse_kvs(text),
        parse_text(serialize_kvs(parse_kvs(text))) == parse_text(text),
{
    let ps = parse_kvs(text);
    lemma_parse_normal_form(text);
    lemma_serialize_parse_round_trip(ps);
    let s = serialize_kvs(ps);
    lemma_parse_normal_form(s);
    lemma_sorted_unique(parse_kvs(s), ps);
}

/// No comment or blank line ever contributes a key: every parsed key is
/// free of newlines and `=`, does not open with whitespace or `#`, and
/// every parsed value is newline-free without trailing whitespace.
pub proof fn lemma_parse_keys_wf(text: Seq<char>)
    ensures
        forall|k: Seq<char>| parse_text(text).dom().contains(k)
            ==> #[trigger] wf_key(k) && wf_val(parse_text(text)[k]),
{
    lemma_parse_normal_form(text);
    let ps = parse_kvs(text);
    lemma_sorted_distinct(ps);
    lemma_map_of(ps);
    assert forall|k: Seq<char>| parse_text(text).dom().contains(k)
        implies #[trigger] wf_key(k) && wf_val(parse_text(text)[k]) by {
        let i = choose|i: int| 0 <= i < ps.len() && (#[trigger] ps[i]).0 == k;
        assert(wf_key(ps[i].0) && wf_val(ps[i].1));
        assert(map_of(ps)[ps[i].0] == ps[i].1);
    }
}

/// Where `kvs_insert` lands, given the insertion point found by a scan.
pub proof fn lemma_kvs_insert_at(ps: Seq<(Seq<char>, Seq<char>)>, k: Seq<char>, v: Seq<char>, pos: int)
    requires
        sorted_keys(ps),
        0 <= pos <= ps.len(),
        forall|j: int| 0 <= j < pos ==> lex_lt((#[trigger] ps[j]).0, k),
        pos < ps.len() ==> !lex_lt(ps[pos].0, k),
    ensures
        kvs_insert(ps, k, v) == if pos < ps.len() && ps[pos].0 == k {
            ps.update(pos, (k, v))
        } else {
            ps.insert(pos, (k, v))
        },
    decreases pos,
{
    if pos == 0 {
        if ps.len() == 0 {
            assert(kvs_insert(ps, k, v) =~= ps.insert(0, (k, v)));
        } else if ps[0].0 == k {
            assert(kvs_insert(ps, k, v) == seq![(k, v)] + ps.skip(1));
            assert(seq![(k, v)] + ps.skip(1) =~= ps.update(0, (k, v)));
        } else {
            assert(kvs_insert(ps, k, v) == seq![(k, v)] + ps);
            assert(seq![(k, v)] + ps =~= ps.insert(0, (k, v)));
        }
    } else {
        assert(lex_lt(ps[0].0, k));
        let tail = ps.skip(1);
        assert(forall|i: int| 0 <= i < tail.len() ==> #[trigger] tail[i] == ps[i + 1]);
        assert(sorted_keys(tail));
        lemma_kvs_insert_at(tail, k, v, pos - 1);
        assert(kvs_insert(ps, k, v) == seq![ps[0]] + kvs_insert(tail, k, v));
        if pos < ps.len() && ps[pos].0 == k {
            assert(tail[pos - 1].0 == k);
            assert(seq![ps[0]] + tail.update(pos - 1, (k, v)) =~= ps.update(pos, (k, v)));
        } else {
            assert(seq![ps[0]] + tail.insert(pos - 1, (k, v)) =~= ps.insert(pos, (k, v)));
        }
    }
}

/// Where `kvs_remove` lands, given the match point found by a scan.
pub proof fn lemma_kvs_remove_at(ps: Seq<(Seq<char>, Seq<char>)>, k: Seq<char>, pos: int)
    requires
        0 <= pos <= ps.len(),
        forall|j: int| 0 <= j < pos ==> (#[trigger] ps[j]).0 != k,
        pos < ps.len() ==> ps[pos].0 == k,
    ensures
        kvs_remove(ps, k) == if pos < ps.len() {
            ps.remove(pos)
        } else {
            ps
        },
    decreases pos,
{
    if pos == 0 {
        if ps.len() > 0 {
            assert(ps.skip(1) =~= ps.remove(0));
        }
    } else {
        assert(ps[0].0 != k);
        let tail = ps.skip(1);
        assert(forall|i: int| 0 <= i < tail.len() ==> #[trigger] tail[i] == ps[i + 1]);
        lemma_kvs_remove_at(tail, k, pos - 1);
        assert(kvs_remove(ps, k) == seq![ps[0]] + kvs_remove(tail, k));
        if pos < ps.len() {
            assert(seq![ps[0]] + tail.remove(pos - 1) =~= ps.remove(pos));
        } else {
            assert(seq![ps[0]] + tail =~= ps);
        }
    }
}

/// An in-memory namespace mapping: key/value pairs kept in strictly
/// ascending key order, so that serialization is canonical by
/// construction.
pub struct EnvMap {
    pairs: Vec<(String, String)>,
}

impl View for EnvMap {
    type V = Map<Seq<char>, Seq<char>>;

    open spec fn view(&self) -> Map<Seq<char>, Seq<char>> {
        map_of(self.kvs())
    }
}

impl EnvMap {
    /// The stored pairs as character sequences, in storage order.
    pub closed spec fn kvs(&self) -> Seq<(Seq<char>, Seq<char>)> {
        self.pairs@.map(|i: int, p: (String, String)| (p.0@, p.1@))
    }

    /// Keys strictly ascending; every constructor establishes this.
    pub open spec fn wf(&self) -> bool {
        sorted_keys(self.kvs())
    }

    /// The empty mapping.
    pub fn new() -> (r: EnvMap)
        ensures
            r.kvs() == Seq::<(Seq<char>, Seq<char>)>::empty(),
            r.wf(),
            r@ == Map::<Seq<char>, Seq<char>>::empty(),
    {
        let r = EnvMap { pairs: Vec::new() };
        proof {
            assert(r.kvs() =~= Seq::<(Seq<char>, Seq<char>)>::empty());
        }
        r
    }

    /// How many pairs the mapping holds.
    pub fn len(&self) -> (n: usize)
        ensures
            n == self.kvs().len(),
    {
        self.pairs.len()
    }

    /// Whether the mapping holds no pair at all.
    pub fn is_empty(&self) -> (r: bool)
        ensures
            r == (self.kvs().len() == 0),
            self.wf() ==> r == (self@ == Map::<Seq<char>, Seq<char>>::empty()),
    {
        proof {
            if self.wf() && self.kvs().len() > 0 {
                lemma_sorted_distinct(self.kvs());
                lemma_map_of(self.kvs());
                assert(self@.dom().contains(self.kvs()[0].0));
            }
        }
        self.pairs.len() == 0
    }

    /// Look the key up; `Some` exactly when the mapping contains it.
    pub fn get(&self, key: &str) -> (r: Option<&String>)
        requires
            self.wf(),
        ensures
            match r {
                Some(v) => self@.dom().contains(key@) && v@ == self@[key@],
                None => !self@.dom().contains(key@),
            },
    {
        proof {
            lemma_sorted_distinct(self.kvs());
            lemma_map_of(self.kvs());
        }
        let n = self.pairs.len();
        let mut i: usize = 0;
        while i < n
            invariant
                i <= n,
                n == self.pairs.len(),
                self.kvs().len() == n,
                self.wf(),
                forall|j: int| 0 <= j < i ==> (#[trigger] self.kvs()[j]).0 != key@,
            decreases n - i,
        {
            proof {
                assert(self.kvs()[i as int] == (self.pairs@[i as int].0@, self.pairs@[i as int].1@));
            }
            if str_eq(self.pairs[i].0.as_str(), key) {
                proof {
                    lemma_sorted_distinct(self.kvs());
                    lemma_map_of(self.kvs());
                    assert(self.kvs()[i as int].0 == key@);
                }
                return Some(&self.pairs[i].1);
            }
            i = i + 1;
        }
        proof {
            if self@.dom().contains(key@) {
                let w = choose|w: int| 0 <= w < self.kvs().len() && (#[trigger] self.kvs()[w]).0 == key@;
            }
        }
        None
    }

    /// Whether the mapping contains the key.
    pub fn contains_key(&self, key: &str) -> (r: bool)
        requires
            self.wf(),
        ensures
            r == self@.dom().contains(key@),
    {
        self.get(key).is_some()
    }

    /// Insert or replace a binding, keeping keys sorted.
    pub fn insert(&mut self, key: String, value: String)
        requires
            old(self).wf(),
        ensures
            final(self).kvs() == kvs_insert(old(self).kvs(), key@, value@),
            final(self).wf(),
            final(self)@ == old(self)@.insert(key@, value@),
    {
        proof {
            lemma_kvs_insert(old(self).kvs(), key@, value@);
        }
        let ghost ops = old(self).kvs();
        let n = self.pairs.len();
        proof {
            assert(ops.len() == old(self).pairs@.len());
        }
        let mut i: usize = 0;
        loop
            invariant_except_break
                i <= n,
                n == self.pairs.len(),
                ops == old(self).kvs(),
                ops.len() == n,
                *self == *old(self),
                forall|j: int| 0 <= j < i ==> lex_lt((#[trigger] ops[j]).0, key@),
            ensures
                i <= n,
                n == self.pairs.len(),
                ops == old(self).kvs(),
                ops.len() == n,
                *self == *old(self),
                forall|j: int| 0 <= j < i ==> lex_lt((#[trigger] ops[j]).0, key@),
                i == n || !lex_lt(ops[i as int].0, key@),
            decreases n - i,
        {
            if i == n {
                break;
            }
            proof {
                assert(ops[i as int] == (self.pairs@[i as int].0@, self.pairs@[i as int].1@));
            }
            if !str_lt(self.pairs[i].0.as_str(), key.as_str()) {
                break;
            }
            i = i + 1;
        }
        let ghost pos = i as int;
        let mut replace = false;
        if i < n {
            proof {
                assert(ops[pos] == (self.pairs@[pos].0@, self.pairs@[pos].1@));
            }
            if str_eq(self.pairs[i].0.as_str(), key.as_str()) {
                replace = true;
            }
        }
        if replace {
            let _prior = self.pairs.remove(i);
            self.pairs.insert(i, (key, value));
            proof {
                assert(self.pairs@ =~= old(self).pairs@.update(pos, self.pairs@[pos]));
                assert(self.kvs() =~= ops.update(pos, (key@, value@)));
                lemma_kvs_insert_at(ops, key@, value@, pos);
            }
        } else {
            self.pairs.insert(i, (key, value));
            proof {
                assert(self.kvs() =~= ops.insert(pos, (key@, value@)));
                lemma_kvs_insert_at(ops, key@, value@, pos);
            }
        }
    }

    /// Drop the binding for `key`; reports whether it was present.
    pub fn remove_key(&mut self, key: &str) -> (r: bool)
        requires
            old(self).wf(),
        ensures
            final(self).kvs() == kvs_remove(old(self).kvs(), key@),
            final(self).wf(),
            final(self)@ == old(self)@.remove(key@),
            r == old(self)@.dom().contains(key@),
    {
        proof {
            lemma_kvs_remove(old(self).kvs(), key@);
            lemma_sorted_distinct(old(self).kvs());
            lemma_map_of(old(self).kvs());
        }
        let ghost ops = old(self).kvs();
        let n = self.pairs.len();
        proof {
            assert(ops.len() == old(self).pairs@.len());
        }
        let mut i: usize = 0;
        loop
            invariant_except_break
                i <= n,
                n == self.pairs.len(),
                ops == old(self).kvs(),
                ops.len() == n,
                *self == *old(self),
                forall|j: int| 0 <= j < i ==> (#[trigger] ops[j]).0 != key@,
            ensures
                i <= n,
                n == self.pairs.len(),
                ops == old(self).kvs(),
                ops.len() == n,
                *self == *old(self),
                forall|j: int| 0 <= j < i ==> (#[trigger] ops[j]).0 != key@,
                i == n || ops[i as int].0 == key@,
            decreases n - i,
        {
            if i == n {
                break;
            }
            proof {
                assert(ops[i as int] == (self.pairs@[i as int].0@, self.pairs@[i as int].1@));
            }
            if str_eq(self.pairs[i].0.as_str(), key) {
                break;
            }
            i = i + 1;
        }
        let ghost pos = i as int;
        proof {
            lemma_kvs_remove_at(ops, key@, pos);
        }
        if i < n {
            let _removed = self.pairs.remove(i);
            proof {
                assert(self.kvs() =~= ops.remove(pos));
            }
            true
        } else {
            proof {
                if old(self)@.dom().contains(key@) {
                    let w = choose|w: int| 0 <= w < ops.len() && (#[trigger] ops[w]).0 == key@;
                }
                assert(old(self)@.remove(key@) =~= old(self)@);
            }
            false
        }
    }

    /// The pairs in ascending key order, for callers that walk them.
    pub fn entries(&self) -> (r: &Vec<(String, String)>)
        ensures
            r@.len() == self.kvs().len(),
            forall|i: int| 0 <= i < r@.len()
                ==> ((#[trigger] r@[i]).0@, r@[i].1@) == self.kvs()[i],
    {
        &self.pairs
    }
}

/// Index of the next `'\n'` at or after `from`, or the text's length.
fn find_newline(s: &str, from: usize) -> (q: usize)
    requires
        from <= s@.len(),
    ensures
        from <= q <= s@.len(),
        forall|j: int| from <= j < q ==> s@[j] != '\n',
        q < s@.len() ==> s@[q as int] == '\n',
{
    let len = s.unicode_len();
    let mut q = from;
    while q < len
        invariant
            from <= q <= len,
            len == s@.len(),
            forall|j: int| from <= j < q ==> s@[j] != '\n',
        decreases len - q,
    {
        if s.get_char(q) == '\n' {
            return q;
        }
        q = q + 1;
    }
    q
}

/// Parse one line, given as the range `[from, to)` of `s`.
fn parse_line_range(s: &str, from: usize, to: usize) -> (r: Option<(String, String)>)
    requires
        from <= to <= s@.len(),
    ensures
        match r {
            Some(kv) => parse_line(s@.subrange(from as int, to as int)) == Some((kv.0@, kv.1@)),
            None => parse_line(s@.subrange(from as int, to as int)) is None,
        },
{
    let ghost line = s@.subrange(from as int, to as int);
    let mut a = from;
    while a < to && space_char(s.get_char(a))
        invariant
            from <= a <= to,
            to <= s@.len(),
            forall|j: int| from <= j < a ==> is_space(s@[j]),
        decreases to - a,
    {
        a = a + 1;
    }
    let mut b = to;
    while b > a && space_char(s.get_char(b - 1))
        invariant
            a <= b <= to,
            to <= s@.len(),
            forall|j: int| b <= j < to ==> is_space(s@[j]),
        decreases b,
    {
        b = b - 1;
    }
    let ghost t = trim(line);
    proof {
        assert(forall|j: int| 0 <= j < line.len() ==> #[trigger] line[j] == s@[from + j]);
        lemma_trim_start_range(line, a as int - from as int);
        assert(trim_start(line) =~= s@.subrange(a as int, to as int));
        let mid = s@.subrange(a as int, to as int);
        assert(forall|j: int| 0 <= j < mid.len() ==> #[trigger] mid[j] == s@[a + j]);
        lemma_trim_end_range(mid, b as int - a as int);
        assert(t =~= s@.subrange(a as int, b as int));
        assert(forall|j: int| 0 <= j < t.len() ==> #[trigger] t[j] == s@[a + j]);
    }
    if a == b {
        return None;
    }
    if s.get_char(a) == '#' {
        proof {
            assert(t[0] == '#');
        }
        return None;
    }
    let mut e = a;
    while e < b && s.get_char(e) != '='
        invariant
            a <= e <= b,
            b <= s@.len(),
            forall|j: int| a <= j < e ==> s@[j] != '=',
        decreases b - e,
    {
        e = e + 1;
    }
    proof {
        lemma_find_char(t, '=');
    }
    if e == b {
        proof {
            if find_char(t, '=') >= 0 {
                assert(t[find_char(t, '=')] == '=');
            }
        }
        return None;
    }
    let key = s.substring_char(a, e).to_owned();
    let val = s.substring_char(e + 1, b).to_owned();
    proof {
        assert(t[e - a] == '=');
        lemma_find_char_at(t, '=', e as int - a as int);
        assert(key@ =~= t.subrange(0, e as int - a as int));
        assert(val@ =~= t.subrange(e as int - a as int + 1, t.len() as int));
    }
    Some((key, val))
}

/// Parse note text into its mapping: lines split on `'\n'`, trimmed;
/// blank lines, comments and `=`-free lines are skipped; the rest bind
/// the key before the first `=` to what follows it, later lines
/// overriding earlier ones.  Never fails.
pub fn parse(notes: &str) -> (r: EnvMap)
    ensures
        r.kvs() == parse_kvs(notes@),
        r.wf(),
        r@ == parse_text(notes@),
{
    let len = notes.unicode_len();
    let mut m = EnvMap::new();
    let mut p: usize = 0;
    proof {
        assert(notes@.skip(0) =~= notes@);
    }
    loop
        invariant_except_break
            p <= len,
            len == notes@.len(),
            m.wf(),
            parse_kvs_from(m.kvs(), notes@.skip(p as int)) == parse_kvs(notes@),
        ensures
            m.wf(),
            m.kvs() == parse_kvs(notes@),
        decreases len - p,
    {
        let q = find_newline(notes, p);
        let ghost text_rest = notes@.skip(p as int);
        proof {
            assert(forall|j: int| 0 <= j < text_rest.len()
                ==> #[trigger] text_rest[j] == notes@[p + j]);
            lemma_find_char(text_rest, '\n');
            if q < len {
                lemma_find_char_at(text_rest, '\n', q as int - p as int);
            } else {
                if find_char(text_rest, '\n') >= 0 {
                    assert(text_rest[find_char(text_rest, '\n')] == '\n');
                }
            }
        }
        let ghost n = find_char(text_rest, '\n');
        let ghost acc0 = m.kvs();
        match parse_line_range(notes, p, q) {
            Some(kv) => {
                let (k, v) = kv;
                m.insert(k, v);
            },
            None => {},
        }
        proof {
            if q < len {
                assert(text_rest.subrange(0, n) =~= notes@.subrange(p as int, q as int));
                assert(text_rest.subrange(n + 1, text_rest.len() as int)
                    =~= notes@.skip(q as int + 1));
            } else {
                assert(text_rest =~= notes@.subrange(p as int, q as int));
            }
        }
        if q == len {
            break;
        }
        p = q + 1;
    }
    proof {
        lemma_parse_normal_form(notes@);
    }
    m
}

/// Serialize the mapping: `key=value` per pair, ascending keys, joined
/// by single newlines, no trailing newline; the empty mapping gives the
/// empty string.  Parsing the result recovers the mapping exactly.
pub fn serialize(m: &EnvMap) -> (r: String)
    requires
        m.wf(),
    ensures
        r@ == serialize_kvs(m.kvs()),
        wf_kvs(m.kvs()) ==> parse_text(r@) == m@,
{
    let mut out = String::new();
    let n = m.pairs.len();
    proof {
        assert(m.kvs().len() == m.pairs@.len());
    }
    let mut i: usize = 0;
    while i < n
        invariant
            i <= n,
            n == m.pairs.len(),
            m.kvs().len() == n,
            m.wf(),
            out@ == serialize_kvs(m.kvs().take(i as int)),
        decreases n - i,
    {
        proof {
            reveal_strlit("\n");
            reveal_strlit("=");
        }
        if i > 0 {
            out.append("\n");
        }
        out.append(m.pairs[i].0.as_str());
        out.append("=");
        out.append(m.pairs[i].1.as_str());
        proof {
            assert("="@ =~= seq!['=']);
            assert("\n"@ =~= seq!['\n']);
            let ps = m.kvs();
            assert(ps[i as int] == (m.pairs@[i as int].0@, m.pairs@[i as int].1@));
            let t1 = ps.take(i as int + 1);
            assert(t1.drop_last() =~= ps.take(i as int));
            assert(t1.last() == ps[i as int]);
            if i == 0 {
                assert(t1.len() == 1);
                assert(t1[0] == ps[0]);
                assert(serialize_kvs(t1) == line_of(t1[0].0, t1[0].1));
                assert(out@ =~= line_of(ps[0].0, ps[0].1));
            } else {
                assert(serialize_kvs(t1) == serialize_kvs(ps.take(i as int)) + seq!['\n']
                    + line_of(ps[i as int].0, ps[i as int].1));
                assert(out@ =~= serialize_kvs(t1));
            }
        }
        i = i + 1;
    }
    proof {
        assert(m.kvs().take(n as int) =~= m.kvs());
        if wf_kvs(m.kvs()) {
            lemma_serialize_parse_round_trip(m.kvs());
        }
    }
    out
}

/// Upsert one key in existing note text: parse, bind `key` to `value`,
/// re-serialize canonically.  The result always parses to the old
/// mapping with `key` bound to `value`, provided the pair is one the
/// encoding can carry.
pub fn update(existing: &str, key: &str, value: &str) -> (r: String)
    ensures
        r@ == serialize_kvs(kvs_insert(parse_kvs(existing@), key@, value@)),
        wf_key(key@) && wf_val(value@)
            ==> parse_text(r@) == parse_text(existing@).insert(key@, value@),
{
    let mut m = parse(existing);
    m.insert(key.to_owned(), value.to_owned());
    let out = serialize(&m);
    proof {
        lemma_parse_normal_form(existing@);
        lemma_kvs_insert(parse_kvs(existing@), key@, value@);
        if wf_key(key@) && wf_val(value@) {
            lemma_serialize_parse_round_trip(kvs_insert(parse_kvs(existing@), key@, value@));
        }
    }
    out
}

/// Remove one key from existing note text.  `None` exactly when the key
/// is absent; otherwise the returned text parses to the old mapping
/// without `key`.
pub fn remove(existing: &str, key: &str) -> (r: Option<String>)
    ensures
        match r {
            Some(out) => parse_text(existing@).dom().contains(key@)
                && out@ == serialize_kvs(kvs_remove(parse_kvs(existing@), key@))
                && parse_text(out@) == parse_text(existing@).remove(key@),
            None => !parse_text(existing@).dom().contains(key@),
        },
{
    let mut m = parse(existing);
    let present = m.remove_key(key);
    if !present {
        return None;
    }
    let out = serialize(&m);
    proof {
        lemma_parse_normal_form(existing@);
        lemma_kvs_remove(parse_kvs(existing@), key@);
        lemma_serialize_parse_round_trip(kvs_remove(parse_kvs(existing@), key@));
    }
    Some(out)
}

/// The pair sequences behind every text this module emits are in
/// strictly ascending key order: what `serialize` writes for a parsed
/// mapping, an upsert, or a removal is key-sorted.
pub proof fn lemma_emitted_keys_ascending(text: Seq<char>, k: Seq<char>, v: Seq<char>)
    ensures
        sorted_keys(parse_kvs(text)),
        sorted_keys(kvs_insert(parse_kvs(text), k, v)),
        sorted_keys(kvs_remove(parse_kvs(text), k)),
{
    lemma_parse_normal_form(text);
    lemma_kvs_insert(parse_kvs(text), k, v);
    lemma_kvs_remove(parse_kvs(text), k);
}

/// Upserting the same pair twice yields the same text as once: the
/// first upsert leaves canonical text whose parse already binds the
/// pair, so the second changes nothing.
pub proof fn lemma_update_idempotent(text: Seq<char>, k: Seq<char>, v: Seq<char>)
    requires
        wf_key(k),
        wf_val(v),
    ensures
        serialize_kvs(kvs_insert(parse_kvs(serialize_kvs(kvs_insert(parse_kvs(text), k, v))), k, v))
            == serialize_kvs(kvs_insert(parse_kvs(text), k, v)),
{
    lemma_parse_normal_form(text);
    lemma_kvs_insert(parse_kvs(text), k, v);
    let ps = kvs_insert(parse_kvs(text), k, v);
    let s = serialize_kvs(ps);
    lemma_serialize_parse_round_trip(ps);
    lemma_parse_normal_form(s);
    lemma_sorted_unique(parse_kvs(s), ps);
    lemma_kvs_insert(ps, k, v);
    lemma_sorted_distinct(ps);
    lemma_map_of(ps);
    assert(map_of(ps).dom().contains(k) && map_of(ps)[k] == v) by {
        assert(map_of(ps) == map_of(parse_kvs(text)).insert(k, v));
    }
    assert(map_of(ps).insert(k, v) =~= map_of(ps));
    lemma_sorted_unique(kvs_insert(ps, k, v), ps);
}

} // verus!
