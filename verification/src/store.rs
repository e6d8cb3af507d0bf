//! Assignment store: the aggregation engine's loader groups parsed
//! assignment triples `(x, y, region_id)` into a mapping from region id to
//! the region's cell list, keyed in strict byte-lexicographic order, so that
//! the grouping does not depend on the order of the lines in the file.

use vstd::prelude::*;

verus! {

/// Strict byte-lexicographic order.
pub open spec fn lex_lt(a: Seq<u8>, b: Seq<u8>) -> bool
    decreases a.len(),
{
    if b.len() == 0 {
        false
    } else if a.len() == 0 {
        true
    } else if a[0] < b[0] {
        true
    } else if a[0] > b[0] {
        false
    } else {
        lex_lt(a.drop_first(), b.drop_first())
    }
}

/// Nothing is lexicographically below itself.
pub proof fn lemma_lex_irrefl(a: Seq<u8>)
    ensures
        !lex_lt(a, a),
    decreases a.len(),
{
    if a.len() > 0 {
        lemma_lex_irrefl(a.drop_first());
    }
}

/// Two byte strings in neither order are equal.
pub proof fn lemma_lex_trichotomy(a: Seq<u8>, b: Seq<u8>)
    requires
        !lex_lt(a, b),
        !lex_lt(b, a),
    ensures
        a == b,
    decreases a.len(),
{
    if a.len() > 0 && b.len() > 0 {
        lemma_lex_trichotomy(a.drop_first(), b.drop_first());
        assert(a =~= seq![a[0]] + a.drop_first());
        assert(b =~= seq![b[0]] + b.drop_first());
    } else {
        assert(a =~= b);
    }
}

/// The lexicographic order is transitive.
pub proof fn lemma_lex_trans(a: Seq<u8>, b: Seq<u8>, c: Seq<u8>)
    requires
        lex_lt(a, b),
        lex_lt(b, c),
    ensures
        lex_lt(a, c),
    decreases a.len(),
{
    if a.len() > 0 && b.len() > 0 && c.len() > 0 && a[0] == b[0] && b[0] == c[0] {
        lemma_lex_trans(a.drop_first(), b.drop_first(), c.drop_first());
    }
}

/// Compares two byte strings for equality.
pub fn bytes_eq(a: &Vec<u8>, b: &Vec<u8>) -> (r: bool)
    ensures
        r == (a@ == b@),
{
    if a.len() != b.len() {
        return false;
    }
    let mut i: usize = 0;
    while i < a.len()
        invariant
            a@.len() == b@.len(),
            i <= a@.len(),
            forall|k: int| 0 <= k < i ==> a@[k] == b@[k],
        decreases a@.len() - i,
    {
        if a[i] != b[i] {
            return false;
        }
        i = i + 1;
    }
    proof {
        assert(a@ =~= b@);
    }
    true
}

/// Decides the strict byte-lexicographic order.
pub fn bytes_lt(a: &Vec<u8>, b: &Vec<u8>) -> (r: bool)
    ensures
        r == lex_lt(a@, b@),
{
    let mut i: usize = 0;
    proof {
        assert(a@.skip(0) =~= a@);
        assert(b@.skip(0) =~= b@);
    }
    while i < a.len() && i < b.len()
        invariant
            i <= a@.len(),
            i <= b@.len(),
            lex_lt(a@, b@) == lex_lt(a@.skip(i as int), b@.skip(i as int)),
        decreases a@.len() - i,
    {
        let x = a[i];
        let y = b[i];
        proof {
            assert(a@.skip(i as int)[0] == a@[i as int]);
            assert(b@.skip(i as int)[0] == b@[i as int]);
            assert(a@.skip(i as int).drop_first() =~= a@.skip(i + 1));
            assert(b@.skip(i as int).drop_first() =~= b@.skip(i + 1));
        }
        if x < y {
            return true;
        }
        if x > y {
            return false;
        }
        i = i + 1;
    }
    proof {
        assert(a@.skip(i as int).len() == a@.len() - i);
        assert(b@.skip(i as int).len() == b@.len() - i);
    }
    a.len() < b.len()
}

/// The cells recorded for one region id, in the order the triples arrived.
pub open spec fn cells_for(ts: Seq<(usize, usize, Vec<u8>)>, id: Seq<u8>) -> Seq<(usize, usize)>
    decreases ts.len(),
{
    if ts.len() == 0 {
        Seq::empty()
    } else {
        let prev = cells_for(ts.drop_last(), id);
        let t = ts[ts.len() - 1];
        if t.2@ == id {
            prev.push((t.0, t.1))
        } else {
            prev
        }
    }
}

/// Some triple carries this region id.
pub open spec fn has_id(ts: Seq<(usize, usize, Vec<u8>)>, id: Seq<u8>) -> bool {
    exists|i: int| 0 <= i < ts.len() && (#[trigger] ts[i]).2@ == id
}

/// Appending one triple extends exactly its own region's cell list.
proof fn lemma_cells_for_push(ts: Seq<(usize, usize, Vec<u8>)>, t: (usize, usize, Vec<u8>), id: Seq<u8>)
    ensures
        cells_for(ts.push(t), id) == if t.2@ == id {
            cells_for(ts, id).push((t.0, t.1))
        } else {
            cells_for(ts, id)
        },
{
    assert(ts.push(t).drop_last() =~= ts);
    assert(ts.push(t)[ts.push(t).len() - 1] == t);
}

/// A region id that no triple carries has no cells.
proof fn lemma_cells_for_absent(ts: Seq<(usize, usize, Vec<u8>)>, id: Seq<u8>)
    requires
        !has_id(ts, id),
    ensures
        cells_for(ts, id) == Seq::<(usize, usize)>::empty(),
    decreases ts.len(),
{
    if ts.len() > 0 {
        assert(!has_id(ts.drop_last(), id)) by {
            if has_id(ts.drop_last(), id) {
                let i = choose|i: int|
                    0 <= i < ts.drop_last().len() && (#[trigger] ts.drop_last()[i]).2@ == id;
                assert(ts[i].2@ == id);
            }
        }
        lemma_cells_for_absent(ts.drop_last(), id);
        assert(ts[ts.len() - 1].2@ != id);
    }
}

/// A cell stands in a region's list exactly when some triple recorded it
/// for that region.
pub proof fn lemma_cells_for_contains(
    ts: Seq<(usize, usize, Vec<u8>)>,
    id: Seq<u8>,
    c: (usize, usize),
)
    ensures
        cells_for(ts, id).contains(c) <==> exists|i: int|
            0 <= i < ts.len() && (#[trigger] ts[i]).2@ == id && ts[i].0 == c.0 && ts[i].1 == c.1,
    decreases ts.len(),
{
    if ts.len() > 0 {
        lemma_cells_for_contains(ts.drop_last(), id, c);
        let t = ts[ts.len() - 1];
        let prev = cells_for(ts.drop_last(), id);
        if t.2@ == id {
            assert(cells_for(ts, id) == prev.push((t.0, t.1)));
            if cells_for(ts, id).contains(c) {
                let k = choose|k: int|
                    0 <= k < cells_for(ts, id).len() && cells_for(ts, id)[k] == c;
                if k < prev.len() {
                    assert(prev[k] == c);
                    let i = choose|i: int|
                        0 <= i < ts.drop_last().len() && (#[trigger] ts.drop_last()[i]).2@ == id
                            && ts.drop_last()[i].0 == c.0 && ts.drop_last()[i].1 == c.1;
                    assert(ts[i] == ts.drop_last()[i]);
                } else {
                    assert(c == (t.0, t.1));
                    assert(ts[ts.len() - 1].2@ == id);
                }
            }
            if exists|i: int|
                0 <= i < ts.len() && (#[trigger] ts[i]).2@ == id && ts[i].0 == c.0 && ts[i].1
                    == c.1 {
                let i = choose|i: int|
                    0 <= i < ts.len() && (#[trigger] ts[i]).2@ == id && ts[i].0 == c.0 && ts[i].1
                        == c.1;
                if i < ts.len() - 1 {
                    assert(ts.drop_last()[i] == ts[i]);
                    assert(prev.contains(c));
                    let k = choose|k: int| 0 <= k < prev.len() && prev[k] == c;
                    assert(cells_for(ts, id)[k] == c);
                } else {
                    assert(c.0 == t.0 && c.1 == t.1);
                    assert(c == (t.0, t.1));
                    assert(cells_for(ts, id)[prev.len() as int] == c);
                }
            }
        } else {
            assert(cells_for(ts, id) == prev);
            if exists|i: int|
                0 <= i < ts.len() && (#[trigger] ts[i]).2@ == id && ts[i].0 == c.0 && ts[i].1
                    == c.1 {
                let i = choose|i: int|
                    0 <= i < ts.len() && (#[trigger] ts[i]).2@ == id && ts[i].0 == c.0 && ts[i].1
                        == c.1;
                assert(i < ts.len() - 1);
                assert(ts.drop_last()[i] == ts[i]);
            }
            if prev.contains(c) {
                let i = choose|i: int|
                    0 <= i < ts.drop_last().len() && (#[trigger] ts.drop_last()[i]).2@ == id
                        && ts.drop_last()[i].0 == c.0 && ts.drop_last()[i].1 == c.1;
                assert(ts[i] == ts.drop_last()[i]);
            }
        }
    }
}


/// Store keys are strictly ascending in byte-lexicographic order.
pub open spec fn keys_sorted(m: Seq<(Vec<u8>, Vec<(usize, usize)>)>) -> bool {
    forall|a: int, b: int|
        #![trigger m[a], m[b]]
        0 <= a < b < m.len() ==> lex_lt(m[a].0@, m[b].0@)
}

/// The store is exactly the grouping of the triples: sorted unique keys,
/// one key per region id that occurs, and per key the cells of its triples
/// in arrival order.
pub open spec fn store_models(
    m: Seq<(Vec<u8>, Vec<(usize, usize)>)>,
    ts: Seq<(usize, usize, Vec<u8>)>,
) -> bool {
    &&& keys_sorted(m)
    &&& forall|k: int| 0 <= k < m.len() ==> has_id(ts, (#[trigger] m[k]).0@)
    &&& forall|k: int| 0 <= k < m.len() ==> (#[trigger] m[k]).1@ == cells_for(ts, m[k].0@)
    &&& forall|id: Seq<u8>|
        #[trigger] has_id(ts, id) ==> exists|k: int|
            0 <= k < m.len() && (#[trigger] m[k]).0@ == id
}

/// One more triple of a region already in the store extends exactly that
/// region's cell list.
proof fn lemma_store_update(
    old_m: Seq<(Vec<u8>, Vec<(usize, usize)>)>,
    new_m: Seq<(Vec<u8>, Vec<(usize, usize)>)>,
    prefix: Seq<(usize, usize, Vec<u8>)>,
    t: (usize, usize, Vec<u8>),
    pos: int,
)
    requires
        store_models(old_m, prefix),
        0 <= pos < old_m.len(),
        old_m[pos].0@ == t.2@,
        new_m.len() == old_m.len(),
        new_m[pos].0@ == old_m[pos].0@,
        new_m[pos].1@ == old_m[pos].1@.push((t.0, t.1)),
        forall|j: int| 0 <= j < new_m.len() && j != pos ==> new_m[j] == old_m[j],
    ensures
        store_models(new_m, prefix.push(t)),
{
    let ts2 = prefix.push(t);
    assert forall|a: int, b: int|
        #![trigger new_m[a], new_m[b]]
        0 <= a < b < new_m.len() implies lex_lt(new_m[a].0@, new_m[b].0@) by {
        assert(new_m[a].0@ == old_m[a].0@);
        assert(new_m[b].0@ == old_m[b].0@);
    }
    assert forall|k: int| 0 <= k < old_m.len() && k != pos
        implies old_m[k].0@ != t.2@ by {
        if old_m[k].0@ == t.2@ {
            if k < pos {
                assert(lex_lt(old_m[k].0@, old_m[pos].0@));
            } else {
                assert(lex_lt(old_m[pos].0@, old_m[k].0@));
            }
            lemma_lex_irrefl(t.2@);
        }
    }
    assert(prefix.len() < ts2.len() && ts2[prefix.len() as int].2@ == t.2@);
    assert forall|k: int| 0 <= k < new_m.len() implies has_id(ts2, (#[trigger] new_m[k]).0@) by {
        if k != pos {
            let i = choose|i: int|
                0 <= i < prefix.len() && (#[trigger] prefix[i]).2@ == old_m[k].0@;
            assert(ts2[i].2@ == new_m[k].0@);
        }
    }
    assert forall|k: int| 0 <= k < new_m.len() implies (#[trigger] new_m[k]).1@ == cells_for(
        ts2,
        new_m[k].0@,
    ) by {
        lemma_cells_for_push(prefix, t, new_m[k].0@);
    }
    assert forall|id: Seq<u8>| #[trigger] has_id(ts2, id) implies exists|k: int|
        0 <= k < new_m.len() && (#[trigger] new_m[k]).0@ == id by {
        let i = choose|i: int| 0 <= i < ts2.len() && (#[trigger] ts2[i]).2@ == id;
        if i < prefix.len() {
            assert(prefix[i].2@ == id);
            assert(has_id(prefix, id));
            let k = choose|k: int| 0 <= k < old_m.len() && (#[trigger] old_m[k]).0@ == id;
            assert(new_m[k].0@ == id);
        } else {
            assert(new_m[pos].0@ == id);
        }
    }
}

/// The first triple of a new region inserts its key at the sorted position.
proof fn lemma_store_insert(
    old_m: Seq<(Vec<u8>, Vec<(usize, usize)>)>,
    new_m: Seq<(Vec<u8>, Vec<(usize, usize)>)>,
    prefix: Seq<(usize, usize, Vec<u8>)>,
    t: (usize, usize, Vec<u8>),
    pos: int,
)
    requires
        store_models(old_m, prefix),
        0 <= pos <= old_m.len(),
        forall|a: int| 0 <= a < pos ==> lex_lt((#[trigger] old_m[a]).0@, t.2@),
        pos < old_m.len() ==> lex_lt(t.2@, old_m[pos].0@),
        new_m.len() == old_m.len() + 1,
        new_m[pos].0@ == t.2@,
        new_m[pos].1@ == seq![(t.0, t.1)],
        forall|j: int| 0 <= j < pos ==> new_m[j] == old_m[j],
        forall|j: int| pos < j < new_m.len() ==> new_m[j] == old_m[j - 1],
    ensures
        store_models(new_m, prefix.push(t)),
{
    let ts2 = prefix.push(t);
    assert forall|k: int| 0 <= k < old_m.len() implies (#[trigger] old_m[k]).0@ != t.2@ by {
        if old_m[k].0@ == t.2@ {
            if k < pos {
                lemma_lex_irrefl(t.2@);
            } else {
                if k > pos {
                    assert(lex_lt(old_m[pos as int].0@, old_m[k].0@));
                    lemma_lex_trans(t.2@, old_m[pos as int].0@, old_m[k].0@);
                }
                lemma_lex_irrefl(t.2@);
            }
        }
    }
    assert(!has_id(prefix, t.2@)) by {
        if has_id(prefix, t.2@) {
            let k = choose|k: int| 0 <= k < old_m.len() && (#[trigger] old_m[k]).0@ == t.2@;
        }
    }
    lemma_cells_for_absent(prefix, t.2@);
    assert forall|a: int, b: int|
        #![trigger new_m[a], new_m[b]]
        0 <= a < b < new_m.len() implies lex_lt(new_m[a].0@, new_m[b].0@) by {
        if a < pos && b == pos {
            assert(new_m[a] == old_m[a]);
        } else if a == pos && b > pos {
            assert(new_m[b] == old_m[b - 1]);
            assert(lex_lt(t.2@, old_m[pos as int].0@));
            if b - 1 > pos {
                assert(lex_lt(old_m[pos as int].0@, old_m[b - 1].0@));
                lemma_lex_trans(t.2@, old_m[pos as int].0@, old_m[b - 1].0@);
            }
        } else if a < pos && b > pos {
            assert(new_m[a] == old_m[a]);
            assert(new_m[b] == old_m[b - 1]);
            if b - 1 == a {
            } else {
                assert(lex_lt(old_m[a].0@, old_m[b - 1].0@));
            }
        } else if a != pos && b != pos {
            let pa = if a < pos { a } else { a - 1 };
            let pb = if b < pos { b } else { b - 1 };
            assert(new_m[a] == old_m[pa]);
            assert(new_m[b] == old_m[pb]);
        }
    }
    assert(prefix.len() < ts2.len() && ts2[prefix.len() as int].2@ == t.2@);
    assert forall|k: int| 0 <= k < new_m.len() implies has_id(ts2, (#[trigger] new_m[k]).0@) by {
        if k != pos {
            let pk = if k < pos { k } else { k - 1 };
            assert(new_m[k] == old_m[pk]);
            let i = choose|i: int|
                0 <= i < prefix.len() && (#[trigger] prefix[i]).2@ == old_m[pk].0@;
            assert(ts2[i].2@ == new_m[k].0@);
        }
    }
    assert forall|k: int| 0 <= k < new_m.len() implies (#[trigger] new_m[k]).1@ == cells_for(
        ts2,
        new_m[k].0@,
    ) by {
        lemma_cells_for_push(prefix, t, new_m[k].0@);
        if k != pos {
            let pk = if k < pos { k } else { k - 1 };
            assert(new_m[k] == old_m[pk]);
            assert(old_m[pk].1@ == cells_for(prefix, old_m[pk].0@));
        } else {
            assert(cells_for(ts2, t.2@) =~= Seq::<(usize, usize)>::empty().push((t.0, t.1)));
            assert(new_m[pos].1@ =~= cells_for(ts2, t.2@));
        }
    }
    assert forall|id: Seq<u8>| #[trigger] has_id(ts2, id) implies exists|k: int|
        0 <= k < new_m.len() && (#[trigger] new_m[k]).0@ == id by {
        let i = choose|i: int| 0 <= i < ts2.len() && (#[trigger] ts2[i]).2@ == id;
        if i < prefix.len() {
            assert(prefix[i].2@ == id);
            assert(has_id(prefix, id));
            let k = choose|k: int| 0 <= k < old_m.len() && (#[trigger] old_m[k]).0@ == id;
            let nk = if k < pos { k } else { k + 1 };
            assert(new_m[nk].0@ == id);
        } else {
            assert(new_m[pos].0@ == id);
        }
    }
}

/// Copies a region id.
fn bytes_copy(v: &Vec<u8>) -> (r: Vec<u8>)
    ensures
        r@ == v@,
{
    let mut r: Vec<u8> = Vec::new();
    let mut i: usize = 0;
    while i < v.len()
        invariant
            i <= v@.len(),
            r@ == v@.subrange(0, i as int),
        decreases v@.len() - i,
    {
        r.push(v[i]);
        proof {
            assert(v@.subrange(0, i + 1) =~= v@.subrange(0, i as int).push(v@[i as int]));
        }
        i = i + 1;
    }
    proof {
        assert(v@.subrange(0, v@.len() as int) =~= v@);
    }
    r
}

/// Groups parsed assignment triples by region id, keys in strict
/// byte-lexicographic order, each region's cells in arrival order: the
/// loader of the aggregation engine.
pub fn load_assignments(triples: &Vec<(usize, usize, Vec<u8>)>) -> (m: Vec<
    (Vec<u8>, Vec<(usize, usize)>),
>)
    ensures
        store_models(m@, triples@),
{
    let mut m: Vec<(Vec<u8>, Vec<(usize, usize)>)> = Vec::new();
    let mut i: usize = 0;
    proof {
        assert(triples@.subrange(0, 0) =~= Seq::empty());
    }
    while i < triples.len()
        invariant
            i <= triples@.len(),
            store_models(m@, triples@.subrange(0, i as int)),
        decreases triples@.len() - i,
    {
        let ghost prefix = triples@.subrange(0, i as int);
        let ghost t = triples@[i as int];
        let x = triples[i].0;
        let y = triples[i].1;
        let mut pos: usize = 0;
        while pos < m.len() && bytes_lt(&m[pos].0, &triples[i].2)
            invariant
                i < triples@.len(),
                t == triples@[i as int],
                prefix == triples@.subrange(0, i as int),
                store_models(m@, prefix),
                pos <= m@.len(),
                forall|a: int| 0 <= a < pos ==> lex_lt((#[trigger] m@[a]).0@, t.2@),
            decreases m@.len() - pos,
        {
            pos = pos + 1;
        }
        proof {
            assert(triples@.subrange(0, i + 1) =~= prefix.push(t));
        }
        let ghost m_pre = m@;
        if pos < m.len() && bytes_eq(&m[pos].0, &triples[i].2) {
            let (key, mut cells) = m.remove(pos);
            cells.push((x, y));
            m.insert(pos, (key, cells));
            proof {
                m_pre.remove_ensures(pos as int);
                m_pre.remove(pos as int).insert_ensures(pos as int, m@[pos as int]);
                assert(m@ == m_pre.remove(pos as int).insert(pos as int, m@[pos as int]));
                assert forall|j: int| 0 <= j < m@.len() && j != pos implies m@[j] == m_pre[j] by {
                    if j < pos {
                        assert(m@[j] == m_pre.remove(pos as int)[j]);
                    } else {
                        assert(m@[j] == m_pre.remove(pos as int)[j - 1]);
                    }
                }
                lemma_store_update(m_pre, m@, prefix, t, pos as int);
            }
        } else {
            let mut cells: Vec<(usize, usize)> = Vec::new();
            cells.push((x, y));
            let key = bytes_copy(&triples[i].2);
            m.insert(pos, (key, cells));
            proof {
                m_pre.insert_ensures(pos as int, m@[pos as int]);
                if (pos as int) < m_pre.len() {
                    assert(!lex_lt(m_pre[pos as int].0@, t.2@));
                    assert(m_pre[pos as int].0@ != t.2@);
                    if !lex_lt(t.2@, m_pre[pos as int].0@) {
                        lemma_lex_trichotomy(m_pre[pos as int].0@, t.2@);
                    }
                    assert(lex_lt(t.2@, m_pre[pos as int].0@));
                }
                assert(m@ == m_pre.insert(pos as int, m@[pos as int]));
                lemma_store_insert(m_pre, m@, prefix, t, pos as int);
            }
        }
        i = i + 1;
    }
    proof {
        assert(triples@.subrange(0, triples@.len() as int) =~= triples@);
    }
    m
}

/// Loading any reordering of the same assignment lines groups the same
/// regions with the same cells: the grouping depends only on which triples
/// occur, never on the order of the lines in the file.
pub proof fn lemma_grouping_order_independent(
    a: Seq<(usize, usize, Vec<u8>)>,
    b: Seq<(usize, usize, Vec<u8>)>,
    id: Seq<u8>,
)
    requires
        a.to_multiset() == b.to_multiset(),
    ensures
        has_id(a, id) <==> has_id(b, id),
        forall|c: (usize, usize)|
            cells_for(a, id).contains(c) <==> cells_for(b, id).contains(c),
{
    a.to_multiset_ensures();
    b.to_multiset_ensures();
    assert(has_id(a, id) ==> has_id(b, id)) by {
        if has_id(a, id) {
            let i = choose|i: int| 0 <= i < a.len() && (#[trigger] a[i]).2@ == id;
            let v = a[i];
            assert(a.contains(v));
            assert(a.to_multiset().count(v) > 0);
            assert(b.to_multiset().count(v) > 0);
            assert(b.contains(v));
            let j = choose|j: int| 0 <= j < b.len() && b[j] == v;
            assert((#[trigger] b[j]).2@ == id);
        }
    }
    assert(has_id(b, id) ==> has_id(a, id)) by {
        if has_id(b, id) {
            let i = choose|i: int| 0 <= i < b.len() && (#[trigger] b[i]).2@ == id;
            let v = b[i];
            assert(b.contains(v));
            assert(b.to_multiset().count(v) > 0);
            assert(a.to_multiset().count(v) > 0);
            assert(a.contains(v));
            let j = choose|j: int| 0 <= j < a.len() && a[j] == v;
            assert((#[trigger] a[j]).2@ == id);
        }
    }
    assert forall|c: (usize, usize)|
        cells_for(a, id).contains(c) <==> cells_for(b, id).contains(c) by {
        lemma_cells_for_contains(a, id, c);
        lemma_cells_for_contains(b, id, c);
        if cells_for(a, id).contains(c) {
            let i = choose|i: int|
                0 <= i < a.len() && (#[trigger] a[i]).2@ == id && a[i].0 == c.0 && a[i].1 == c.1;
            let v = a[i];
            assert(a.contains(v));
            assert(a.to_multiset().count(v) > 0);
            assert(b.to_multiset().count(v) > 0);
            assert(b.contains(v));
            let j = choose|j: int| 0 <= j < b.len() && b[j] == v;
            assert((#[trigger] b[j]).2@ == id && b[j].0 == c.0 && b[j].1 == c.1);
        }
        if cells_for(b, id).contains(c) {
            let i = choose|i: int|
                0 <= i < b.len() && (#[trigger] b[i]).2@ == id && b[i].0 == c.0 && b[i].1 == c.1;
            let v = b[i];
            assert(b.contains(v));
            assert(b.to_multiset().count(v) > 0);
            assert(a.to_multiset().count(v) > 0);
            assert(a.contains(v));
            let j = choose|j: int| 0 <= j < a.len() && a[j] == v;
            assert((#[trigger] a[j]).2@ == id && a[j].0 == c.0 && a[j].1 == c.1);
        }
    }
}

} // verus!
