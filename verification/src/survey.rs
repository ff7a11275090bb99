//! The figures a world summary reports: how many objects of each prefab,
//! which prefabs the name table cannot name, the most common prefabs, and
//! how the chunks of a chunked world are sized.

use vstd::prelude::*;
use vstd::hash_map::HashMapWithView;
use crate::chunk_files::zdo_models;
use crate::chunked::ChunkIndex;
use crate::chunked_db::{objects_in, Chunk};
use crate::names::{display_of, NameTable};
use crate::zdo::{has_key_in, property_list, property_total, table_props, PropKind, PropTable, TableValue, ValueView, Zdo, ZdoModel};
use crate::clean::{removed_label, KeyCount, Removed};
use crate::wire::Wire;
use crate::primitives::{ByteArray, CsString, Quat, Vec3};

verus! {

broadcast use vstd::std_specs::hash::group_hash_axioms;

/// How many of `ms` have prefab `h`.
pub open spec fn prefab_count(ms: Seq<ZdoModel>, h: i32) -> nat
    decreases ms.len(),
{
    if ms.len() == 0 {
        0
    } else {
        prefab_count(ms.drop_last(), h) + if ms.last().prefab == h {
            1nat
        } else {
            0nat
        }
    }
}

/// The distinct prefabs of `ms`, in the order they first occur.
pub open spec fn prefabs_seen(ms: Seq<ZdoModel>) -> Seq<i32>
    decreases ms.len(),
{
    if ms.len() == 0 {
        seq![]
    } else {
        let s = prefabs_seen(ms.drop_last());
        if s.contains(ms.last().prefab) {
            s
        } else {
            s.push(ms.last().prefab)
        }
    }
}

/// How many of `ms` are persistent.
pub open spec fn persistent_count(ms: Seq<ZdoModel>) -> nat
    decreases ms.len(),
{
    if ms.len() == 0 {
        0
    } else {
        persistent_count(ms.drop_last()) + if ms.last().persistent {
            1nat
        } else {
            0nat
        }
    }
}

/// How many properties `ms` hold together.
pub open spec fn property_sum(ms: Seq<ZdoModel>) -> nat
    decreases ms.len(),
{
    if ms.len() == 0 {
        0
    } else {
        property_sum(ms.drop_last()) + property_total(ms.last())
    }
}

/// How many of `hs` the table `names` has no name for.
pub open spec fn unnamed_count(hs: Seq<i32>, names: Map<i32, Seq<char>>) -> nat
    decreases hs.len(),
{
    if hs.len() == 0 {
        0
    } else {
        unnamed_count(hs.drop_last(), names) + if names.contains_key(hs.last()) {
            0nat
        } else {
            1nat
        }
    }
}

proof fn lemma_property_sum_prefix(ms: Seq<ZdoModel>, i: int)
    requires
        0 <= i <= ms.len(),
    ensures
        property_sum(ms.take(i)) <= property_sum(ms),
    decreases ms.len() - i,
{
    if i < ms.len() {
        lemma_property_sum_prefix(ms, i + 1);
        assert(ms.take(i + 1).drop_last() =~= ms.take(i));
    } else {
        assert(ms.take(i) =~= ms);
    }
}

proof fn lemma_seen_distinct(ms: Seq<ZdoModel>)
    ensures
        prefabs_seen(ms).no_duplicates(),
        forall|h: i32| prefabs_seen(ms).contains(h) <==> prefab_count(ms, h) > 0,
    decreases ms.len(),
{
    if ms.len() > 0 {
        lemma_seen_distinct(ms.drop_last());
        let s = prefabs_seen(ms.drop_last());
        if !s.contains(ms.last().prefab) {
            assert forall|a: int, b: int| 0 <= a < b < s.push(ms.last().prefab).len() implies s.push(
                ms.last().prefab,
            )[a] != s.push(ms.last().prefab)[b] by {
                if b == s.len() {
                    assert(s.contains(s[a]));
                }
            }
        }
        assert forall|h: i32| prefabs_seen(ms).contains(h) <==> prefab_count(ms, h) > 0 by {
            if h != ms.last().prefab && prefabs_seen(ms).contains(h) && !s.contains(ms.last().prefab) {
                let k = choose|k: int| 0 <= k < prefabs_seen(ms).len() && prefabs_seen(ms)[k] == h;
                assert(k < s.len());
                assert(s.contains(h));
            }
            if h != ms.last().prefab && s.contains(h) && !s.contains(ms.last().prefab) {
                let k = choose|k: int| 0 <= k < s.len() && s[k] == h;
                assert(prefabs_seen(ms)[k] == h);
            }
            if h == ms.last().prefab && !s.contains(h) {
                assert(prefabs_seen(ms)[s.len() as int] == h);
            }
        }
    }
}

/// One prefab's line in a summary: its shown name, how many objects have
/// it, and its hash.
pub struct PrefabTally {
    pub name: String,
    pub count: usize,
    pub prefab: i32,
}

/// A tally as plain values.
pub open spec fn tally_view(t: PrefabTally) -> (Seq<char>, nat, i32) {
    (t.name@, t.count as nat, t.prefab)
}

/// Every prefab of `ms` with its name and count, in the order prefabs first
/// occur.
pub open spec fn tallies(ms: Seq<ZdoModel>, names: Map<i32, Seq<char>>) -> Seq<(Seq<char>, nat, i32)> {
    prefabs_seen(ms).map_values(|h: i32| (display_of(names, h), prefab_count(ms, h), h))
}

/// The counting part of a summary.
pub struct ObjectCounts {
    pub objects: usize,
    pub persistent: usize,
    pub properties: u64,
    /// Each prefab once, in the order prefabs first occur, with its count.
    pub prefabs: Vec<(i32, usize)>,
}

/// Count the objects of `objs`: in all, persistent, their properties, and
/// per prefab.
pub fn count_objects(objs: &Vec<Zdo>) -> (c: ObjectCounts)
    requires
        property_sum(zdo_models(objs@)) <= u64::MAX,
    ensures
        c.objects == objs@.len(),
        c.persistent == persistent_count(zdo_models(objs@)),
        c.properties == property_sum(zdo_models(objs@)),
        c.prefabs@.len() == prefabs_seen(zdo_models(objs@)).len(),
        forall|j: int|
            0 <= j < c.prefabs@.len() ==> (#[trigger] c.prefabs@[j]).0 == prefabs_seen(zdo_models(objs@))[j]
                && c.prefabs@[j].1 == prefab_count(zdo_models(objs@), c.prefabs@[j].0),
{
    let ghost ms = zdo_models(objs@);
    let mut index: HashMapWithView<i32, usize> = HashMapWithView::new();
    let mut prefabs: Vec<(i32, usize)> = Vec::new();
    let mut persistent: usize = 0;
    let mut properties: u64 = 0;
    let mut i: usize = 0;
    while i < objs.len()
        invariant
            i <= objs@.len(),
            ms == zdo_models(objs@),
            property_sum(ms) <= u64::MAX,
            persistent == persistent_count(ms.take(i as int)),
            persistent <= i,
            properties == property_sum(ms.take(i as int)),
            prefabs@.len() == prefabs_seen(ms.take(i as int)).len(),
            forall|j: int|
                0 <= j < prefabs@.len() ==> (#[trigger] prefabs@[j]).0 == prefabs_seen(ms.take(i as int))[j]
                    && prefabs@[j].1 == prefab_count(ms.take(i as int), prefabs@[j].0)
                    && prefabs@[j].1 <= i,
            forall|h: i32|
                #[trigger] index@.contains_key(h) <==> prefabs_seen(ms.take(i as int)).contains(h),
            forall|h: i32|
                #[trigger] index@.contains_key(h) ==> index@[h] < prefabs@.len() && prefabs@[index@[h] as int].0
                    == h,
        decreases objs@.len() - i,
    {
        let ghost before = ms.take(i as int);
        let ghost after = ms.take(i + 1);
        assert(after.drop_last() =~= before);
        assert(after.last() == objs@[i as int].model());
        proof {
            lemma_property_sum_prefix(ms, i + 1);
            lemma_seen_distinct(before);
        }
        let z = &objs[i];
        if z.persistent {
            persistent = persistent + 1;
        }
        let n = z.floats.entries.len() as u64 + z.vec3s.entries.len() as u64 + z.quats.entries.len() as u64
            + z.ints.entries.len() as u64 + z.longs.entries.len() as u64 + z.strings.entries.len() as u64
            + z.byte_arrays.entries.len() as u64;
        assert(n == property_total(after.last()));
        properties = properties + n;
        let p = z.prefab;
        let ghost s0 = prefabs_seen(before);
        let ghost v0 = prefabs@;
        match index.get(&p) {
            Some(k) => {
                let k = *k;
                let (h, c) = prefabs[k];
                prefabs.set(k, (h, c + 1));
                proof {
                    assert(prefabs_seen(after) == s0);
                    assert forall|j: int| 0 <= j < prefabs@.len() implies (#[trigger] prefabs@[j]).0
                        == prefabs_seen(after)[j] && prefabs@[j].1 == prefab_count(after, prefabs@[j].0)
                        && prefabs@[j].1 <= i + 1 by {
                        if j != k {
                            assert(prefabs@[j] == v0[j]);
                            assert(v0[j].0 != p) by {
                                assert(s0.no_duplicates());
                            }
                        }
                    }
                }
            },
            None => {
                let k = prefabs.len();
                prefabs.push((p, 1));
                index.insert(p, k);
                proof {
                    assert(!s0.contains(p));
                    assert(prefabs_seen(after) == s0.push(p));
                    assert(prefab_count(before, p) == 0);
                    assert forall|j: int| 0 <= j < prefabs@.len() implies (#[trigger] prefabs@[j]).0
                        == prefabs_seen(after)[j] && prefabs@[j].1 == prefab_count(after, prefabs@[j].0)
                        && prefabs@[j].1 <= i + 1 by {
                        if j < k {
                            assert(prefabs@[j] == v0[j]);
                            assert(s0.contains(v0[j].0));
                        }
                    }
                    assert forall|h: i32| #[trigger] index@.contains_key(h) implies index@[h] < prefabs@.len()
                        && prefabs@[index@[h] as int].0 == h by {
                        if h != p {
                            assert(prefabs@[index@[h] as int] == v0[index@[h] as int]);
                        }
                    }
                    assert forall|h: i32| #[trigger] index@.contains_key(h) <==> prefabs_seen(after).contains(h) by {
                        if h == p {
                            assert(prefabs_seen(after)[s0.len() as int] == p);
                        } else if prefabs_seen(after).contains(h) {
                            let q = choose|q: int| 0 <= q < prefabs_seen(after).len() && prefabs_seen(after)[q] == h;
                            assert(q < s0.len());
                            assert(s0.contains(h));
                        } else if s0.contains(h) {
                            let q = choose|q: int| 0 <= q < s0.len() && s0[q] == h;
                            assert(prefabs_seen(after)[q] == h);
                        }
                    }
                }
            },
        }
        i = i + 1;
    }
    assert(ms.take(objs@.len() as int) =~= ms);
    ObjectCounts { objects: objs.len(), persistent, properties, prefabs }
}


// ---------------------------------------------------------------- ranking

/// Whether `a` sorts before `b`, character by character (the order of
/// `str`'s comparison: by code point, a prefix first).
pub open spec fn text_before(a: Seq<char>, b: Seq<char>) -> bool
    decreases a.len(),
{
    if a.len() == 0 {
        b.len() > 0
    } else if b.len() == 0 {
        false
    } else if a[0] != b[0] {
        (a[0] as u32) < (b[0] as u32)
    } else {
        text_before(a.drop_first(), b.drop_first())
    }
}

pub(crate) proof fn lemma_text_irreflexive(a: Seq<char>)
    ensures
        !text_before(a, a),
    decreases a.len(),
{
    if a.len() > 0 {
        lemma_text_irreflexive(a.drop_first());
    }
}

proof fn lemma_code_injective(c: char, d: char)
    ensures
        c != d ==> (c as u32) != (d as u32),
{
    assert((c as u32) as int == c as int);
    assert((d as u32) as int == d as int);
}

pub(crate) proof fn lemma_text_total(a: Seq<char>, b: Seq<char>)
    ensures
        a != b ==> text_before(a, b) || text_before(b, a),
        !(text_before(a, b) && text_before(b, a)),
    decreases a.len(),
{
    if a.len() > 0 && b.len() > 0 {
        lemma_text_total(a.drop_first(), b.drop_first());
        lemma_code_injective(a[0], b[0]);
        if a[0] == b[0] && a != b {
            assert(a.drop_first() != b.drop_first()) by {
                if a.drop_first() == b.drop_first() {
                    assert(a =~= seq![a[0]] + a.drop_first());
                    assert(b =~= seq![b[0]] + b.drop_first());
                }
            }
        }
    } else if a.len() == 0 && b.len() == 0 {
        assert(a =~= b);
    }
}

pub(crate) proof fn lemma_text_transitive(a: Seq<char>, b: Seq<char>, c: Seq<char>)
    requires
        text_before(a, b),
        text_before(b, c),
    ensures
        text_before(a, c),
    decreases a.len(),
{
    if a.len() > 0 && b.len() > 0 && c.len() > 0 && a[0] == b[0] && b[0] == c[0] {
        lemma_text_transitive(a.drop_first(), b.drop_first(), c.drop_first());
    }
}

/// The order of a summary's prefab list: more objects first, then by name,
/// then by hash.
pub open spec fn ranks_above(a: (Seq<char>, nat, i32), b: (Seq<char>, nat, i32)) -> bool {
    a.1 > b.1 || (a.1 == b.1 && (text_before(a.0, b.0) || (a.0 == b.0 && a.2 < b.2)))
}

proof fn lemma_ranks_order(a: (Seq<char>, nat, i32), b: (Seq<char>, nat, i32), c: (Seq<char>, nat, i32))
    ensures
        !ranks_above(a, a),
        a.2 != b.2 ==> ranks_above(a, b) || ranks_above(b, a),
        !(ranks_above(a, b) && ranks_above(b, a)),
        ranks_above(a, b) && ranks_above(b, c) ==> ranks_above(a, c),
{
    lemma_text_irreflexive(a.0);
    lemma_text_total(a.0, b.0);
    if ranks_above(a, b) && ranks_above(b, c) && a.1 == b.1 && b.1 == c.1 {
        if text_before(a.0, b.0) && text_before(b.0, c.0) {
            lemma_text_transitive(a.0, b.0, c.0);
        }
    }
}

/// `r` is the first `k` of `es` in the order of `ranks_above`: strictly
/// ordered, drawn from `es`, and ranking above every entry of `es` it
/// leaves out.
pub open spec fn top_of(r: Seq<(Seq<char>, nat, i32)>, es: Seq<(Seq<char>, nat, i32)>, k: nat) -> bool {
    &&& r.len() == if k < es.len() {
        k
    } else {
        es.len()
    }
    &&& forall|a: int, b: int| 0 <= a < b < r.len() ==> ranks_above(#[trigger] r[a], #[trigger] r[b])
    &&& forall|a: int| 0 <= a < r.len() ==> es.contains(#[trigger] r[a])
    &&& forall|e: (Seq<char>, nat, i32), a: int|
        #![trigger es.contains(e), r[a]]
        es.contains(e) && !r.contains(e) && 0 <= a < r.len() ==> ranks_above(r[a], e)
}

/// How `a` compares with `b` character by character: below zero when `a`
/// sorts first, above zero when `b` does, zero when they are equal.
pub(crate) fn text_order(a: &Vec<char>, b: &Vec<char>) -> (r: i8)
    ensures
        (r < 0) == text_before(a@, b@),
        (r > 0) == text_before(b@, a@),
        (r == 0) == (a@ == b@),
{
    proof {
        lemma_text_total(a@, b@);
        lemma_text_irreflexive(a@);
    }
    let mut i: usize = 0;
    assert(a@.skip(0) =~= a@);
    assert(b@.skip(0) =~= b@);
    while i < a.len() && i < b.len()
        invariant
            i <= a@.len(),
            i <= b@.len(),
            a@.take(i as int) == b@.take(i as int),
            text_before(a@, b@) == text_before(a@.skip(i as int), b@.skip(i as int)),
            text_before(b@, a@) == text_before(b@.skip(i as int), a@.skip(i as int)),
        decreases a@.len() - i,
    {
        if a[i] != b[i] {
            assert(a@.skip(i as int)[0] == a@[i as int]);
            assert(b@.skip(i as int)[0] == b@[i as int]);
            assert(a@ != b@) by {
                if a@ == b@ {
                    assert(a@[i as int] == b@[i as int]);
                }
            }
            if (a[i] as u32) < (b[i] as u32) {
                return -1;
            } else {
                proof {
                    lemma_code_injective(a@[i as int], b@[i as int]);
                }
                return 1;
            }
        }
        assert(a@.skip(i as int).drop_first() =~= a@.skip(i + 1));
        assert(b@.skip(i as int).drop_first() =~= b@.skip(i + 1));
        assert(a@.take(i + 1) =~= a@.take(i as int).push(a@[i as int]));
        assert(b@.take(i + 1) =~= b@.take(i as int).push(b@[i as int]));
        i = i + 1;
    }
    if i < b.len() {
        assert(a@.skip(i as int).len() == 0);
        assert(a@ != b@) by {
            assert(a@.len() < b@.len());
        }
        return -1;
    }
    if i < a.len() {
        assert(b@.skip(i as int).len() == 0);
        assert(a@ != b@) by {
            assert(b@.len() < a@.len());
        }
        return 1;
    }
    assert(a@ =~= a@.take(i as int));
    assert(b@ =~= b@.take(i as int));
    0
}

/// Whether `x` ranks above `y`, as the executable comparison.
fn ranks_above_exec(x: &PrefabTally, y: &PrefabTally) -> (r: bool)
    ensures
        r == ranks_above(tally_view(*x), tally_view(*y)),
{
    if x.count != y.count {
        return x.count > y.count;
    }
    let a = crate::text::chars_of(x.name.as_str());
    let b = crate::text::chars_of(y.name.as_str());
    let mut i: usize = 0;
    assert(a@.skip(0) =~= a@);
    assert(b@.skip(0) =~= b@);
    while i < a.len() && i < b.len()
        invariant
            a@ == x.name@,
            b@ == y.name@,
            x.count == y.count,
            i <= a@.len(),
            i <= b@.len(),
            a@.take(i as int) == b@.take(i as int),
            text_before(a@, b@) == text_before(a@.skip(i as int), b@.skip(i as int)),
        decreases a@.len() - i,
    {
        if a[i] != b[i] {
            assert(a@.skip(i as int)[0] == a@[i as int]);
            assert(b@.skip(i as int)[0] == b@[i as int]);
            assert(a@.skip(i as int).len() > 0 && b@.skip(i as int).len() > 0);
            assert(text_before(a@.skip(i as int), b@.skip(i as int)) == ((a@[i as int] as u32) < (
            b@[i as int] as u32)));
            assert(a@ != b@) by {
                if a@ == b@ {
                    assert(a@[i as int] == b@[i as int]);
                }
            }
            let r = (a[i] as u32) < (b[i] as u32);
            return r;
        }
        assert(a@.skip(i as int).drop_first() =~= a@.skip(i + 1));
        assert(b@.skip(i as int).drop_first() =~= b@.skip(i + 1));
        assert(a@.take(i + 1) =~= a@.take(i as int).push(a@[i as int]));
        assert(b@.take(i + 1) =~= b@.take(i as int).push(b@[i as int]));
        i = i + 1;
    }
    if i < b.len() {
        assert(a@.skip(i as int).len() == 0);
        assert(b@.skip(i as int).len() > 0);
        return true;
    }
    if i < a.len() {
        assert(b@.skip(i as int).len() == 0);
        return false;
    }
    assert(a@ =~= a@.take(i as int));
    assert(b@ =~= b@.take(i as int));
    proof {
        lemma_text_irreflexive(a@);
    }
    x.prefab < y.prefab
}


/// The plain values of a list of tallies.
pub open spec fn tally_views(s: Seq<PrefabTally>) -> Seq<(Seq<char>, nat, i32)> {
    s.map_values(|t: PrefabTally| tally_view(t))
}

/// Each `(prefab, count)` with the name `names` shows for it.
pub open spec fn named_counts(cs: Seq<(i32, usize)>, names: Map<i32, Seq<char>>) -> Seq<(Seq<char>, nat, i32)> {
    cs.map_values(|p: (i32, usize)| (display_of(names, p.0), p.1 as nat, p.0))
}

/// Whether a list is strictly ordered by `ranks_above`.
pub open spec fn ranked_strictly(r: Seq<(Seq<char>, nat, i32)>) -> bool {
    forall|a: int, b: int| 0 <= a < b < r.len() ==> ranks_above(#[trigger] r[a], #[trigger] r[b])
}

/// Every tally of `counts`, named by `names`, in the order of
/// `ranks_above`.
fn ranked(counts: &Vec<(i32, usize)>, names: &NameTable) -> (out: Vec<PrefabTally>)
    requires
        forall|a: int, b: int| 0 <= a < b < counts@.len() ==> (#[trigger] counts@[a]).0 != (#[trigger] counts@[b]).0,
    ensures
        tally_views(out@).len() == counts@.len(),
        ranked_strictly(tally_views(out@)),
        forall|a: int| 0 <= a < out@.len() ==> named_counts(counts@, names@).contains(#[trigger] tally_views(out@)[a]),
        forall|q: int| 0 <= q < counts@.len() ==> tally_views(out@).contains(#[trigger] named_counts(counts@, names@)[q]),
{
    let ghost es = named_counts(counts@, names@);
    let mut out: Vec<PrefabTally> = Vec::new();
    let mut j: usize = 0;
    while j < counts.len()
        invariant
            j <= counts@.len(),
            es == named_counts(counts@, names@),
            forall|a: int, b: int| 0 <= a < b < counts@.len() ==> (#[trigger] counts@[a]).0 != (#[trigger] counts@[b]).0,
            out@.len() == j,
            ranked_strictly(tally_views(out@)),
            forall|a: int| 0 <= a < out@.len() ==> es.take(j as int).contains(#[trigger] tally_views(out@)[a]),
            forall|q: int| 0 <= q < j ==> tally_views(out@).contains(#[trigger] es[q]),
        decreases counts@.len() - j,
    {
        let (h, c) = counts[j];
        let e = PrefabTally { name: names.display(h), count: c, prefab: h };
        let ghost ev = tally_view(e);
        assert(ev == es[j as int]);
        let ghost old_v = tally_views(out@);
        proof {
            assert forall|a: int| 0 <= a < old_v.len() implies (#[trigger] old_v[a]).2 != ev.2 by {
                assert(es.take(j as int).contains(old_v[a]));
                let q = choose|q: int| 0 <= q < j && es.take(j as int)[q] == old_v[a];
                assert(es[q].2 == counts@[q].0);
            }
        }
        let mut p: usize = 0;
        while p < out.len() && !ranks_above_exec(&e, &out[p])
            invariant
                p <= out@.len(),
                old_v == tally_views(out@),
                ev == tally_view(e),
                forall|b: int| 0 <= b < p ==> !ranks_above(ev, #[trigger] old_v[b]),
            decreases out@.len() - p,
        {
            p = p + 1;
        }
        out.insert(p, e);
        let ghost new_v = tally_views(out@);
        assert(new_v =~= old_v.insert(p as int, ev));
        proof {
            assert forall|a: int, b: int| 0 <= a < b < new_v.len() implies ranks_above(
                #[trigger] new_v[a],
                #[trigger] new_v[b],
            ) by {
                if b < p {
                    assert(ranks_above(old_v[a], old_v[b]));
                } else if b == p {
                    lemma_ranks_order(old_v[a], ev, ev);
                } else if a < p {
                    assert(ranks_above(old_v[a], old_v[b - 1]));
                } else if a == p {
                    if b - 1 > p {
                        assert(ranks_above(old_v[p as int], old_v[b - 1]));
                        lemma_ranks_order(ev, old_v[p as int], old_v[b - 1]);
                    }
                } else {
                    assert(ranks_above(old_v[a - 1], old_v[b - 1]));
                }
            }
            assert forall|a: int| 0 <= a < out@.len() implies es.take(j + 1).contains(
                #[trigger] tally_views(out@)[a],
            ) by {
                if a == p {
                    assert(es.take(j + 1)[j as int] == ev);
                } else {
                    let w = if a < p {
                        a
                    } else {
                        a - 1
                    };
                    assert(new_v[a] == old_v[w]);
                    assert(es.take(j as int).contains(old_v[w]));
                    let q = choose|q: int| 0 <= q < j && es.take(j as int)[q] == old_v[w];
                    assert(es.take(j + 1)[q] == old_v[w]);
                }
            }
            assert forall|q: int| 0 <= q < j + 1 implies tally_views(out@).contains(#[trigger] es[q]) by {
                if q == j {
                    assert(new_v[p as int] == ev);
                } else {
                    assert(old_v.contains(es[q]));
                    let w = choose|w: int| 0 <= w < old_v.len() && old_v[w] == es[q];
                    if w < p {
                        assert(new_v[w] == es[q]);
                    } else {
                        assert(new_v[w + 1] == es[q]);
                    }
                }
            }
        }
        j = j + 1;
    }
    out
}


/// What a summary reports of a world's objects.
pub struct ObjectSummary {
    pub objects: usize,
    pub persistent: usize,
    pub properties: u64,
    /// How many distinct prefabs the name table has no name for.
    pub unknown_prefabs: usize,
    /// The most common prefabs, most common first.
    pub top: Vec<PrefabTally>,
}

/// Summarise `objs`: how many there are, how many persist, how many
/// properties they hold, how many of their prefabs `names` cannot name,
/// and the `top` most common prefabs (ties broken by name, then hash).
pub fn summarize_objects(objs: &Vec<Zdo>, names: &NameTable, top: usize) -> (s: ObjectSummary)
    requires
        property_sum(zdo_models(objs@)) <= u64::MAX,
    ensures
        s.objects == objs@.len(),
        s.persistent == persistent_count(zdo_models(objs@)),
        s.properties == property_sum(zdo_models(objs@)),
        s.unknown_prefabs == unnamed_count(prefabs_seen(zdo_models(objs@)), names@),
        top_of(tally_views(s.top@), tallies(zdo_models(objs@), names@), top as nat),
{
    let ghost ms = zdo_models(objs@);
    let counts = count_objects(objs);
    let ghost seen = prefabs_seen(ms);
    proof {
        lemma_seen_distinct(ms);
    }
    let mut unknown: usize = 0;
    let mut j: usize = 0;
    while j < counts.prefabs.len()
        invariant
            j <= counts.prefabs@.len(),
            counts.prefabs@.len() == seen.len(),
            forall|q: int| 0 <= q < counts.prefabs@.len() ==> (#[trigger] counts.prefabs@[q]).0 == seen[q],
            unknown == unnamed_count(seen.take(j as int), names@),
            unknown <= j,
        decreases counts.prefabs@.len() - j,
    {
        assert(seen.take(j + 1).drop_last() =~= seen.take(j as int));
        if names.resolve(counts.prefabs[j].0).is_none() {
            unknown = unknown + 1;
        }
        j = j + 1;
    }
    assert(seen.take(seen.len() as int) =~= seen);
    let ghost es = tallies(ms, names@);
    assert(named_counts(counts.prefabs@, names@) =~= es);
    assert forall|a: int, b: int| 0 <= a < b < counts.prefabs@.len() implies (
    #[trigger] counts.prefabs@[a]).0 != (#[trigger] counts.prefabs@[b]).0 by {
        assert(seen.no_duplicates());
    }
    let mut list = ranked(&counts.prefabs, names);
    let ghost full = tally_views(list@);
    list.truncate(top);
    let ghost r = tally_views(list@);
    proof {
        if top as int <= full.len() {
            assert(r =~= full.take(top as int));
        } else {
            assert(r =~= full);
        }
        assert forall|e: (Seq<char>, nat, i32), a: int|
            #![trigger es.contains(e), r[a]]
            es.contains(e) && !r.contains(e) && 0 <= a < r.len() implies ranks_above(r[a], e) by {
            let q = choose|q: int| 0 <= q < es.len() && es[q] == e;
            assert(full.contains(es[q]));
            let w = choose|w: int| 0 <= w < full.len() && full[w] == e;
            if w < r.len() {
                assert(r[w] == e);
            }
            assert(r[a] == full[a]);
        }
    }
    ObjectSummary {
        objects: counts.objects,
        persistent: counts.persistent,
        properties: counts.properties,
        unknown_prefabs: unknown,
        top: list,
    }
}


// ---------------------------------------------------------------- chunks

/// How many of the first `n` chunks are of size `size`.
pub open spec fn size_count(cs: Seq<Chunk>, n: nat, size: u8) -> nat
    decreases n,
{
    if n == 0 {
        0
    } else {
        size_count(cs, (n - 1) as nat, size) + if cs[n - 1].info.index.size == size {
            1nat
        } else {
            0nat
        }
    }
}

/// The most objects any of the first `n` chunks holds.
pub open spec fn largest_chunk(cs: Seq<Chunk>, n: nat) -> nat
    decreases n,
{
    if n == 0 {
        0
    } else {
        let m = largest_chunk(cs, (n - 1) as nat);
        let here = cs[n - 1].file.zdos@.len();
        if here > m {
            here
        } else {
            m
        }
    }
}

/// How many objects the portal chunks among the first `n` hold.
pub open spec fn portal_objects(cs: Seq<Chunk>, n: nat) -> nat
    decreases n,
{
    if n == 0 {
        0
    } else {
        portal_objects(cs, (n - 1) as nat) + if cs[n - 1].info.index == ChunkIndex::spec_portals() {
            cs[n - 1].file.zdos@.len()
        } else {
            0nat
        }
    }
}

/// The sizes below `bound` that some chunk has, smallest first, each with
/// how many chunks have it.
pub open spec fn sizes_present(cs: Seq<Chunk>, bound: nat) -> Seq<(u8, nat)>
    decreases bound,
{
    if bound == 0 {
        seq![]
    } else {
        let before = sizes_present(cs, (bound - 1) as nat);
        let size = (bound - 1) as u8;
        let n = size_count(cs, cs.len(), size);
        if n > 0 {
            before.push((size, n))
        } else {
            before
        }
    }
}

/// What a summary reports of a chunked world's chunk files.
pub struct ChunkSummary {
    pub files: usize,
    /// Each size some chunk has, smallest first, with how many have it.
    pub by_size: Vec<(u8, usize)>,
    /// The most objects one chunk holds.
    pub largest: usize,
    /// How many objects the portal chunk holds.
    pub portals: usize,
}

proof fn lemma_portals_within(cs: Seq<Chunk>, n: nat)
    requires
        n <= cs.len(),
    ensures
        portal_objects(cs, n) <= objects_in(cs, n),
        largest_chunk(cs, n) <= objects_in(cs, n),
    decreases n,
{
    if n > 0 {
        lemma_portals_within(cs, (n - 1) as nat);
    }
}

proof fn lemma_objects_in_prefix(cs: Seq<Chunk>, i: nat, n: nat)
    requires
        i <= n <= cs.len(),
    ensures
        objects_in(cs, i) <= objects_in(cs, n),
    decreases n - i,
{
    if i < n {
        lemma_objects_in_prefix(cs, i, (n - 1) as nat);
    }
}

/// Summarise a chunked world's chunks: how many files, how many of each
/// size, the most objects one holds, and how many objects the portal chunk
/// holds.
pub fn summarize_chunks(chunks: &Vec<Chunk>) -> (s: ChunkSummary)
    requires
        objects_in(chunks@, chunks@.len()) <= usize::MAX,
    ensures
        s.files == chunks@.len(),
        s.by_size@.len() == sizes_present(chunks@, 256).len(),
        forall|j: int|
            0 <= j < s.by_size@.len() ==> (#[trigger] s.by_size@[j]).0 == sizes_present(chunks@, 256)[j].0
                && s.by_size@[j].1 == sizes_present(chunks@, 256)[j].1,
        s.largest == largest_chunk(chunks@, chunks@.len()),
        s.portals == portal_objects(chunks@, chunks@.len()),
{
    let ghost cs = chunks@;
    let mut per_size: Vec<usize> = Vec::new();
    let mut k: usize = 0;
    while k < 256
        invariant
            k <= 256,
            per_size@.len() == k,
            forall|q: int| 0 <= q < k ==> #[trigger] per_size@[q] == 0,
        decreases 256 - k,
    {
        per_size.push(0);
        k = k + 1;
    }
    let mut largest: usize = 0;
    let mut portals: usize = 0;
    let portal_index = ChunkIndex::portals();
    let mut i: usize = 0;
    while i < chunks.len()
        invariant
            i <= cs.len(),
            cs == chunks@,
            objects_in(cs, cs.len()) <= usize::MAX,
            per_size@.len() == 256,
            forall|q: int| 0 <= q < 256 ==> #[trigger] per_size@[q] == size_count(cs, i as nat, q as u8),
            forall|q: int| 0 <= q < 256 ==> #[trigger] per_size@[q] <= i,
            largest == largest_chunk(cs, i as nat),
            portals == portal_objects(cs, i as nat),
            portal_index == ChunkIndex::spec_portals(),
        decreases cs.len() - i,
    {
        proof {
            lemma_portals_within(cs, (i + 1) as nat);
            lemma_objects_in_prefix(cs, (i + 1) as nat, cs.len());
        }
        let c = &chunks[i];
        let size = c.info.index.size;
        let before = per_size[size as usize];
        per_size.set(size as usize, before + 1);
        let n = c.file.zdos.len();
        if n > largest {
            largest = n;
        }
        if c.info.index == portal_index {
            portals = portals + n;
        }
        proof {
            assert forall|q: int| 0 <= q < 256 implies #[trigger] per_size@[q] == size_count(
                cs,
                (i + 1) as nat,
                q as u8,
            ) by {
                assert((q as u8) as int == q);
            }
        }
        i = i + 1;
    }
    let mut by_size: Vec<(u8, usize)> = Vec::new();
    let mut b: usize = 0;
    while b < 256
        invariant
            b <= 256,
            per_size@.len() == 256,
            forall|q: int| 0 <= q < 256 ==> #[trigger] per_size@[q] == size_count(cs, cs.len(), q as u8),
            by_size@.len() == sizes_present(cs, b as nat).len(),
            forall|j: int|
                0 <= j < by_size@.len() ==> (#[trigger] by_size@[j]).0 == sizes_present(cs, b as nat)[j].0
                    && by_size@[j].1 == sizes_present(cs, b as nat)[j].1,
        decreases 256 - b,
    {
        let n = per_size[b];
        if n > 0 {
            by_size.push((b as u8, n));
        }
        b = b + 1;
    }
    ChunkSummary { files: chunks.len(), by_size, largest, portals }
}


// ---------------------------------------------------------------- keys per prefab

/// The labels of properties `ps`: `kind:key`, the key named by `names`.
pub open spec fn prop_labels(ps: Seq<(PropKind, i32, ValueView)>, names: Map<i32, Seq<char>>) -> Seq<Seq<char>>
    decreases ps.len(),
{
    if ps.len() == 0 {
        seq![]
    } else {
        prop_labels(ps.drop_last(), names).push(removed_label(names, Removed::Prop(ps.last().0, ps.last().1)))
    }
}

/// Every label an object carries: one per property, table by table, then
/// `conn:<type>` for its connection.
pub open spec fn object_labels(m: ZdoModel, names: Map<i32, Seq<char>>) -> Seq<Seq<char>> {
    prop_labels(property_list(m), names) + match m.connection {
        Some(c) => seq![removed_label(names, Removed::Conn(c))],
        None => seq![],
    }
}

/// Whether some table of `m` has `key`.
pub open spec fn carries_key(m: ZdoModel, key: i32) -> bool {
    has_key_in(m.floats, key) || has_key_in(m.vec3s, key) || has_key_in(m.quats, key) || has_key_in(m.ints, key)
        || has_key_in(m.longs, key) || has_key_in(m.strings, key) || has_key_in(m.byte_arrays, key)
}

/// The objects of `ms` that carry `key`, or all of them when there is none.
pub open spec fn selected(ms: Seq<ZdoModel>, key: Option<i32>) -> Seq<ZdoModel>
    decreases ms.len(),
{
    if ms.len() == 0 {
        seq![]
    } else {
        let rest = selected(ms.drop_last(), key);
        let keep = match key {
            Some(k) => carries_key(ms.last(), k),
            None => true,
        };
        if keep {
            rest.push(ms.last())
        } else {
            rest
        }
    }
}

/// Whether some property in `ps` has `key`.
pub open spec fn lists_key(ps: Seq<(PropKind, i32, ValueView)>, key: i32) -> bool {
    exists|j: int| 0 <= j < ps.len() && ps[j].1 == key
}

proof fn lemma_lists_key_of_table<T: TableValue>(s: Seq<(i32, T::Model)>, key: i32)
    ensures
        lists_key(table_props::<T>(s), key) == has_key_in(s, key),
{
    let t = table_props::<T>(s);
    if lists_key(t, key) {
        let j = choose|j: int| 0 <= j < t.len() && t[j].1 == key;
        assert(s[j].0 == key);
    }
    if has_key_in(s, key) {
        let i = choose|i: int| 0 <= i < s.len() && s[i].0 == key;
        assert(t[i].1 == key);
    }
}

proof fn lemma_lists_key_concat(a: Seq<(PropKind, i32, ValueView)>, b: Seq<(PropKind, i32, ValueView)>, key: i32)
    ensures
        lists_key(a + b, key) == (lists_key(a, key) || lists_key(b, key)),
{
    let c = a + b;
    if lists_key(c, key) {
        let j = choose|j: int| 0 <= j < c.len() && c[j].1 == key;
        if j < a.len() {
            assert(a[j] == c[j]);
        } else {
            assert(b[j - a.len()] == c[j]);
        }
    }
    if lists_key(a, key) {
        let j = choose|j: int| 0 <= j < a.len() && a[j].1 == key;
        assert(c[j] == a[j]);
    }
    if lists_key(b, key) {
        let j = choose|j: int| 0 <= j < b.len() && b[j].1 == key;
        assert(c[a.len() + j] == b[j]);
    }
}

proof fn lemma_carries_key_lists(m: ZdoModel, key: i32)
    ensures
        carries_key(m, key) == lists_key(property_list(m), key),
{
    let f = table_props::<u32>(m.floats);
    let v = table_props::<Vec3>(m.vec3s);
    let q = table_props::<Quat>(m.quats);
    let i = table_props::<i32>(m.ints);
    let l = table_props::<i64>(m.longs);
    let s = table_props::<CsString>(m.strings);
    let b = table_props::<ByteArray>(m.byte_arrays);
    lemma_lists_key_of_table::<u32>(m.floats, key);
    lemma_lists_key_of_table::<Vec3>(m.vec3s, key);
    lemma_lists_key_of_table::<Quat>(m.quats, key);
    lemma_lists_key_of_table::<i32>(m.ints, key);
    lemma_lists_key_of_table::<i64>(m.longs, key);
    lemma_lists_key_of_table::<CsString>(m.strings, key);
    lemma_lists_key_of_table::<ByteArray>(m.byte_arrays, key);
    lemma_lists_key_concat(f, v, key);
    lemma_lists_key_concat(f + v, q, key);
    lemma_lists_key_concat(f + v + q, i, key);
    lemma_lists_key_concat(f + v + q + i, l, key);
    lemma_lists_key_concat(f + v + q + i + l, s, key);
    lemma_lists_key_concat(f + v + q + i + l + s, b, key);
}

/// Which objects the key census counts: with a key given, exactly those
/// holding a property with that key in any of their seven tables (floats,
/// vectors, rotations, ints, longs, strings, byte arrays), in their order;
/// with no key, every object.
pub proof fn lemma_census_selection(ms: Seq<ZdoModel>, key: i32)
    ensures
        selected(ms, Some(key)) == ms.filter(|m: ZdoModel| lists_key(property_list(m), key)),
        selected(ms, None) == ms,
    decreases ms.len(),
{
    reveal(Seq::filter);
    if ms.len() > 0 {
        lemma_census_selection(ms.drop_last(), key);
        lemma_carries_key_lists(ms.last(), key);
        assert(ms.drop_last().push(ms.last()) =~= ms);
    } else {
        assert(ms =~= seq![]);
    }
}

/// The labels of the objects of `ms` with prefab `h`, one object after
/// another.
pub open spec fn labels_for(ms: Seq<ZdoModel>, h: i32, names: Map<i32, Seq<char>>) -> Seq<Seq<char>>
    decreases ms.len(),
{
    if ms.len() == 0 {
        seq![]
    } else {
        let rest = labels_for(ms.drop_last(), h, names);
        if ms.last().prefab == h {
            rest + object_labels(ms.last(), names)
        } else {
            rest
        }
    }
}

/// Counting one more `l`: its count goes up, or it joins at the end.
pub open spec fn tally_add(t: Seq<(Seq<char>, nat)>, l: Seq<char>) -> Seq<(Seq<char>, nat)> {
    if exists|j: int| 0 <= j < t.len() && t[j].0 == l {
        let j = choose|j: int| 0 <= j < t.len() && t[j].0 == l;
        t.update(j, (l, t[j].1 + 1))
    } else {
        t.push((l, 1))
    }
}

/// Each distinct label of `ls` with how often it occurs, in the order
/// labels first occur.
pub open spec fn tally_of(ls: Seq<Seq<char>>) -> Seq<(Seq<char>, nat)>
    decreases ls.len(),
{
    if ls.len() == 0 {
        seq![]
    } else {
        tally_add(tally_of(ls.drop_last()), ls.last())
    }
}

/// A count list as plain values.
pub open spec fn key_counts_view(v: Seq<KeyCount>) -> Seq<(Seq<char>, nat)> {
    v.map_values(|k: KeyCount| (k.name@, k.count as nat))
}

/// The text of each string.
pub open spec fn string_views(v: Seq<String>) -> Seq<Seq<char>> {
    v.map_values(|s: String| s@)
}

proof fn lemma_prop_labels_append(a: Seq<(PropKind, i32, ValueView)>, b: Seq<(PropKind, i32, ValueView)>, names: Map<i32, Seq<char>>)
    ensures
        prop_labels(a + b, names) == prop_labels(a, names) + prop_labels(b, names),
    decreases b.len(),
{
    if b.len() == 0 {
        assert(a + b =~= a);
        assert(prop_labels(a, names) + prop_labels(b, names) =~= prop_labels(a, names));
    } else {
        lemma_prop_labels_append(a, b.drop_last(), names);
        assert((a + b).drop_last() =~= a + b.drop_last());
        assert(prop_labels(a + b, names) =~= prop_labels(a, names) + prop_labels(b, names));
    }
}

/// Push the labels of the properties of one table.
fn push_table_labels<T: TableValue>(t: &PropTable<T>, names: &NameTable, out: &mut Vec<String>)
    ensures
        string_views(final(out)@) == string_views(old(out)@) + prop_labels(table_props::<T>(t.model()), names@),
{
    let ghost start = string_views(out@);
    let ghost ps = table_props::<T>(t.model());
    let mut i: usize = 0;
    while i < t.entries.len()
        invariant
            i <= t.entries@.len(),
            ps == table_props::<T>(t.model()),
            ps.len() == t.entries@.len(),
            string_views(out@) == start + prop_labels(ps.take(i as int), names@),
        decreases t.entries@.len() - i,
    {
        assert(ps.take(i + 1).drop_last() =~= ps.take(i as int));
        assert(t.model()[i as int] == t.entries@[i as int].model());
        assert(ps[i as int] == (T::spec_kind(), t.entries@[i as int].0, T::value_of(t.entries@[i as int].1.model())));
        let label = Removed::Prop(T::kind(), t.entries[i].0).label(names);
        let ghost before = out@;
        out.push(label);
        assert(string_views(out@) =~= string_views(before).push(label@));
        assert(ps.take(i + 1).last() == ps[i as int]);
        i = i + 1;
    }
    assert(ps.take(t.entries@.len() as int) =~= ps);
}

/// The labels one object carries, as [`object_labels`] says.
fn labels_of(z: &Zdo, names: &NameTable) -> (r: Vec<String>)
    ensures
        string_views(r@) == object_labels(z.model(), names@),
{
    let ghost m = z.model();
    let mut out: Vec<String> = Vec::new();
    assert(string_views(out@) =~= seq![]);
    push_table_labels(&z.floats, names, &mut out);
    push_table_labels(&z.vec3s, names, &mut out);
    push_table_labels(&z.quats, names, &mut out);
    push_table_labels(&z.ints, names, &mut out);
    push_table_labels(&z.longs, names, &mut out);
    push_table_labels(&z.strings, names, &mut out);
    push_table_labels(&z.byte_arrays, names, &mut out);
    proof {
        let n = names@;
        let a = table_props::<u32>(m.floats);
        let b = table_props::<crate::primitives::Vec3>(m.vec3s);
        let c = table_props::<crate::primitives::Quat>(m.quats);
        let d = table_props::<i32>(m.ints);
        let e = table_props::<i64>(m.longs);
        let f = table_props::<crate::primitives::CsString>(m.strings);
        let g = table_props::<crate::primitives::ByteArray>(m.byte_arrays);
        lemma_prop_labels_append(a, b, n);
        lemma_prop_labels_append(a + b, c, n);
        lemma_prop_labels_append(a + b + c, d, n);
        lemma_prop_labels_append(a + b + c + d, e, n);
        lemma_prop_labels_append(a + b + c + d + e, f, n);
        lemma_prop_labels_append(a + b + c + d + e + f, g, n);
        assert(property_list(m) == a + b + c + d + e + f + g);
    }
    let ghost before = out@;
    match &z.connection {
        Some(c) => {
            out.push(Removed::Conn(*c).label(names));
            assert(string_views(out@) =~= string_views(before) + seq![removed_label(names@, Removed::Conn(*c))]);
        },
        None => {
            assert(string_views(out@) =~= string_views(before) + Seq::<Seq<char>>::empty());
        },
    }
    out
}


/// Whether no two entries of a count list share a name.
pub open spec fn names_unique(t: Seq<(Seq<char>, nat)>) -> bool {
    forall|a: int, b: int| 0 <= a < b < t.len() ==> t[a].0 != t[b].0
}

proof fn lemma_tally_add(t: Seq<(Seq<char>, nat)>, l: Seq<char>, bound: nat)
    requires
        names_unique(t),
        forall|j: int| 0 <= j < t.len() ==> #[trigger] t[j].1 <= bound,
    ensures
        names_unique(tally_add(t, l)),
        forall|j: int| 0 <= j < tally_add(t, l).len() ==> #[trigger] tally_add(t, l)[j].1 <= bound + 1,
        tally_add(t, l).len() >= t.len(),
{
}

proof fn lemma_prop_labels_len(ps: Seq<(PropKind, i32, ValueView)>, names: Map<i32, Seq<char>>)
    ensures
        prop_labels(ps, names).len() == ps.len(),
    decreases ps.len(),
{
    if ps.len() > 0 {
        lemma_prop_labels_len(ps.drop_last(), names);
    }
}

/// Count one more `label`.
fn add_label(keys: &mut Vec<KeyCount>, label: String, Ghost(bound): Ghost<nat>)
    requires
        names_unique(key_counts_view(old(keys)@)),
        forall|j: int| 0 <= j < old(keys)@.len() ==> #[trigger] old(keys)@[j].count <= bound,
        bound < usize::MAX,
    ensures
        key_counts_view(final(keys)@) == tally_add(key_counts_view(old(keys)@), label@),
        names_unique(key_counts_view(final(keys)@)),
        forall|j: int| 0 <= j < final(keys)@.len() ==> #[trigger] final(keys)@[j].count <= bound + 1,
{
    let ghost t = key_counts_view(keys@);
    let mut j: usize = 0;
    while j < keys.len()
        invariant
            j <= keys@.len(),
            keys@ == old(keys)@,
            t == key_counts_view(keys@),
            names_unique(t),
            forall|q: int| 0 <= q < keys@.len() ==> #[trigger] keys@[q].count <= bound,
            bound < usize::MAX,
            forall|q: int| 0 <= q < j ==> t[q].0 != label@,
        decreases keys@.len() - j,
    {
        if crate::text::str_eq(keys[j].name.as_str(), label.as_str()) {
            let c = keys[j].count;
            let name = keys[j].name.clone();
            keys.set(j, KeyCount { name, count: c + 1 });
            proof {
                assert(t[j as int].0 == label@);
                let w = choose|w: int| 0 <= w < t.len() && t[w].0 == label@;
                assert(w == j) by {
                    if w < j {
                        assert(t[w].0 != label@);
                    } else if w > j {
                        assert(t[j as int].0 != t[w].0);
                    }
                }
                assert(key_counts_view(keys@) =~= t.update(j as int, (label@, t[j as int].1 + 1)));
                assert(exists|v: int| 0 <= v < t.len() && t[v].0 == label@);
                assert(tally_add(t, label@) == t.update(j as int, (label@, t[j as int].1 + 1)));
            }
            return;
        }
        j = j + 1;
    }
    let ghost lv = label@;
    let ghost before = keys@;
    keys.push(KeyCount { name: label, count: 1 });
    assert(key_counts_view(keys@) =~= t.push((lv, 1)));
    assert forall|q: int| 0 <= q < keys@.len() implies #[trigger] keys@[q].count <= bound + 1 by {
        if q < before.len() {
            assert(keys@[q] == before[q]);
        }
    }
}


/// How many labels the objects `ms` can carry at most: one per property and
/// one per connection.
pub open spec fn label_budget(ms: Seq<ZdoModel>) -> nat {
    property_sum(ms) + ms.len()
}

proof fn lemma_tally_bounds(ls: Seq<Seq<char>>)
    ensures
        names_unique(tally_of(ls)),
        forall|j: int| 0 <= j < tally_of(ls).len() ==> #[trigger] tally_of(ls)[j].1 <= ls.len(),
    decreases ls.len(),
{
    if ls.len() > 0 {
        lemma_tally_bounds(ls.drop_last());
        lemma_tally_add(tally_of(ls.drop_last()), ls.last(), ls.drop_last().len());
    }
}

proof fn lemma_object_labels_len(m: ZdoModel, names: Map<i32, Seq<char>>)
    ensures
        object_labels(m, names).len() <= property_total(m) + 1,
{
    lemma_prop_labels_len(property_list(m), names);
}

proof fn lemma_labels_for_len(ms: Seq<ZdoModel>, h: i32, names: Map<i32, Seq<char>>)
    ensures
        labels_for(ms, h, names).len() <= label_budget(ms),
    decreases ms.len(),
{
    if ms.len() > 0 {
        lemma_labels_for_len(ms.drop_last(), h, names);
        lemma_object_labels_len(ms.last(), names);
    }
}

proof fn lemma_selected_budget(ms: Seq<ZdoModel>, key: Option<i32>)
    ensures
        label_budget(selected(ms, key)) <= label_budget(ms),
    decreases ms.len(),
{
    if ms.len() > 0 {
        lemma_selected_budget(ms.drop_last(), key);
        let rest = selected(ms.drop_last(), key);
        assert(rest.push(ms.last()).drop_last() =~= rest);
    }
}

proof fn lemma_budget_prefix(ms: Seq<ZdoModel>, i: int)
    requires
        0 <= i <= ms.len(),
    ensures
        label_budget(ms.take(i)) <= label_budget(ms),
{
    lemma_property_sum_prefix(ms, i);
}

/// Count every label of `labels` after those of `prior`.
fn add_labels(keys: &mut Vec<KeyCount>, labels: &Vec<String>, Ghost(prior): Ghost<Seq<Seq<char>>>)
    requires
        key_counts_view(old(keys)@) == tally_of(prior),
        prior.len() + labels@.len() < usize::MAX,
    ensures
        key_counts_view(final(keys)@) == tally_of(prior + string_views(labels@)),
{
    let ghost lv = string_views(labels@);
    let mut t: usize = 0;
    assert(prior + lv.take(0) =~= prior);
    while t < labels.len()
        invariant
            t <= labels@.len(),
            lv == string_views(labels@),
            prior.len() + labels@.len() < usize::MAX,
            key_counts_view(keys@) == tally_of(prior + lv.take(t as int)),
        decreases labels@.len() - t,
    {
        let ghost done = prior + lv.take(t as int);
        proof {
            lemma_tally_bounds(done);
            assert forall|j: int| 0 <= j < keys@.len() implies #[trigger] keys@[j].count <= done.len() by {
                assert(key_counts_view(keys@)[j].1 == keys@[j].count);
            }
            assert forall|a: int, b: int| 0 <= a < b < key_counts_view(keys@).len() implies key_counts_view(
                keys@,
            )[a].0 != key_counts_view(keys@)[b].0 by {
                assert(names_unique(tally_of(done)));
            }
        }
        add_label(keys, labels[t].clone(), Ghost(done.len()));
        assert((prior + lv.take(t + 1)).drop_last() =~= done);
        assert((prior + lv.take(t + 1)).last() == labels@[t as int]@);
        t = t + 1;
    }
    assert(lv.take(labels@.len() as int) =~= lv);
}

/// The keys one prefab's objects carry: its hash and name, how many objects
/// have it, and each label with how many times it occurs, in the order
/// labels first occur.
pub struct KeyRow {
    pub prefab: i32,
    pub name: String,
    pub instances: usize,
    pub keys: Vec<KeyCount>,
}

/// Whether `z` is counted: it carries `key`, or there is none.
fn is_selected(z: &Zdo, key: Option<i32>) -> (r: bool)
    ensures
        r == match key {
            Some(k) => carries_key(z.model(), k),
            None => true,
        },
{
    match key {
        Some(k) => z.has_key(k),
        None => true,
    }
}

/// For each prefab among the objects of `objs` that carry `key` (all of
/// them when there is none), in the order prefabs first occur: how many
/// such objects have it, and how often each property label (`kind:key`)
/// and connection label (`conn:<type>`) occurs on them.
pub fn key_census(objs: &Vec<Zdo>, names: &NameTable, key: Option<i32>) -> (r: Vec<KeyRow>)
    requires
        label_budget(zdo_models(objs@)) < usize::MAX,
    ensures
        ({
            let sel = selected(zdo_models(objs@), key);
            &&& r@.len() == prefabs_seen(sel).len()
            &&& forall|j: int|
                0 <= j < r@.len() ==> {
                    &&& (#[trigger] r@[j]).prefab == prefabs_seen(sel)[j]
                    &&& r@[j].name@ == display_of(names@, r@[j].prefab)
                    &&& r@[j].instances == prefab_count(sel, r@[j].prefab)
                    &&& key_counts_view(r@[j].keys@) == tally_of(labels_for(sel, r@[j].prefab, names@))
                }
        }),
{
    let ghost ms = zdo_models(objs@);
    let mut index: HashMapWithView<i32, usize> = HashMapWithView::new();
    let mut rows: Vec<KeyRow> = Vec::new();
    let mut i: usize = 0;
    while i < objs.len()
        invariant
            i <= objs@.len(),
            ms == zdo_models(objs@),
            label_budget(ms) < usize::MAX,
            rows@.len() == prefabs_seen(selected(ms.take(i as int), key)).len(),
            forall|j: int|
                0 <= j < rows@.len() ==> {
                    let sel = selected(ms.take(i as int), key);
                    &&& (#[trigger] rows@[j]).prefab == prefabs_seen(sel)[j]
                    &&& rows@[j].name@ == display_of(names@, rows@[j].prefab)
                    &&& rows@[j].instances == prefab_count(sel, rows@[j].prefab)
                    &&& rows@[j].instances <= i
                    &&& key_counts_view(rows@[j].keys@) == tally_of(labels_for(sel, rows@[j].prefab, names@))
                },
            forall|h: i32|
                #[trigger] index@.contains_key(h) <==> prefabs_seen(selected(ms.take(i as int), key)).contains(h),
            forall|h: i32|
                #[trigger] index@.contains_key(h) ==> index@[h] < rows@.len() && rows@[index@[h] as int].prefab == h,
        decreases objs@.len() - i,
    {
        let ghost before = ms.take(i as int);
        let ghost after = ms.take(i + 1);
        let ghost sel0 = selected(before, key);
        assert(after.drop_last() =~= before);
        assert(after.last() == objs@[i as int].model());
        let z = &objs[i];
        if is_selected(z, key) {
            let ghost sel1 = sel0.push(z.model());
            assert(selected(after, key) == sel1);
            assert(sel1.drop_last() =~= sel0);
            proof {
                lemma_seen_distinct(sel0);
                lemma_budget_prefix(ms, i + 1);
                lemma_selected_budget(after, key);
                lemma_labels_for_len(sel1, z.prefab, names@);
            }
            let labels = labels_of(z, names);
            let p = z.prefab;
            let ghost s0 = prefabs_seen(sel0);
            let ghost v0 = rows@;
            match index.get(&p) {
                Some(k) => {
                    let k = *k;
                    let ghost prior = labels_for(sel0, p, names@);
                    assert(labels_for(sel1, p, names@) == prior + string_views(labels@));
                    let row = &mut rows[k];
                    row.instances = row.instances + 1;
                    add_labels(&mut row.keys, &labels, Ghost(prior));
                    proof {
                        assert(prefabs_seen(sel1) == s0);
                        assert forall|j: int| 0 <= j < rows@.len() implies {
                            &&& (#[trigger] rows@[j]).prefab == prefabs_seen(sel1)[j]
                            &&& rows@[j].name@ == display_of(names@, rows@[j].prefab)
                            &&& rows@[j].instances == prefab_count(sel1, rows@[j].prefab)
                            &&& rows@[j].instances <= i + 1
                            &&& key_counts_view(rows@[j].keys@) == tally_of(labels_for(sel1, rows@[j].prefab, names@))
                        } by {
                            if j != k {
                                assert(rows@[j] == v0[j]);
                                assert(v0[j].prefab != p) by {
                                    assert(s0.no_duplicates());
                                }
                            }
                        }
                    }
                },
                None => {
                    let k = rows.len();
                    let mut keys: Vec<KeyCount> = Vec::new();
                    assert(key_counts_view(keys@) =~= tally_of(Seq::<Seq<char>>::empty()));
                    let ghost nothing: Seq<Seq<char>> = seq![];
                    add_labels(&mut keys, &labels, Ghost(nothing));
                    proof {
                        assert(!s0.contains(p));
                        assert(prefab_count(sel0, p) == 0) by {
                            lemma_seen_distinct(sel0);
                        }
                        assert(labels_for(sel0, p, names@) =~= seq![]) by {
                            lemma_no_labels(sel0, p, names@);
                        }
                        assert(labels_for(sel1, p, names@) =~= seq![] + string_views(labels@));
                    }
                    rows.push(KeyRow { prefab: p, name: names.display(p), instances: 1, keys });
                    index.insert(p, k);
                    proof {
                        assert(prefabs_seen(sel1) == s0.push(p));
                        assert forall|j: int| 0 <= j < rows@.len() implies {
                            &&& (#[trigger] rows@[j]).prefab == prefabs_seen(sel1)[j]
                            &&& rows@[j].name@ == display_of(names@, rows@[j].prefab)
                            &&& rows@[j].instances == prefab_count(sel1, rows@[j].prefab)
                            &&& rows@[j].instances <= i + 1
                            &&& key_counts_view(rows@[j].keys@) == tally_of(labels_for(sel1, rows@[j].prefab, names@))
                        } by {
                            if j < k {
                                assert(rows@[j] == v0[j]);
                                assert(s0.contains(v0[j].prefab));
                            }
                        }
                        assert forall|h: i32| #[trigger] index@.contains_key(h) implies index@[h] < rows@.len()
                            && rows@[index@[h] as int].prefab == h by {
                            if h != p {
                                assert(rows@[index@[h] as int] == v0[index@[h] as int]);
                            }
                        }
                        assert forall|h: i32| #[trigger] index@.contains_key(h) <==> prefabs_seen(sel1).contains(h) by {
                            if h == p {
                                assert(prefabs_seen(sel1)[s0.len() as int] == p);
                            } else if prefabs_seen(sel1).contains(h) {
                                let q = choose|q: int| 0 <= q < prefabs_seen(sel1).len() && prefabs_seen(sel1)[q] == h;
                                assert(q < s0.len());
                                assert(s0.contains(h));
                            } else if s0.contains(h) {
                                let q = choose|q: int| 0 <= q < s0.len() && s0[q] == h;
                                assert(prefabs_seen(sel1)[q] == h);
                            }
                        }
                    }
                },
            }
        } else {
            assert(selected(after, key) == sel0);
        }
        i = i + 1;
    }
    assert(ms.take(objs@.len() as int) =~= ms);
    rows
}

proof fn lemma_no_labels(ms: Seq<ZdoModel>, h: i32, names: Map<i32, Seq<char>>)
    requires
        prefab_count(ms, h) == 0,
    ensures
        labels_for(ms, h, names) == Seq::<Seq<char>>::empty(),
    decreases ms.len(),
{
    if ms.len() > 0 {
        lemma_no_labels(ms.drop_last(), h, names);
    }
}

} // verus!
