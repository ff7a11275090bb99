//! Reverse lookup from stable hashes to prefab names and ZDO property keys.
//!
//! The game only stores hashes. A table is filled from lists of prefab names
//! and property keys; names seen in the world itself (inventory item names)
//! are added as they turn up so item prefabs missing from the lists still
//! resolve.
//!
//! Animator parameters are a separate family: `ZSyncAnimation` keys them by
//! `438569 + CRC32(name)` rather than `GetStableHashCode`, so they are learned
//! by hash and shown as `anim:<name>` to keep the two namespaces apart.

use vstd::prelude::*;
use vstd::hash_map::HashMapWithView;
use crate::hash::{animator_hash, animator_key, spec_animator_hash, spec_animator_key, spec_stable_hash, stable_hash};
use crate::text::{decimal, lines, lines_of, push_decimal, push_signed_decimal, signed_decimal, trim, trimmed};

verus! {

broadcast use vstd::std_specs::hash::group_hash_axioms;

/// Highest slot index generated for indexed keys such as `3_item`.
pub const INDEXED_KEY_SLOTS: u64 = 64;

/// Highest spawner index generated for `SpawnSystem` keys such as
/// `b_Greydwarf21` (`"b_"`/`"e_"` + creature prefab + spawn list index).
pub const SPAWNER_SLOTS: u64 = 256;

/// What the table holds after recording `display` for `hash`: the first name
/// recorded for a hash stays.
pub open spec fn put(m: Map<i32, Seq<char>>, hash: i32, display: Seq<char>) -> Map<i32, Seq<char>> {
    if m.contains_key(hash) {
        m
    } else {
        m.insert(hash, display)
    }
}

/// What the table holds after learning `name`: the trimmed name under its
/// stable hash, unless it is blank.
#[verifier::opaque]
pub open spec fn learned(m: Map<i32, Seq<char>>, name: Seq<char>) -> Map<i32, Seq<char>> {
    let t = trimmed(name);
    if t.len() == 0 {
        m
    } else {
        put(m, spec_stable_hash(t), t)
    }
}

/// Learning every name of `names` in order.
pub open spec fn learned_all(m: Map<i32, Seq<char>>, names: Seq<Seq<char>>) -> Map<i32, Seq<char>>
    decreases names.len(),
{
    if names.len() == 0 {
        m
    } else {
        learned(learned_all(m, names.drop_last()), names.last())
    }
}

/// The names a property key `k` stands for: the key, its ZDOID pair
/// (`k_u`, `k_i`), and for each slot `i` below `INDEXED_KEY_SLOTS` the
/// forms `i_k`, `k_i`, `k__i` and `k` followed by `i`.
pub open spec fn key_forms(k: Seq<char>) -> Seq<Seq<char>> {
    seq![k, k + seq!['_', 'u'], k + seq!['_', 'i']] + slot_forms(k, INDEXED_KEY_SLOTS as nat)
}

/// The indexed forms of key `k` for the slots below `n`.
pub open spec fn slot_forms(k: Seq<char>, n: nat) -> Seq<Seq<char>>
    decreases n,
{
    if n == 0 {
        seq![]
    } else {
        let i = decimal((n - 1) as nat);
        slot_forms(k, (n - 1) as nat) + seq![
            i + seq!['_'] + k,
            k + seq!['_'] + i,
            k + seq!['_', '_'] + i,
            k + i,
        ]
    }
}

/// What the table holds after learning property key `key`.
pub open spec fn learned_key(m: Map<i32, Seq<char>>, key: Seq<char>) -> Map<i32, Seq<char>> {
    let k = trimmed(key);
    if k.len() == 0 {
        m
    } else {
        learned_all(m, key_forms(k))
    }
}

/// Learning every key of `keys` in order.
pub open spec fn learned_keys(m: Map<i32, Seq<char>>, keys: Seq<Seq<char>>) -> Map<i32, Seq<char>>
    decreases keys.len(),
{
    if keys.len() == 0 {
        m
    } else {
        learned_key(learned_keys(m, keys.drop_last()), keys.last())
    }
}

/// The spawner names of creature `c` for the spawn list indices below `n`:
/// `b_` and `e_`, the creature, the index.
pub open spec fn spawner_forms(c: Seq<char>, n: nat) -> Seq<Seq<char>>
    decreases n,
{
    if n == 0 {
        seq![]
    } else {
        let i = decimal((n - 1) as nat);
        spawner_forms(c, (n - 1) as nat) + seq![seq!['b', '_'] + c + i, seq!['e', '_'] + c + i]
    }
}

/// Learning the spawner names of each creature line that is not blank.
pub open spec fn learned_spawners(m: Map<i32, Seq<char>>, lines: Seq<Seq<char>>) -> Map<i32, Seq<char>>
    decreases lines.len(),
{
    if lines.len() == 0 {
        m
    } else {
        let prev = learned_spawners(m, lines.drop_last());
        let c = trimmed(lines.last());
        if c.len() == 0 {
            prev
        } else {
            learned_all(prev, spawner_forms(c, SPAWNER_SLOTS as nat))
        }
    }
}

/// How an animator parameter is shown: `anim:` and its name.
pub open spec fn anim_display(p: Seq<char>) -> Seq<char> {
    seq!['a', 'n', 'i', 'm', ':'] + p
}

/// Recording each animator parameter line that is not blank under both of
/// its hashes.
pub open spec fn learned_anims(m: Map<i32, Seq<char>>, lines: Seq<Seq<char>>) -> Map<i32, Seq<char>>
    decreases lines.len(),
{
    if lines.len() == 0 {
        m
    } else {
        let prev = learned_anims(m, lines.drop_last());
        let p = trimmed(lines.last());
        if p.len() == 0 {
            prev
        } else {
            put(
                put(prev, spec_animator_key(p), anim_display(p)),
                spec_animator_hash(p),
                anim_display(p),
            )
        }
    }
}

/// Whether line `l` of a names file holds a name: not blank and, once
/// trimmed, not a `#` comment.
pub open spec fn names_line(l: Seq<char>) -> bool {
    trimmed(l).len() > 0 && trimmed(l)[0] != '#'
}

/// Learning each names-file line of `ls`, as a name and as a key.
pub open spec fn learned_lines(m: Map<i32, Seq<char>>, ls: Seq<Seq<char>>) -> Map<i32, Seq<char>>
    decreases ls.len(),
{
    if ls.len() == 0 {
        m
    } else {
        let prev = learned_lines(m, ls.drop_last());
        if names_line(ls.last()) {
            learned_key(learned(prev, trimmed(ls.last())), trimmed(ls.last()))
        } else {
            prev
        }
    }
}

/// How many of the lines `ls` hold a name.
pub open spec fn names_lines_count(ls: Seq<Seq<char>>) -> nat
    decreases ls.len(),
{
    if ls.len() == 0 {
        0
    } else {
        names_lines_count(ls.drop_last()) + if names_line(ls.last()) {
            1nat
        } else {
            0nat
        }
    }
}

/// A hash shown by name, or as `#` and its decimal value when unknown.
pub open spec fn display_of(m: Map<i32, Seq<char>>, hash: i32) -> Seq<char> {
    if m.contains_key(hash) {
        m[hash]
    } else {
        seq!['#'] + signed_decimal(hash as int)
    }
}

/// Names by stable hash.
pub struct NameTable {
    names: HashMapWithView<i32, String>,
}

impl View for NameTable {
    type V = Map<i32, Seq<char>>;

    closed spec fn view(&self) -> Map<i32, Seq<char>> {
        self.names@.map_values(|s: String| s@)
    }
}

impl Default for NameTable {
    fn default() -> (t: NameTable)
        ensures
            t@ == Map::<i32, Seq<char>>::empty(),
    {
        NameTable::new()
    }
}

impl NameTable {
    /// A table that knows no name.
    pub fn new() -> (t: NameTable)
        ensures
            t@ == Map::<i32, Seq<char>>::empty(),
    {
        let t = NameTable { names: HashMapWithView::new() };
        assert(t@ =~= Map::<i32, Seq<char>>::empty());
        t
    }

    /// Fill a table from its lists: prefab names, one per line; property
    /// keys, one per line, each with the forms the game derives from it;
    /// creature prefabs, whose spawner keys are learned; and animator
    /// parameters, shown as `anim:<name>` under both of their hashes.
    pub fn from_tables(prefab_names: &str, zdo_keys: &str, creature_prefabs: &str, anim_params: &str) -> (t: NameTable)
        ensures
            t@ == learned_anims(
                learned_spawners(
                    learned_keys(
                        learned_all(Map::empty(), lines_of(prefab_names@)),
                        lines_of(zdo_keys@),
                    ),
                    lines_of(creature_prefabs@),
                ),
                lines_of(anim_params@),
            ),
    {
        let mut table = NameTable::new();
        let ls = lines(prefab_names);
        let mut j: usize = 0;
        while j < ls.len()
            invariant
                j <= ls@.len(),
                ls@.len() == lines_of(prefab_names@).len(),
                forall|k: int| 0 <= k < ls@.len() ==> #[trigger] ls@[k]@ == lines_of(prefab_names@)[k],
                table@ == learned_all(Map::empty(), lines_of(prefab_names@).take(j as int)),
            decreases ls@.len() - j,
        {
            table.learn(ls[j].as_str());
            j = j + 1;
            assert(lines_of(prefab_names@).take(j as int).drop_last() =~= lines_of(prefab_names@).take(j - 1));
        }
        assert(lines_of(prefab_names@).take(j as int) =~= lines_of(prefab_names@));
        let ghost m1 = table@;
        let ls = lines(zdo_keys);
        let mut j: usize = 0;
        while j < ls.len()
            invariant
                j <= ls@.len(),
                ls@.len() == lines_of(zdo_keys@).len(),
                forall|k: int| 0 <= k < ls@.len() ==> #[trigger] ls@[k]@ == lines_of(zdo_keys@)[k],
                table@ == learned_keys(m1, lines_of(zdo_keys@).take(j as int)),
            decreases ls@.len() - j,
        {
            table.learn_key(ls[j].as_str());
            j = j + 1;
            assert(lines_of(zdo_keys@).take(j as int).drop_last() =~= lines_of(zdo_keys@).take(j - 1));
        }
        assert(lines_of(zdo_keys@).take(j as int) =~= lines_of(zdo_keys@));
        let ghost m2 = table@;
        let ls = lines(creature_prefabs);
        let mut j: usize = 0;
        while j < ls.len()
            invariant
                j <= ls@.len(),
                ls@.len() == lines_of(creature_prefabs@).len(),
                forall|k: int| 0 <= k < ls@.len() ==> #[trigger] ls@[k]@ == lines_of(creature_prefabs@)[k],
                table@ == learned_spawners(m2, lines_of(creature_prefabs@).take(j as int)),
            decreases ls@.len() - j,
        {
            let c = trim(ls[j].as_str());
            if !c.as_str().is_empty() {
                table.learn_spawners(c.as_str());
            }
            j = j + 1;
            assert(lines_of(creature_prefabs@).take(j as int).drop_last() =~= lines_of(creature_prefabs@).take(j - 1));
        }
        assert(lines_of(creature_prefabs@).take(j as int) =~= lines_of(creature_prefabs@));
        let ghost m3 = table@;
        let ls = lines(anim_params);
        let mut j: usize = 0;
        while j < ls.len()
            invariant
                j <= ls@.len(),
                ls@.len() == lines_of(anim_params@).len(),
                forall|k: int| 0 <= k < ls@.len() ==> #[trigger] ls@[k]@ == lines_of(anim_params@)[k],
                table@ == learned_anims(m3, lines_of(anim_params@).take(j as int)),
            decreases ls@.len() - j,
        {
            let p = trim(ls[j].as_str());
            if !p.as_str().is_empty() {
                // `anim_speed` is written raw; every other parameter through
                // the offset. Learning both covers either form.
                let mut display = String::from_str("anim:");
                proof {
                    reveal_strlit("anim:");
                }
                display.append(p.as_str());
                assert(display@ =~= anim_display(p@));
                table.insert(animator_key(p.as_str()), &display);
                table.insert(animator_hash(p.as_str()), &display);
            }
            j = j + 1;
            assert(lines_of(anim_params@).take(j as int).drop_last() =~= lines_of(anim_params@).take(j - 1));
        }
        assert(lines_of(anim_params@).take(j as int) =~= lines_of(anim_params@));
        table
    }

    /// Learn each line of `text` that is neither blank nor a `#` comment, as
    /// a name and as a property key. Returns how many lines were learned.
    pub fn add_text(&mut self, text: &str) -> (added: usize)
        ensures
            final(self)@ == learned_lines(old(self)@, lines_of(text@)),
            added == names_lines_count(lines_of(text@)),
    {
        let ls = lines(text);
        let mut added: usize = 0;
        let mut j: usize = 0;
        while j < ls.len()
            invariant
                j <= ls@.len(),
                ls@.len() == lines_of(text@).len(),
                forall|k: int| 0 <= k < ls@.len() ==> #[trigger] ls@[k]@ == lines_of(text@)[k],
                self@ == learned_lines(old(self)@, lines_of(text@).take(j as int)),
                added == names_lines_count(lines_of(text@).take(j as int)),
                added <= j,
            decreases ls@.len() - j,
        {
            let line = trim(ls[j].as_str());
            assert(lines_of(text@).take(j + 1).drop_last() =~= lines_of(text@).take(j as int));
            j = j + 1;
            let s = line.as_str();
            if s.is_empty() || crate::text::chars_of(s)[0] == '#' {
                continue;
            }
            self.learn(s);
            self.learn_key(s);
            added = added + 1;
        }
        assert(lines_of(text@).take(j as int) =~= lines_of(text@));
        added
    }

    /// Record a display name for a hash the caller computed itself.
    fn insert(&mut self, hash: i32, display: &String)
        ensures
            final(self)@ == put(old(self)@, hash, display@),
    {
        if !self.names.contains_key(&hash) {
            self.names.insert(hash, display.clone());
            assert(self@ =~= old(self)@.insert(hash, display@));
        }
    }

    /// Learn `name` (trimmed) under its stable hash, unless it is blank or
    /// the hash already has a name.
    pub fn learn(&mut self, name: &str)
        ensures
            final(self)@ == learned(old(self)@, name@),
    {
        let t = trim(name);
        if t.as_str().is_empty() {
            proof {
                reveal(learned);
            }
            return;
        }
        let h = stable_hash(t.as_str());
        self.insert(h, &t);
        proof {
            reveal(learned);
        }
    }

    fn learn_owned(&mut self, name: String)
        ensures
            final(self)@ == learned(old(self)@, name@),
    {
        self.learn(name.as_str());
    }

    /// Learn the spawner names of creature `c` for spawn list index `i`.
    fn learn_spawner_slot(&mut self, c: &str, i: u64)
        ensures
            final(self)@ == learned_all(
                old(self)@,
                seq![seq!['b', '_'] + c@ + decimal(i as nat), seq!['e', '_'] + c@ + decimal(i as nat)],
            ),
    {
        let mut b = String::from_str("b_");
        proof {
            reveal_strlit("b_");
            reveal_strlit("e_");
        }
        b.append(c);
        push_decimal(&mut b, i);
        let mut e = String::from_str("e_");
        e.append(c);
        push_decimal(&mut e, i);
        let ghost bv = b@;
        let ghost ev = e@;
        self.learn_owned(b);
        proof {
            lemma_learned_all_push(old(self)@, seq![], bv);
            assert(seq![].push(bv) =~= seq![bv]);
        }
        let ghost m1 = self@;
        self.learn_owned(e);
        proof {
            lemma_learned_all_push(old(self)@, seq![bv], ev);
            assert(seq![bv].push(ev) =~= seq![bv, ev]);
            assert(bv =~= seq!['b', '_'] + c@ + decimal(i as nat));
            assert(ev =~= seq!['e', '_'] + c@ + decimal(i as nat));
        }
    }

    /// Learn the spawner keys of creature prefab `c`.
    fn learn_spawners(&mut self, c: &str)
        ensures
            final(self)@ == learned_all(old(self)@, spawner_forms(c@, SPAWNER_SLOTS as nat)),
    {
        let mut i: u64 = 0;
        while i < SPAWNER_SLOTS
            invariant
                i <= SPAWNER_SLOTS,
                self@ == learned_all(old(self)@, spawner_forms(c@, i as nat)),
            decreases SPAWNER_SLOTS - i,
        {
            self.learn_spawner_slot(c, i);
            proof {
                lemma_learned_all_append(
                    old(self)@,
                    spawner_forms(c@, i as nat),
                    seq![seq!['b', '_'] + c@ + decimal(i as nat), seq!['e', '_'] + c@ + decimal(i as nat)],
                );
            }
            i = i + 1;
        }
    }

    /// Learn the indexed forms of key `ks` for slot `i`.
    fn learn_key_slot(&mut self, ks: &str, i: u64)
        ensures
            final(self)@ == learned_all(
                old(self)@,
                seq![
                    decimal(i as nat) + seq!['_'] + ks@,
                    ks@ + seq!['_'] + decimal(i as nat),
                    ks@ + seq!['_', '_'] + decimal(i as nat),
                    ks@ + decimal(i as nat),
                ],
            ),
    {
        proof {
            reveal_strlit("_");
            reveal_strlit("__");
        }
        let mut a = String::new();
        push_decimal(&mut a, i);
        a.append("_");
        a.append(ks);
        let mut b = String::from_str(ks);
        b.append("_");
        push_decimal(&mut b, i);
        let mut c = String::from_str(ks);
        c.append("__");
        push_decimal(&mut c, i);
        let mut d = String::from_str(ks);
        push_decimal(&mut d, i);
        let ghost (av, bv, cv, dv) = (a@, b@, c@, d@);
        let ghost m = old(self)@;
        self.learn_owned(a);
        proof {
            lemma_learned_all_push(m, seq![], av);
            assert(seq![].push(av) =~= seq![av]);
        }
        self.learn_owned(b);
        proof {
            lemma_learned_all_push(m, seq![av], bv);
            assert(seq![av].push(bv) =~= seq![av, bv]);
        }
        self.learn_owned(c);
        proof {
            lemma_learned_all_push(m, seq![av, bv], cv);
            assert(seq![av, bv].push(cv) =~= seq![av, bv, cv]);
        }
        self.learn_owned(d);
        proof {
            lemma_learned_all_push(m, seq![av, bv, cv], dv);
            assert(seq![av, bv, cv].push(dv) =~= seq![av, bv, cv, dv]);
            let dn = decimal(i as nat);
            assert(av =~= dn + seq!['_'] + ks@);
            assert(bv =~= ks@ + seq!['_'] + dn);
            assert(cv =~= ks@ + seq!['_', '_'] + dn);
            assert(dv =~= ks@ + dn);
        }
    }

    /// Learn a property key plus the derived forms the game builds from it:
    /// ZDOID pairs (`key_u`, `key_i`), per-slot item data (`3_key`), and the
    /// bare `key + index` concatenation behind `"slot" + i` or
    /// `"drop_hash" + i`.
    pub fn learn_key(&mut self, key: &str)
        ensures
            final(self)@ == learned_key(old(self)@, key@),
    {
        let k = trim(key);
        if k.as_str().is_empty() {
            return;
        }
        let ks = k.as_str();
        proof {
            reveal_strlit("_u");
            reveal_strlit("_i");
            reveal_strlit("_");
            reveal_strlit("__");
        }
        self.learn(ks);
        proof {
            lemma_learned_all_push(old(self)@, seq![], k@);
            assert(seq![].push(k@) =~= seq![k@]);
        }
        let mut u = String::from_str(ks);
        u.append("_u");
        let ghost uv = u@;
        self.learn_owned(u);
        proof {
            lemma_learned_all_push(old(self)@, seq![k@], uv);
            assert(seq![k@].push(uv) =~= seq![k@, uv]);
        }
        let mut w = String::from_str(ks);
        w.append("_i");
        let ghost wv = w@;
        self.learn_owned(w);
        proof {
            lemma_learned_all_push(old(self)@, seq![k@, uv], wv);
            assert(seq![k@, uv].push(wv) =~= seq![k@, uv, wv]);
            assert(uv =~= k@ + seq!['_', 'u']);
            assert(wv =~= k@ + seq!['_', 'i']);
        }
        let ghost m0 = self@;
        let mut i: u64 = 0;
        while i < INDEXED_KEY_SLOTS
            invariant
                i <= INDEXED_KEY_SLOTS,
                ks@ == k@,
                self@ == learned_all(m0, slot_forms(k@, i as nat)),
            decreases INDEXED_KEY_SLOTS - i,
        {
            self.learn_key_slot(ks, i);
            proof {
                let dn = decimal(i as nat);
                let four = seq![dn + seq!['_'] + k@, k@ + seq!['_'] + dn, k@ + seq!['_', '_'] + dn, k@ + dn];
                lemma_learned_all_append(m0, slot_forms(k@, i as nat), four);
                assert(slot_forms(k@, (i + 1) as nat) == slot_forms(k@, i as nat) + four);
            }
            i = i + 1;
        }
        proof {
            lemma_learned_all_append(
                old(self)@,
                seq![k@, k@ + seq!['_', 'u'], k@ + seq!['_', 'i']],
                slot_forms(k@, INDEXED_KEY_SLOTS as nat),
            );
        }
    }

    /// The name of `hash`, when the table has one.
    pub fn resolve(&self, hash: i32) -> (r: Option<&str>)
        ensures
            match r {
                Some(s) => self@.contains_key(hash) && s@ == self@[hash],
                None => !self@.contains_key(hash),
            },
    {
        match self.names.get(&hash) {
            Some(s) => Some(s.as_str()),
            None => None,
        }
    }

    /// The name, or `#<hash>` when unknown.
    pub fn display(&self, hash: i32) -> (r: String)
        ensures
            r@ == display_of(self@, hash),
    {
        match self.resolve(hash) {
            Some(name) => String::from_str(name),
            None => {
                let mut s = String::from_str("#");
                proof {
                    reveal_strlit("#");
                }
                push_signed_decimal(&mut s, hash as i64);
                assert(s@ =~= display_of(self@, hash));
                s
            },
        }
    }
}

pub(crate) proof fn lemma_learned_all_push(m: Map<i32, Seq<char>>, p: Seq<Seq<char>>, x: Seq<char>)
    ensures
        learned_all(m, p.push(x)) == learned(learned_all(m, p), x),
{
    assert(p.push(x).drop_last() =~= p);
}

pub(crate) proof fn lemma_learned_all_append(m: Map<i32, Seq<char>>, a: Seq<Seq<char>>, b: Seq<Seq<char>>)
    ensures
        learned_all(m, a + b) == learned_all(learned_all(m, a), b),
    decreases b.len(),
{
    if b.len() == 0 {
        assert(a + b =~= a);
    } else {
        assert((a + b).drop_last() =~= a + b.drop_last());
        lemma_learned_all_append(m, a, b.drop_last());
    }
}

/// Learning a name that is already known changes nothing, and a learned
/// name resolves to the first name given for its hash.
pub proof fn lemma_learn_keeps_first(m: Map<i32, Seq<char>>, name: Seq<char>)
    ensures
        trimmed(name).len() > 0 ==> learned(m, name).contains_key(spec_stable_hash(trimmed(name))),
        m.contains_key(spec_stable_hash(trimmed(name))) ==> learned(m, name) == m,
        forall|h: i32| #[trigger] m.contains_key(h) ==> learned(m, name).contains_key(h) && learned(m, name)[h] == m[h],
{
    reveal(learned);
}

} // verus!
