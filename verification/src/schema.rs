//! Which ZDO keys each prefab may legitimately carry.
//!
//! Built from text tables: prefab -> the component classes on it; class ->
//! base class -> the keys it reads or writes; class -> key-name patterns for
//! keys built at run time such as `3_durability` or `slot2`; connection type
//! -> the classes allowed on each side; and the animator parameters.
//!
//! A key is *foreign* on a prefab when it is known to belong to some
//! component class and none of the prefab's components (or their base
//! classes) is one of them. Keys used only by non-component code and keys
//! that cannot be named are never foreign, which keeps modded data safe.

use vstd::prelude::*;
use vstd::hash_map::HashMapWithView;
use vstd::hash_set::HashSetWithView;
use vstd::std_specs::hash::obeys_key_model;
use crate::hash::{animator_hash, animator_key, spec_animator_hash, spec_animator_key, spec_stable_hash, stable_hash};
use crate::text::{chars_of, lines, lines_of, split_char, split_on, str_eq, trim, trimmed};

verus! {

broadcast use vstd::std_specs::hash::group_hash_axioms;

// ---------------------------------------------------------------- patterns

/// Whether `b` is an ASCII digit.
pub open spec fn is_digit(b: u8) -> bool {
    0x30 <= b <= 0x39
}

/// Whether pattern bytes `p` match all of `s`: `#` stands for one or more
/// ASCII digits, `*` for any bytes, anything else for itself.
pub open spec fn pat_match(p: Seq<u8>, s: Seq<u8>) -> bool
    decreases p.len(), s.len(),
{
    if p.len() == 0 {
        s.len() == 0
    } else if p[0] == 0x2a {
        pat_match(p.drop_first(), s) || (s.len() > 0 && pat_match(p, s.drop_first()))
    } else if p[0] == 0x23 {
        s.len() > 0 && is_digit(s[0]) && digits_then(p.drop_first(), s.drop_first())
    } else {
        s.len() > 0 && s[0] == p[0] && pat_match(p.drop_first(), s.drop_first())
    }
}

/// Whether `s` is zero or more ASCII digits followed by what `q` matches.
pub open spec fn digits_then(q: Seq<u8>, s: Seq<u8>) -> bool
    decreases q.len() + 1, s.len(),
{
    pat_match(q, s) || (s.len() > 0 && is_digit(s[0]) && digits_then(q, s.drop_first()))
}

/// Whether key-name pattern `p` matches the name `s`.
pub open spec fn pattern_matches(p: Seq<char>, s: Seq<char>) -> bool {
    pat_match(vstd::utf8::encode_utf8(p), vstd::utf8::encode_utf8(s))
}

/// A key-name pattern: `#` matches one or more ASCII digits, `*` anything.
pub struct Pattern(pub String);

fn match_from(p: &[u8], pi: usize, s: &[u8], si: usize) -> (r: bool)
    requires
        pi <= p@.len(),
        si <= s@.len(),
    ensures
        r == pat_match(p@.skip(pi as int), s@.skip(si as int)),
    decreases p@.len() - pi, s@.len() - si,
{
    let ghost pp = p@.skip(pi as int);
    let ghost ss = s@.skip(si as int);
    if pi == p.len() {
        return si == s.len();
    }
    assert(pp.drop_first() =~= p@.skip(pi + 1));
    assert(si < s@.len() ==> ss.drop_first() =~= s@.skip(si + 1));
    let c = p[pi];
    if c == 0x2a {
        if match_from(p, pi + 1, s, si) {
            true
        } else if si < s.len() {
            match_from(p, pi, s, si + 1)
        } else {
            false
        }
    } else if c == 0x23 {
        if si < s.len() && 0x30 <= s[si] && s[si] <= 0x39 {
            digits_then_from(p, pi + 1, s, si + 1)
        } else {
            false
        }
    } else {
        if si < s.len() && s[si] == c {
            match_from(p, pi + 1, s, si + 1)
        } else {
            false
        }
    }
}

fn digits_then_from(p: &[u8], pi: usize, s: &[u8], si: usize) -> (r: bool)
    requires
        pi <= p@.len(),
        si <= s@.len(),
    ensures
        r == digits_then(p@.skip(pi as int), s@.skip(si as int)),
    decreases p@.len() - pi + 1, s@.len() - si,
{
    let ghost ss = s@.skip(si as int);
    assert(si < s@.len() ==> ss.drop_first() =~= s@.skip(si + 1));
    if match_from(p, pi, s, si) {
        true
    } else if si < s.len() && 0x30 <= s[si] && s[si] <= 0x39 {
        digits_then_from(p, pi, s, si + 1)
    } else {
        false
    }
}

impl Pattern {
    /// Whether the pattern matches all of `name`.
    pub fn matches(&self, name: &str) -> (r: bool)
        ensures
            r == pattern_matches(self.0@, name@),
    {
        let p = self.0.as_str().as_bytes();
        let s = name.as_bytes();
        assert(p@.skip(0) =~= p@);
        assert(s@.skip(0) =~= s@);
        match_from(p, 0, s, 0)
    }
}

// ---------------------------------------------------------------- verdicts

/// Why a key or connection is acceptable (or not) on a prefab.
#[derive(Debug, PartialEq, Eq)]
pub enum Verdict {
    /// The prefab is not in the table; nothing can be said.
    UnknownPrefab,
    /// The key hash could not be named (or the connection type is not one
    /// this tool knows); nothing can be said.
    UnknownKey,
    /// The key is used by non-component code or a pattern that applies
    /// anywhere, or the connection side is unconstrained.
    Universal,
    /// One of the prefab's components uses this key or connection.
    Owned(String),
    /// Known key or connection, but only used by components the prefab lacks.
    Foreign(Vec<String>),
    /// Named key that no class in the table uses.
    Unattributed,
}

/// A verdict with its class names as character sequences.
pub enum VerdictView {
    UnknownPrefab,
    UnknownKey,
    Universal,
    Owned(Seq<char>),
    Foreign(Seq<Seq<char>>),
    Unattributed,
}

impl View for Verdict {
    type V = VerdictView;

    open spec fn view(&self) -> VerdictView {
        match self {
            Verdict::UnknownPrefab => VerdictView::UnknownPrefab,
            Verdict::UnknownKey => VerdictView::UnknownKey,
            Verdict::Universal => VerdictView::Universal,
            Verdict::Owned(s) => VerdictView::Owned(s@),
            Verdict::Foreign(v) => VerdictView::Foreign(v@.map_values(|s: String| s@)),
            Verdict::Unattributed => VerdictView::Unattributed,
        }
    }
}

// ---------------------------------------------------------------- the schema

struct Class {
    name: String,
    base: Option<usize>,
    /// Appears on at least one prefab, or is a base class of one that does.
    is_component: bool,
}

struct ConnectionSides {
    name: String,
    /// Classes allowed on the side that establishes the connection; empty
    /// when that side is unconstrained.
    source: Vec<usize>,
    /// Classes allowed on the side the connection points at.
    target: Vec<usize>,
}

/// The component and key tables.
pub struct Schema {
    /// prefab hash -> indices into `classes`
    prefabs: HashMapWithView<i32, Vec<usize>>,
    classes: Vec<Class>,
    /// key hash -> component classes that use it
    key_owners: HashMapWithView<i32, Vec<usize>>,
    /// keys used by a class that is never a component (allowed anywhere)
    universal_keys: HashSetWithView<i32>,
    /// (class index, pattern) for dynamically named keys
    patterns: Vec<(usize, Pattern)>,
    connections: Vec<ConnectionSides>,
    /// animator parameter keys, which are not name hashes
    anim_keys: HashSetWithView<i32>,
    anim_class: Option<usize>,
}


// ---------------------------------------------------------------- building

/// Every base index in `classes` is a class.
spec fn bases_wf(classes: Seq<Class>) -> bool {
    forall|c: int| 0 <= c < classes.len() ==> ((#[trigger] classes[c]).base matches Some(b) ==> b < classes.len())
}

/// Every index in `s` is below `n`.
spec fn all_below(s: Seq<usize>, n: nat) -> bool {
    forall|k: int| 0 <= k < s.len() ==> #[trigger] s[k] < n
}

/// Whether a table line carries data: not a `#` comment, not blank.
fn is_table_line(line: &str) -> (r: bool)
    ensures
        r == (!(line@.len() > 0 && line@[0] == '#') && trimmed(line@).len() > 0),
{
    let cs = chars_of(line);
    if cs.len() > 0 && cs[0] == '#' {
        return false;
    }
    let t = trim(line);
    !t.as_str().is_empty()
}

/// The index of the class named `name`, added at the end when new.
fn intern(classes: &mut Vec<Class>, name: &str) -> (i: usize)
    requires
        bases_wf(old(classes)@),
    ensures
        bases_wf(final(classes)@),
        i < final(classes)@.len(),
        final(classes)@[i as int].name@ == name@,
        old(classes)@.len() <= final(classes)@.len() <= old(classes)@.len() + 1,
        forall|k: int| 0 <= k < old(classes)@.len() ==> final(classes)@[k] == old(classes)@[k],
        final(classes)@.len() == old(classes)@.len() + 1 ==> !final(classes)@[i as int].is_component,
{
    let mut k: usize = 0;
    while k < classes.len()
        invariant
            k <= classes@.len(),
            classes@ == old(classes)@,
            bases_wf(old(classes)@),
        decreases classes@.len() - k,
    {
        if str_eq(classes[k].name.as_str(), name) {
            return k;
        }
        k = k + 1;
    }
    classes.push(Class { name: String::from_str(name), base: None, is_component: false });
    classes.len() - 1
}

/// Set the base class of `idx`.
fn set_base(classes: &mut Vec<Class>, idx: usize, b: usize)
    requires
        bases_wf(old(classes)@),
        idx < old(classes)@.len(),
        b < old(classes)@.len(),
    ensures
        bases_wf(final(classes)@),
        final(classes)@.len() == old(classes)@.len(),
        final(classes)@[idx as int].name@ == old(classes)@[idx as int].name@,
        final(classes)@[idx as int].base == Some(b),
        final(classes)@[idx as int].is_component == old(classes)@[idx as int].is_component,
        forall|k: int| 0 <= k < old(classes)@.len() && k != idx ==> #[trigger] final(classes)@[k] == old(classes)@[k],
{
    let name = classes[idx].name.clone();
    let comp = classes[idx].is_component;
    classes.set(idx, Class { name, base: Some(b), is_component: comp });
}

/// Mark class `idx` as a component.
fn set_component(classes: &mut Vec<Class>, idx: usize)
    requires
        bases_wf(old(classes)@),
        idx < old(classes)@.len(),
    ensures
        bases_wf(final(classes)@),
        final(classes)@.len() == old(classes)@.len(),
        final(classes)@[idx as int].name@ == old(classes)@[idx as int].name@,
        final(classes)@[idx as int].base == old(classes)@[idx as int].base,
        final(classes)@[idx as int].is_component,
        forall|k: int| 0 <= k < old(classes)@.len() && k != idx ==> #[trigger] final(classes)@[k] == old(classes)@[k],
{
    let name = classes[idx].name.clone();
    let base = classes[idx].base;
    classes.set(idx, Class { name, base, is_component: true });
}

/// The class -> base -> keys table: registers the classes and their bases,
/// and returns each class with its key names.
fn parse_class_keys(text: &str, classes: &mut Vec<Class>) -> (r: Vec<(usize, Vec<String>)>)
    requires
        bases_wf(old(classes)@),
    ensures
        bases_wf(final(classes)@),
        old(classes)@.len() <= final(classes)@.len(),
        forall|k: int| 0 <= k < r@.len() ==> #[trigger] r@[k].0 < final(classes)@.len(),
{
    let mut out: Vec<(usize, Vec<String>)> = Vec::new();
    let ls = lines(text);
    let mut j: usize = 0;
    while j < ls.len()
        invariant
            bases_wf(classes@),
            old(classes)@.len() <= classes@.len(),
            forall|k: int| 0 <= k < out@.len() ==> #[trigger] out@[k].0 < classes@.len(),
        decreases ls@.len() - j,
    {
        let line = ls[j].as_str();
        j = j + 1;
        if !is_table_line(line) {
            continue;
        }
        let parts = split_char(line, '\t');
        if parts.len() < 3 {
            continue;
        }
        let idx = intern(classes, parts[0].as_str());
        let base = parts[1].as_str();
        if base.as_bytes().len() > 0 && !str_eq(base, "MonoBehaviour") {
            let b = intern(classes, base);
            set_base(classes, idx, b);
        }
        out.push((idx, split_char(parts[2].as_str(), ',')));
    }
    out
}

/// Whether `b` extends `a`: the same classes with the same names and bases
/// first, every component still one.
spec fn grows(a: Seq<Class>, b: Seq<Class>) -> bool {
    &&& a.len() <= b.len()
    &&& forall|k: int|
        0 <= k < a.len() ==> (#[trigger] b[k]).name@ == a[k].name@ && b[k].base == a[k].base && (a[k].is_component
            ==> b[k].is_component)
}

/// Whether every class the prefab table lists is a component.
spec fn prefab_classes_components(prefabs: Map<i32, Vec<usize>>, classes: Seq<Class>) -> bool {
    forall|p: i32, k: int|
        prefabs.contains_key(p) && 0 <= k < prefabs[p]@.len() ==> #[trigger] classes[prefabs[p]@[k] as int].is_component
}

/// The prefab -> components table: registers each component class, marks
/// it a component, and maps the prefab's hash to its classes.
fn parse_prefabs(text: &str, classes: &mut Vec<Class>, prefabs: &mut HashMapWithView<i32, Vec<usize>>)
    requires
        bases_wf(old(classes)@),
        forall|p: i32| #[trigger] old(prefabs)@.contains_key(p) ==> all_below(old(prefabs)@[p]@, old(classes)@.len()),
    ensures
        bases_wf(final(classes)@),
        old(classes)@.len() <= final(classes)@.len(),
        forall|p: i32| #[trigger] final(prefabs)@.contains_key(p) ==> all_below(final(prefabs)@[p]@, final(classes)@.len()),
        forall|p: i32| old(prefabs)@.contains_key(p) ==> #[trigger] final(prefabs)@.contains_key(p),
        forall|k: int| 0 <= k < lines_of(text@).len() && table_row(lines_of(text@)[k], 2) ==> #[trigger] final(prefabs)@.contains_key(
            spec_stable_hash(split_on(lines_of(text@)[k], '\t')[0]),
        ),
        grows(old(classes)@, final(classes)@),
        prefab_classes_components(old(prefabs)@, old(classes)@) ==> prefab_classes_components(
            final(prefabs)@,
            final(classes)@,
        ),
{
    let ghost pc0 = prefab_classes_components(old(prefabs)@, old(classes)@);
    let ls = lines(text);
    let mut j: usize = 0;
    while j < ls.len()
        invariant
            bases_wf(classes@),
            old(classes)@.len() <= classes@.len(),
            ls@.len() == lines_of(text@).len(),
            forall|k: int| 0 <= k < ls@.len() ==> #[trigger] ls@[k]@ == lines_of(text@)[k],
            forall|p: i32| #[trigger] prefabs@.contains_key(p) ==> all_below(prefabs@[p]@, classes@.len()),
            forall|p: i32| old(prefabs)@.contains_key(p) ==> #[trigger] prefabs@.contains_key(p),
            forall|k: int| 0 <= k < j && table_row(lines_of(text@)[k], 2) ==> #[trigger] prefabs@.contains_key(
                spec_stable_hash(split_on(lines_of(text@)[k], '\t')[0]),
            ),
            grows(old(classes)@, classes@),
            pc0 == prefab_classes_components(old(prefabs)@, old(classes)@),
            pc0 ==> prefab_classes_components(prefabs@, classes@),
        decreases ls@.len() - j,
    {
        let line = ls[j].as_str();
        let ghost lv = line@;
        assert(lv == lines_of(text@)[j as int]);
        j = j + 1;
        if !is_table_line(line) {
            assert(!table_row(lv, 2));
            continue;
        }
        let parts = split_char(line, '\t');
        if parts.len() < 2 {
            continue;
        }
        let comps = split_char(parts[1].as_str(), ',');
        let mut idxs: Vec<usize> = Vec::new();
        let mut c: usize = 0;
        let ghost start = classes@;
        while c < comps.len()
            invariant
                bases_wf(classes@),
                old(classes)@.len() <= classes@.len(),
                all_below(idxs@, classes@.len()),
                forall|p: i32| #[trigger] prefabs@.contains_key(p) ==> all_below(prefabs@[p]@, classes@.len()),
                grows(old(classes)@, start),
                grows(start, classes@),
                forall|k: int| 0 <= k < idxs@.len() ==> #[trigger] classes@[idxs@[k] as int].is_component,
                pc0 ==> prefab_classes_components(prefabs@, start),
            decreases comps@.len() - c,
        {
            let name = comps[c].as_str();
            c = c + 1;
            if name.as_bytes().len() == 0 {
                continue;
            }
            let ghost c1 = classes@;
            let i = intern(classes, name);
            let ghost c2 = classes@;
            set_component(classes, i);
            idxs.push(i);
            proof {
                assert forall|k: int| 0 <= k < start.len() implies (#[trigger] classes@[k]).name@ == start[k].name@
                    && classes@[k].base == start[k].base && (start[k].is_component ==> classes@[k].is_component) by {
                    assert(c1[k].name@ == start[k].name@ && c1[k].base == start[k].base);
                    assert(c2[k] == c1[k]);
                    if k != i {
                        assert(classes@[k] == c2[k]);
                    }
                }
                assert forall|k: int| 0 <= k < idxs@.len() implies #[trigger] classes@[idxs@[k] as int].is_component by {
                    if k < idxs@.len() - 1 {
                        let x = idxs@[k] as int;
                        assert(c1[x].is_component);
                        assert(c2[x] == c1[x]);
                        if x != i {
                            assert(classes@[x] == c2[x]);
                        }
                    }
                }
            }
        }
        let h = stable_hash(parts[0].as_str());
        let ghost pbefore = prefabs@;
        prefabs.insert(h, idxs);
        proof {
            assert forall|k: int| 0 <= k < old(classes)@.len() implies (#[trigger] classes@[k]).name@ == old(
                classes,
            )@[k].name@ && classes@[k].base == old(classes)@[k].base && (old(classes)@[k].is_component
                ==> classes@[k].is_component) by {
                assert(start[k].name@ == old(classes)@[k].name@);
            }
            if pc0 {
                assert forall|p: i32, k: int|
                    prefabs@.contains_key(p) && 0 <= k < prefabs@[p]@.len() implies #[trigger] classes@[prefabs@[
                        p
                    ]@[k] as int].is_component by {
                    if p != h {
                        let x = pbefore[p]@[k] as int;
                        assert(start[x].is_component);
                        assert(classes@[x].is_component);
                    }
                }
            }
        }
    }
}


/// The class `s` base steps up from class `c`, `None` once the chain ends.
spec fn base_after(classes: Seq<Class>, c: int, s: nat) -> Option<usize>
    decreases s,
{
    if s == 0 {
        Some(c as usize)
    } else {
        match base_after(classes, c, (s - 1) as nat) {
            Some(x) => if x < classes.len() {
                classes[x as int].base
            } else {
                None
            },
            None => None,
        }
    }
}

/// Whether class `x` is a base, at some remove, of a component of `classes`.
spec fn base_of_component(classes: Seq<Class>, x: int) -> bool {
    exists|c: int, s: nat|
        0 <= c < classes.len() && classes[c].is_component && s >= 1 && #[trigger] base_after(classes, c, s) == Some(
            x as usize,
        )
}

/// Whether `a` and `b` name the same classes with the same bases.
spec fn same_classes(a: Seq<Class>, b: Seq<Class>) -> bool {
    &&& a.len() == b.len()
    &&& forall|k: int| 0 <= k < a.len() ==> (#[trigger] a[k]).name@ == b[k].name@ && a[k].base == b[k].base
}

proof fn lemma_base_after_add(classes: Seq<Class>, c: int, s1: nat, s2: nat, y: usize)
    requires
        base_after(classes, c, s1) == Some(y),
    ensures
        base_after(classes, c, s1 + s2) == base_after(classes, y as int, s2),
    decreases s2,
{
    if s2 > 0 {
        lemma_base_after_add(classes, c, s1, (s2 - 1) as nat, y);
        assert(base_after(classes, c, (s1 + s2) as nat) == match base_after(classes, c, (s1 + s2 - 1) as nat) {
            Some(x) => if x < classes.len() {
                classes[x as int].base
            } else {
                None
            },
            None => None,
        });
    }
}

proof fn lemma_base_after_ends(classes: Seq<Class>, c: int, s1: nat, s2: nat)
    requires
        base_after(classes, c, s1) is None,
        s1 <= s2,
    ensures
        base_after(classes, c, s2) is None,
    decreases s2,
{
    if s2 > s1 {
        lemma_base_after_ends(classes, c, s1, (s2 - 1) as nat);
    }
}

proof fn lemma_base_after_below(classes: Seq<Class>, c: int, s: nat)
    requires
        bases_wf(classes),
        s >= 1,
    ensures
        base_after(classes, c, s) matches Some(x) ==> x < classes.len(),
{
    match base_after(classes, c, (s - 1) as nat) {
        Some(x) => if x < classes.len() {
            assert(classes[x as int].base matches Some(b) ==> b < classes.len());
        },
        None => {},
    }
}

/// Of `n + 1` values below `n`, two are equal.
proof fn lemma_pigeon(g: spec_fn(int) -> int, a: int, n: nat)
    requires
        forall|t: int| a <= t <= a + n ==> 0 <= #[trigger] g(t) < n,
    ensures
        exists|i: int, j: int| a <= i < j <= a + n && #[trigger] g(i) == #[trigger] g(j),
    decreases n,
{
    if n == 0 {
        assert(a <= a && a <= a + n);
        assert(0 <= g(a) < n);
    } else {
        let v = g(a + n);
        if exists|t: int| a <= t < a + n && #[trigger] g(t) == v {
            let t = choose|t: int| a <= t < a + n && #[trigger] g(t) == v;
            assert(g(t) == g(a + n));
        } else {
            let h = |t: int|
                if g(t) > v {
                    g(t) - 1
                } else {
                    g(t)
                };
            assert forall|t: int| a <= t <= a + (n - 1) implies 0 <= #[trigger] h(t) < n - 1 by {
                assert(g(t) != v);
                assert(0 <= g(t) < n);
            }
            lemma_pigeon(h, a, (n - 1) as nat);
            let (i, j) = choose|i: int, j: int| a <= i < j <= a + (n - 1) && #[trigger] h(i) == #[trigger] h(j);
            assert(g(i) != v && g(j) != v);
        }
    }
}

/// A base reached in any number of steps is reached in at most as many
/// steps as there are classes.
proof fn lemma_base_after_short(classes: Seq<Class>, c: int, s: nat)
    requires
        bases_wf(classes),
        0 <= c < classes.len(),
        s >= 1,
        base_after(classes, c, s) is Some,
    ensures
        exists|t: nat| 1 <= t <= classes.len() && #[trigger] base_after(classes, c, t) == base_after(classes, c, s),
    decreases s,
{
    let n = classes.len();
    if s <= n {
        assert(base_after(classes, c, s) == base_after(classes, c, s));
    } else {
        let g = |t: int| base_after(classes, c, t as nat)->0 as int;
        assert forall|t: int| 1 <= t <= 1 + n implies 0 <= #[trigger] g(t) < n by {
            if base_after(classes, c, t as nat) is None {
                lemma_base_after_ends(classes, c, t as nat, s);
            }
            lemma_base_after_below(classes, c, t as nat);
        }
        lemma_pigeon(g, 1, n);
        let (i, j) = choose|i: int, j: int| 1 <= i < j <= 1 + n && #[trigger] g(i) == #[trigger] g(j);
        if base_after(classes, c, i as nat) is None {
            lemma_base_after_ends(classes, c, i as nat, s);
        }
        if base_after(classes, c, j as nat) is None {
            lemma_base_after_ends(classes, c, j as nat, s);
        }
        let y = base_after(classes, c, j as nat)->0;
        assert(base_after(classes, c, i as nat) == Some(y));
        let u = (s - j) as nat;
        lemma_base_after_add(classes, c, j as nat, u, y);
        lemma_base_after_add(classes, c, i as nat, u, y);
        assert(j as nat + u == s);
        let s2 = (i + u) as nat;
        lemma_base_after_short(classes, c, s2);
    }
}

/// Classes added after `a`'s leave its base chains as they were.
proof fn lemma_base_after_prefix(a: Seq<Class>, b: Seq<Class>, c: int, s: nat)
    requires
        bases_wf(a),
        0 <= c < a.len(),
        a.len() <= b.len(),
        forall|k: int| 0 <= k < a.len() ==> (#[trigger] b[k]).base == a[k].base,
    ensures
        base_after(b, c, s) == base_after(a, c, s),
        base_after(a, c, s) matches Some(x) ==> x < a.len(),
    decreases s,
{
    if s > 0 {
        lemma_base_after_prefix(a, b, c, (s - 1) as nat);
        lemma_base_after_below(a, c, s);
        match base_after(a, c, (s - 1) as nat) {
            Some(x) => {
                assert(b[x as int].base == a[x as int].base);
            },
            None => {},
        }
    }
}

/// A base class of a component counts as a component too. Each chain is
/// followed no further than the number of classes.
fn mark_bases(classes: &mut Vec<Class>)
    requires
        bases_wf(old(classes)@),
    ensures
        bases_wf(final(classes)@),
        final(classes)@.len() == old(classes)@.len(),
        same_classes(final(classes)@, old(classes)@),
        forall|k: int| 0 <= k < old(classes)@.len() && old(classes)@[k].is_component ==> #[trigger] final(classes)@[k].is_component,
        forall|c: int, s: nat|
            0 <= c < old(classes)@.len() && old(classes)@[c].is_component && 1 <= s <= old(classes)@.len() && #[trigger] base_after(
                old(classes)@,
                c,
                s,
            ) is Some ==> final(classes)@[base_after(old(classes)@, c, s)->0 as int].is_component,
        forall|k: int|
            0 <= k < old(classes)@.len() && #[trigger] final(classes)@[k].is_component ==> old(classes)@[k].is_component
                || base_of_component(old(classes)@, k),
        forall|c: int, s: nat|
            0 <= c < old(classes)@.len() && old(classes)@[c].is_component && 1 <= s && #[trigger] base_after(
                old(classes)@,
                c,
                s,
            ) is Some ==> final(classes)@[base_after(old(classes)@, c, s)->0 as int].is_component,
{
    let ghost start = classes@;
    let n = classes.len();
    let mut i: usize = 0;
    while i < n
        invariant
            bases_wf(classes@),
            classes@.len() == n,
            start == old(classes)@,
            bases_wf(start),
            n == start.len(),
            i <= n,
            same_classes(classes@, start),
            forall|k: int| 0 <= k < n && start[k].is_component ==> #[trigger] classes@[k].is_component,
            forall|c: int, s: nat|
                0 <= c < i && start[c].is_component && 1 <= s <= n && #[trigger] base_after(start, c, s) is Some
                    ==> classes@[base_after(start, c, s)->0 as int].is_component,
            forall|k: int|
                0 <= k < n && #[trigger] classes@[k].is_component ==> start[k].is_component || base_of_component(
                    start,
                    k,
                ),
        decreases n - i,
    {
        if classes[i].is_component {
            let ghost from = classes@;
            let ghost top_old = start[i as int].is_component;
            let mut b = classes[i].base;
            let mut fuel = n;
            proof {
                reveal_with_fuel(base_after, 2);
                assert(base_after(start, i as int, 1) == start[i as int].base);
            }
            while fuel > 0
                invariant
                    bases_wf(classes@),
                    classes@.len() == n,
                    n == start.len(),
                    i < n,
                    fuel <= n,
                    bases_wf(start),
                    same_classes(classes@, start),
                    classes@[i as int].is_component,
                    top_old == start[i as int].is_component,
                    top_old || base_of_component(start, i as int),
                    b == base_after(start, i as int, (n - fuel + 1) as nat),
                    b matches Some(x) ==> x < n,
                    forall|k: int| 0 <= k < n && #[trigger] from[k].is_component ==> classes@[k].is_component,
                    forall|k: int| 0 <= k < n && start[k].is_component ==> #[trigger] classes@[k].is_component,
                    forall|c: int, s: nat|
                        0 <= c < i && start[c].is_component && 1 <= s <= n && #[trigger] base_after(start, c, s) is Some
                            ==> classes@[base_after(start, c, s)->0 as int].is_component,
                    forall|s: nat|
                        1 <= s <= n - fuel && #[trigger] base_after(start, i as int, s) is Some
                            ==> classes@[base_after(start, i as int, s)->0 as int].is_component,
                    forall|k: int|
                        0 <= k < n && #[trigger] classes@[k].is_component ==> start[k].is_component
                            || base_of_component(start, k),
                ensures
                    bases_wf(classes@),
                    classes@.len() == n,
                    same_classes(classes@, start),
                    forall|k: int| 0 <= k < n && start[k].is_component ==> #[trigger] classes@[k].is_component,
                    forall|c: int, s: nat|
                        0 <= c < i && start[c].is_component && 1 <= s <= n && #[trigger] base_after(start, c, s) is Some
                            ==> classes@[base_after(start, c, s)->0 as int].is_component,
                    forall|s: nat|
                        1 <= s <= n && #[trigger] base_after(start, i as int, s) is Some
                            ==> classes@[base_after(start, i as int, s)->0 as int].is_component,
                    forall|k: int|
                        0 <= k < n && #[trigger] classes@[k].is_component ==> start[k].is_component
                            || base_of_component(start, k),
                decreases fuel,
            {
                match b {
                    None => {
                        proof {
                            assert forall|s: nat|
                                1 <= s <= n && #[trigger] base_after(start, i as int, s) is Some
                                    implies classes@[base_after(start, i as int, s)->0 as int].is_component by {
                                if s > n - fuel {
                                    lemma_base_after_ends(start, i as int, (n - fuel + 1) as nat, s);
                                }
                            }
                        }
                        break;
                    },
                    Some(bi) => {
                        let ghost t = (n - fuel + 1) as nat;
                        let ghost before = classes@;
                        proof {
                            if top_old {
                                assert(base_after(start, i as int, t) == Some(bi));
                                assert(base_of_component(start, bi as int));
                            } else {
                                let (c, s0) = choose|c: int, s0: nat|
                                    0 <= c < start.len() && start[c].is_component && s0 >= 1 && #[trigger] base_after(
                                        start,
                                        c,
                                        s0,
                                    ) == Some(i as usize);
                                lemma_base_after_add(start, c, s0, t, i);
                                assert(base_after(start, c, s0 + t) == Some(bi));
                                assert(base_of_component(start, bi as int));
                            }
                        }
                        set_component(classes, bi);
                        proof {
                            assert forall|k: int| 0 <= k < n && before[k].is_component implies #[trigger] classes@[k].is_component by {
                                if k != bi {
                                    assert(classes@[k] == before[k]);
                                }
                            }
                            assert forall|s: nat|
                                1 <= s <= n - fuel + 1 && #[trigger] base_after(start, i as int, s) is Some
                                    implies classes@[base_after(start, i as int, s)->0 as int].is_component by {
                                lemma_base_after_below(start, i as int, s);
                                if s < t {
                                    assert(before[base_after(start, i as int, s)->0 as int].is_component);
                                }
                            }
                            assert forall|c: int, s: nat|
                                0 <= c < i && start[c].is_component && 1 <= s <= n && #[trigger] base_after(start, c, s) is Some
                                    implies classes@[base_after(start, c, s)->0 as int].is_component by {
                                lemma_base_after_below(start, c, s);
                                assert(before[base_after(start, c, s)->0 as int].is_component);
                            }
                            assert forall|k: int|
                                0 <= k < n && #[trigger] classes@[k].is_component implies start[k].is_component
                                    || base_of_component(start, k) by {
                                if k != bi {
                                    assert(classes@[k] == before[k]);
                                }
                            }
                            assert(same_classes(classes@, start)) by {
                                assert forall|k: int| 0 <= k < classes@.len() implies (#[trigger] classes@[k]).name@
                                    == start[k].name@ && classes@[k].base == start[k].base by {
                                    if k != bi {
                                        assert(classes@[k] == before[k]);
                                    }
                                    assert(before[k].name@ == start[k].name@);
                                }
                            }
                            assert(base_after(start, i as int, t + 1) == start[bi as int].base);
                        }
                        b = classes[bi].base;
                        fuel = fuel - 1;
                    },
                }
            }
        } else {
            proof {
                assert(!start[i as int].is_component);
            }
        }
        i = i + 1;
    }
    proof {
        assert forall|c: int, s: nat|
            0 <= c < start.len() && start[c].is_component && 1 <= s <= start.len() && #[trigger] base_after(
                start,
                c,
                s,
            ) is Some implies classes@[base_after(start, c, s)->0 as int].is_component by {}
        assert forall|c: int, s: nat|
            0 <= c < start.len() && start[c].is_component && 1 <= s && #[trigger] base_after(start, c, s) is Some
                implies classes@[base_after(start, c, s)->0 as int].is_component by {
            lemma_base_after_short(start, c, s);
            let t = choose|t: nat| 1 <= t <= start.len() && #[trigger] base_after(start, c, t) == base_after(start, c, s);
            assert(base_after(start, c, t) is Some);
        }
    }
}

/// The owner lists of a key table as plain values.
spec fn owner_lists(m: Map<i32, Vec<usize>>) -> Map<i32, Seq<usize>> {
    m.map_values(|v: Vec<usize>| v@)
}

/// `m` with class `idx` listed last among the owners of key hash `h`.
spec fn add_owner(m: Map<i32, Seq<usize>>, h: i32, idx: usize) -> Map<i32, Seq<usize>> {
    m.insert(
        h,
        if m.contains_key(h) {
            m[h].push(idx)
        } else {
            seq![idx]
        },
    )
}

/// The owner lists after the first `n` key names of class `idx`: when the
/// class is a component, each name's hash gains it as an owner.
spec fn owners_after_row(m: Map<i32, Seq<usize>>, idx: usize, keys: Seq<String>, comp: bool, n: nat) -> Map<
    i32,
    Seq<usize>,
>
    decreases n,
{
    if n == 0 {
        m
    } else {
        let p = owners_after_row(m, idx, keys, comp, (n - 1) as nat);
        if comp {
            add_owner(p, spec_stable_hash(keys[n - 1]@), idx)
        } else {
            p
        }
    }
}

/// The universal keys after the first `n` key names of a class: when it is
/// no component, each name's hash is universal.
spec fn universal_after_row(u: Set<i32>, keys: Seq<String>, comp: bool, n: nat) -> Set<i32>
    decreases n,
{
    if n == 0 {
        u
    } else {
        let p = universal_after_row(u, keys, comp, (n - 1) as nat);
        if comp {
            p
        } else {
            p.insert(spec_stable_hash(keys[n - 1]@))
        }
    }
}

/// The owner lists after the first `j` rows of `class_keys`.
spec fn owners_after(m: Map<i32, Seq<usize>>, class_keys: Seq<(usize, Vec<String>)>, classes: Seq<Class>, j: nat) -> Map<
    i32,
    Seq<usize>,
>
    decreases j,
{
    if j == 0 {
        m
    } else {
        let r = class_keys[j - 1];
        owners_after_row(
            owners_after(m, class_keys, classes, (j - 1) as nat),
            r.0,
            r.1@,
            classes[r.0 as int].is_component,
            r.1@.len(),
        )
    }
}

/// The universal keys after the first `j` rows of `class_keys`.
spec fn universal_after(u: Set<i32>, class_keys: Seq<(usize, Vec<String>)>, classes: Seq<Class>, j: nat) -> Set<i32>
    decreases j,
{
    if j == 0 {
        u
    } else {
        let r = class_keys[j - 1];
        universal_after_row(
            universal_after(u, class_keys, classes, (j - 1) as nat),
            r.1@,
            classes[r.0 as int].is_component,
            r.1@.len(),
        )
    }
}

/// Sort each class's keys by hash: a component's keys into `key_owners`,
/// any other class's into `universal`.
fn collect_keys(
    class_keys: &Vec<(usize, Vec<String>)>,
    classes: &Vec<Class>,
    key_owners: &mut HashMapWithView<i32, Vec<usize>>,
    universal: &mut HashSetWithView<i32>,
)
    requires
        forall|k: int| 0 <= k < class_keys@.len() ==> #[trigger] class_keys@[k].0 < classes@.len(),
        forall|h: i32| #[trigger] old(key_owners)@.contains_key(h) ==> all_below(old(key_owners)@[h]@, classes@.len()),
    ensures
        forall|h: i32| #[trigger] final(key_owners)@.contains_key(h) ==> all_below(final(key_owners)@[h]@, classes@.len()),
        owner_lists(final(key_owners)@) == owners_after(
            owner_lists(old(key_owners)@),
            class_keys@,
            classes@,
            class_keys@.len(),
        ),
        final(universal)@ == universal_after(old(universal)@, class_keys@, classes@, class_keys@.len()),
{
    let mut j: usize = 0;
    while j < class_keys.len()
        invariant
            j <= class_keys@.len(),
            forall|k: int| 0 <= k < class_keys@.len() ==> #[trigger] class_keys@[k].0 < classes@.len(),
            forall|h: i32| #[trigger] key_owners@.contains_key(h) ==> all_below(key_owners@[h]@, classes@.len()),
            owner_lists(key_owners@) == owners_after(owner_lists(old(key_owners)@), class_keys@, classes@, j as nat),
            universal@ == universal_after(old(universal)@, class_keys@, classes@, j as nat),
        decreases class_keys@.len() - j,
    {
        let idx = class_keys[j].0;
        let keys = &class_keys[j].1;
        let comp = classes[idx].is_component;
        let ghost m0 = owner_lists(key_owners@);
        let ghost u0 = universal@;
        let mut k: usize = 0;
        while k < keys.len()
            invariant
                k <= keys@.len(),
                idx < classes@.len(),
                forall|h: i32| #[trigger] key_owners@.contains_key(h) ==> all_below(key_owners@[h]@, classes@.len()),
                owner_lists(key_owners@) == owners_after_row(m0, idx, keys@, comp, k as nat),
                universal@ == universal_after_row(u0, keys@, comp, k as nat),
            decreases keys@.len() - k,
        {
            let h = stable_hash(keys[k].as_str());
            let ghost prev = key_owners@;
            if comp {
                let mut list = match key_owners.remove(&h) {
                    Some(v) => v,
                    None => Vec::new(),
                };
                list.push(idx);
                key_owners.insert(h, list);
                proof {
                    assert(key_owners@ == prev.insert(h, list));
                    assert(owner_lists(key_owners@) =~= add_owner(owner_lists(prev), h, idx));
                }
            } else {
                universal.insert(h);
            }
            k = k + 1;
        }
        j = j + 1;
    }
}

/// The last of `ls.take(j + 1)` is `ls[j]`, and the rest is `ls.take(j)`.
proof fn lemma_take_one_more<A>(ls: Seq<A>, j: int)
    requires
        0 <= j < ls.len(),
    ensures
        ls.take(j + 1).drop_last() == ls.take(j),
        ls.take(j + 1).last() == ls[j],
{
    assert(ls.take(j + 1).drop_last() =~= ls.take(j));
}

/// The rows of a class -> key-name pattern table: for each data line with
/// at least two tab-separated fields, the class name and the trimmed
/// pattern, in order.
pub open spec fn pattern_rows(ls: Seq<Seq<char>>) -> Seq<(Seq<char>, Seq<char>)>
    decreases ls.len(),
{
    if ls.len() == 0 {
        seq![]
    } else {
        let p = pattern_rows(ls.drop_last());
        let l = ls.last();
        if table_row(l, 2) {
            p.push((split_on(l, '\t')[0], trimmed(split_on(l, '\t')[1])))
        } else {
            p
        }
    }
}

/// The class -> key-name pattern table.
fn parse_patterns(text: &str, classes: &mut Vec<Class>, patterns: &mut Vec<(usize, Pattern)>)
    requires
        bases_wf(old(classes)@),
        forall|k: int| 0 <= k < old(patterns)@.len() ==> (#[trigger] old(patterns)@[k]).0 < old(classes)@.len(),
    ensures
        bases_wf(final(classes)@),
        old(classes)@.len() <= final(classes)@.len(),
        forall|k: int| 0 <= k < final(patterns)@.len() ==> (#[trigger] final(patterns)@[k]).0 < final(classes)@.len(),
        forall|k: int| 0 <= k < old(classes)@.len() ==> #[trigger] final(classes)@[k] == old(classes)@[k],
        final(patterns)@.len() == old(patterns)@.len() + pattern_rows(lines_of(text@)).len(),
        forall|k: int| 0 <= k < old(patterns)@.len() ==> #[trigger] final(patterns)@[k] == old(patterns)@[k],
        forall|k: int|
            0 <= k < pattern_rows(lines_of(text@)).len() ==> {
                &&& final(classes)@[(#[trigger] final(patterns)@[old(patterns)@.len() + k]).0 as int].name@
                    == pattern_rows(lines_of(text@))[k].0
                &&& final(patterns)@[old(patterns)@.len() + k].1.0@ == pattern_rows(lines_of(text@))[k].1
            },
{
    let ghost all = lines_of(text@);
    let ghost n0 = old(patterns)@.len();
    let ls = lines(text);
    let mut j: usize = 0;
    while j < ls.len()
        invariant
            j <= ls@.len(),
            ls@.len() == all.len(),
            all == lines_of(text@),
            n0 == old(patterns)@.len(),
            forall|k: int| 0 <= k < ls@.len() ==> #[trigger] ls@[k]@ == all[k],
            bases_wf(classes@),
            old(classes)@.len() <= classes@.len(),
            forall|k: int| 0 <= k < patterns@.len() ==> (#[trigger] patterns@[k]).0 < classes@.len(),
            forall|k: int| 0 <= k < old(classes)@.len() ==> #[trigger] classes@[k] == old(classes)@[k],
            patterns@.len() == n0 + pattern_rows(all.take(j as int)).len(),
            forall|k: int| 0 <= k < n0 ==> #[trigger] patterns@[k] == old(patterns)@[k],
            forall|k: int|
                0 <= k < pattern_rows(all.take(j as int)).len() ==> {
                    &&& classes@[(#[trigger] patterns@[n0 + k]).0 as int].name@ == pattern_rows(all.take(j as int))[k].0
                    &&& patterns@[n0 + k].1.0@ == pattern_rows(all.take(j as int))[k].1
                },
        decreases ls@.len() - j,
    {
        let line = ls[j].as_str();
        proof {
            lemma_take_one_more(all, j as int);
        }
        let ghost l = all[j as int];
        let ghost rows = pattern_rows(all.take(j as int));
        assert(line@ == l);
        j = j + 1;
        if !is_table_line(line) {
            assert(pattern_rows(all.take(j as int)) == rows);
            continue;
        }
        let parts = split_char(line, '\t');
        if parts.len() < 2 {
            assert(pattern_rows(all.take(j as int)) == rows);
            continue;
        }
        let ghost before = classes@;
        let ghost pbefore = patterns@;
        let idx = intern(classes, parts[0].as_str());
        patterns.push((idx, Pattern(trim(parts[1].as_str()))));
        proof {
            let rows2 = pattern_rows(all.take(j as int));
            assert(rows2 == rows.push((split_on(l, '\t')[0], trimmed(split_on(l, '\t')[1]))));
            assert forall|k: int| 0 <= k < rows2.len() implies {
                &&& classes@[(#[trigger] patterns@[n0 + k]).0 as int].name@ == rows2[k].0
                &&& patterns@[n0 + k].1.0@ == rows2[k].1
            } by {
                if k < rows.len() {
                    assert(patterns@[n0 + k] == pbefore[n0 + k]);
                    assert(classes@[pbefore[n0 + k].0 as int] == before[pbefore[n0 + k].0 as int]);
                }
            }
        }
    }
    proof {
        assert(all.take(all.len() as int) =~= all);
    }
}

/// The class names a comma-separated list gives: each item trimmed, blank
/// ones skipped, in order.
pub open spec fn listed_names(items: Seq<Seq<char>>) -> Seq<Seq<char>>
    decreases items.len(),
{
    if items.len() == 0 {
        seq![]
    } else {
        let p = listed_names(items.drop_last());
        let t = trimmed(items.last());
        if t.len() > 0 {
            p.push(t)
        } else {
            p
        }
    }
}

/// Class indices as the names of those classes.
spec fn names_of(idxs: Seq<usize>, classes: Seq<Class>) -> Seq<Seq<char>> {
    idxs.map_values(|i: usize| classes[i as int].name@)
}

/// Indices below `a.len()` name the same classes in `b`, which extends `a`.
proof fn lemma_names_of_grown(idxs: Seq<usize>, a: Seq<Class>, b: Seq<Class>)
    requires
        all_below(idxs, a.len()),
        a.len() <= b.len(),
        forall|k: int| 0 <= k < a.len() ==> #[trigger] b[k] == a[k],
    ensures
        names_of(idxs, b) == names_of(idxs, a),
{
    assert forall|k: int| 0 <= k < idxs.len() implies #[trigger] names_of(idxs, b)[k] == names_of(idxs, a)[k] by {
        assert(b[idxs[k] as int] == a[idxs[k] as int]);
    }
    assert(names_of(idxs, b) =~= names_of(idxs, a));
}

/// The classes named in a comma-separated list, blanks skipped.
fn classes_of(list: &str, classes: &mut Vec<Class>) -> (r: Vec<usize>)
    requires
        bases_wf(old(classes)@),
    ensures
        bases_wf(final(classes)@),
        old(classes)@.len() <= final(classes)@.len(),
        all_below(r@, final(classes)@.len()),
        forall|k: int| 0 <= k < old(classes)@.len() ==> #[trigger] final(classes)@[k] == old(classes)@[k],
        names_of(r@, final(classes)@) == listed_names(split_on(list@, ',')),
{
    let ghost items = split_on(list@, ',');
    let names = split_char(list, ',');
    let mut out: Vec<usize> = Vec::new();
    let mut k: usize = 0;
    while k < names.len()
        invariant
            k <= names@.len(),
            names@.len() == items.len(),
            items == split_on(list@, ','),
            forall|q: int| 0 <= q < names@.len() ==> #[trigger] names@[q]@ == items[q],
            bases_wf(classes@),
            old(classes)@.len() <= classes@.len(),
            all_below(out@, classes@.len()),
            forall|q: int| 0 <= q < old(classes)@.len() ==> #[trigger] classes@[q] == old(classes)@[q],
            names_of(out@, classes@) == listed_names(items.take(k as int)),
        decreases names@.len() - k,
    {
        let t = trim(names[k].as_str());
        proof {
            lemma_take_one_more(items, k as int);
        }
        k = k + 1;
        if t.as_str().is_empty() {
            assert(listed_names(items.take(k as int)) == listed_names(items.take(k - 1)));
            continue;
        }
        let ghost before = classes@;
        let ghost obefore = out@;
        let i = intern(classes, t.as_str());
        out.push(i);
        proof {
            lemma_names_of_grown(obefore, before, classes@);
            assert(names_of(out@, classes@) =~= names_of(obefore, classes@).push(t@));
        }
    }
    proof {
        assert(items.take(items.len() as int) =~= items);
    }
    out
}

/// A connection row as names: the type, then the source and target class
/// names.
spec fn conn_view(c: ConnectionSides, classes: Seq<Class>) -> (Seq<char>, Seq<Seq<char>>, Seq<Seq<char>>) {
    (c.name@, names_of(c.source@, classes), names_of(c.target@, classes))
}

/// The connection rows of `cs` as names.
spec fn conn_views(cs: Seq<ConnectionSides>, classes: Seq<Class>) -> Seq<(Seq<char>, Seq<Seq<char>>, Seq<Seq<char>>)> {
    cs.map_values(|c: ConnectionSides| conn_view(c, classes))
}

/// `cs` with row `e` in place of the row of the same type, or added last
/// when there is none.
pub open spec fn upsert_conn(
    cs: Seq<(Seq<char>, Seq<Seq<char>>, Seq<Seq<char>>)>,
    e: (Seq<char>, Seq<Seq<char>>, Seq<Seq<char>>),
) -> Seq<(Seq<char>, Seq<Seq<char>>, Seq<Seq<char>>)> {
    if exists|k: int| 0 <= k < cs.len() && #[trigger] cs[k].0 == e.0 {
        cs.update(choose|k: int| 0 <= k < cs.len() && #[trigger] cs[k].0 == e.0, e)
    } else {
        cs.push(e)
    }
}

/// The connection table `cs` after the lines `ls` of a connection type ->
/// (source classes, target classes) table: each data line with at least
/// three tab-separated fields gives a row, and a type named again takes
/// the later row.
pub open spec fn conn_table(
    cs: Seq<(Seq<char>, Seq<Seq<char>>, Seq<Seq<char>>)>,
    ls: Seq<Seq<char>>,
) -> Seq<(Seq<char>, Seq<Seq<char>>, Seq<Seq<char>>)>
    decreases ls.len(),
{
    if ls.len() == 0 {
        cs
    } else {
        let p = conn_table(cs, ls.drop_last());
        let l = ls.last();
        if table_row(l, 3) {
            let f = split_on(l, '\t');
            upsert_conn(p, (trimmed(f[0]), listed_names(split_on(f[1], ',')), listed_names(split_on(f[2], ','))))
        } else {
            p
        }
    }
}

/// Rows whose classes lie below `a.len()` read the same against `b`, which
/// extends `a`.
proof fn lemma_conn_views_grown(cs: Seq<ConnectionSides>, a: Seq<Class>, b: Seq<Class>)
    requires
        conns_wf(cs, a.len()),
        a.len() <= b.len(),
        forall|k: int| 0 <= k < a.len() ==> #[trigger] b[k] == a[k],
    ensures
        conn_views(cs, b) == conn_views(cs, a),
{
    assert forall|k: int| 0 <= k < cs.len() implies #[trigger] conn_views(cs, b)[k] == conn_views(cs, a)[k] by {
        assert(all_below(cs[k].source@, a.len()));
        assert(all_below(cs[k].target@, a.len()));
        lemma_names_of_grown(cs[k].source@, a, b);
        lemma_names_of_grown(cs[k].target@, a, b);
    }
    assert(conn_views(cs, b) =~= conn_views(cs, a));
}

/// The connection type -> (source classes, target classes) table. A type
/// named twice keeps its last row.
#[verifier::spinoff_prover]
#[verifier::rlimit(40)]
fn parse_connections(text: &str, classes: &mut Vec<Class>, conns: &mut Vec<ConnectionSides>)
    requires
        bases_wf(old(classes)@),
        conns_wf(old(conns)@, old(classes)@.len()),
    ensures
        bases_wf(final(classes)@),
        old(classes)@.len() <= final(classes)@.len(),
        conns_wf(final(conns)@, final(classes)@.len()),
        forall|k: int| 0 <= k < old(classes)@.len() ==> #[trigger] final(classes)@[k] == old(classes)@[k],
        conn_views(final(conns)@, final(classes)@) == conn_table(
            conn_views(old(conns)@, old(classes)@),
            lines_of(text@),
        ),
{
    let ghost all = lines_of(text@);
    let ghost cv0 = conn_views(old(conns)@, old(classes)@);
    let ls = lines(text);
    let mut j: usize = 0;
    while j < ls.len()
        invariant
            j <= ls@.len(),
            ls@.len() == all.len(),
            all == lines_of(text@),
            forall|k: int| 0 <= k < ls@.len() ==> #[trigger] ls@[k]@ == all[k],
            bases_wf(classes@),
            old(classes)@.len() <= classes@.len(),
            conns_wf(conns@, classes@.len()),
            forall|k: int| 0 <= k < old(classes)@.len() ==> #[trigger] classes@[k] == old(classes)@[k],
            cv0 == conn_views(old(conns)@, old(classes)@),
            conn_views(conns@, classes@) == conn_table(cv0, all.take(j as int)),
        decreases ls@.len() - j,
    {
        let line = ls[j].as_str();
        proof {
            lemma_take_one_more(all, j as int);
        }
        let ghost l = all[j as int];
        let ghost prev = conn_table(cv0, all.take(j as int));
        assert(line@ == l);
        j = j + 1;
        if !is_table_line(line) {
            assert(conn_table(cv0, all.take(j as int)) == prev);
            continue;
        }
        let parts = split_char(line, '\t');
        if parts.len() < 3 {
            assert(conn_table(cv0, all.take(j as int)) == prev);
            continue;
        }
        let ghost c0 = classes@;
        let source = classes_of(parts[1].as_str(), classes);
        let ghost c1 = classes@;
        let target = classes_of(parts[2].as_str(), classes);
        let name = trim(parts[0].as_str());
        proof {
            lemma_names_of_grown(source@, c1, classes@);
            lemma_conn_views_grown(conns@, c0, c1);
            lemma_conn_views_grown(conns@, c1, classes@);
        }
        let ghost e = (name@, names_of(source@, classes@), names_of(target@, classes@));
        assert(e == (
            trimmed(split_on(l, '\t')[0]),
            listed_names(split_on(split_on(l, '\t')[1], ',')),
            listed_names(split_on(split_on(l, '\t')[2], ',')),
        ));
        assert(conn_table(cv0, all.take(j as int)) == upsert_conn(prev, e));
        let mut k: usize = 0;
        let mut at: Option<usize> = None;
        while k < conns.len()
            invariant
                k <= conns@.len(),
                at matches Some(x) ==> x < conns@.len() && conns@[x as int].name@ == name@,
                at is None ==> forall|m: int| 0 <= m < k ==> conns@[m].name@ != name@,
            decreases conns@.len() - k,
        {
            if at.is_none() && str_eq(conns[k].name.as_str(), name.as_str()) {
                at = Some(k);
            }
            k = k + 1;
        }
        let ghost cbefore = conns@;
        let entry = ConnectionSides { name, source, target };
        assert(conn_view(entry, classes@) == e);
        match at {
            Some(x) => {
                conns.set(x, entry);
                proof {
                    let pv = conn_views(cbefore, classes@);
                    assert(pv[x as int].0 == e.0);
                    let q = choose|q: int| 0 <= q < pv.len() && #[trigger] pv[q].0 == e.0;
                    assert(0 <= q < pv.len() && pv[q].0 == e.0);
                    if q < x {
                        assert(cbefore[q].name@ != cbefore[x as int].name@);
                    } else if q > x {
                        assert(cbefore[x as int].name@ != cbefore[q].name@);
                    }
                    assert(conn_views(conns@, classes@) =~= pv.update(x as int, e));
                }
            },
            None => {
                conns.push(entry);
                proof {
                    let pv = conn_views(cbefore, classes@);
                    assert(!exists|q: int| 0 <= q < pv.len() && #[trigger] pv[q].0 == e.0) by {
                        assert forall|q: int| 0 <= q < pv.len() implies #[trigger] pv[q].0 != e.0 by {
                            assert(cbefore[q].name@ != name@);
                        }
                    }
                    assert(conn_views(conns@, classes@) =~= pv.push(e));
                }
            },
        }
    }
    proof {
        assert(all.take(all.len() as int) =~= all);
    }
}

/// Connection rows hold classes below `n` and distinct names.
spec fn conns_wf(conns: Seq<ConnectionSides>, n: nat) -> bool {
    &&& forall|k: int, j: int| 0 <= k < conns.len() && 0 <= j < conns[k].source@.len() ==> #[trigger] conns[k].source@[j] < n
    &&& forall|k: int, j: int| 0 <= k < conns.len() && 0 <= j < conns[k].target@.len() ==> #[trigger] conns[k].target@[j] < n
    &&& forall|k: int, j: int| 0 <= k < j < conns.len() ==> #[trigger] conns[k].name@ != #[trigger] conns[j].name@
}

/// Whether every base, at any remove, of a class the prefab table lists is
/// a component.
spec fn prefab_bases_components(prefabs: Map<i32, Vec<usize>>, classes: Seq<Class>) -> bool {
    forall|p: i32, k: int, n: nat|
        prefabs.contains_key(p) && 0 <= k < prefabs[p]@.len() && n >= 1 && #[trigger] base_after(
            classes,
            prefabs[p]@[k] as int,
            n,
        ) is Some ==> classes[base_after(classes, prefabs[p]@[k] as int, n)->0 as int].is_component
}

/// The classes of the class -> keys table and the prefab -> components
/// table, with components and their bases marked: the classes, each
/// class's key names, and the prefab table.
fn class_tables(component_keys: &str, prefab_components: &str) -> (r: (
    Vec<Class>,
    Vec<(usize, Vec<String>)>,
    HashMapWithView<i32, Vec<usize>>,
))
    ensures
        bases_wf(r.0@),
        forall|k: int| 0 <= k < r.1@.len() ==> #[trigger] r.1@[k].0 < r.0@.len(),
        forall|p: i32| #[trigger] r.2@.contains_key(p) ==> all_below(r.2@[p]@, r.0@.len()),
        forall|k: int|
            0 <= k < lines_of(prefab_components@).len() && table_row(lines_of(prefab_components@)[k], 2)
                ==> #[trigger] r.2@.contains_key(spec_stable_hash(split_on(lines_of(prefab_components@)[k], '\t')[0])),
        prefab_classes_components(r.2@, r.0@),
        prefab_bases_components(r.2@, r.0@),
{
    let mut classes: Vec<Class> = Vec::new();
    let class_keys = parse_class_keys(component_keys, &mut classes);
    let mut prefabs: HashMapWithView<i32, Vec<usize>> = HashMapWithView::new();
    assert(prefab_classes_components(prefabs@, classes@));
    parse_prefabs(prefab_components, &mut classes, &mut prefabs);
    let ghost cl1 = classes@;
    mark_bases(&mut classes);
    let ghost cl2 = classes@;
    proof {
        assert forall|p: i32, k: int|
            prefabs@.contains_key(p) && 0 <= k < prefabs@[p]@.len() implies #[trigger] cl2[prefabs@[p]@[
                k
            ] as int].is_component by {
            assert(cl1[prefabs@[p]@[k] as int].is_component);
        }
        assert forall|p: i32, k: int, n: nat|
            prefabs@.contains_key(p) && 0 <= k < prefabs@[p]@.len() && n >= 1 && #[trigger] base_after(
                cl2,
                prefabs@[p]@[k] as int,
                n,
            ) is Some implies cl2[base_after(cl2, prefabs@[p]@[k] as int, n)->0 as int].is_component by {
            let c = prefabs@[p]@[k] as int;
            assert(cl1[c].is_component);
            lemma_base_after_prefix(cl1, cl2, c, n);
        }
    }
    (classes, class_keys, prefabs)
}

/// The key-name pattern table and the connection table, read against
/// `classes`, which gains the classes they name.
fn rule_tables(key_patterns: &str, connection_types: &str, classes: &mut Vec<Class>) -> (r: (
    Vec<(usize, Pattern)>,
    Vec<ConnectionSides>,
))
    requires
        bases_wf(old(classes)@),
    ensures
        bases_wf(final(classes)@),
        old(classes)@.len() <= final(classes)@.len(),
        forall|k: int| 0 <= k < old(classes)@.len() ==> #[trigger] final(classes)@[k] == old(classes)@[k],
        forall|k: int| 0 <= k < r.0@.len() ==> (#[trigger] r.0@[k]).0 < final(classes)@.len(),
        conns_wf(r.1@, final(classes)@.len()),
        r.0@.len() == pattern_rows(lines_of(key_patterns@)).len(),
        forall|k: int|
            0 <= k < r.0@.len() ==> final(classes)@[(#[trigger] r.0@[k]).0 as int].name@ == pattern_rows(
                lines_of(key_patterns@),
            )[k].0 && r.0@[k].1.0@ == pattern_rows(lines_of(key_patterns@))[k].1,
        conn_views(r.1@, final(classes)@) == conn_table(seq![], lines_of(connection_types@)),
{
    let ghost cl0 = classes@;
    let mut patterns: Vec<(usize, Pattern)> = Vec::new();
    let ghost p0 = patterns@;
    parse_patterns(key_patterns, classes, &mut patterns);
    let ghost cl3 = classes@;
    let mut connections: Vec<ConnectionSides> = Vec::new();
    assert(conn_views(connections@, classes@) =~= seq![]);
    parse_connections(connection_types, classes, &mut connections);
    proof {
        assert forall|k: int| 0 <= k < patterns@.len() implies classes@[(#[trigger] patterns@[k]).0 as int].name@
            == pattern_rows(lines_of(key_patterns@))[k].0 && patterns@[k].1.0@ == pattern_rows(
            lines_of(key_patterns@),
        )[k].1 by {
            assert(p0.len() == 0);
            assert(patterns@[p0.len() + k] == patterns@[k]);
            assert(cl3[patterns@[p0.len() + k].0 as int].name@ == pattern_rows(lines_of(key_patterns@))[k].0);
            assert(classes@[patterns@[k].0 as int] == cl3[patterns@[k].0 as int]);
        }
        assert forall|k: int| 0 <= k < cl0.len() implies #[trigger] classes@[k] == cl0[k] by {
            assert(cl3[k] == cl0[k]);
        }
    }
    (patterns, connections)
}

/// The animator parameter list: both the key `ZSyncAnimation` writes and
/// the raw hash of each parameter.
fn parse_anim(text: &str, anim_keys: &mut HashSetWithView<i32>)
    ensures
        forall|h: i32| old(anim_keys)@.contains(h) ==> #[trigger] final(anim_keys)@.contains(h),
        forall|k: int| #![trigger trimmed(lines_of(text@)[k])] 0 <= k < lines_of(text@).len() && trimmed(lines_of(text@)[k]).len() > 0 ==> {
            &&& final(anim_keys)@.contains(spec_animator_key(trimmed(lines_of(text@)[k])))
            &&& final(anim_keys)@.contains(spec_animator_hash(trimmed(lines_of(text@)[k])))
        },
{
    let ls = lines(text);
    let mut j: usize = 0;
    while j < ls.len()
        invariant
            ls@.len() == lines_of(text@).len(),
            forall|k: int| 0 <= k < ls@.len() ==> #[trigger] ls@[k]@ == lines_of(text@)[k],
            forall|h: i32| old(anim_keys)@.contains(h) ==> #[trigger] anim_keys@.contains(h),
            forall|k: int| #![trigger trimmed(lines_of(text@)[k])] 0 <= k < j && trimmed(lines_of(text@)[k]).len() > 0 ==> {
                &&& anim_keys@.contains(spec_animator_key(trimmed(lines_of(text@)[k])))
                &&& anim_keys@.contains(spec_animator_hash(trimmed(lines_of(text@)[k])))
            },
        decreases ls@.len() - j,
    {
        let param = trim(ls[j].as_str());
        assert(param@ == trimmed(lines_of(text@)[j as int]));
        j = j + 1;
        if param.as_str().is_empty() {
            continue;
        }
        anim_keys.insert(animator_key(param.as_str()));
        anim_keys.insert(animator_hash(param.as_str()));
    }
}

/// Whether line `l` is a data row with at least `n` tab-separated fields.
pub open spec fn table_row(l: Seq<char>, n: nat) -> bool {
    &&& !(l.len() > 0 && l[0] == '#')
    &&& trimmed(l).len() > 0
    &&& split_on(l, '\t').len() >= n
}

impl Schema {
    /// How many classes the tables name.
    pub closed spec fn num_classes(&self) -> nat {
        self.classes@.len()
    }

    /// The name of class `c`.
    pub closed spec fn class_name(&self, c: int) -> Seq<char> {
        self.classes@[c].name@
    }

    /// The base class of class `c`, if it has one other than `MonoBehaviour`.
    pub closed spec fn class_base(&self, c: int) -> Option<usize> {
        self.classes@[c].base
    }

    /// Whether class `c` is a component (or the base of one).
    pub closed spec fn class_is_component(&self, c: int) -> bool {
        self.classes@[c].is_component
    }

    /// The component classes of `prefab`, when the table knows the prefab.
    pub closed spec fn components(&self, prefab: i32) -> Option<Seq<usize>> {
        if self.prefabs@.contains_key(prefab) {
            Some(self.prefabs@[prefab]@)
        } else {
            None
        }
    }

    /// The component classes that use `key` by name.
    pub closed spec fn key_owners_of(&self, key: i32) -> Seq<usize> {
        if self.key_owners@.contains_key(key) {
            self.key_owners@[key]@
        } else {
            seq![]
        }
    }

    /// Whether non-component code uses `key`.
    pub closed spec fn is_universal_key(&self, key: i32) -> bool {
        self.universal_keys@.contains(key)
    }

    /// The key-name patterns with their classes, in table order.
    pub closed spec fn pattern_list(&self) -> Seq<(usize, Seq<char>)> {
        self.patterns@.map_values(|e: (usize, Pattern)| (e.0, e.1.0@))
    }

    /// The class lists `(source side, target side)` of connection type `name`.
    pub closed spec fn connection_sides(&self, name: Seq<char>) -> Option<(Seq<usize>, Seq<usize>)> {
        if exists|k: int| 0 <= k < self.connections@.len() && self.connections@[k].name@ == name {
            let k = choose|k: int|
                0 <= k < self.connections@.len() && self.connections@[k].name@ == name;
            Some((self.connections@[k].source@, self.connections@[k].target@))
        } else {
            None
        }
    }

    /// The class `s` base-class steps up from class `c`, `None` once the
    /// chain ends.
    pub closed spec fn base_steps(&self, c: int, s: nat) -> Option<usize> {
        base_after(self.classes@, c, s)
    }

    /// The connection table as names: each type with its source and
    /// target class names, in table order.
    pub closed spec fn connection_table(&self) -> Seq<(Seq<char>, Seq<Seq<char>>, Seq<Seq<char>>)> {
        conn_views(self.connections@, self.classes@)
    }

    /// Whether `key` is an animator parameter key.
    pub closed spec fn is_anim_key(&self, key: i32) -> bool {
        self.anim_keys@.contains(key)
    }

    /// The class that keys properties by animator parameter, if the tables
    /// name it.
    pub closed spec fn anim_class_of(&self) -> Option<usize> {
        self.anim_class
    }

    /// Every class index the tables hold is a class, and connection names
    /// are distinct.
    pub closed spec fn wf(&self) -> bool {
        let n = self.classes@.len();
        &&& forall|c: int| 0 <= c < n ==> ((#[trigger] self.classes@[c]).base matches Some(b) ==> b < n)
        &&& forall|p: i32, k: int|
            self.prefabs@.contains_key(p) && 0 <= k < self.prefabs@[p]@.len() ==> #[trigger] self.prefabs@[p]@[k] < n
        &&& forall|key: i32, k: int|
            self.key_owners@.contains_key(key) && 0 <= k < self.key_owners@[key]@.len()
                ==> #[trigger] self.key_owners@[key]@[k] < n
        &&& forall|k: int| 0 <= k < self.patterns@.len() ==> (#[trigger] self.patterns@[k]).0 < n
        &&& forall|k: int, j: int|
            0 <= k < self.connections@.len() && 0 <= j < self.connections@[k].source@.len()
                ==> #[trigger] self.connections@[k].source@[j] < n
        &&& forall|k: int, j: int|
            0 <= k < self.connections@.len() && 0 <= j < self.connections@[k].target@.len()
                ==> #[trigger] self.connections@[k].target@[j] < n
        &&& forall|k: int, j: int|
            0 <= k < j < self.connections@.len() ==> #[trigger] self.connections@[k].name@
                != #[trigger] self.connections@[j].name@
        &&& self.anim_class matches Some(c) ==> c < n
    }

    /// Whether class `from` is `to` or reaches it through at most `fuel`
    /// base-class steps.
    pub open spec fn reaches(&self, from: int, to: int, fuel: nat) -> bool
        decreases fuel,
    {
        from == to || (fuel > 0 && 0 <= from < self.num_classes() && (self.class_base(from) matches Some(
            b,
        ) && self.reaches(b as int, to, (fuel - 1) as nat)))
    }

    /// Whether `prefab` has class `class` or a subclass of it. A chain of
    /// base classes longer than the number of classes loops, so it is
    /// followed no further than that.
    pub open spec fn has_class(&self, prefab: i32, class: int) -> bool {
        match self.components(prefab) {
            None => false,
            Some(cs) => exists|k: int|
                0 <= k < cs.len() && #[trigger] self.reaches(cs[k] as int, class, self.num_classes()),
        }
    }

    /// The classes that use a key named `name` by one of the first `n`
    /// patterns, where the class is a component.
    pub open spec fn pattern_owners(&self, name: Seq<char>, n: int) -> Seq<usize>
        decreases n,
    {
        if n <= 0 {
            seq![]
        } else {
            let prev = self.pattern_owners(name, n - 1);
            let e = self.pattern_list()[n - 1];
            if pattern_matches(e.1, name) && self.class_is_component(e.0 as int) {
                prev.push(e.0)
            } else {
                prev
            }
        }
    }

    /// Whether one of the first `n` patterns matching `name` belongs to a
    /// class that is never a component.
    pub open spec fn pattern_universal(&self, name: Seq<char>, n: int) -> bool {
        exists|k: int|
            0 <= k < n && pattern_matches(#[trigger] self.pattern_list()[k].1, name)
                && !self.class_is_component(self.pattern_list()[k].0 as int)
    }

    /// The first of `owners` that `prefab` has.
    pub open spec fn first_owned(&self, prefab: i32, owners: Seq<usize>) -> Option<usize>
        decreases owners.len(),
    {
        if owners.len() == 0 {
            None
        } else if self.has_class(prefab, owners[0] as int) {
            Some(owners[0])
        } else {
            self.first_owned(prefab, owners.drop_first())
        }
    }

    /// The names of classes `cs`.
    pub open spec fn names_of(&self, cs: Seq<usize>) -> Seq<Seq<char>> {
        cs.map_values(|c: usize| self.class_name(c as int))
    }

    /// Every class that uses `key`, by hash and by the patterns matching
    /// `name`.
    pub open spec fn owners_of(&self, key: i32, name: Option<Seq<char>>) -> Seq<usize> {
        self.key_owners_of(key) + match name {
            Some(n) => self.pattern_owners(n, self.pattern_list().len() as int),
            None => seq![],
        }
    }

    /// The verdict on `key`, named `name` when it could be named, on `prefab`.
    pub open spec fn key_verdict(&self, prefab: i32, key: i32, name: Option<Seq<char>>) -> VerdictView {
        if self.components(prefab) is None {
            VerdictView::UnknownPrefab
        } else if self.is_anim_key(key) {
            match self.anim_class_of() {
                Some(c) => if self.has_class(prefab, c as int) {
                    VerdictView::Owned(self.class_name(c as int))
                } else {
                    VerdictView::Foreign(seq![self.class_name(c as int)])
                },
                None => VerdictView::UnknownKey,
            }
        } else {
            let owners = self.owners_of(key, name);
            let universal = self.is_universal_key(key) || (name matches Some(n)
                && self.pattern_universal(n, self.pattern_list().len() as int));
            match self.first_owned(prefab, owners) {
                Some(o) => VerdictView::Owned(self.class_name(o as int)),
                None => if owners.len() > 0 {
                    VerdictView::Foreign(self.names_of(owners))
                } else if universal {
                    VerdictView::Universal
                } else if name is Some {
                    VerdictView::Unattributed
                } else {
                    VerdictView::UnknownKey
                },
            }
        }
    }

    /// The verdict on one side of a connection of type `kind` on `prefab`.
    pub open spec fn connection_verdict(&self, prefab: i32, kind: Option<Seq<char>>, is_target: bool) -> VerdictView {
        if self.components(prefab) is None {
            VerdictView::UnknownPrefab
        } else {
            match kind {
                None => VerdictView::UnknownKey,
                Some(name) => match self.connection_sides(name) {
                    None => VerdictView::UnknownKey,
                    Some(sides) => {
                        let allowed = if is_target {
                            sides.1
                        } else {
                            sides.0
                        };
                        if allowed.len() == 0 {
                            VerdictView::Universal
                        } else {
                            match self.first_owned(prefab, allowed) {
                                Some(c) => VerdictView::Owned(self.class_name(c as int)),
                                None => VerdictView::Foreign(self.names_of(allowed)),
                            }
                        }
                    },
                },
            }
        }
    }

    /// Build the schema from its five tables, each a text of tab-separated
    /// rows where blank lines and `#` comments are skipped:
    /// `component_keys` rows are class, base class, comma-separated keys;
    /// `prefab_components` rows are prefab name, comma-separated classes;
    /// `key_patterns` rows are class, pattern; `connection_types` rows are
    /// type name, source classes, target classes; `anim_params` holds one
    /// animator parameter per line.
    #[verifier::spinoff_prover]
    #[verifier::rlimit(60)]
    pub fn from_tables(
        component_keys: &str,
        prefab_components: &str,
        key_patterns: &str,
        connection_types: &str,
        anim_params: &str,
    ) -> (s: Schema)
        ensures
            s.wf(),
            forall|k: int|
                0 <= k < lines_of(prefab_components@).len() && table_row(
                    lines_of(prefab_components@)[k],
                    2,
                ) ==> #[trigger] s.components(
                    spec_stable_hash(split_on(lines_of(prefab_components@)[k], '\t')[0]),
                ) is Some,
            forall|k: int|
                #![trigger trimmed(lines_of(anim_params@)[k])]
                0 <= k < lines_of(anim_params@).len() && trimmed(lines_of(anim_params@)[k]).len()
                    > 0 ==> {
                    &&& s.is_anim_key(spec_animator_key(trimmed(lines_of(anim_params@)[k])))
                    &&& s.is_anim_key(spec_animator_hash(trimmed(lines_of(anim_params@)[k])))
                },
            match s.anim_class_of() {
                Some(c) => c < s.num_classes() && s.class_name(c as int) == "ZSyncAnimation"@,
                None => forall|c: int|
                    0 <= c < s.num_classes() ==> s.class_name(c) != "ZSyncAnimation"@,
            },
            forall|p: i32, k: int|
                s.components(p) is Some && 0 <= k < s.components(p)->0.len() ==> #[trigger] s.class_is_component(
                    s.components(p)->0[k] as int,
                ),
            forall|p: i32, k: int, n: nat|
                s.components(p) is Some && 0 <= k < s.components(p)->0.len() && n >= 1 && #[trigger] s.base_steps(
                    s.components(p)->0[k] as int,
                    n,
                ) is Some ==> s.class_is_component(s.base_steps(s.components(p)->0[k] as int, n)->0 as int),
            s.pattern_list().len() == pattern_rows(lines_of(key_patterns@)).len(),
            forall|k: int|
                0 <= k < s.pattern_list().len() ==> s.class_name((#[trigger] s.pattern_list()[k]).0 as int)
                    == pattern_rows(lines_of(key_patterns@))[k].0 && s.pattern_list()[k].1 == pattern_rows(
                    lines_of(key_patterns@),
                )[k].1,
            s.connection_table() == conn_table(seq![], lines_of(connection_types@)),
    {
        let (mut classes, class_keys, prefabs) = class_tables(component_keys, prefab_components);
        let ghost cl2 = classes@;
        let mut key_owners: HashMapWithView<i32, Vec<usize>> = HashMapWithView::new();
        let mut universal_keys: HashSetWithView<i32> = HashSetWithView::new();
        collect_keys(&class_keys, &classes, &mut key_owners, &mut universal_keys);
        let (patterns, connections) = rule_tables(key_patterns, connection_types, &mut classes);
        let ghost cl4 = classes@;
        proof {
            assert forall|p: i32, k: int, n: nat|
                prefabs@.contains_key(p) && 0 <= k < prefabs@[p]@.len() && n >= 1 && #[trigger] base_after(
                    cl4,
                    prefabs@[p]@[k] as int,
                    n,
                ) is Some implies cl4[base_after(cl4, prefabs@[p]@[k] as int, n)->0 as int].is_component by {
                let c = prefabs@[p]@[k] as int;
                lemma_base_after_prefix(cl2, cl4, c, n);
                let x = base_after(cl2, c, n)->0 as int;
                assert(cl2[x].is_component);
            }
            assert forall|p: i32, k: int|
                prefabs@.contains_key(p) && 0 <= k < prefabs@[p]@.len() implies #[trigger] cl4[prefabs@[p]@[
                    k
                ] as int].is_component by {
                assert(cl2[prefabs@[p]@[k] as int].is_component);
            }
        }
        let mut anim_keys: HashSetWithView<i32> = HashSetWithView::new();
        parse_anim(anim_params, &mut anim_keys);
        let mut schema = Schema {
            prefabs,
            classes,
            key_owners,
            universal_keys,
            patterns,
            connections,
            anim_keys,
            anim_class: None,
        };
        proof {
            reveal_strlit("ZSyncAnimation");
        }
        let anim_class = schema.class_id("ZSyncAnimation");
        schema.anim_class = anim_class;
        schema
    }

    /// Whether the table knows `prefab`.
    pub fn knows_prefab(&self, prefab: i32) -> (r: bool)
        ensures
            r == self.components(prefab) is Some,
    {
        self.prefabs.contains_key(&prefab)
    }

    /// The index of the class named `name`.
    pub fn class_id(&self, name: &str) -> (r: Option<usize>)
        ensures
            match r {
                Some(c) => c < self.num_classes() && self.class_name(c as int) == name@ && forall|k: int|
                    0 <= k < c ==> self.class_name(k) != name@,
                None => forall|k: int| 0 <= k < self.num_classes() ==> self.class_name(k) != name@,
            },
    {
        let mut i: usize = 0;
        while i < self.classes.len()
            invariant
                i <= self.classes@.len(),
                forall|k: int| 0 <= k < i ==> self.class_name(k) != name@,
            decreases self.classes@.len() - i,
        {
            if str_eq(self.classes[i].name.as_str(), name) {
                return Some(i);
            }
            i = i + 1;
        }
        None
    }

    /// Whether class `from` is or derives from `to`.
    fn chain_reaches(&self, from: usize, to: usize) -> (r: bool)
        requires
            self.wf(),
            from < self.num_classes(),
        ensures
            r == self.reaches(from as int, to as int, self.num_classes()),
    {
        let mut cur = from;
        let mut fuel = self.classes.len();
        loop
            invariant
                self.wf(),
                cur < self.num_classes(),
                fuel <= self.num_classes(),
                self.reaches(from as int, to as int, self.num_classes()) == self.reaches(
                    cur as int,
                    to as int,
                    fuel as nat,
                ),
            decreases fuel,
        {
            if cur == to {
                return true;
            }
            if fuel == 0 {
                return false;
            }
            match self.classes[cur].base {
                None => {
                    return false;
                },
                Some(b) => {
                    assert(self.classes@[cur as int].base matches Some(x) ==> x < self.classes@.len());
                    cur = b;
                    fuel = fuel - 1;
                },
            }
        }
    }

    /// Whether the prefab has `class` or a subclass of it.
    fn prefab_has(&self, prefab: i32, class: usize) -> (r: bool)
        requires
            self.wf(),
        ensures
            r == self.has_class(prefab, class as int),
    {
        match self.prefabs.get(&prefab) {
            None => false,
            Some(comps) => {
                let ghost cs = comps@;
                let mut j: usize = 0;
                while j < comps.len()
                    invariant
                        self.wf(),
                        self.prefabs@.contains_key(prefab),
                        cs == self.prefabs@[prefab]@,
                        comps@ == cs,
                        j <= cs.len(),
                        forall|k: int|
                            0 <= k < j ==> !#[trigger] self.reaches(
                                cs[k] as int,
                                class as int,
                                self.num_classes(),
                            ),
                    decreases cs.len() - j,
                {
                    assert(cs[j as int] < self.num_classes());
                    if self.chain_reaches(comps[j], class) {
                        assert(self.components(prefab) == Some(cs));
                        assert(self.reaches(cs[j as int] as int, class as int, self.num_classes()));
                        assert(exists|k: int|
                            0 <= k < cs.len() && #[trigger] self.reaches(
                                cs[k] as int,
                                class as int,
                                self.num_classes(),
                            ));
                        assert(self.has_class(prefab, class as int)) by {
                            let k = j as int;
                            assert(self.components(prefab)->0[k] == cs[k]);
                            assert(self.reaches(self.components(prefab)->0[k] as int, class as int, self.num_classes()));
                        }
                        return true;
                    }
                    j = j + 1;
                }
                false
            },
        }
    }

    /// Whether `prefab` carries `class` (or a subclass of it). False for a
    /// prefab the table does not know, so callers that need to tell "no" from
    /// "cannot say" must ask [`Schema::knows_prefab`] first.
    pub fn prefab_has_class(&self, prefab: i32, class: &str) -> (r: bool)
        requires
            self.wf(),
        ensures
            r == exists|c: int|
                0 <= c < self.num_classes() && self.class_name(c) == class@ && (forall|k: int|
                    0 <= k < c ==> self.class_name(k) != class@) && self.has_class(prefab, c),
    {
        match self.class_id(class) {
            Some(c) => self.prefab_has(prefab, c),
            None => false,
        }
    }

    fn first_owned_exec(&self, prefab: i32, owners: &Vec<usize>) -> (r: Option<usize>)
        requires
            self.wf(),
        ensures
            r == self.first_owned(prefab, owners@),
    {
        let mut j: usize = 0;
        assert(owners@.skip(0) =~= owners@);
        while j < owners.len()
            invariant
                self.wf(),
                j <= owners@.len(),
                self.first_owned(prefab, owners@) == self.first_owned(prefab, owners@.skip(j as int)),
            decreases owners@.len() - j,
        {
            assert(owners@.skip(j as int).drop_first() =~= owners@.skip(j + 1));
            if self.prefab_has(prefab, owners[j]) {
                return Some(owners[j]);
            }
            j = j + 1;
        }
        None
    }

    fn names_exec(&self, cs: &Vec<usize>) -> (r: Vec<String>)
        requires
            self.wf(),
            forall|k: int| 0 <= k < cs@.len() ==> cs@[k] < self.num_classes(),
        ensures
            r@.map_values(|s: String| s@) == self.names_of(cs@),
    {
        let mut out: Vec<String> = Vec::new();
        let mut j: usize = 0;
        while j < cs.len()
            invariant
                j <= cs@.len(),
                forall|k: int| 0 <= k < cs@.len() ==> cs@[k] < self.num_classes(),
                out@.len() == j,
                forall|k: int| 0 <= k < j ==> (#[trigger] out@[k])@ == self.class_name(cs@[k] as int),
            decreases cs@.len() - j,
        {
            out.push(self.classes[cs[j]].name.clone());
            j = j + 1;
        }
        assert(out@.map_values(|s: String| s@) =~= self.names_of(cs@));
        out
    }

    /// Judge `key` (with its resolved `name`, if any) on `prefab`.
    pub fn judge(&self, prefab: i32, key: i32, name: Option<&str>) -> (v: Verdict)
        requires
            self.wf(),
        ensures
            v@ == self.key_verdict(
                prefab,
                key,
                match name {
                    Some(n) => Some(n@),
                    None => None,
                },
            ),
    {
        let ghost nm = match name {
            Some(n) => Some(n@),
            None => None::<Seq<char>>,
        };
        if !self.knows_prefab(prefab) {
            return Verdict::UnknownPrefab;
        }
        // Animator keys are checked first: they are not name hashes, so they
        // would otherwise fall through as unnameable and never be judged.
        if self.anim_keys.contains(&key) {
            return match self.anim_class {
                Some(c) => if self.prefab_has(prefab, c) {
                    Verdict::Owned(self.classes[c].name.clone())
                } else {
                    let v = vec![self.classes[c].name.clone()];
                    assert(v@.map_values(|s: String| s@) =~= seq![self.class_name(c as int)]);
                    Verdict::Foreign(v)
                },
                None => Verdict::UnknownKey,
            };
        }
        // Gather every class that uses the key, by exact hash and by pattern.
        let mut owners: Vec<usize> = Vec::new();
        match self.key_owners.get(&key) {
            Some(list) => {
                let mut j: usize = 0;
                while j < list.len()
                    invariant
                        j <= list@.len(),
                        owners@ == list@.take(j as int),
                    decreases list@.len() - j,
                {
                    owners.push(list[j]);
                    j = j + 1;
                    assert(owners@ =~= list@.take(j as int));
                }
                assert(list@.take(list@.len() as int) =~= list@);
            },
            None => {},
        }
        let ghost by_key = owners@;
        assert(by_key == self.key_owners_of(key));
        let mut universal = self.universal_keys.contains(&key);
        let named = name.is_some();
        if let Some(name) = name {
            let mut j: usize = 0;
            while j < self.patterns.len()
                invariant
                    self.wf(),
                    j <= self.patterns@.len(),
                    owners@ == by_key + self.pattern_owners(name@, j as int),
                    universal == (self.is_universal_key(key) || self.pattern_universal(
                        name@,
                        j as int,
                    )),
                decreases self.patterns@.len() - j,
            {
                let class = self.patterns[j].0;
                assert(self.pattern_list()[j as int] == (class, self.patterns@[j as int].1.0@));
                if self.patterns[j].1.matches(name) {
                    if self.classes[class].is_component {
                        owners.push(class);
                    } else {
                        universal = true;
                    }
                }
                j = j + 1;
                assert(owners@ =~= by_key + self.pattern_owners(name@, j as int));
                proof {
                    self.lemma_pattern_universal_step(name@, j as int);
                }
            }
        }
        assert(owners@ == self.owners_of(key, nm));
        assert(forall|k: int|
            0 <= k < owners@.len() ==> owners@[k] < self.num_classes()) by {
            assert forall|k: int| 0 <= k < owners@.len() implies owners@[k] < self.num_classes() by {
                if k < by_key.len() {
                    assert(self.key_owners@[key]@[k] < self.num_classes());
                } else {
                    self.lemma_pattern_owners_bound(nm->0, self.patterns@.len() as int, k - by_key.len());
                }
            }
        }
        match self.first_owned_exec(prefab, &owners) {
            Some(o) => {
                proof {
                    self.lemma_first_owned_in(prefab, owners@);
                }
                return Verdict::Owned(self.classes[o].name.clone());
            },
            None => {},
        }
        // Component ownership is judged before the universal list because
        // debug commands reference many component keys too.
        if owners.len() > 0 {
            return Verdict::Foreign(self.names_exec(&owners));
        }
        if universal {
            return Verdict::Universal;
        }
        if named {
            Verdict::Unattributed
        } else {
            Verdict::UnknownKey
        }
    }

    proof fn lemma_pattern_universal_step(&self, name: Seq<char>, j: int)
        requires
            j >= 1,
        ensures
            self.pattern_universal(name, j) == (self.pattern_universal(name, j - 1) || (
            pattern_matches(self.pattern_list()[j - 1].1, name) && !self.class_is_component(
                self.pattern_list()[j - 1].0 as int,
            ))),
    {
        if self.pattern_universal(name, j) {
            let k = choose|k: int|
                0 <= k < j && pattern_matches(#[trigger] self.pattern_list()[k].1, name)
                    && !self.class_is_component(self.pattern_list()[k].0 as int);
            if k < j - 1 {
                assert(self.pattern_universal(name, j - 1));
            }
        }
        if self.pattern_universal(name, j - 1) {
            let k = choose|k: int|
                0 <= k < j - 1 && pattern_matches(#[trigger] self.pattern_list()[k].1, name)
                    && !self.class_is_component(self.pattern_list()[k].0 as int);
            assert(0 <= k < j && pattern_matches(self.pattern_list()[k].1, name));
        }
    }

    proof fn lemma_pattern_owners_bound(&self, name: Seq<char>, n: int, k: int)
        requires
            self.wf(),
            0 <= n <= self.patterns@.len(),
            0 <= k < self.pattern_owners(name, n).len(),
        ensures
            self.pattern_owners(name, n)[k] < self.num_classes(),
        decreases n,
    {
        if n > 0 {
            let prev = self.pattern_owners(name, n - 1);
            assert(self.pattern_list()[n - 1].0 == self.patterns@[n - 1].0);
            if k < prev.len() {
                self.lemma_pattern_owners_bound(name, n - 1, k);
            }
        }
    }

    proof fn lemma_first_owned_in(&self, prefab: i32, owners: Seq<usize>)
        ensures
            self.first_owned(prefab, owners) matches Some(o) ==> exists|k: int|
                0 <= k < owners.len() && owners[k] == o,
        decreases owners.len(),
    {
        if owners.len() > 0 && !self.has_class(prefab, owners[0] as int) {
            self.lemma_first_owned_in(prefab, owners.drop_first());
            if let Some(o) = self.first_owned(prefab, owners.drop_first()) {
                let k = choose|k: int|
                    0 <= k < owners.drop_first().len() && owners.drop_first()[k] == o;
                assert(owners[k + 1] == o);
            }
        }
    }

    proof fn lemma_first_owned(&self, prefab: i32, owners: Seq<usize>)
        ensures
            match self.first_owned(prefab, owners) {
                Some(o) => self.has_class(prefab, o as int) && exists|k: int| 0 <= k < owners.len() && owners[k] == o,
                None => forall|k: int| 0 <= k < owners.len() ==> !self.has_class(prefab, #[trigger] owners[k] as int),
            },
        decreases owners.len(),
    {
        self.lemma_first_owned_in(prefab, owners);
        if owners.len() > 0 && !self.has_class(prefab, owners[0] as int) {
            self.lemma_first_owned(prefab, owners.drop_first());
            assert forall|k: int| 1 <= k < owners.len() implies owners[k] == owners.drop_first()[k - 1] by {}
        }
    }

    /// What a key verdict says of the prefab: `UnknownPrefab` exactly for a
    /// prefab the tables do not know; `Owned` names a class the prefab has
    /// (itself or by a subclass); `Foreign` names at least one class, and
    /// only classes the prefab has not.
    pub proof fn lemma_key_verdict_law(&self, prefab: i32, key: i32, name: Option<Seq<char>>)
        ensures
            (self.key_verdict(prefab, key, name) == VerdictView::UnknownPrefab) == (self.components(prefab) is None),
            self.key_verdict(prefab, key, name) matches VerdictView::Owned(n) ==> exists|o: int|
                #[trigger] self.class_name(o) == n && self.has_class(prefab, o),
            self.key_verdict(prefab, key, name) matches VerdictView::Foreign(ns) ==> ns.len() > 0 && exists|os: Seq<usize>|
                #[trigger] self.names_of(os) == ns && forall|k: int|
                    0 <= k < os.len() ==> !self.has_class(prefab, #[trigger] os[k] as int),
    {
        if self.components(prefab) is Some && !self.is_anim_key(key) {
            let owners = self.owners_of(key, name);
            self.lemma_first_owned(prefab, owners);
            if let VerdictView::Foreign(ns) = self.key_verdict(prefab, key, name) {
                assert(self.names_of(owners) == ns);
            }
        }
        if self.components(prefab) is Some && self.is_anim_key(key) {
            if let Some(c) = self.anim_class_of() {
                if !self.has_class(prefab, c as int) {
                    let os = seq![c];
                    assert(self.names_of(os) =~= seq![self.class_name(c as int)]);
                }
            }
        }
    }

    /// What a connection verdict says: `UnknownPrefab` exactly for a prefab
    /// the tables do not know; for a known prefab, `UnknownKey` when the
    /// type is not named or not in the table, `Universal` when the side
    /// lists no class, never `Foreign` in those cases; `Owned` names a class
    /// the prefab has; `Foreign` names at least one class, and only classes
    /// the prefab has not.
    pub proof fn lemma_connection_verdict_law(&self, prefab: i32, kind: Option<Seq<char>>, is_target: bool)
        ensures
            (self.connection_verdict(prefab, kind, is_target) == VerdictView::UnknownPrefab) == (self.components(
                prefab,
            ) is None),
            self.components(prefab) is Some && (kind is None || self.connection_sides(kind->0) is None)
                ==> self.connection_verdict(prefab, kind, is_target) == VerdictView::UnknownKey,
            (self.components(prefab) is Some && kind is Some && self.connection_sides(kind->0) is Some && (if is_target {
                self.connection_sides(kind.unwrap()).unwrap().1
            } else {
                self.connection_sides(kind.unwrap()).unwrap().0
            }).len() == 0) ==> self.connection_verdict(prefab, kind, is_target) == VerdictView::Universal,
            self.connection_verdict(prefab, kind, is_target) matches VerdictView::Owned(n) ==> exists|o: int|
                #[trigger] self.class_name(o) == n && self.has_class(prefab, o),
            self.connection_verdict(prefab, kind, is_target) matches VerdictView::Foreign(ns) ==> ns.len() > 0
                && exists|os: Seq<usize>|
                #[trigger] self.names_of(os) == ns && forall|k: int|
                    0 <= k < os.len() ==> !self.has_class(prefab, #[trigger] os[k] as int),
    {
        if self.components(prefab) is Some {
            if let Some(k) = kind {
                if let Some(sides) = self.connection_sides(k) {
                    let allowed = if is_target {
                        sides.1
                    } else {
                        sides.0
                    };
                    self.lemma_first_owned(prefab, allowed);
                    if let VerdictView::Foreign(ns) = self.connection_verdict(prefab, kind, is_target) {
                        assert(self.names_of(allowed) == ns);
                    }
                }
            }
        }
    }

    fn find_connection(&self, name: &str) -> (r: Option<usize>)
        ensures
            match r {
                Some(i) => i < self.connections@.len() && self.connections@[i as int].name@ == name@,
                None => self.connection_sides(name@) is None,
            },
    {
        let mut i: usize = 0;
        while i < self.connections.len()
            invariant
                i <= self.connections@.len(),
                forall|k: int| 0 <= k < i ==> self.connections@[k].name@ != name@,
            decreases self.connections@.len() - i,
        {
            if str_eq(self.connections[i].name.as_str(), name) {
                return Some(i);
            }
            i = i + 1;
        }
        None
    }

    /// Judge one side of a ZDO connection on `prefab`. `kind` is
    /// `Connection::kind_name()`; `is_target` picks which side's class list
    /// applies. An unknown type, an unknown prefab, or a side the game does
    /// not constrain all come back as something other than `Foreign`, so
    /// nothing is removed on a guess.
    pub fn judge_connection(&self, prefab: i32, kind: Option<&str>, is_target: bool) -> (v: Verdict)
        requires
            self.wf(),
        ensures
            v@ == self.connection_verdict(
                prefab,
                match kind {
                    Some(n) => Some(n@),
                    None => None,
                },
                is_target,
            ),
    {
        if !self.knows_prefab(prefab) {
            return Verdict::UnknownPrefab;
        }
        let name = match kind {
            None => {
                return Verdict::UnknownKey;
            },
            Some(n) => n,
        };
        let i = match self.find_connection(name) {
            None => {
                return Verdict::UnknownKey;
            },
            Some(i) => i,
        };
        let sides = &self.connections[i];
        assert(self.connection_sides(name@) == Some((sides.source@, sides.target@))) by {
            assert(self.connections@[i as int].name@ == name@);
            let k = choose|k: int|
                0 <= k < self.connections@.len() && self.connections@[k].name@ == name@;
            if k != i as int {
                if k < i {
                    assert(self.connections@[k].name@ != self.connections@[i as int].name@);
                } else {
                    assert(self.connections@[i as int].name@ != self.connections@[k].name@);
                }
            }
        }
        let allowed = if is_target {
            &sides.target
        } else {
            &sides.source
        };
        if allowed.len() == 0 {
            return Verdict::Universal;
        }
        assert(forall|j: int| 0 <= j < allowed@.len() ==> allowed@[j] < self.num_classes());
        match self.first_owned_exec(prefab, allowed) {
            Some(c) => {
                proof {
                    self.lemma_first_owned_in(prefab, allowed@);
                }
                Verdict::Owned(self.classes[c].name.clone())
            },
            None => Verdict::Foreign(self.names_exec(allowed)),
        }
    }
}

} // verus!
