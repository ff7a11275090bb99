//! Finding items and objects in a world by name: every item held in a
//! container or tombstone, set on an item or armor stand, or lying loose,
//! and every object whose own name matches.

use vstd::prelude::*;
use globset::{GlobBuilder, GlobSetBuilder};
use crate::container::{item_models, parse_inventory, Inventory, InventoryModel, Item, ItemModel};
use crate::hash::{spec_stable_hash, stable_hash};
use crate::inventory::{parse_single, CompactModel};
use crate::names::{display_of, learned, learned_all, lemma_learned_all_append, lemma_learned_all_push, NameTable};
use crate::chunk_files::zdo_models;
use crate::text::chars_of;
use crate::survey::{lemma_text_irreflexive, lemma_text_total, lemma_text_transitive, text_before, text_order, KeyRow};
use crate::zdo::Zdo;
use crate::repair::position_bits;
use crate::schema::Schema;
use crate::zdo::{first_value, has_key_in, ZdoModel};

verus! {

// ---------------------------------------------------------------- globs

#[verifier::external_type_specification]
#[verifier::external_body]
pub struct ExGlobSet(globset::GlobSet);

/// Whether globset accepts `pattern` as a case-insensitive glob in which
/// `*` and `?` also match `/` and a backslash escapes the next character.
pub uninterp spec fn glob_accepts(pattern: Seq<char>) -> bool;

/// Whether the case-insensitive glob `pattern` matches `text`, a text with
/// no backslash in it.
pub uninterp spec fn glob_matches(pattern: Seq<char>, text: Seq<char>) -> bool;

/// Whether `t` holds no backslash.
pub open spec fn no_backslash(t: Seq<char>) -> bool {
    forall|i: int| 0 <= i < t.len() ==> t[i] != '\\'
}

/// `t` with each backslash written as `/`, the separator globs see.
pub open spec fn slashed(t: Seq<char>) -> Seq<char> {
    t.map_values(|c: char| if c == '\\' { '/' } else { c })
}

/// Whether glob `pattern` matches `text`, its backslashes read as `/`.
pub open spec fn glob_matches_text(pattern: Seq<char>, text: Seq<char>) -> bool {
    glob_matches(pattern, slashed(text))
}

/// A compiled glob, kept with the pattern it was compiled from.
pub struct Glob {
    pattern: String,
    set: globset::GlobSet,
}

impl Glob {
    pub closed spec fn pattern_view(&self) -> Seq<char> {
        self.pattern@
    }
}

/// `globset::GlobBuilder` with case-insensitive matching, `*` free to
/// cross `/` and a backslash an escape on every platform, built into a one-glob
/// `GlobSet`. `None` exactly when globset refuses the pattern, which
/// [`glob_accepts`] names; the set keeps the pattern it came from, which is
/// what [`glob_match`] relies on.
#[verifier::external_body]
fn compile_glob(pattern: &str) -> (r: Option<Glob>)
    ensures
        r is Some <==> glob_accepts(pattern@),
        r matches Some(g) ==> g.pattern_view() == pattern@,
{
    let glob = match GlobBuilder::new(pattern).case_insensitive(true).literal_separator(false).backslash_escape(
        true,
    ).build() {
        Ok(g) => g,
        Err(_) => return None,
    };
    match GlobSetBuilder::new().add(glob).build() {
        Ok(set) => Some(Glob { pattern: pattern.to_string(), set }),
        Err(_) => None,
    }
}

/// `globset::GlobSet::is_match` on `text`: whether the glob the set was
/// compiled from matches it, which [`glob_matches`] names. Only texts
/// without a backslash are handed in: `is_match` turns backslashes into
/// `/` on some platforms and not on others, so for such texts the result
/// is not the same everywhere.
#[verifier::external_body]
fn glob_match(g: &Glob, text: &str) -> (r: bool)
    requires
        no_backslash(text@),
    ensures
        r == glob_matches(g.pattern_view(), text@),
{
    g.set.is_match(text)
}

/// `text` with each backslash written as `/`.
pub fn slash_text(text: &str) -> (r: String)
    ensures
        r@ == slashed(text@),
        no_backslash(r@),
{
    let cs = chars_of(text);
    let ghost t = text@;
    let mut out = String::new();
    let mut start: usize = 0;
    let mut i: usize = 0;
    proof {
        reveal_strlit("/");
    }
    while i < cs.len()
        invariant
            cs@ == t,
            t == text@,
            start <= i <= cs@.len(),
            out@ == slashed(t.subrange(0, start as int)),
            forall|k: int| start <= k < i ==> t[k] != '\\',
        decreases cs@.len() - i,
    {
        if cs[i] == '\\' {
            let before = text.substring_char(start, i);
            out.append(before);
            out.append("/");
            proof {
                reveal_strlit("/");
                assert("/"@ =~= seq!['/']);
                let a = slashed(t.subrange(0, i + 1));
                let b = slashed(t.subrange(0, start as int)) + t.subrange(start as int, i as int) + "/"@;
                assert forall|k: int| 0 <= k < a.len() implies a[k] == b[k] by {
                    if k >= start && k < i {
                        assert(t[k] != '\\');
                    }
                }
                assert(slashed(t.subrange(0, i + 1)) =~= slashed(t.subrange(0, start as int)) + t.subrange(
                    start as int,
                    i as int,
                ) + "/"@);
            }
            start = i + 1;
        }
        i = i + 1;
    }
    let rest = text.substring_char(start, cs.len());
    out.append(rest);
    proof {
        let a = slashed(t);
        let b = slashed(t.subrange(0, start as int)) + t.subrange(start as int, t.len() as int);
        assert forall|k: int| 0 <= k < a.len() implies a[k] == b[k] by {
            if k >= start {
                assert(t[k] != '\\');
            }
        }
        assert(a =~= b);
    }
    out
}

/// Whether the glob matches `text`, its backslashes read as `/`.
fn glob_match_text(g: &Glob, text: &str) -> (r: bool)
    ensures
        r == glob_matches_text(g.pattern_view(), text@),
{
    let t = slash_text(text);
    glob_match(g, t.as_str())
}

/// What a search looks for: item or object names matching any of the item
/// globs (or any name when there are none), and, when a crafter glob is
/// given, only crafted items whose crafter matches it.
pub struct Filter {
    items: Vec<Glob>,
    crafter: Option<Glob>,
}

/// A filter as plain values: its item patterns and its crafter pattern.
pub struct FilterModel {
    pub items: Seq<Seq<char>>,
    pub crafter: Option<Seq<char>>,
}

/// Why a filter could not be built.
#[derive(PartialEq, Eq, Debug, Structural)]
pub enum FilterError {
    /// Neither an item glob nor a crafter glob was given.
    NoFilter,
    /// The `index`-th pattern (item patterns first, then the crafter
    /// pattern) is not a glob globset accepts.
    BadGlob { index: usize },
}

/// Whether a filter of `f` lets through an item named `item` made by
/// `crafter` (empty for no crafter).
pub open spec fn filter_accepts(f: FilterModel, item: Seq<char>, crafter: Seq<char>) -> bool {
    &&& (f.items.len() == 0 || exists|i: int| 0 <= i < f.items.len() && glob_matches_text(#[trigger] f.items[i], item))
    &&& match f.crafter {
        None => true,
        Some(c) => crafter.len() > 0 && glob_matches_text(c, crafter),
    }
}

/// The first of the first `n` patterns globset refuses.
pub open spec fn first_refused(ps: Seq<Seq<char>>, n: nat) -> Option<nat>
    decreases n,
{
    if n == 0 {
        None
    } else {
        match first_refused(ps, (n - 1) as nat) {
            Some(k) => Some(k),
            None => if glob_accepts(ps[n - 1]) {
                None
            } else {
                Some((n - 1) as nat)
            },
        }
    }
}

proof fn lemma_first_refused_stays(ps: Seq<Seq<char>>, n: nat, m: nat)
    requires
        n <= m,
        first_refused(ps, n) is Some,
    ensures
        first_refused(ps, m) == first_refused(ps, n),
    decreases m - n,
{
    if n < m {
        lemma_first_refused_stays(ps, n, (m - 1) as nat);
    }
}

/// The text of each string.
pub open spec fn texts(v: Seq<String>) -> Seq<Seq<char>> {
    v.map_values(|s: String| s@)
}

/// The text of an optional string.
pub open spec fn opt_text(c: Option<&str>) -> Option<Seq<char>> {
    match c {
        Some(c) => Some(c@),
        None => None,
    }
}

/// Every pattern of a filter in the order it is checked: the item patterns,
/// then the crafter pattern.
pub open spec fn all_patterns(items: Seq<Seq<char>>, crafter: Option<Seq<char>>) -> Seq<Seq<char>> {
    match crafter {
        Some(c) => items.push(c),
        None => items,
    }
}

impl Filter {
    pub closed spec fn model(&self) -> FilterModel {
        FilterModel {
            items: self.items@.map_values(|g: Glob| g.pattern_view()),
            crafter: match self.crafter {
                Some(g) => Some(g.pattern_view()),
                None => None,
            },
        }
    }

    /// A filter of item globs `items` and crafter glob `crafter`. Refused
    /// when there is neither, or when a pattern is not a glob.
    pub fn new(items: &Vec<String>, crafter: Option<&str>) -> (r: Result<Filter, FilterError>)
        ensures
            ({
                let ps = all_patterns(texts(items@), opt_text(crafter));
                match r {
                    Err(FilterError::NoFilter) => items@.len() == 0 && crafter is None,
                    Err(FilterError::BadGlob { index }) => (items@.len() > 0 || crafter is Some)
                        && first_refused(ps, ps.len()) == Some(index as nat),
                    Ok(f) => (items@.len() > 0 || crafter is Some) && first_refused(ps, ps.len()) is None
                        && f.model().items == texts(items@) && f.model().crafter == opt_text(crafter),
                }
            }),
    {
        let ghost crafter_view = opt_text(crafter);
        let ghost iv = texts(items@);
        let ghost ps = all_patterns(iv, crafter_view);
        if items.len() == 0 && crafter.is_none() {
            return Err(FilterError::NoFilter);
        }
        let mut globs: Vec<Glob> = Vec::new();
        let mut i: usize = 0;
        while i < items.len()
            invariant
                i <= items@.len(),
                iv == texts(items@),
                crafter_view == opt_text(crafter),
                ps == all_patterns(iv, crafter_view),
                globs@.len() == i,
                forall|k: int| 0 <= k < i ==> (#[trigger] globs@[k]).pattern_view() == iv[k],
                first_refused(ps, i as nat) is None,
            decreases items@.len() - i,
        {
            assert(ps[i as int] == iv[i as int]);
            match compile_glob(items[i].as_str()) {
                Some(g) => globs.push(g),
                None => {
                    proof {
                        assert(!glob_accepts(ps[i as int]));
                        assert(first_refused(ps, (i + 1) as nat) == Some(i as nat));
                        lemma_first_refused_stays(ps, (i + 1) as nat, ps.len());
                        assert(ps.len() >= i + 1);
                    }
                    return Err(FilterError::BadGlob { index: i });
                },
            }
            i = i + 1;
        }
        let crafter_glob = match crafter {
            Some(c) => {
                assert(ps[iv.len() as int] == c@);
                match compile_glob(c) {
                    Some(g) => Some(g),
                    None => {
                        return Err(FilterError::BadGlob { index: items.len() });
                    },
                }
            },
            None => None,
        };
        let f = Filter { items: globs, crafter: crafter_glob };
        assert(f.model().items =~= iv);
        Ok(f)
    }

    /// Whether the filter lets through an item named `item` made by
    /// `crafter` (empty for no crafter).
    pub fn accepts(&self, item: &str, crafter: &str) -> (r: bool)
        ensures
            r == filter_accepts(self.model(), item@, crafter@),
    {
        let ghost m = self.model();
        let mut any = self.items.len() == 0;
        let mut i: usize = 0;
        while i < self.items.len() && !any
            invariant
                i <= self.items@.len(),
                m == self.model(),
                any == (self.items@.len() == 0 || exists|k: int|
                    0 <= k < i && glob_matches_text(#[trigger] m.items[k], item@)),
            decreases self.items@.len() - i,
        {
            assert(m.items[i as int] == self.items@[i as int].pattern_view());
            if glob_match_text(&self.items[i], item) {
                any = true;
            }
            i = i + 1;
        }
        if !any {
            assert(i == self.items@.len());
            return false;
        }
        match &self.crafter {
            None => true,
            Some(g) => !crafter.is_empty() && glob_match_text(g, crafter),
        }
    }
}


// ---------------------------------------------------------------- what a search reports

/// Where a reported row sits. For an item: in a container, in a tombstone,
/// on a stand, or lying loose. For an object the name filter matched
/// itself: what kind of object it is (`Object` for any other).
#[derive(Clone, Copy, PartialEq, Eq, Debug, Structural)]
pub enum Place {
    Container,
    Tombstone,
    Stand,
    Dropped,
    Object,
}

/// One reported row.
pub struct Found {
    pub item: String,
    pub stack: i32,
    pub quality: i32,
    /// Empty when the item has no crafter.
    pub crafter: String,
    pub place: Place,
    /// The prefab of the holding object; equal to `item` when the row is
    /// the object itself.
    pub holder: String,
    /// A tombstone's owner.
    pub owner: Option<String>,
    /// The holder's position as three `f32` bit patterns.
    pub position: (u32, u32, u32),
}

/// A row as plain values.
pub struct FoundModel {
    pub item: Seq<char>,
    pub stack: i32,
    pub quality: i32,
    pub crafter: Seq<char>,
    pub place: Place,
    pub holder: Seq<char>,
    pub owner: Option<Seq<char>>,
    pub position: (u32, u32, u32),
}

impl Found {
    pub open spec fn model(&self) -> FoundModel {
        FoundModel {
            item: self.item@,
            stack: self.stack,
            quality: self.quality,
            crafter: self.crafter@,
            place: self.place,
            holder: self.holder@,
            owner: match self.owner {
                Some(o) => Some(o@),
                None => None,
            },
            position: self.position,
        }
    }
}

/// The plain values of a list of rows.
pub open spec fn found_models(s: Seq<Found>) -> Seq<FoundModel> {
    s.map_values(|f: Found| f.model())
}

/// The property keys a search reads, by their stable hashes.
pub struct SearchKeys {
    pub items: i32,
    pub owner_name: i32,
    pub crafter_name: i32,
    pub item: i32,
    pub item_data: i32,
    pub stack: i32,
    pub quality: i32,
    pub durability: i32,
}

/// The hashes of `items`, `ownerName`, `crafterName`, `item`, `itemData`,
/// `stack`, `quality` and `durability`.
pub open spec fn search_keys() -> SearchKeys {
    SearchKeys {
        items: spec_stable_hash(seq!['i', 't', 'e', 'm', 's']),
        owner_name: spec_stable_hash(seq!['o', 'w', 'n', 'e', 'r', 'N', 'a', 'm', 'e']),
        crafter_name: spec_stable_hash(seq!['c', 'r', 'a', 'f', 't', 'e', 'r', 'N', 'a', 'm', 'e']),
        item: spec_stable_hash(seq!['i', 't', 'e', 'm']),
        item_data: spec_stable_hash(seq!['i', 't', 'e', 'm', 'D', 'a', 't', 'a']),
        stack: spec_stable_hash(seq!['s', 't', 'a', 'c', 'k']),
        quality: spec_stable_hash(seq!['q', 'u', 'a', 'l', 'i', 't', 'y']),
        durability: spec_stable_hash(seq!['d', 'u', 'r', 'a', 'b', 'i', 'l', 'i', 't', 'y']),
    }
}

/// A whole inventory package filling `b`.
pub open spec fn whole_inventory(b: Seq<u8>) -> Option<InventoryModel> {
    match parse_inventory(b) {
        Some((m, k)) => if k == b.len() {
            Some(m)
        } else {
            None
        },
        None => None,
    }
}

/// A container's inventory wherever its version keeps it: `None` when the
/// object has none, `Some(None)` when it cannot be decoded. The base64
/// string of versions up to 39 is tried first, then the raw bytes.
pub open spec fn inventory_of(m: ZdoModel) -> Option<Option<InventoryModel>> {
    let k = search_keys();
    match first_value(m.strings, k.items) {
        Some(t) => Some(
            match crate::container::base64_decoded(t) {
                Some(b) => whole_inventory(b),
                None => None,
            },
        ),
        None => match first_value(m.byte_arrays, k.items) {
            Some(b) => Some(whole_inventory(b)),
            None => None,
        },
    }
}

/// Whether the object carries an inventory at all, decodable or not.
pub open spec fn holds_inventory(m: ZdoModel) -> bool {
    has_key_in(m.strings, search_keys().items) || has_key_in(m.byte_arrays, search_keys().items)
}

/// The names of the items stored by name (the older record form), in order.
pub open spec fn legacy_names(items: Seq<ItemModel>) -> Seq<Seq<char>>
    decreases items.len(),
{
    if items.len() == 0 {
        seq![]
    } else {
        let rest = legacy_names(items.drop_last());
        match items.last() {
            ItemModel::Legacy(l) => rest.push(l.name),
            ItemModel::Compact(_) => rest,
        }
    }
}

/// The names a search learns from the decodable inventories of the first
/// `n` objects, in order.
pub open spec fn names_learned(ms: Seq<ZdoModel>, n: nat) -> Seq<Seq<char>>
    decreases n,
{
    if n == 0 {
        seq![]
    } else {
        let rest = names_learned(ms, (n - 1) as nat);
        match inventory_of(ms[n - 1]) {
            Some(Some(inv)) => rest + legacy_names(inv.items),
            _ => rest,
        }
    }
}

/// How many of the first `n` objects have a decodable inventory.
pub open spec fn inventories_read(ms: Seq<ZdoModel>, n: nat) -> nat
    decreases n,
{
    if n == 0 {
        0
    } else {
        inventories_read(ms, (n - 1) as nat) + match inventory_of(ms[n - 1]) {
            Some(Some(_)) => 1nat,
            _ => 0nat,
        }
    }
}

/// How many of the first `n` objects have an inventory that cannot be
/// decoded.
pub open spec fn inventories_unread(ms: Seq<ZdoModel>, n: nat) -> nat
    decreases n,
{
    if n == 0 {
        0
    } else {
        inventories_unread(ms, (n - 1) as nat) + match inventory_of(ms[n - 1]) {
            Some(None) => 1nat,
            _ => 0nat,
        }
    }
}

/// The name an item record shows: its stored name, or its prefab named by
/// `names`; empty for an item with no prefab.
pub open spec fn item_name(it: ItemModel, names: Map<i32, Seq<char>>) -> Seq<char> {
    match it {
        ItemModel::Legacy(l) => l.name,
        ItemModel::Compact(c) => match c.prefab_hash {
            Some(h) => display_of(names, h),
            None => seq![],
        },
    }
}

pub open spec fn item_crafter(it: ItemModel) -> Seq<char> {
    match it {
        ItemModel::Legacy(l) => match l.crafter {
            Some(c) => c.1,
            None => seq![],
        },
        ItemModel::Compact(c) => match c.crafter {
            Some(c) => c.1,
            None => seq![],
        },
    }
}

pub open spec fn item_stack(it: ItemModel) -> i32 {
    match it {
        ItemModel::Legacy(l) => l.stack,
        ItemModel::Compact(c) => match c.stack {
            Some(s) => s as i32,
            None => 1,
        },
    }
}

pub open spec fn item_quality(it: ItemModel) -> i32 {
    match it {
        ItemModel::Legacy(l) => match l.quality {
            Some(q) => q,
            None => 1,
        },
        ItemModel::Compact(c) => match c.quality {
            Some(q) => q as i32,
            None => 1,
        },
    }
}

/// Whether `needle` occurs in `hay`.
pub open spec fn occurs_in(needle: Seq<char>, hay: Seq<char>) -> bool {
    exists|i: int| 0 <= i && i + needle.len() <= hay.len() && #[trigger] hay.subrange(i, i + needle.len()) == needle
}

/// A tombstone's owner: its `ownerName`, when not empty.
pub open spec fn owner_of(m: ZdoModel) -> Option<Seq<char>> {
    match first_value(m.strings, search_keys().owner_name) {
        Some(s) => if s.len() > 0 {
            Some(s)
        } else {
            None
        },
        None => None,
    }
}

/// The rows for the items of one inventory held by `m` that the filter
/// lets through, items with no name left out.
pub open spec fn held_rows(
    items: Seq<ItemModel>,
    m: ZdoModel,
    names: Map<i32, Seq<char>>,
    f: FilterModel,
) -> Seq<FoundModel>
    decreases items.len(),
{
    if items.len() == 0 {
        seq![]
    } else {
        let rest = held_rows(items.drop_last(), m, names, f);
        let it = items.last();
        let name = item_name(it, names);
        let holder = display_of(names, m.prefab);
        if name.len() > 0 && filter_accepts(f, name, item_crafter(it)) {
            rest.push(
                FoundModel {
                    item: name,
                    stack: item_stack(it),
                    quality: item_quality(it),
                    crafter: item_crafter(it),
                    place: if owner_of(m) is Some || occurs_in(
                        seq!['t', 'o', 'm', 'b', 's', 't', 'o', 'n', 'e'],
                        holder,
                    ) {
                        Place::Tombstone
                    } else {
                        Place::Container
                    },
                    holder,
                    owner: owner_of(m),
                    position: position_bits(m.position),
                },
            )
        } else {
            rest
        }
    }
}

/// The rows for the held items of the first `n` objects.
pub open spec fn container_rows(ms: Seq<ZdoModel>, n: nat, names: Map<i32, Seq<char>>, f: FilterModel) -> Seq<
    FoundModel,
>
    decreases n,
{
    if n == 0 {
        seq![]
    } else {
        let rest = container_rows(ms, (n - 1) as nat, names, f);
        match inventory_of(ms[n - 1]) {
            Some(Some(inv)) => rest + held_rows(inv.items, ms[n - 1], names, f),
            _ => rest,
        }
    }
}


/// The count a held item record stores: a legacy record's stack, or a
/// compact record's stack field, 1 when that field is absent.
pub open spec fn stored_count(it: ItemModel) -> int {
    match it {
        ItemModel::Legacy(l) => l.stack as int,
        ItemModel::Compact(c) => if c.stack is Some {
            c.stack->0 as int
        } else {
            1
        },
    }
}

/// Every row found among the items an object holds (in a container or a
/// tombstone) shows the count stored on an item it holds under that name,
/// whatever that item's quality.
pub proof fn lemma_held_rows_show_stored_count(
    items: Seq<ItemModel>,
    m: ZdoModel,
    names: Map<i32, Seq<char>>,
    f: FilterModel,
)
    ensures
        forall|k: int|
            0 <= k < held_rows(items, m, names, f).len() ==> exists|i: int|
                0 <= i < items.len() && (#[trigger] held_rows(items, m, names, f)[k]).item == item_name(
                    items[i],
                    names,
                ) && held_rows(items, m, names, f)[k].stack as int == stored_count(items[i]),
    decreases items.len(),
{
    if items.len() > 0 {
        let p = items.drop_last();
        lemma_held_rows_show_stored_count(p, m, names, f);
        let rows = held_rows(items, m, names, f);
        let rest = held_rows(p, m, names, f);
        assert forall|k: int| 0 <= k < rows.len() implies exists|i: int|
            0 <= i < items.len() && (#[trigger] rows[k]).item == item_name(items[i], names) && rows[k].stack as int
                == stored_count(items[i]) by {
            if k < rest.len() {
                assert(rows[k] == rest[k]);
                let i = choose|i: int|
                    0 <= i < p.len() && rest[k].item == item_name(p[i], names) && rest[k].stack as int
                        == stored_count(p[i]);
                assert(items[i] == p[i]);
            } else {
                let j = items.len() - 1;
                assert(items[j] == items.last());
            }
        }
    }
}

// ---------------------------------------------------------------- objects

/// A value, or 1 when absent.
pub open spec fn or_one(v: Option<i32>) -> i32 {
    match v {
        Some(x) => x,
        None => 1,
    }
}

/// An optional count stored as a short, or 1 when absent.
pub open spec fn short_or_one(v: Option<u16>) -> i32 {
    match v {
        Some(x) => x as i32,
        None => 1,
    }
}

/// The crafter's name of a compact item; empty when it has none.
pub open spec fn compact_crafter(c: CompactModel) -> Seq<char> {
    match c.crafter {
        Some(cr) => cr.1,
        None => seq![],
    }
}

/// Stack, quality and crafter of an item lying in the world: from its
/// `itemData` when that is one whole item, else from the separate keys.
#[verifier::opaque]
pub open spec fn loose_details(m: ZdoModel) -> (i32, i32, Seq<char>) {
    let k = search_keys();
    let separate = (
        or_one(first_value(m.ints, k.stack)),
        or_one(first_value(m.ints, k.quality)),
        match first_value(m.strings, k.crafter_name) {
            Some(s) => s,
            None => seq![],
        },
    );
    match first_value(m.byte_arrays, k.item_data) {
        Some(b) => match parse_single(b) {
            Some((_, c)) => (short_or_one(c.stack), short_or_one(c.quality), compact_crafter(c)),
            None => separate,
        },
        None => separate,
    }
}

/// The row for an item lying loose, where the object's prefab is the item,
/// when the filter lets it through.
pub open spec fn loose_rows(m: ZdoModel, names: Map<i32, Seq<char>>, f: FilterModel) -> Seq<FoundModel> {
    let item = display_of(names, m.prefab);
    let d = loose_details(m);
    if filter_accepts(f, item, d.2) {
        seq![
            FoundModel {
                item,
                stack: d.0,
                quality: d.1,
                crafter: d.2,
                place: Place::Dropped,
                holder: item,
                owner: None,
                position: position_bits(m.position),
            },
        ]
    } else {
        seq![]
    }
}

/// A prefab named by property `key`: a non-empty string (world versions up
/// to 39), or a non-zero hash shown through `names` (from 40).
pub open spec fn prefab_property(m: ZdoModel, key: i32, names: Map<i32, Seq<char>>) -> Option<Seq<char>> {
    match first_value(m.strings, key) {
        Some(s) => if s.len() > 0 {
            Some(s)
        } else {
            None
        },
        None => match first_value(m.ints, key) {
            Some(h) => if h != 0 {
                Some(display_of(names, h))
            } else {
                None
            },
            None => None,
        },
    }
}

/// Whether the schema says `prefab` has the class named `class`.
pub open spec fn carries(s: Schema, prefab: i32, class: Seq<char>) -> bool {
    exists|c: int|
        0 <= c < s.num_classes() && s.class_name(c) == class && (forall|k: int|
            0 <= k < c ==> s.class_name(k) != class) && s.has_class(prefab, c)
}

/// What kind of object `m` is, for a row of the object itself: by the
/// schema's classes when it knows the prefab (a tombstone before a
/// container), else by the keys the object carries.
pub open spec fn object_place(m: ZdoModel, s: Schema) -> Place {
    let p = m.prefab;
    let k = search_keys();
    if s.components(p) is Some {
        if carries(s, p, seq!['T', 'o', 'm', 'b', 'S', 't', 'o', 'n', 'e']) {
            Place::Tombstone
        } else if carries(s, p, seq!['C', 'o', 'n', 't', 'a', 'i', 'n', 'e', 'r']) {
            Place::Container
        } else if carries(s, p, seq!['I', 't', 'e', 'm', 'S', 't', 'a', 'n', 'd']) || carries(
            s,
            p,
            seq!['A', 'r', 'm', 'o', 'r', 'S', 't', 'a', 'n', 'd'],
        ) {
            Place::Stand
        } else {
            Place::Object
        }
    } else if holds_inventory(m) {
        Place::Container
    } else if has_key_in(m.strings, k.item) || has_key_in(m.ints, k.item) {
        Place::Stand
    } else {
        Place::Object
    }
}

pub open spec fn is_digit_char(c: char) -> bool {
    48 <= (c as u32) <= 57
}

/// The value of a run of decimal digits.
pub open spec fn digits_value(d: Seq<char>) -> nat
    decreases d.len(),
{
    if d.len() == 0 {
        0
    } else {
        digits_value(d.drop_last()) * 10 + ((d.last() as u32) - 48) as nat
    }
}

/// `t` without one leading `+`.
pub open spec fn unsigned_part(t: Seq<char>) -> Seq<char> {
    if t.len() > 0 && t[0] == '+' {
        t.drop_first()
    } else {
        t
    }
}

/// Whether every character of `d` is a decimal digit.
pub open spec fn all_digits(d: Seq<char>) -> bool {
    forall|i: int| 0 <= i < d.len() ==> is_digit_char(#[trigger] d[i])
}

/// Whether `u32::from_str` accepts `t`: an optional `+`, then one or more
/// digits whose value fits in a `u32`.
pub open spec fn parses_u32(t: Seq<char>) -> bool {
    unsigned_part(t).len() > 0 && all_digits(unsigned_part(t)) && digits_value(unsigned_part(t)) <= u32::MAX
}

/// The armor-stand slot a key names: its name through `names` is a slot
/// number followed by `_item`.
pub open spec fn slot_of(names: Map<i32, Seq<char>>, key: i32) -> Option<Seq<char>> {
    if names.contains_key(key) {
        let n = names[key];
        let suffix = seq!['_', 'i', 't', 'e', 'm'];
        if n.len() >= 5 && n.skip(n.len() - 5) == suffix && parses_u32(n.take(n.len() - 5)) {
            Some(n.take(n.len() - 5))
        } else {
            None
        }
    } else {
        None
    }
}

/// The slot keys among `keys`, each with its slot, in order.
pub open spec fn slots_among(keys: Seq<i32>, names: Map<i32, Seq<char>>) -> Seq<(i32, Seq<char>)>
    decreases keys.len(),
{
    if keys.len() == 0 {
        seq![]
    } else {
        let rest = slots_among(keys.drop_last(), names);
        match slot_of(names, keys.last()) {
            Some(slot) => rest.push((keys.last(), slot)),
            None => rest,
        }
    }
}

/// The keys of a property table, in order.
pub open spec fn table_keys<V>(t: Seq<(i32, V)>) -> Seq<i32> {
    t.map_values(|e: (i32, V)| e.0)
}

/// The armor-stand slot keys of `m`: among its string keys, then among its
/// int keys.
#[verifier::opaque]
pub open spec fn slot_keys(m: ZdoModel, names: Map<i32, Seq<char>>) -> Seq<(i32, Seq<char>)> {
    slots_among(table_keys(m.strings), names) + slots_among(table_keys(m.ints), names)
}

/// A slot's item data, when its `<slot>_itemData` is one whole item.
pub open spec fn slot_item(m: ZdoModel, slot: Seq<char>) -> Option<CompactModel> {
    match first_value(m.byte_arrays, spec_stable_hash(slot + seq!['_', 'i', 't', 'e', 'm', 'D', 'a', 't', 'a'])) {
        Some(b) => match parse_single(b) {
            Some((_, c)) => Some(c),
            None => None,
        },
        None => None,
    }
}

/// The crafter and quality of a stand slot's item: from its item data, else
/// from `<slot>_crafterName` and `<slot>_quality`.
#[verifier::opaque]
pub open spec fn slot_details(m: ZdoModel, slot: Seq<char>) -> (Seq<char>, i32) {
    match slot_item(m, slot) {
        Some(c) => (compact_crafter(c), short_or_one(c.quality)),
        None => (
            match first_value(
                m.strings,
                spec_stable_hash(slot + seq!['_', 'c', 'r', 'a', 'f', 't', 'e', 'r', 'N', 'a', 'm', 'e']),
            ) {
                Some(s) => s,
                None => seq![],
            },
            or_one(first_value(m.ints, spec_stable_hash(slot + seq!['_', 'q', 'u', 'a', 'l', 'i', 't', 'y']))),
        ),
    }
}

/// The row for the item in slot `slot` (read under `key`) of a stand `m`,
/// when it holds one and the filter lets it through.
pub open spec fn slot_row(
    m: ZdoModel,
    names: Map<i32, Seq<char>>,
    f: FilterModel,
    key: i32,
    slot: Seq<char>,
) -> Seq<FoundModel> {
    match prefab_property(m, key, names) {
        None => seq![],
        Some(item) => {
            let d = slot_details(m, slot);
            if filter_accepts(f, item, d.0) {
                seq![
                    FoundModel {
                        item,
                        stack: 1,
                        quality: d.1,
                        crafter: d.0,
                        place: Place::Stand,
                        holder: display_of(names, m.prefab),
                        owner: None,
                        position: position_bits(m.position),
                    },
                ]
            } else {
                seq![]
            }
        },
    }
}

/// The rows for the items set in the first `n` of the slots `cs` of a
/// stand `m`.
pub open spec fn slot_rows(
    m: ZdoModel,
    names: Map<i32, Seq<char>>,
    f: FilterModel,
    cs: Seq<(i32, Seq<char>)>,
    n: nat,
) -> Seq<FoundModel>
    decreases n,
{
    if n == 0 {
        seq![]
    } else {
        slot_rows(m, names, f, cs, (n - 1) as nat) + slot_row(m, names, f, cs[n - 1].0, cs[n - 1].1)
    }
}

/// Whether one of the first `n` slots of `cs` holds an item.
pub open spec fn filled_upto(m: ZdoModel, names: Map<i32, Seq<char>>, cs: Seq<(i32, Seq<char>)>, n: nat) -> bool
    decreases n,
{
    if n == 0 {
        false
    } else {
        filled_upto(m, names, cs, (n - 1) as nat) || prefab_property(m, cs[n - 1].0, names) is Some
    }
}

/// Whether some slot of `cs` holds an item.
pub open spec fn slot_filled(m: ZdoModel, names: Map<i32, Seq<char>>, cs: Seq<(i32, Seq<char>)>) -> bool {
    filled_upto(m, names, cs, cs.len())
}

/// Whether `m` carries a key an item picks up once handled.
pub open spec fn handled_item_keys(m: ZdoModel) -> bool {
    let k = search_keys();
    has_key_in(m.ints, k.stack) || has_key_in(m.floats, k.durability) || has_key_in(m.strings, k.crafter_name)
        || has_key_in(m.byte_arrays, k.item_data)
}

/// The row for the object itself, when the filter matches its name.
pub open spec fn own_row(m: ZdoModel, names: Map<i32, Seq<char>>, s: Schema, f: FilterModel) -> Seq<FoundModel> {
    let name = display_of(names, m.prefab);
    if filter_accepts(f, name, seq![]) {
        seq![
            FoundModel {
                item: name,
                stack: 1,
                quality: 1,
                crafter: seq![],
                place: object_place(m, s),
                holder: name,
                owner: owner_of(m),
                position: position_bits(m.position),
            },
        ]
    } else {
        seq![]
    }
}

/// The row for the item on an item stand, whose prefab `item` names.
pub open spec fn stand_row(m: ZdoModel, names: Map<i32, Seq<char>>, f: FilterModel, item: Seq<char>) -> Seq<
    FoundModel,
> {
    let d = loose_details(m);
    if filter_accepts(f, item, d.2) {
        seq![
            FoundModel {
                item,
                stack: 1,
                quality: d.1,
                crafter: d.2,
                place: Place::Stand,
                holder: display_of(names, m.prefab),
                owner: None,
                position: position_bits(m.position),
            },
        ]
    } else {
        seq![]
    }
}

/// What an object that is no loose item holds, unless it holds an
/// inventory: the item on an item stand, or the items on an armor stand's
/// slots, or, for a prefab the schema does not know that carries
/// handled-item keys, itself as a loose item.
pub open spec fn held_by(m: ZdoModel, names: Map<i32, Seq<char>>, s: Schema, f: FilterModel) -> Seq<FoundModel> {
    if holds_inventory(m) {
        seq![]
    } else {
        match prefab_property(m, search_keys().item, names) {
            Some(item) => stand_row(m, names, f, item),
            None => armor_rows(m, names, s, f),
        }
    }
}

/// The items on an armor stand's slots, or, when no slot holds one and the
/// schema does not know the prefab, the object as a loose item if it
/// carries handled-item keys.
pub open spec fn armor_rows(m: ZdoModel, names: Map<i32, Seq<char>>, s: Schema, f: FilterModel) -> Seq<FoundModel> {
    let cs = slot_keys(m, names);
    if slot_filled(m, names, cs) {
        slot_rows(m, names, f, cs, cs.len())
    } else if !(s.components(m.prefab) is Some) && handled_item_keys(m) {
        loose_rows(m, names, f)
    } else {
        seq![]
    }
}

/// The rows one object gives besides the items of its inventory: a loose
/// item when the schema says it is one; else the object itself when the
/// filter matches its name, then what it holds.
pub open spec fn object_rows(m: ZdoModel, names: Map<i32, Seq<char>>, s: Schema, f: FilterModel) -> Seq<
    FoundModel,
> {
    if s.components(m.prefab) is Some && carries(s, m.prefab, seq!['I', 't', 'e', 'm', 'D', 'r', 'o', 'p']) {
        loose_rows(m, names, f)
    } else {
        own_row(m, names, s, f) + held_by(m, names, s, f)
    }
}

/// The object rows of the first `n` objects.
pub open spec fn object_rows_upto(
    ms: Seq<ZdoModel>,
    n: nat,
    names: Map<i32, Seq<char>>,
    s: Schema,
    f: FilterModel,
) -> Seq<FoundModel>
    decreases n,
{
    if n == 0 {
        seq![]
    } else {
        object_rows_upto(ms, (n - 1) as nat, names, s, f) + object_rows(ms[n - 1], names, s, f)
    }
}


// ---------------------------------------------------------------- reading objects

/// The stable hash of `s`, which reads `t`.
fn hash_of_text(s: &str, Ghost(t): Ghost<Seq<char>>) -> (h: i32)
    requires
        s@ == t,
    ensures
        h == spec_stable_hash(t),
{
    stable_hash(s)
}

#[verifier::spinoff_prover]
fn keys_of_search() -> (k: SearchKeys)
    ensures
        k == search_keys(),
{
    proof {
        reveal_strlit("items");
        reveal_strlit("ownerName");
        reveal_strlit("crafterName");
        reveal_strlit("item");
        reveal_strlit("itemData");
        reveal_strlit("stack");
        reveal_strlit("quality");
        reveal_strlit("durability");
        assert("items"@ =~= seq!['i', 't', 'e', 'm', 's']);
        assert("ownerName"@ =~= seq!['o', 'w', 'n', 'e', 'r', 'N', 'a', 'm', 'e']);
        assert("crafterName"@ =~= seq!['c', 'r', 'a', 'f', 't', 'e', 'r', 'N', 'a', 'm', 'e']);
        assert("item"@ =~= seq!['i', 't', 'e', 'm']);
        assert("itemData"@ =~= seq!['i', 't', 'e', 'm', 'D', 'a', 't', 'a']);
        assert("stack"@ =~= seq!['s', 't', 'a', 'c', 'k']);
        assert("quality"@ =~= seq!['q', 'u', 'a', 'l', 'i', 't', 'y']);
        assert("durability"@ =~= seq!['d', 'u', 'r', 'a', 'b', 'i', 'l', 'i', 't', 'y']);
    }
    let ghost items_text = seq!['i', 't', 'e', 'm', 's'];
    let items = hash_of_text("items", Ghost(items_text));
    let ghost owner_name_text = seq!['o', 'w', 'n', 'e', 'r', 'N', 'a', 'm', 'e'];
    let owner_name = hash_of_text("ownerName", Ghost(owner_name_text));
    let ghost crafter_name_text = seq!['c', 'r', 'a', 'f', 't', 'e', 'r', 'N', 'a', 'm', 'e'];
    let crafter_name = hash_of_text("crafterName", Ghost(crafter_name_text));
    let ghost item_text = seq!['i', 't', 'e', 'm'];
    let item = hash_of_text("item", Ghost(item_text));
    let ghost item_data_text = seq!['i', 't', 'e', 'm', 'D', 'a', 't', 'a'];
    let item_data = hash_of_text("itemData", Ghost(item_data_text));
    let ghost stack_text = seq!['s', 't', 'a', 'c', 'k'];
    let stack = hash_of_text("stack", Ghost(stack_text));
    let ghost quality_text = seq!['q', 'u', 'a', 'l', 'i', 't', 'y'];
    let quality = hash_of_text("quality", Ghost(quality_text));
    let ghost durability_text = seq!['d', 'u', 'r', 'a', 'b', 'i', 'l', 'i', 't', 'y'];
    let durability = hash_of_text("durability", Ghost(durability_text));
    SearchKeys { items, owner_name, crafter_name, item, item_data, stack, quality, durability }
}

fn compact_crafter_of(c: &crate::inventory::CompactItem) -> (r: String)
    ensures
        r@ == compact_crafter(c.model()),
{
    match &c.crafter {
        Some(cr) => String::from_str(cr.name.as_str()),
        None => String::new(),
    }
}

fn short_or_one_of(v: Option<u16>) -> (r: i32)
    ensures
        r == short_or_one(v),
{
    match v {
        Some(x) => x as i32,
        None => 1,
    }
}

fn or_one_of(v: Option<i32>) -> (r: i32)
    ensures
        r == or_one(v),
{
    match v {
        Some(x) => x,
        None => 1,
    }
}

fn string_or_empty(v: Option<&str>) -> (r: String)
    ensures
        r@ == match v {
            Some(s) => s@,
            None => seq![],
        },
{
    match v {
        Some(s) => String::from_str(s),
        None => String::new(),
    }
}

fn loose_details_of(z: &Zdo, k: &SearchKeys) -> (r: (i32, i32, String))
    requires
        *k == search_keys(),
    ensures
        (r.0, r.1, r.2@) == loose_details(z.model()),
{
    reveal(loose_details);
    if let Some(b) = z.bytes(k.item_data) {
        if let Some(single) = crate::inventory::SingleItem::parse(b) {
            let item = &single.item;
            return (short_or_one_of(item.stack), short_or_one_of(item.quality), compact_crafter_of(item));
        }
    }
    (or_one_of(z.int_value(k.stack)), or_one_of(z.int_value(k.quality)), string_or_empty(z.string(k.crafter_name)))
}

fn prefab_property_of(z: &Zdo, key: i32, names: &NameTable) -> (r: Option<String>)
    ensures
        match r {
            Some(s) => prefab_property(z.model(), key, names@) == Some(s@),
            None => prefab_property(z.model(), key, names@) is None,
        },
{
    if let Some(s) = z.string(key) {
        if s.is_empty() {
            return None;
        }
        return Some(String::from_str(s));
    }
    match z.int_value(key) {
        Some(h) => if h != 0 {
            Some(names.display(h))
        } else {
            None
        },
        None => None,
    }
}

proof fn lemma_table_has_key<T: crate::wire::Wire>(t: crate::zdo::PropTable<T>, key: i32)
    ensures
        t.keys().contains(key) == has_key_in(t.model(), key),
{
    if t.keys().contains(key) {
        let i = choose|i: int| 0 <= i < t.keys().len() && t.keys()[i] == key;
        assert(t.model()[i].0 == key);
    }
    if has_key_in(t.model(), key) {
        let i = choose|i: int| 0 <= i < t.model().len() && t.model()[i].0 == key;
        assert(t.keys()[i] == key);
    }
}

fn holds_inventory_of(z: &Zdo, k: &SearchKeys) -> (r: bool)
    requires
        *k == search_keys(),
    ensures
        r == holds_inventory(z.model()),
{
    let r = z.strings.contains(k.items) || z.byte_arrays.contains(k.items);
    proof {
        lemma_table_has_key(z.strings, k.items);
        lemma_table_has_key(z.byte_arrays, k.items);
    }
    r
}


/// Whether the schema says `prefab` has the class named `class`, which
/// reads `t`.
fn has_class_named(schema: &Schema, prefab: i32, class: &str, Ghost(t): Ghost<Seq<char>>) -> (r: bool)
    requires
        schema.wf(),
        class@ == t,
    ensures
        r == carries(*schema, prefab, t),
{
    schema.prefab_has_class(prefab, class)
}

#[verifier::spinoff_prover]
#[verifier::rlimit(30)]
fn object_place_of(z: &Zdo, schema: &Schema, k: &SearchKeys) -> (r: Place)
    requires
        schema.wf(),
        *k == search_keys(),
    ensures
        r == object_place(z.model(), *schema),
{
    let p = z.prefab;
    if schema.knows_prefab(p) {
        proof {
            reveal_strlit("TombStone");
            reveal_strlit("Container");
            reveal_strlit("ItemStand");
            reveal_strlit("ArmorStand");
            assert("TombStone"@ =~= seq!['T', 'o', 'm', 'b', 'S', 't', 'o', 'n', 'e']);
            assert("Container"@ =~= seq!['C', 'o', 'n', 't', 'a', 'i', 'n', 'e', 'r']);
            assert("ItemStand"@ =~= seq!['I', 't', 'e', 'm', 'S', 't', 'a', 'n', 'd']);
            assert("ArmorStand"@ =~= seq!['A', 'r', 'm', 'o', 'r', 'S', 't', 'a', 'n', 'd']);
        }
        let ghost tomb = seq!['T', 'o', 'm', 'b', 'S', 't', 'o', 'n', 'e'];
        let ghost cont = seq!['C', 'o', 'n', 't', 'a', 'i', 'n', 'e', 'r'];
        let ghost item_stand = seq!['I', 't', 'e', 'm', 'S', 't', 'a', 'n', 'd'];
        let ghost armor_stand = seq!['A', 'r', 'm', 'o', 'r', 'S', 't', 'a', 'n', 'd'];
        if has_class_named(schema, p, "TombStone", Ghost(tomb)) {
            return Place::Tombstone;
        }
        if has_class_named(schema, p, "Container", Ghost(cont)) {
            return Place::Container;
        }
        if has_class_named(schema, p, "ItemStand", Ghost(item_stand)) || has_class_named(
            schema,
            p,
            "ArmorStand",
            Ghost(armor_stand),
        ) {
            return Place::Stand;
        }
        return Place::Object;
    }
    if holds_inventory_of(z, k) {
        return Place::Container;
    }
    let stand = z.strings.contains(k.item) || z.ints.contains(k.item);
    proof {
        lemma_table_has_key(z.strings, k.item);
        lemma_table_has_key(z.ints, k.item);
    }
    if stand {
        Place::Stand
    } else {
        Place::Object
    }
}

proof fn lemma_digits_prefix(d: Seq<char>, i: int)
    requires
        0 <= i <= d.len(),
        all_digits(d),
    ensures
        digits_value(d.take(i)) <= digits_value(d),
    decreases d.len() - i,
{
    if i < d.len() {
        lemma_digits_prefix(d, i + 1);
        assert(d.take(i + 1).drop_last() =~= d.take(i));
    } else {
        assert(d.take(i) =~= d);
    }
}

/// Whether `u32::from_str` accepts `t`.
fn parses_u32_of(t: &str) -> (r: bool)
    ensures
        r == parses_u32(t@),
{
    let cs = chars_of(t);
    let start: usize = if cs.len() > 0 && cs[0] == '+' {
        1
    } else {
        0
    };
    let ghost d = unsigned_part(t@);
    assert(d =~= cs@.skip(start as int));
    if start >= cs.len() {
        return false;
    }
    let mut v: u64 = 0;
    let mut i: usize = start;
    while i < cs.len()
        invariant
            cs@ == t@,
            start <= i <= cs@.len(),
            d =~= cs@.skip(start as int),
            d == unsigned_part(t@),
            v == digits_value(d.take(i - start)),
            v <= u32::MAX,
            forall|j: int| 0 <= j < i - start ==> is_digit_char(#[trigger] d[j]),
        decreases cs@.len() - i,
    {
        let c = cs[i] as u32;
        assert(d[i - start] == cs@[i as int]);
        if c < 48 || c > 57 {
            assert(!is_digit_char(d[i - start]));
            assert(!parses_u32(t@)) by {
                assert(0 <= i - start < d.len());
                assert(!is_digit_char(d[i - start]));
            }
            return false;
        }
        assert(d.take(i - start + 1).drop_last() =~= d.take(i - start));
        assert(d.take(i - start + 1).last() == d[i - start]);
        v = v * 10 + (c - 48) as u64;
        assert(v == digits_value(d.take(i - start + 1)));
        if v > 0xFFFF_FFFF {
            assert(!parses_u32(t@)) by {
                if all_digits(d) {
                    lemma_digits_prefix(d, i - start + 1);
                }
            }
            return false;
        }
        i = i + 1;
    }
    assert(d.take(i - start) =~= d);
    true
}

/// The slot `key` names, as [`slot_of`] says.
fn slot_of_key(names: &NameTable, key: i32) -> (r: Option<String>)
    ensures
        match r {
            Some(s) => slot_of(names@, key) == Some(s@),
            None => slot_of(names@, key) is None,
        },
{
    let name = match names.resolve(key) {
        Some(n) => n,
        None => return None,
    };
    let cs = chars_of(name);
    let n = cs.len();
    if n < 5 {
        return None;
    }
    let ghost suffix = seq!['_', 'i', 't', 'e', 'm'];
    if !(cs[n - 5] == '_' && cs[n - 4] == 'i' && cs[n - 3] == 't' && cs[n - 2] == 'e' && cs[n - 1] == 'm') {
        assert(name@.skip(n - 5) != suffix) by {
            if name@.skip(n - 5) == suffix {
                assert(name@.skip(n - 5)[0] == '_');
                assert(name@.skip(n - 5)[1] == 'i');
                assert(name@.skip(n - 5)[2] == 't');
                assert(name@.skip(n - 5)[3] == 'e');
                assert(name@.skip(n - 5)[4] == 'm');
            }
        }
        return None;
    }
    assert(name@.skip(n - 5) =~= suffix);
    let slot = crate::text::piece(name, 0, n - 5);
    assert(slot@ =~= name@.take(n - 5));
    if parses_u32_of(slot.as_str()) {
        Some(slot)
    } else {
        None
    }
}


/// The slots named by the keys of `keys`, in order.
fn slots_in_keys(keys: &Vec<i32>, names: &NameTable, out: &mut Vec<(i32, String)>)
    ensures
        slot_pair_views(final(out)@) == slot_pair_views(old(out)@) + slots_among(keys@, names@),
{
    let ghost start = slot_pair_views(out@);
    let mut i: usize = 0;
    while i < keys.len()
        invariant
            i <= keys@.len(),
            slot_pair_views(out@) == start + slots_among(keys@.take(i as int), names@),
        decreases keys@.len() - i,
    {
        assert(keys@.take(i + 1).drop_last() =~= keys@.take(i as int));
        let ghost before = out@;
        match slot_of_key(names, keys[i]) {
            Some(slot) => {
                out.push((keys[i], slot));
                assert(slot_pair_views(out@) =~= slot_pair_views(before).push(
                    (keys@[i as int], slot_of(names@, keys@[i as int]).unwrap()),
                ));
            },
            None => {},
        }
        i = i + 1;
    }
    assert(keys@.take(keys@.len() as int) =~= keys@);
}

/// Pairs of key and slot as plain values.
pub open spec fn slot_pair_views(s: Seq<(i32, String)>) -> Seq<(i32, Seq<char>)> {
    s.map_values(|p: (i32, String)| (p.0, p.1@))
}

/// The keys of a property table, in order.
fn keys_of<T: crate::wire::Wire>(t: &crate::zdo::PropTable<T>) -> (r: Vec<i32>)
    ensures
        r@ == table_keys(t.model()),
{
    let mut r: Vec<i32> = Vec::new();
    let mut i: usize = 0;
    while i < t.entries.len()
        invariant
            i <= t.entries@.len(),
            r@ =~= table_keys(t.model()).take(i as int),
        decreases t.entries@.len() - i,
    {
        r.push(t.entries[i].0);
        assert(t.model()[i as int].0 == t.entries@[i as int].0);
        i = i + 1;
    }
    r
}

/// The armor-stand slot keys of `z`, as [`slot_keys`] says.
fn slot_keys_of(z: &Zdo, names: &NameTable) -> (r: Vec<(i32, String)>)
    ensures
        slot_pair_views(r@) == slot_keys(z.model(), names@),
{
    let mut out: Vec<(i32, String)> = Vec::new();
    assert(slot_pair_views(out@) =~= seq![]);
    let sk = keys_of(&z.strings);
    slots_in_keys(&sk, names, &mut out);
    let ik = keys_of(&z.ints);
    slots_in_keys(&ik, names, &mut out);
    reveal(slot_keys);
    assert(slot_pair_views(out@) =~= slot_keys(z.model(), names@));
    out
}

/// The stable hash of `slot` followed by `suffix`, which reads `t`.
fn slot_key_hash(slot: &str, suffix: &str, Ghost(t): Ghost<Seq<char>>) -> (h: i32)
    requires
        suffix@ == t,
    ensures
        h == spec_stable_hash(slot@ + t),
{
    let mut s = String::from_str(slot);
    s.append(suffix);
    stable_hash(s.as_str())
}

fn slot_details_of(z: &Zdo, slot: &str) -> (r: (String, i32))
    ensures
        (r.0@, r.1) == slot_details(z.model(), slot@),
{
    reveal(slot_details);
    proof {
        reveal_strlit("_itemData");
        reveal_strlit("_crafterName");
        reveal_strlit("_quality");
        assert("_itemData"@ =~= seq!['_', 'i', 't', 'e', 'm', 'D', 'a', 't', 'a']);
        assert("_crafterName"@ =~= seq!['_', 'c', 'r', 'a', 'f', 't', 'e', 'r', 'N', 'a', 'm', 'e']);
        assert("_quality"@ =~= seq!['_', 'q', 'u', 'a', 'l', 'i', 't', 'y']);
    }
    let ghost data_text = seq!['_', 'i', 't', 'e', 'm', 'D', 'a', 't', 'a'];
    let ghost crafter_text = seq!['_', 'c', 'r', 'a', 'f', 't', 'e', 'r', 'N', 'a', 'm', 'e'];
    let ghost quality_text = seq!['_', 'q', 'u', 'a', 'l', 'i', 't', 'y'];
    let data_key = slot_key_hash(slot, "_itemData", Ghost(data_text));
    if let Some(b) = z.bytes(data_key) {
        if let Some(single) = crate::inventory::SingleItem::parse(b) {
            return (compact_crafter_of(&single.item), short_or_one_of(single.item.quality));
        }
    }
    let crafter_key = slot_key_hash(slot, "_crafterName", Ghost(crafter_text));
    let quality_key = slot_key_hash(slot, "_quality", Ghost(quality_text));
    (string_or_empty(z.string(crafter_key)), or_one_of(z.int_value(quality_key)))
}


// ---------------------------------------------------------------- rows

fn owner_of_z(z: &Zdo, k: &SearchKeys) -> (r: Option<String>)
    requires
        *k == search_keys(),
    ensures
        match r {
            Some(o) => owner_of(z.model()) == Some(o@),
            None => owner_of(z.model()) is None,
        },
{
    match z.string(k.owner_name) {
        Some(s) => if s.is_empty() {
            None
        } else {
            Some(String::from_str(s))
        },
        None => None,
    }
}

/// Whether `needle` occurs in `hay` at `i`.
fn occurs_at(needle: &Vec<char>, hay: &Vec<char>, i: usize) -> (r: bool)
    requires
        i + needle@.len() <= hay@.len(),
    ensures
        r == (hay@.subrange(i as int, i + needle@.len()) == needle@),
{
    let n = hay.len();
    let mut j: usize = 0;
    while j < needle.len()
        invariant
            n == hay@.len(),
            i + needle@.len() <= hay@.len(),
            j <= needle@.len(),
            forall|q: int| 0 <= q < j ==> hay@[i + q] == needle@[q],
        decreases needle@.len() - j,
    {
        if hay[i + j] != needle[j] {
            assert(hay@.subrange(i as int, i + needle@.len())[j as int] != needle@[j as int]);
            return false;
        }
        j = j + 1;
    }
    assert(hay@.subrange(i as int, i + needle@.len()) =~= needle@);
    true
}

/// Whether `needle` occurs in `hay`.
fn text_occurs(needle: &Vec<char>, hay: &Vec<char>) -> (r: bool)
    ensures
        r == occurs_in(needle@, hay@),
{
    if needle.len() > hay.len() {
        return false;
    }
    let last = hay.len() - needle.len();
    let mut i: usize = 0;
    loop
        invariant
            last == hay@.len() - needle@.len(),
            i <= last,
            forall|q: int| 0 <= q < i ==> #[trigger] hay@.subrange(q, q + needle@.len()) != needle@,
        decreases last - i,
    {
        if occurs_at(needle, hay, i) {
            return true;
        }
        if i == last {
            proof {
                assert forall|q: int| 0 <= q && q + needle@.len() <= hay@.len() implies #[trigger] hay@.subrange(
                    q,
                    q + needle@.len(),
                ) != needle@ by {
                    assert(q <= i);
                }
            }
            return false;
        }
        i = i + 1;
    }
}

/// Push the row for an item lying loose, when the filter lets it through.
fn push_loose(z: &Zdo, names: &NameTable, f: &Filter, k: &SearchKeys, out: &mut Vec<Found>)
    requires
        *k == search_keys(),
    ensures
        found_models(final(out)@) == found_models(old(out)@) + loose_rows(z.model(), names@, f.model()),
{
    let item = names.display(z.prefab);
    let (stack, quality, crafter) = loose_details_of(z, k);
    let ghost before = out@;
    if f.accepts(item.as_str(), crafter.as_str()) {
        let holder = item.clone();
        let row = Found {
            item,
            stack,
            quality,
            crafter,
            place: Place::Dropped,
            holder,
            owner: None,
            position: crate::repair::position_of(&z.position),
        };
        out.push(row);
        assert(found_models(out@) =~= found_models(before) + loose_rows(z.model(), names@, f.model()));
    } else {
        assert(found_models(out@) =~= found_models(before) + loose_rows(z.model(), names@, f.model()));
    }
}

/// Push the row for the item in one slot of a stand; whether the slot holds
/// an item.
fn push_slot_row(z: &Zdo, names: &NameTable, f: &Filter, key: i32, slot: &str, out: &mut Vec<Found>) -> (some: bool)
    ensures
        some == prefab_property(z.model(), key, names@) is Some,
        found_models(final(out)@) == found_models(old(out)@) + slot_row(z.model(), names@, f.model(), key, slot@),
{
    let ghost before = out@;
    match prefab_property_of(z, key, names) {
        None => {
            assert(found_models(out@) =~= found_models(before) + slot_row(z.model(), names@, f.model(), key, slot@));
            false
        },
        Some(item) => {
            let (crafter, quality) = slot_details_of(z, slot);
            if f.accepts(item.as_str(), crafter.as_str()) {
                let row = Found {
                    item,
                    stack: 1,
                    quality,
                    crafter,
                    place: Place::Stand,
                    holder: names.display(z.prefab),
                    owner: None,
                    position: crate::repair::position_of(&z.position),
                };
                out.push(row);
            }
            assert(found_models(out@) =~= found_models(before) + slot_row(z.model(), names@, f.model(), key, slot@));
            true
        },
    }
}

/// Push the rows for the items in the slots `cs` of a stand; whether some
/// slot holds an item.
fn push_slot_rows(
    z: &Zdo,
    names: &NameTable,
    f: &Filter,
    cs: &Vec<(i32, String)>,
    out: &mut Vec<Found>,
) -> (filled: bool)
    ensures
        filled == slot_filled(z.model(), names@, slot_pair_views(cs@)),
        found_models(final(out)@) == found_models(old(out)@) + slot_rows(
            z.model(),
            names@,
            f.model(),
            slot_pair_views(cs@),
            cs@.len(),
        ),
{
    let ghost m = z.model();
    let ghost cv = slot_pair_views(cs@);
    let ghost start = found_models(out@);
    let mut filled = false;
    let mut i: usize = 0;
    while i < cs.len()
        invariant
            i <= cs@.len(),
            m == z.model(),
            cv == slot_pair_views(cs@),
            filled == filled_upto(m, names@, cv, i as nat),
            found_models(out@) == start + slot_rows(m, names@, f.model(), cv, i as nat),
        decreases cs@.len() - i,
    {
        assert(cv[i as int] == (cs@[i as int].0, cs@[i as int].1@));
        let ghost mid = found_models(out@);
        let some = push_slot_row(z, names, f, cs[i].0, cs[i].1.as_str(), out);
        filled = filled || some;
        assert(found_models(out@) =~= start + slot_rows(m, names@, f.model(), cv, (i + 1) as nat));
        i = i + 1;
    }
    filled
}

fn push_own_row(z: &Zdo, names: &NameTable, schema: &Schema, f: &Filter, k: &SearchKeys, out: &mut Vec<Found>)
    requires
        schema.wf(),
        *k == search_keys(),
    ensures
        found_models(final(out)@) == found_models(old(out)@) + own_row(z.model(), names@, *schema, f.model()),
{
    let ghost before = out@;
    let name = names.display(z.prefab);
    proof {
        reveal_strlit("");
    }
    if f.accepts(name.as_str(), "") {
        let row = Found {
            item: name.clone(),
            stack: 1,
            quality: 1,
            crafter: String::new(),
            place: object_place_of(z, schema, k),
            holder: name,
            owner: owner_of_z(z, k),
            position: crate::repair::position_of(&z.position),
        };
        out.push(row);
        assert(found_models(out@) =~= found_models(before).push(row.model()));
    } else {
        assert(found_models(out@) =~= found_models(before));
    }
}

fn push_stand_row(z: &Zdo, names: &NameTable, f: &Filter, k: &SearchKeys, item: String, out: &mut Vec<Found>)
    requires
        *k == search_keys(),
    ensures
        found_models(final(out)@) == found_models(old(out)@) + stand_row(z.model(), names@, f.model(), item@),
{
    let ghost before = found_models(out@);
    let ghost iv = item@;
    let (_, quality, crafter) = loose_details_of(z, k);
    if f.accepts(item.as_str(), crafter.as_str()) {
        let row = Found {
            item,
            stack: 1,
            quality,
            crafter,
            place: Place::Stand,
            holder: names.display(z.prefab),
            owner: None,
            position: crate::repair::position_of(&z.position),
        };
        out.push(row);
        assert(found_models(out@) =~= before.push(row.model()));
    }
    assert(found_models(out@) =~= before + stand_row(z.model(), names@, f.model(), iv));
}

fn push_held_by(z: &Zdo, names: &NameTable, schema: &Schema, f: &Filter, k: &SearchKeys, out: &mut Vec<Found>)
    requires
        schema.wf(),
        *k == search_keys(),
    ensures
        found_models(final(out)@) == found_models(old(out)@) + held_by(z.model(), names@, *schema, f.model()),
{
    let ghost m = z.model();
    let ghost start = found_models(out@);
    if holds_inventory_of(z, k) {
        assert(found_models(out@) =~= start + held_by(m, names@, *schema, f.model()));
        return;
    }
    match prefab_property_of(z, k.item, names) {
        Some(item) => {
            push_stand_row(z, names, f, k, item, out);
            assert(found_models(out@) =~= start + held_by(m, names@, *schema, f.model()));
        },
        None => {
            push_armor_rows(z, names, schema, f, k, out);
        },
    }
}

fn handled_keys_of(z: &Zdo, k: &SearchKeys) -> (r: bool)
    requires
        *k == search_keys(),
    ensures
        r == handled_item_keys(z.model()),
{
    let handled = z.ints.contains(k.stack) || z.floats.contains(k.durability) || z.strings.contains(
        k.crafter_name,
    ) || z.byte_arrays.contains(k.item_data);
    proof {
        lemma_table_has_key(z.ints, k.stack);
        lemma_table_has_key(z.floats, k.durability);
        lemma_table_has_key(z.strings, k.crafter_name);
        lemma_table_has_key(z.byte_arrays, k.item_data);
    }
    handled
}

proof fn lemma_unfilled_no_rows(
    m: ZdoModel,
    names: Map<i32, Seq<char>>,
    f: FilterModel,
    cs: Seq<(i32, Seq<char>)>,
    n: nat,
)
    requires
        n <= cs.len(),
        !filled_upto(m, names, cs, n),
    ensures
        slot_rows(m, names, f, cs, n) == Seq::<FoundModel>::empty(),
    decreases n,
{
    if n > 0 {
        lemma_unfilled_no_rows(m, names, f, cs, (n - 1) as nat);
        assert(slot_rows(m, names, f, cs, n) =~= Seq::<FoundModel>::empty());
    }
}

fn push_armor_rows(z: &Zdo, names: &NameTable, schema: &Schema, f: &Filter, k: &SearchKeys, out: &mut Vec<Found>)
    requires
        *k == search_keys(),
    ensures
        found_models(final(out)@) == found_models(old(out)@) + armor_rows(z.model(), names@, *schema, f.model()),
{
    let ghost start = found_models(out@);
    let cs = slot_keys_of(z, names);
    let filled = push_slot_rows(z, names, f, &cs, out);
    if filled {
        return;
    }
    proof {
        lemma_unfilled_no_rows(z.model(), names@, f.model(), slot_pair_views(cs@), cs@.len());
        assert(found_models(out@) =~= start);
    }
    let handled = handled_keys_of(z, k);
    if !schema.knows_prefab(z.prefab) && handled {
        push_loose(z, names, f, k, out);
    } else {
        assert(found_models(out@) =~= start + armor_rows(z.model(), names@, *schema, f.model()));
    }
}

/// Push the rows one object gives besides its inventory, as
/// [`object_rows`] says.
#[verifier::rlimit(20)]
fn push_object_rows(
    z: &Zdo,
    names: &NameTable,
    schema: &Schema,
    f: &Filter,
    k: &SearchKeys,
    out: &mut Vec<Found>,
)
    requires
        schema.wf(),
        *k == search_keys(),
    ensures
        found_models(final(out)@) == found_models(old(out)@) + object_rows(z.model(), names@, *schema, f.model()),
{
    let ghost start = found_models(out@);
    proof {
        reveal_strlit("ItemDrop");
        assert("ItemDrop"@ =~= seq!['I', 't', 'e', 'm', 'D', 'r', 'o', 'p']);
    }
    let ghost drop_text = seq!['I', 't', 'e', 'm', 'D', 'r', 'o', 'p'];
    if schema.knows_prefab(z.prefab) && has_class_named(schema, z.prefab, "ItemDrop", Ghost(drop_text)) {
        push_loose(z, names, f, k, out);
        return;
    }
    push_own_row(z, names, schema, f, k, out);
    let ghost mid = found_models(out@);
    push_held_by(z, names, schema, f, k, out);
    assert(found_models(out@) =~= start + object_rows(z.model(), names@, *schema, f.model()));
}


// ---------------------------------------------------------------- inventories

/// A container's inventory, as [`inventory_of`] says: `None` when it has
/// none, `Some(None)` when it cannot be decoded.
fn inventory_of_z(z: &Zdo, k: &SearchKeys) -> (r: Option<Option<Inventory>>)
    requires
        *k == search_keys(),
    ensures
        match inventory_of(z.model()) {
            None => r is None,
            Some(None) => r == Some(None::<Inventory>),
            Some(Some(m)) => r matches Some(Some(inv)) && inv.model() == m,
        },
{
    let decoded = if let Some(text) = z.string(k.items) {
        Inventory::from_base64(text)
    } else {
        match z.bytes(k.items) {
            Some(b) => Inventory::parse(b),
            None => {
                return None;
            },
        }
    };
    match decoded {
        Ok(inv) => Some(Some(inv)),
        Err(_) => Some(None),
    }
}

/// Push the rows for the items of an inventory held by `z`, as
/// [`held_rows`] says.
#[verifier::spinoff_prover]
#[verifier::rlimit(30)]
fn push_held_rows(items: &Vec<Item>, z: &Zdo, names: &NameTable, f: &Filter, k: &SearchKeys, out: &mut Vec<Found>)
    requires
        *k == search_keys(),
    ensures
        found_models(final(out)@) == found_models(old(out)@) + held_rows(
            item_models(items@),
            z.model(),
            names@,
            f.model(),
        ),
{
    let ghost m = z.model();
    let ghost start = found_models(out@);
    let holder = names.display(z.prefab);
    let owner = owner_of_z(z, k);
    proof {
        reveal_strlit("tombstone");
        assert("tombstone"@ =~= seq!['t', 'o', 'm', 'b', 's', 't', 'o', 'n', 'e']);
    }
    let tomb_text = chars_of("tombstone");
    let holder_text = chars_of(holder.as_str());
    let place = if owner.is_some() || text_occurs(&tomb_text, &holder_text) {
        Place::Tombstone
    } else {
        Place::Container
    };
    let position = crate::repair::position_of(&z.position);
    let mut i: usize = 0;
    while i < items.len()
        invariant
            i <= items@.len(),
            m == z.model(),
            holder@ == display_of(names@, m.prefab),
            match owner {
                Some(o) => owner_of(m) == Some(o@),
                None => owner_of(m) is None,
            },
            place == (if owner_of(m) is Some || occurs_in(
                seq!['t', 'o', 'm', 'b', 's', 't', 'o', 'n', 'e'],
                display_of(names@, m.prefab),
            ) {
                Place::Tombstone
            } else {
                Place::Container
            }),
            position == position_bits(m.position),
            found_models(out@) == start + held_rows(item_models(items@).take(i as int), m, names@, f.model()),
        decreases items@.len() - i,
    {
        let ghost before = found_models(out@);
        let it = &items[i];
        assert(item_models(items@).take(i + 1).drop_last() =~= item_models(items@).take(i as int));
        assert(item_models(items@).take(i + 1).last() == it.model());
        let name = it.name(names);
        let crafter = it.crafter_name();
        if !name.as_str().is_empty() && f.accepts(name.as_str(), crafter) {
            let row = Found {
                item: name,
                stack: it.stack(),
                quality: it.quality(),
                crafter: String::from_str(crafter),
                place,
                holder: holder.clone(),
                owner: match &owner {
                    Some(o) => Some(o.clone()),
                    None => None,
                },
                position,
            };
            out.push(row);
            assert(found_models(out@) =~= before.push(row.model()));
        }
        i = i + 1;
    }
    assert(item_models(items@).take(items@.len() as int) =~= item_models(items@));
}


// ---------------------------------------------------------------- order

/// The name of what `str::to_lowercase` makes of `s`.
pub uninterp spec fn lowercased(s: Seq<char>) -> Seq<char>;

/// `str::to_lowercase`: its result is what [`lowercased`] names.
#[verifier::external_body]
fn lowercase(s: &str) -> (r: String)
    ensures
        r@ == lowercased(s@),
{
    s.to_lowercase()
}

/// Where the `f32` with bit pattern `b` stands in the order of
/// `f32::total_cmp`: the bits as a signed number, with the magnitude of a
/// negative one reversed.
pub open spec fn float_order_key(b: u32) -> int {
    if b >= 0x8000_0000 {
        -1 - (b - 0x8000_0000)
    } else {
        b as int
    }
}

/// What rows are sorted by: the item name in lower case, the crafter, the
/// holder's x coordinate.
pub open spec fn row_key(r: FoundModel) -> (Seq<char>, Seq<char>, int) {
    (lowercased(r.item), r.crafter, float_order_key(r.position.0))
}

pub open spec fn key_before(a: (Seq<char>, Seq<char>, int), b: (Seq<char>, Seq<char>, int)) -> bool {
    text_before(a.0, b.0) || (a.0 == b.0 && (text_before(a.1, b.1) || (a.1 == b.1 && a.2 < b.2)))
}

/// Whether row `i` of `u` comes before row `j` in a stable sort by
/// [`row_key`].
pub open spec fn sorts_before(u: Seq<FoundModel>, i: int, j: int) -> bool {
    key_before(row_key(u[i]), row_key(u[j])) || (row_key(u[i]) == row_key(u[j]) && i < j)
}

/// `r` is `u` rearranged by `order`: `r[j]` is `u[order[j]]`, each row of
/// `u` taken once, in the order of [`sorts_before`].
pub open spec fn arranged_by(r: Seq<FoundModel>, u: Seq<FoundModel>, order: Seq<int>) -> bool {
    &&& order.len() == u.len()
    &&& r.len() == u.len()
    &&& order.no_duplicates()
    &&& forall|j: int| 0 <= j < order.len() ==> 0 <= #[trigger] order[j] < u.len() && r[j] == u[order[j]]
    &&& forall|a: int, b: int| 0 <= a < b < order.len() ==> sorts_before(u, #[trigger] order[a], #[trigger] order[b])
}

/// `r` is `u` stably sorted by [`row_key`].
pub open spec fn stably_sorted(r: Seq<FoundModel>, u: Seq<FoundModel>) -> bool {
    exists|order: Seq<int>| arranged_by(r, u, order)
}

proof fn lemma_key_order(a: (Seq<char>, Seq<char>, int), b: (Seq<char>, Seq<char>, int), c: (Seq<char>, Seq<char>, int))
    ensures
        !key_before(a, a),
        a != b ==> key_before(a, b) || key_before(b, a),
        !(key_before(a, b) && key_before(b, a)),
        key_before(a, b) && key_before(b, c) ==> key_before(a, c),
{
    lemma_text_irreflexive(a.0);
    lemma_text_irreflexive(a.1);
    lemma_text_total(a.0, b.0);
    lemma_text_total(a.1, b.1);
    if key_before(a, b) && key_before(b, c) {
        if text_before(a.0, b.0) && text_before(b.0, c.0) {
            lemma_text_transitive(a.0, b.0, c.0);
        }
        if a.0 == b.0 && b.0 == c.0 && text_before(a.1, b.1) && text_before(b.1, c.1) {
            lemma_text_transitive(a.1, b.1, c.1);
        }
    }
}

/// A row's sort key.
struct RowKey {
    lower: Vec<char>,
    crafter: Vec<char>,
    x: i64,
}

spec fn key_view(k: RowKey) -> (Seq<char>, Seq<char>, int) {
    (k.lower@, k.crafter@, k.x as int)
}

fn row_key_of(f: &Found) -> (k: RowKey)
    ensures
        key_view(k) == row_key(f.model()),
{
    let lower = lowercase(f.item.as_str());
    let b = f.position.0;
    let x: i64 = if b >= 0x8000_0000 {
        -1 - ((b - 0x8000_0000) as i64)
    } else {
        b as i64
    };
    RowKey { lower: chars_of(lower.as_str()), crafter: chars_of(f.crafter.as_str()), x }
}

fn key_before_exec(a: &RowKey, b: &RowKey) -> (r: bool)
    ensures
        r == key_before(key_view(*a), key_view(*b)),
{
    let l = text_order(&a.lower, &b.lower);
    if l != 0 {
        return l < 0;
    }
    let c = text_order(&a.crafter, &b.crafter);
    if c != 0 {
        return c < 0;
    }
    a.x < b.x
}

impl Found {
    /// A copy of the row.
    pub fn duplicate(&self) -> (r: Found)
        ensures
            r.model() == self.model(),
    {
        Found {
            item: self.item.clone(),
            stack: self.stack,
            quality: self.quality,
            crafter: self.crafter.clone(),
            place: self.place,
            holder: self.holder.clone(),
            owner: match &self.owner {
                Some(o) => Some(o.clone()),
                None => None,
            },
            position: self.position,
        }
    }
}

/// `rows` stably sorted by item name in lower case, then crafter, then the
/// holder's x coordinate in the order of `f32::total_cmp`.
pub fn sort_rows(rows: &Vec<Found>) -> (r: Vec<Found>)
    ensures
        stably_sorted(found_models(r@), found_models(rows@)),
{
    let ghost u = found_models(rows@);
    let mut out: Vec<Found> = Vec::new();
    let mut keys: Vec<RowKey> = Vec::new();
    let ghost mut order: Seq<int> = seq![];
    let mut j: usize = 0;
    while j < rows.len()
        invariant
            j <= rows@.len(),
            u == found_models(rows@),
            out@.len() == j,
            keys@.len() == j,
            order.len() == j,
            order.no_duplicates(),
            forall|q: int|
                0 <= q < j ==> 0 <= #[trigger] order[q] < j && found_models(out@)[q] == u[order[q]] && key_view(
                    keys@[q],
                ) == row_key(u[order[q]]),
            forall|a: int, b: int| 0 <= a < b < j ==> sorts_before(u, #[trigger] order[a], #[trigger] order[b]),
        decreases rows@.len() - j,
    {
        let e = rows[j].duplicate();
        let ke = row_key_of(&rows[j]);
        assert(u[j as int] == rows@[j as int].model());
        let mut p: usize = 0;
        while p < out.len() && !key_before_exec(&ke, &keys[p])
            invariant
                p <= out@.len(),
                out@.len() == keys@.len(),
                forall|b: int| 0 <= b < p ==> !key_before(key_view(ke), key_view(#[trigger] keys@[b])),
            decreases out@.len() - p,
        {
            p = p + 1;
        }
        let ghost old_order = order;
        let ghost old_out = found_models(out@);
        let ghost old_keys = keys@;
        out.insert(p, e);
        keys.insert(p, ke);
        proof {
            order = old_order.insert(p as int, j as int);
            assert(found_models(out@) =~= old_out.insert(p as int, u[j as int]));
            assert(keys@ =~= old_keys.insert(p as int, ke));
            assert forall|q: int| 0 <= q < j + 1 implies 0 <= #[trigger] order[q] < j + 1 && found_models(
                out@,
            )[q] == u[order[q]] && key_view(keys@[q]) == row_key(u[order[q]]) by {
                if q < p {
                    assert(order[q] == old_order[q]);
                } else if q > p {
                    assert(order[q] == old_order[q - 1]);
                }
            }
            assert forall|a: int, b: int| 0 <= a < b < j + 1 implies sorts_before(
                u,
                #[trigger] order[a],
                #[trigger] order[b],
            ) by {
                if b < p {
                    assert(sorts_before(u, old_order[a], old_order[b]));
                } else if b == p {
                    let oa = old_order[a];
                    lemma_key_order(row_key(u[oa]), row_key(u[j as int]), row_key(u[j as int]));
                    assert(!key_before(row_key(u[j as int]), key_view(old_keys[a])));
                } else if a < p {
                    assert(sorts_before(u, old_order[a], old_order[b - 1]));
                } else if a == p {
                    let op = old_order[p as int];
                    let ob = old_order[b - 1];
                    assert(key_before(row_key(u[j as int]), key_view(old_keys[p as int])));
                    if b - 1 > p {
                        assert(sorts_before(u, op, ob));
                        lemma_key_order(row_key(u[j as int]), row_key(u[op]), row_key(u[ob]));
                    }
                } else {
                    assert(sorts_before(u, old_order[a - 1], old_order[b - 1]));
                }
            }
            assert(order.no_duplicates()) by {
                assert forall|a: int, b: int| 0 <= a < b < order.len() implies order[a] != order[b] by {
                    if a != p && b != p {
                        let wa = if a < p {
                            a
                        } else {
                            a - 1
                        };
                        let wb = if b < p {
                            b
                        } else {
                            b - 1
                        };
                        assert(old_order[wa] != old_order[wb]);
                    }
                }
            }
        }
        j = j + 1;
    }
    assert(arranged_by(found_models(out@), u, order));
    out
}


// ---------------------------------------------------------------- the search

/// Every row a search finds before sorting: the items held in decodable
/// inventories, object by object, then the rows of each object.
pub open spec fn unsorted_rows(ms: Seq<ZdoModel>, names: Map<i32, Seq<char>>, s: Schema, f: FilterModel) -> Seq<
    FoundModel,
> {
    container_rows(ms, ms.len(), names, f) + object_rows_upto(ms, ms.len(), names, s, f)
}

/// What a search reports.
pub struct SearchReport {
    /// The rows found, sorted.
    pub rows: Vec<Found>,
    /// How many inventories were read.
    pub inventories: usize,
    /// How many inventories could not be decoded.
    pub undecodable: usize,
}

/// Learn the names of the items stored by name in `items`.
fn learn_item_names(items: &Vec<Item>, names: &mut NameTable)
    ensures
        final(names)@ == learned_all(old(names)@, legacy_names(item_models(items@))),
{
    let ghost start = names@;
    let mut i: usize = 0;
    while i < items.len()
        invariant
            i <= items@.len(),
            names@ == learned_all(start, legacy_names(item_models(items@).take(i as int))),
        decreases items@.len() - i,
    {
        let ghost prefix = legacy_names(item_models(items@).take(i as int));
        assert(item_models(items@).take(i + 1).drop_last() =~= item_models(items@).take(i as int));
        assert(item_models(items@).take(i + 1).last() == items@[i as int].model());
        match &items[i] {
            Item::Legacy(l) => {
                names.learn(l.name.as_str());
                proof {
                    lemma_learned_all_push(start, prefix, l.name.0@);
                }
            },
            Item::Compact(_) => {},
        }
        i = i + 1;
    }
    assert(item_models(items@).take(items@.len() as int) =~= item_models(items@));
}

/// Search the objects `objs` for what `f` lets through. Inventories are
/// read first, and the names of items stored by name are learned into
/// `names` so that loose items of those prefabs show by name; then every
/// held item and every object is tried. The rows come sorted.
#[verifier::spinoff_prover]
#[verifier::rlimit(40)]
pub fn search(objs: &Vec<Zdo>, names: &mut NameTable, schema: &Schema, f: &Filter) -> (r: SearchReport)
    requires
        schema.wf(),
    ensures
        final(names)@ == learned_all(old(names)@, names_learned(zdo_models(objs@), objs@.len())),
        r.inventories == inventories_read(zdo_models(objs@), objs@.len()),
        r.undecodable == inventories_unread(zdo_models(objs@), objs@.len()),
        stably_sorted(
            found_models(r.rows@),
            unsorted_rows(zdo_models(objs@), final(names)@, *schema, f.model()),
        ),
{
    let ghost ms = zdo_models(objs@);
    let ghost start = names@;
    let k = keys_of_search();
    let mut decoded: Vec<Option<Inventory>> = Vec::new();
    let mut read: usize = 0;
    let mut unread: usize = 0;
    let mut i: usize = 0;
    while i < objs.len()
        invariant
            i <= objs@.len(),
            ms == zdo_models(objs@),
            k == search_keys(),
            decoded@.len() == i,
            forall|q: int|
                0 <= q < i ==> match inventory_of(#[trigger] ms[q]) {
                    Some(Some(m)) => decoded@[q] matches Some(inv) && inv.model() == m,
                    _ => decoded@[q] is None,
                },
            names@ == learned_all(start, names_learned(ms, i as nat)),
            read == inventories_read(ms, i as nat),
            read <= i,
            unread == inventories_unread(ms, i as nat),
            unread <= i,
        decreases objs@.len() - i,
    {
        assert(ms[i as int] == objs@[i as int].model());
        match inventory_of_z(&objs[i], &k) {
            Some(Some(inv)) => {
                let ghost before = names@;
                learn_item_names(&inv.items, names);
                proof {
                    lemma_learned_all_append(start, names_learned(ms, i as nat), legacy_names(inv.model().items));
                }
                decoded.push(Some(inv));
                read = read + 1;
            },
            Some(None) => {
                decoded.push(None);
                unread = unread + 1;
            },
            None => {
                decoded.push(None);
            },
        }
        i = i + 1;
    }
    let ghost final_names = names@;
    let mut out: Vec<Found> = Vec::new();
    let mut q: usize = 0;
    while q < objs.len()
        invariant
            q <= objs@.len(),
            ms == zdo_models(objs@),
            k == search_keys(),
            decoded@.len() == objs@.len(),
            forall|t: int|
                0 <= t < objs@.len() ==> match inventory_of(#[trigger] ms[t]) {
                    Some(Some(m)) => decoded@[t] matches Some(inv) && inv.model() == m,
                    _ => decoded@[t] is None,
                },
            names@ == final_names,
            found_models(out@) == container_rows(ms, q as nat, final_names, f.model()),
        decreases objs@.len() - q,
    {
        assert(ms[q as int] == objs@[q as int].model());
        let ghost before = found_models(out@);
        match &decoded[q] {
            Some(inv) => {
                push_held_rows(&inv.items, &objs[q], names, f, &k, &mut out);
            },
            None => {},
        }
        q = q + 1;
    }
    let ghost held = found_models(out@);
    let mut t: usize = 0;
    while t < objs.len()
        invariant
            t <= objs@.len(),
            ms == zdo_models(objs@),
            k == search_keys(),
            schema.wf(),
            names@ == final_names,
            held == container_rows(ms, ms.len(), final_names, f.model()),
            found_models(out@) == held + object_rows_upto(ms, t as nat, final_names, *schema, f.model()),
        decreases objs@.len() - t,
    {
        assert(ms[t as int] == objs@[t as int].model());
        let ghost before = found_models(out@);
        push_object_rows(&objs[t], names, schema, f, &k, &mut out);
        assert(found_models(out@) =~= held + object_rows_upto(ms, (t + 1) as nat, final_names, *schema, f.model()));
        t = t + 1;
    }
    let rows = sort_rows(&out);
    SearchReport { rows, inventories: read, undecodable: unread }
}


// ---------------------------------------------------------------- the keys report

/// Whether row `a` is listed before row `b`: it has more instances, or as
/// many and a name that sorts first.
pub open spec fn listed_before(a: KeyRow, b: KeyRow) -> bool {
    a.instances > b.instances || (a.instances == b.instances && text_before(a.name@, b.name@))
}

/// Whether a key-census row is reported: at least `min` instances, and a
/// name the prefab filter, when there is one, lets through.
pub open spec fn row_chosen(r: KeyRow, min: usize, f: Option<FilterModel>) -> bool {
    r.instances >= min && match f {
        None => true,
        Some(m) => filter_accepts(m, r.name@, seq![]),
    }
}

/// A filter reference as plain values.
pub open spec fn filter_view(f: Option<&Filter>) -> Option<FilterModel> {
    match f {
        Some(g) => Some(g.model()),
        None => None,
    }
}

proof fn lemma_listed_order(a: KeyRow, b: KeyRow, c: KeyRow)
    ensures
        !listed_before(a, a),
        !(listed_before(a, b) && listed_before(b, a)),
        listed_before(a, b) && listed_before(b, c) ==> listed_before(a, c),
{
    lemma_text_irreflexive(a.name@);
    lemma_text_total(a.name@, b.name@);
    if listed_before(a, b) && listed_before(b, c) && a.instances == b.instances && b.instances == c.instances {
        lemma_text_transitive(a.name@, b.name@, c.name@);
    }
}

/// The rows of a key census that the `keys` command lists: those with at
/// least `min` instances whose name `prefab` lets through, most instances
/// first, then by name.
pub fn keys_report(rows: Vec<KeyRow>, min: usize, prefab: Option<&Filter>) -> (r: Vec<KeyRow>)
    ensures
        r@.to_multiset() == rows@.filter(|x: KeyRow| row_chosen(x, min, filter_view(prefab))).to_multiset(),
        forall|a: int, b: int| 0 <= a < b < r@.len() ==> !listed_before(#[trigger] r@[b], #[trigger] r@[a]),
{
    let ghost orig = rows@;
    let ghost pred = |x: KeyRow| row_chosen(x, min, filter_view(prefab));
    let mut rest = rows;
    let total = rest.len();
    assert(orig.len() == total);
    let mut out: Vec<KeyRow> = Vec::new();
    let mut i: usize = 0;
    proof {
        reveal(Seq::filter);
        assert(orig.take(0).filter(pred) =~= Seq::<KeyRow>::empty());
        assert(orig.skip(0) =~= orig);
    }
    while rest.len() > 0
        invariant
            i + rest@.len() == orig.len(),
            orig.len() <= usize::MAX,
            rest@ == orig.skip(i as int),
            pred == (|x: KeyRow| row_chosen(x, min, filter_view(prefab))),
            out@.to_multiset() == orig.take(i as int).filter(pred).to_multiset(),
            forall|a: int, b: int| 0 <= a < b < out@.len() ==> !listed_before(#[trigger] out@[b], #[trigger] out@[a]),
        decreases rest@.len(),
    {
        let x = rest.remove(0);
        proof {
            assert(x == orig[i as int]);
            assert(orig.take(i + 1) =~= orig.take(i as int).push(x));
            orig.take(i as int).lemma_filter_push(x, pred);
            assert(rest@ =~= orig.skip(i + 1));
        }
        let accepted = match prefab {
            Some(f) => f.accepts(x.name.as_str(), ""),
            None => true,
        };
        proof {
            reveal_strlit("");
            assert(""@ =~= Seq::<char>::empty());
            assert(pred(x) == (x.instances >= min && accepted));
        }
        let ghost prev_filter = orig.take(i as int).filter(pred);
        if x.instances >= min && accepted {
            let xc = chars_of(x.name.as_str());
            let mut p: usize = 0;
            while p < out.len()
                invariant
                    p <= out@.len(),
                    xc@ == x.name@,
                    forall|q: int| 0 <= q < p ==> !listed_before(x, #[trigger] out@[q]),
                ensures
                    p <= out@.len(),
                    forall|q: int| 0 <= q < p ==> !listed_before(x, #[trigger] out@[q]),
                    p < out@.len() ==> listed_before(x, out@[p as int]),
                decreases out@.len() - p,
            {
                let oc = chars_of(out[p].name.as_str());
                let first = x.instances > out[p].instances || (x.instances == out[p].instances && text_order(&xc, &oc)
                    < 0);
                if first {
                    break;
                }
                p = p + 1;
            }
            let ghost before = out@;
            out.insert(p, x);
            proof {
                vstd::seq_lib::to_multiset_insert(before, p as int, x);
                vstd::seq_lib::to_multiset_build(prev_filter, x);
                assert(orig.take(i + 1).filter(pred) == prev_filter.push(x));
                assert forall|a: int, b: int| 0 <= a < b < out@.len() implies !listed_before(
                    #[trigger] out@[b],
                    #[trigger] out@[a],
                ) by {
                    if b < p {
                        assert(out@[a] == before[a] && out@[b] == before[b]);
                    } else if b == p {
                        assert(out@[b] == x && out@[a] == before[a]);
                        lemma_listed_order(x, before[a], x);
                    } else if a == p {
                        assert(out@[a] == x && out@[b] == before[b - 1]);
                        lemma_listed_order(before[b - 1], x, before[p as int]);
                        if b - 1 > p {
                            assert(!listed_before(before[b - 1], before[p as int]));
                        }
                    } else if a < p {
                        assert(out@[a] == before[a] && out@[b] == before[b - 1]);
                    } else {
                        assert(out@[a] == before[a - 1] && out@[b] == before[b - 1]);
                    }
                }
            }
        }
        else {
            proof {
                assert(orig.take(i + 1).filter(pred) == prev_filter);
            }
        }
        i = i + 1;
    }
    proof {
        assert(orig.take(orig.len() as int) =~= orig);
    }
    out
}

} // verus!
