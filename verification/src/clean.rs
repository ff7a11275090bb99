//! Rules for removing properties that should not be on a ZDO, and a report of
//! what was removed.
//!
//! Before game build 0.218.21 the per-ZDO property store was not reset
//! between sessions, so a client could merge leftovers from a previous world
//! into objects it took over, and the server saved the union.
//!
//! Two kinds of rule exist:
//! * `Stale`: keys the game itself drops on load plus the empty values
//!   `ZDO.Strip` discards. Removing them is always safe because the game
//!   would do it anyway.
//! * `Foreign`: keys that belong to component classes the object's prefab
//!   does not have (see `schema`), and ZDO connections whose type no
//!   component of the prefab can establish or receive. Keys that cannot be
//!   named, connection types that are not known, keys used only by
//!   non-component code, and prefabs that are not known are left alone.

use vstd::prelude::*;
use crate::hash::{spec_stable_hash, stable_hash};
use crate::names::{display_of, NameTable};
use crate::schema::{Schema, Verdict, VerdictView};
use crate::text::str_eq;
use crate::zdo::{
    kind_label, property_total, Connection, PropKind, PropTable, PropValue, TableValue, ValueView,
    Zdo, ZdoModel,
};
use crate::primitives::{ByteArray, CsString, Quat, Vec3};
use crate::wire::Wire;

verus! {

// ---------------------------------------------------------------- the lists

/// Keys the game strips from every ZDO on load (`ZDOHelper.s_stripOldData`).
pub open spec fn stale_key_names() -> Seq<Seq<char>> {
    seq![
        "generated"@,
        "patrolSpawnPoint"@,
        "autoDespawn"@,
        "targetHear"@,
        "targetSee"@,
        "burnt0"@,
        "burnt1"@,
        "burnt2"@,
        "burnt3"@,
        "burnt4"@,
        "burnt5"@,
        "burnt6"@,
        "burnt7"@,
        "burnt8"@,
        "burnt9"@,
        "burnt10"@,
        "LookDir"@,
        "RideSpeed"@,
    ]
}

/// Legacy ZDOID pairs stripped from the long table (`s_stripOldLongData`).
pub open spec fn stale_long_key_names() -> Seq<Seq<char>> {
    seq!["user_u"@, "user_i"@, "RodOwner_u"@, "RodOwner_i"@, "CatchID_u"@, "CatchID_i"@]
}

/// Keys stripped from the byte-array table (`s_stripOldDataByteArray`).
pub open spec fn stale_byte_array_key_names() -> Seq<Seq<char>> {
    seq!["health"@]
}

/// The keys the game strips from every ZDO on load.
pub fn stale_keys() -> (v: Vec<&'static str>)
    ensures
        v@.map_values(|s: &'static str| s@) == stale_key_names(),
{
    let v = vec![
        "generated",
        "patrolSpawnPoint",
        "autoDespawn",
        "targetHear",
        "targetSee",
        "burnt0",
        "burnt1",
        "burnt2",
        "burnt3",
        "burnt4",
        "burnt5",
        "burnt6",
        "burnt7",
        "burnt8",
        "burnt9",
        "burnt10",
        "LookDir",
        "RideSpeed",
    ];
    assert(v@.map_values(|s: &'static str| s@) =~= stale_key_names());
    v
}

/// The legacy ZDOID pairs the game strips from the long table.
pub fn stale_long_keys() -> (v: Vec<&'static str>)
    ensures
        v@.map_values(|s: &'static str| s@) == stale_long_key_names(),
{
    let v = vec!["user_u", "user_i", "RodOwner_u", "RodOwner_i", "CatchID_u", "CatchID_i"];
    assert(v@.map_values(|s: &'static str| s@) =~= stale_long_key_names());
    v
}

/// The keys the game strips from the byte-array table.
pub fn stale_byte_array_keys() -> (v: Vec<&'static str>)
    ensures
        v@.map_values(|s: &'static str| s@) == stale_byte_array_key_names(),
{
    let v = vec!["health"];
    assert(v@.map_values(|s: &'static str| s@) =~= stale_byte_array_key_names());
    v
}

/// The stable hashes of `names`.
pub open spec fn hashes_of(names: Seq<Seq<char>>) -> Seq<i32> {
    names.map_values(|n: Seq<char>| spec_stable_hash(n))
}

fn hash_all(names: &Vec<&'static str>) -> (r: Vec<i32>)
    ensures
        r@ == hashes_of(names@.map_values(|s: &'static str| s@)),
{
    let mut out: Vec<i32> = Vec::new();
    let mut j: usize = 0;
    while j < names.len()
        invariant
            j <= names@.len(),
            out@ == hashes_of(names@.map_values(|s: &'static str| s@)).take(j as int),
        decreases names@.len() - j,
    {
        out.push(stable_hash(names[j]));
        j = j + 1;
        assert(out@ =~= hashes_of(names@.map_values(|s: &'static str| s@)).take(j as int));
    }
    assert(hashes_of(names@.map_values(|s: &'static str| s@)).take(j as int) =~= hashes_of(
        names@.map_values(|s: &'static str| s@),
    ));
    out
}

// ---------------------------------------------------------------- rules

#[derive(Clone, Copy, Debug, PartialEq, Eq, Hash, PartialOrd, Ord, Structural)]
pub enum RuleId {
    /// Keys the game discards on load anyway.
    Stale,
    /// Keys belonging to components the prefab does not have.
    Foreign,
}

pub open spec fn rule_label(r: RuleId) -> Seq<char> {
    match r {
        RuleId::Stale => "stale keys the game strips on load"@,
        RuleId::Foreign => "keys and connections the object cannot have"@,
    }
}

impl RuleId {
    pub fn label(self) -> (r: &'static str)
        ensures
            r@ == rule_label(self),
    {
        match self {
            RuleId::Stale => "stale keys the game strips on load",
            RuleId::Foreign => "keys and connections the object cannot have",
        }
    }
}

/// Which rules to apply.
pub struct Options {
    pub stale: bool,
    pub foreign: bool,
    /// Key names, and connection type labels such as `Portal`, that are never
    /// removed.
    pub allow_keys: Vec<String>,
    /// Record per-prefab, per-key counts in the report.
    pub detailed: bool,
}

/// The options as plain values.
pub struct OptionsView {
    pub stale: bool,
    pub foreign: bool,
    pub allow_keys: Seq<Seq<char>>,
    pub detailed: bool,
}

impl View for Options {
    type V = OptionsView;

    open spec fn view(&self) -> OptionsView {
        OptionsView {
            stale: self.stale,
            foreign: self.foreign,
            allow_keys: self.allow_keys@.map_values(|s: String| s@),
            detailed: self.detailed,
        }
    }
}

/// Whether a property is one `ZDO.Strip*` would drop: a key stripped from
/// every table, a long key stripped from the long table, an identity
/// rotation, an empty string, or an empty or stripped byte array.
pub open spec fn is_stale(kind: PropKind, key: i32, v: ValueView) -> bool {
    if hashes_of(stale_key_names()).contains(key) {
        true
    } else {
        match kind {
            PropKind::Long => hashes_of(stale_long_key_names()).contains(key),
            PropKind::Quat => v matches ValueView::Quat(q) && q.is_identity(),
            PropKind::String => v matches ValueView::Str(s) && s.len() == 0,
            PropKind::ByteArray => v matches ValueView::Bytes(b) && (b.len() == 0 || hashes_of(
                stale_byte_array_key_names(),
            ).contains(key)),
            _ => false,
        }
    }
}

/// The name a table gives `key`, if any.
pub open spec fn name_in(names: Map<i32, Seq<char>>, key: i32) -> Option<Seq<char>> {
    if names.contains_key(key) {
        Some(names[key])
    } else {
        None
    }
}

/// Which rule, if any, removes property `(kind, key, v)` from an object of
/// `prefab`: none for an allowed key; `Stale` when that rule is on and the
/// property is stale; `Foreign` when that rule is on and the schema finds
/// the key foreign on the prefab.
pub open spec fn removal(
    schema: Schema,
    names: Map<i32, Seq<char>>,
    o: OptionsView,
    prefab: i32,
    kind: PropKind,
    key: i32,
    v: ValueView,
) -> Option<RuleId> {
    if hashes_of(o.allow_keys).contains(key) {
        None
    } else if o.stale && is_stale(kind, key, v) {
        Some(RuleId::Stale)
    } else if o.foreign && schema.key_verdict(prefab, key, name_in(names, key)) is Foreign {
        Some(RuleId::Foreign)
    } else {
        None
    }
}

/// Whether a property kept on an object of `prefab` is reported as a named
/// key that no class uses.
pub open spec fn reported_unattributed(
    schema: Schema,
    names: Map<i32, Seq<char>>,
    o: OptionsView,
    prefab: i32,
    kind: PropKind,
    key: i32,
    v: ValueView,
) -> bool {
    &&& !hashes_of(o.allow_keys).contains(key)
    &&& !(o.stale && is_stale(kind, key, v))
    &&& o.foreign
    &&& schema.key_verdict(prefab, key, name_in(names, key)) is Unattributed
}

/// Whether the connection of an object of `prefab` is removed: the foreign
/// rule is on, neither its label nor its type name is allowed, and the
/// schema finds its side foreign on the prefab.
pub open spec fn connection_removed(schema: Schema, o: OptionsView, prefab: i32, c: Connection) -> bool {
    &&& o.foreign
    &&& !o.allow_keys.contains(c.spec_label())
    &&& !(c.spec_kind_name() matches Some(n) && o.allow_keys.contains(n))
    &&& schema.connection_verdict(prefab, c.spec_kind_name(), c.spec_is_target()) is Foreign
}

/// What is left of table `s` of an object of `prefab`.
pub open spec fn kept<T: TableValue>(
    schema: Schema,
    names: Map<i32, Seq<char>>,
    o: OptionsView,
    prefab: i32,
    s: Seq<(i32, T::Model)>,
) -> Seq<(i32, T::Model)>
    decreases s.len(),
{
    if s.len() == 0 {
        s
    } else {
        let prev = kept::<T>(schema, names, o, prefab, s.drop_last());
        if removal(schema, names, o, prefab, T::spec_kind(), s.last().0, T::value_of(s.last().1)) is None {
            prev.push(s.last())
        } else {
            prev
        }
    }
}

/// What is taken off table `s` of an object of `prefab`, with the rule
/// that took it, in table order.
pub open spec fn dropped<T: TableValue>(
    schema: Schema,
    names: Map<i32, Seq<char>>,
    o: OptionsView,
    prefab: i32,
    s: Seq<(i32, T::Model)>,
) -> Seq<(RuleId, Removed)>
    decreases s.len(),
{
    if s.len() == 0 {
        seq![]
    } else {
        let prev = dropped::<T>(schema, names, o, prefab, s.drop_last());
        match removal(schema, names, o, prefab, T::spec_kind(), s.last().0, T::value_of(s.last().1)) {
            Some(r) => prev.push((r, Removed::Prop(T::spec_kind(), s.last().0))),
            None => prev,
        }
    }
}

/// The keys of table `s` reported as unattributed, in table order.
pub open spec fn unattributed_in<T: TableValue>(
    schema: Schema,
    names: Map<i32, Seq<char>>,
    o: OptionsView,
    prefab: i32,
    s: Seq<(i32, T::Model)>,
) -> Seq<i32>
    decreases s.len(),
{
    if s.len() == 0 {
        seq![]
    } else {
        let prev = unattributed_in::<T>(schema, names, o, prefab, s.drop_last());
        if reported_unattributed(schema, names, o, prefab, T::spec_kind(), s.last().0, T::value_of(s.last().1)) {
            prev.push(s.last().0)
        } else {
            prev
        }
    }
}

/// One thing the pass took off a ZDO.
pub enum Removed {
    Prop(PropKind, i32),
    Conn(Connection),
}

/// How a removal is shown in the report: `kind:key` or `conn:<label>`.
pub open spec fn removed_label(names: Map<i32, Seq<char>>, r: Removed) -> Seq<char> {
    match r {
        Removed::Prop(kind, key) => kind_label(kind) + seq![':'] + display_of(names, key),
        Removed::Conn(c) => "conn:"@ + c.spec_label(),
    }
}

impl Removed {
    pub fn label(&self, names: &NameTable) -> (r: String)
        ensures
            r@ == removed_label(names@, *self),
    {
        proof {
            reveal_strlit(":");
            reveal_strlit("conn:");
        }
        match self {
            Removed::Prop(kind, key) => {
                let mut s = String::from_str(kind.label());
                s.append(":");
                let d = names.display(*key);
                s.append(d.as_str());
                assert(s@ =~= removed_label(names@, *self));
                s
            },
            Removed::Conn(conn) => {
                let mut s = String::from_str("conn:");
                let l = conn.label();
                s.append(l.as_str());
                s
            },
        }
    }
}

struct Rules<'a> {
    stale: Vec<i32>,
    stale_long: Vec<i32>,
    stale_bytes: Vec<i32>,
    allow: Vec<i32>,
    /// `allow_keys` verbatim, for matching connection labels by name.
    allow_names: Vec<String>,
    schema: &'a Schema,
    names: &'a NameTable,
}

impl<'a> Rules<'a> {
    spec fn wf(&self, o: OptionsView) -> bool {
        &&& self.stale@ == hashes_of(stale_key_names())
        &&& self.stale_long@ == hashes_of(stale_long_key_names())
        &&& self.stale_bytes@ == hashes_of(stale_byte_array_key_names())
        &&& self.allow@ == hashes_of(o.allow_keys)
        &&& self.allow_names@.map_values(|s: String| s@) == o.allow_keys
        &&& self.schema.wf()
    }

    /// Mirrors `ZDO.Strip*` for one property.
    fn stale(&self, kind: PropKind, key: i32, value: PropValue<'_>) -> (r: bool)
        requires
            self.stale@ == hashes_of(stale_key_names()),
            self.stale_long@ == hashes_of(stale_long_key_names()),
            self.stale_bytes@ == hashes_of(stale_byte_array_key_names()),
        ensures
            r == is_stale(kind, key, value@),
    {
        if vec_has(&self.stale, key) {
            return true;
        }
        match (kind, value) {
            (PropKind::Long, _) => vec_has(&self.stale_long, key),
            (PropKind::Quat, PropValue::Quat(q)) => q.identity_test(),
            (PropKind::String, PropValue::String(s)) => s.is_empty(),
            (PropKind::ByteArray, PropValue::ByteArray(b)) => b.len() == 0 || vec_has(
                &self.stale_bytes,
                key,
            ),
            _ => false,
        }
    }

    fn judge(&self, prefab: i32, key: i32) -> (v: Verdict)
        requires
            self.schema.wf(),
        ensures
            v@ == self.schema.key_verdict(prefab, key, name_in(self.names@, key)),
    {
        self.schema.judge(prefab, key, self.names.resolve(key))
    }

    /// Whether a connection does not belong on this prefab. Anything the
    /// schema cannot speak to, and anything protected by name, stays.
    fn connection_is_foreign(&self, prefab: i32, conn: Connection) -> (r: bool)
        requires
            self.schema.wf(),
        ensures
            r == (!self.allow_names@.map_values(|s: String| s@).contains(conn.spec_label()) && !(
            conn.spec_kind_name() matches Some(n) && self.allow_names@.map_values(|s: String| s@).contains(
                n,
            )) && self.schema.connection_verdict(prefab, conn.spec_kind_name(), conn.spec_is_target()) is Foreign),
    {
        let label = conn.label();
        if has_name(&self.allow_names, label.as_str()) {
            return false;
        }
        match conn.kind_name() {
            Some(n) => {
                if has_name(&self.allow_names, n) {
                    return false;
                }
            },
            None => {},
        }
        let v = self.schema.judge_connection(prefab, conn.kind_name(), conn.is_target());
        match v {
            Verdict::Foreign(_) => true,
            _ => false,
        }
    }
}

fn vec_has(v: &Vec<i32>, x: i32) -> (r: bool)
    ensures
        r == v@.contains(x),
{
    let mut j: usize = 0;
    while j < v.len()
        invariant
            j <= v@.len(),
            forall|k: int| 0 <= k < j ==> v@[k] != x,
        decreases v@.len() - j,
    {
        if v[j] == x {
            assert(v@[j as int] == x);
            return true;
        }
        j = j + 1;
    }
    false
}

fn has_name(v: &Vec<String>, s: &str) -> (r: bool)
    ensures
        r == v@.map_values(|t: String| t@).contains(s@),
{
    let ghost vs = v@.map_values(|t: String| t@);
    let mut j: usize = 0;
    while j < v.len()
        invariant
            j <= v@.len(),
            vs == v@.map_values(|t: String| t@),
            forall|k: int| 0 <= k < j ==> vs[k] != s@,
        decreases v@.len() - j,
    {
        if str_eq(v[j].as_str(), s) {
            assert(vs[j as int] == s@);
            return true;
        }
        j = j + 1;
    }
    false
}

// ---------------------------------------------------------------- one object

/// What the pass did to one object.
struct ZdoLog {
    removals: Vec<(RuleId, Removed)>,
    unattributed: Vec<i32>,
}

/// Filter one table of an object of `prefab`.
fn retain_table<T: TableValue>(
    table: &mut PropTable<T>,
    rules: &Rules,
    o: &Options,
    prefab: i32,
    log: &mut ZdoLog,
)
    requires
        rules.wf(o@),
    ensures
        final(table).model() == kept::<T>(*rules.schema, rules.names@, o@, prefab, old(table).model()),
        final(log).removals@ == old(log).removals@ + dropped::<T>(
            *rules.schema,
            rules.names@,
            o@,
            prefab,
            old(table).model(),
        ),
        final(log).unattributed@ == old(log).unattributed@ + unattributed_in::<T>(
            *rules.schema,
            rules.names@,
            o@,
            prefab,
            old(table).model(),
        ),
{
    let ghost schema = *rules.schema;
    let ghost names = rules.names@;
    let ghost m = old(table).model();
    let ghost r0 = old(log).removals@;
    let ghost u0 = old(log).unattributed@;
    let mut keep: Vec<(i32, T)> = Vec::new();
    let mut j: usize = 0;
    while j < table.entries.len()
        invariant
            rules.wf(o@),
            schema == *rules.schema,
            names == rules.names@,
            table.model() == m,
            j <= m.len(),
            crate::seqcodec::models::<(i32, T)>(keep@) == kept::<T>(schema, names, o@, prefab, m.take(j as int)),
            log.removals@ == r0 + dropped::<T>(
                schema,
                names,
                o@,
                prefab,
                m.take(j as int),
            ),
            log.unattributed@ == u0 + unattributed_in::<T>(schema, names, o@, prefab, m.take(j as int)),
        decreases m.len() - j,
    {
        let key = table.entries[j].0;
        let value = table.entries[j].1.value();
        let kind = T::kind();
        let ghost e = m[j as int];
        assert(e == table.entries@[j as int].model());
        assert(m.take(j + 1).drop_last() =~= m.take(j as int));
        assert(m.take(j + 1).last() == e);
        let mut rule: Option<RuleId> = None;
        if !vec_has(&rules.allow, key) {
            if o.stale && rules.stale(kind, key, value) {
                rule = Some(RuleId::Stale);
            } else if o.foreign {
                match rules.judge(prefab, key) {
                    Verdict::Foreign(_) => {
                        rule = Some(RuleId::Foreign);
                    },
                    Verdict::Unattributed => {
                        log.unattributed.push(key);
                    },
                    _ => {},
                }
            }
        }
        assert(rule == removal(schema, names, o@, prefab, T::spec_kind(), e.0, T::value_of(e.1)));
        match rule {
            Some(r) => {
                log.removals.push((r, Removed::Prop(kind, key)));
            },
            None => {
                keep.push((key, table.entries[j].1.duplicate()));
            },
        }
        j = j + 1;
        assert(crate::seqcodec::models::<(i32, T)>(keep@) =~= kept::<T>(schema, names, o@, prefab, m.take(j as int)));
        assert(log.removals@ =~= r0 + dropped::<T>(
            schema,
            names,
            o@,
            prefab,
            m.take(j as int),
        ));
        assert(log.unattributed@ =~= u0 + unattributed_in::<T>(schema, names, o@, prefab, m.take(j as int)));
    }
    assert(m.take(j as int) =~= m);
    table.entries = keep;
}

proof fn lemma_table_counts<T: TableValue>(
    schema: Schema,
    names: Map<i32, Seq<char>>,
    o: OptionsView,
    prefab: i32,
    s: Seq<(i32, T::Model)>,
)
    ensures
        dropped::<T>(schema, names, o, prefab, s).len() + kept::<T>(schema, names, o, prefab, s).len()
            == s.len(),
        unattributed_in::<T>(schema, names, o, prefab, s).len() <= kept::<T>(schema, names, o, prefab, s).len(),
    decreases s.len(),
{
    if s.len() > 0 {
        lemma_table_counts::<T>(schema, names, o, prefab, s.drop_last());
    }
}

/// What is left of an object after the pass.
pub open spec fn cleaned(schema: Schema, names: Map<i32, Seq<char>>, o: OptionsView, m: ZdoModel) -> ZdoModel {
    ZdoModel {
        persistent: m.persistent,
        distant: m.distant,
        object_type: m.object_type,
        sector: m.sector,
        position: m.position,
        prefab: m.prefab,
        rotation: m.rotation,
        connection: match m.connection {
            Some(c) => if connection_removed(schema, o, m.prefab, c) {
                None
            } else {
                Some(c)
            },
            None => None,
        },
        floats: kept::<u32>(schema, names, o, m.prefab, m.floats),
        vec3s: kept::<Vec3>(schema, names, o, m.prefab, m.vec3s),
        quats: kept::<Quat>(schema, names, o, m.prefab, m.quats),
        ints: kept::<i32>(schema, names, o, m.prefab, m.ints),
        longs: kept::<i64>(schema, names, o, m.prefab, m.longs),
        strings: kept::<CsString>(schema, names, o, m.prefab, m.strings),
        byte_arrays: kept::<ByteArray>(schema, names, o, m.prefab, m.byte_arrays),
    }
}

/// What the pass takes off an object, table by table, then its connection.
pub open spec fn zdo_drops(schema: Schema, names: Map<i32, Seq<char>>, o: OptionsView, m: ZdoModel) -> Seq<(RuleId, Removed)> {
    dropped::<u32>(schema, names, o, m.prefab, m.floats) + dropped::<Vec3>(schema, names, o, m.prefab, m.vec3s)
        + dropped::<Quat>(schema, names, o, m.prefab, m.quats) + dropped::<i32>(schema, names, o, m.prefab, m.ints)
        + dropped::<i64>(schema, names, o, m.prefab, m.longs) + dropped::<CsString>(
        schema,
        names,
        o,
        m.prefab,
        m.strings,
    ) + dropped::<ByteArray>(schema, names, o, m.prefab, m.byte_arrays) + match m.connection {
        Some(c) => if connection_removed(schema, o, m.prefab, c) {
            seq![(RuleId::Foreign, Removed::Conn(c))]
        } else {
            seq![]
        },
        None => seq![],
    }
}

/// The keys of an object reported as unattributed, table by table.
pub open spec fn zdo_unattributed(schema: Schema, names: Map<i32, Seq<char>>, o: OptionsView, m: ZdoModel) -> Seq<i32> {
    unattributed_in::<u32>(schema, names, o, m.prefab, m.floats) + unattributed_in::<Vec3>(
        schema,
        names,
        o,
        m.prefab,
        m.vec3s,
    ) + unattributed_in::<Quat>(schema, names, o, m.prefab, m.quats) + unattributed_in::<i32>(
        schema,
        names,
        o,
        m.prefab,
        m.ints,
    ) + unattributed_in::<i64>(schema, names, o, m.prefab, m.longs) + unattributed_in::<CsString>(
        schema,
        names,
        o,
        m.prefab,
        m.strings,
    ) + unattributed_in::<ByteArray>(schema, names, o, m.prefab, m.byte_arrays)
}

proof fn lemma_zdo_counts(schema: Schema, names: Map<i32, Seq<char>>, o: OptionsView, m: ZdoModel)
    ensures
        zdo_drops(schema, names, o, m).len() + zdo_unattributed(schema, names, o, m).len() <= property_total(m)
            + 1,
{
    lemma_table_counts::<u32>(schema, names, o, m.prefab, m.floats);
    lemma_table_counts::<Vec3>(schema, names, o, m.prefab, m.vec3s);
    lemma_table_counts::<Quat>(schema, names, o, m.prefab, m.quats);
    lemma_table_counts::<i32>(schema, names, o, m.prefab, m.ints);
    lemma_table_counts::<i64>(schema, names, o, m.prefab, m.longs);
    lemma_table_counts::<CsString>(schema, names, o, m.prefab, m.strings);
    lemma_table_counts::<ByteArray>(schema, names, o, m.prefab, m.byte_arrays);
}

/// Apply the rules to one object.
fn clean_zdo(z: &mut Zdo, rules: &Rules, o: &Options) -> (log: ZdoLog)
    requires
        rules.wf(o@),
    ensures
        final(z).model() == cleaned(*rules.schema, rules.names@, o@, old(z).model()),
        log.removals@ == zdo_drops(*rules.schema, rules.names@, o@, old(z).model()),
        log.unattributed@ == zdo_unattributed(*rules.schema, rules.names@, o@, old(z).model()),
{
    let ghost schema = *rules.schema;
    let ghost names = rules.names@;
    let ghost m = old(z).model();
    let prefab = z.prefab;
    let mut log = ZdoLog { removals: Vec::new(), unattributed: Vec::new() };
    retain_table(&mut z.floats, rules, o, prefab, &mut log);
    retain_table(&mut z.vec3s, rules, o, prefab, &mut log);
    retain_table(&mut z.quats, rules, o, prefab, &mut log);
    retain_table(&mut z.ints, rules, o, prefab, &mut log);
    retain_table(&mut z.longs, rules, o, prefab, &mut log);
    retain_table(&mut z.strings, rules, o, prefab, &mut log);
    retain_table(&mut z.byte_arrays, rules, o, prefab, &mut log);
    let ghost before_conn = log.removals@;
    // The connection sits outside the property tables (`ZDO.Save` writes
    // it from its own store).
    if o.foreign {
        match z.connection {
            Some(conn) => {
                if rules.connection_is_foreign(prefab, conn) {
                    z.connection = None;
                    log.removals.push((RuleId::Foreign, Removed::Conn(conn)));
                }
            },
            None => {},
        }
    }
    assert(log.removals@ =~= zdo_drops(schema, names, o@, m));
    assert(log.unattributed@ =~= zdo_unattributed(schema, names, o@, m));
    assert(z.model() == cleaned(schema, names, o@, m));
    log
}

// ---------------------------------------------------------------- the report

/// How many removals each rule made.
pub struct RuleCounts {
    pub stale: usize,
    pub foreign: usize,
}

/// A name and how often it came up.
pub struct KeyCount {
    pub name: String,
    pub count: usize,
}

/// The removals on objects of one prefab, by `kind:key` label.
pub struct PrefabKeys {
    pub prefab: String,
    pub keys: Vec<KeyCount>,
}

/// What a pass removed.
pub struct Report {
    pub zdos_scanned: usize,
    pub properties_removed: usize,
    pub zdos_touched: usize,
    pub by_rule: RuleCounts,
    /// prefab name -> `kind:key` (or `conn:<type>`) -> count, in the order
    /// first seen; empty unless the options ask for detail.
    pub by_prefab_key: Vec<PrefabKeys>,
    /// Named keys that no known class uses, seen while scanning (never
    /// removed), in the order first seen.
    pub unattributed_keys: Vec<KeyCount>,
    /// Objects whose prefab is not in the component table (never touched).
    pub unknown_prefab_zdos: usize,
}

/// A count list as `(name, count)` pairs.
pub open spec fn counts_view(v: Seq<KeyCount>) -> Seq<(Seq<char>, usize)> {
    v.map_values(|k: KeyCount| (k.name@, k.count))
}

/// The sum of the counts.
pub open spec fn counts_total(v: Seq<(Seq<char>, usize)>) -> nat
    decreases v.len(),
{
    if v.len() == 0 {
        0
    } else {
        (counts_total(v.drop_last()) + v.last().1) as nat
    }
}

/// No name occurs twice.
pub open spec fn names_distinct(v: Seq<(Seq<char>, usize)>) -> bool {
    forall|i: int, j: int| 0 <= i < j < v.len() ==> #[trigger] v[i].0 != #[trigger] v[j].0
}

/// The list after counting `name` once more: its entry goes up by one, or a
/// new entry with count one is added at the end.
pub open spec fn counted(v: Seq<(Seq<char>, usize)>, name: Seq<char>) -> Seq<(Seq<char>, usize)> {
    if exists|i: int| 0 <= i < v.len() && v[i].0 == name {
        let i = choose|i: int| 0 <= i < v.len() && v[i].0 == name;
        v.update(i, (name, (v[i].1 + 1) as usize))
    } else {
        v.push((name, 1))
    }
}

proof fn lemma_counts_total_update(v: Seq<(Seq<char>, usize)>, i: int, x: (Seq<char>, usize))
    requires
        0 <= i < v.len(),
    ensures
        counts_total(v.update(i, x)) + v[i].1 == counts_total(v) + x.1,
        v[i].1 <= counts_total(v),
    decreases v.len(),
{
    if i < v.len() - 1 {
        assert(v.update(i, x).drop_last() =~= v.drop_last().update(i, x));
        lemma_counts_total_update(v.drop_last(), i, x);
    } else {
        assert(v.update(i, x).drop_last() =~= v.drop_last());
    }
}

/// Count `name` once more in `list`.
fn bump(list: &mut Vec<KeyCount>, name: String)
    requires
        counts_total(counts_view(old(list)@)) < usize::MAX,
        names_distinct(counts_view(old(list)@)),
    ensures
        counts_view(final(list)@) == counted(counts_view(old(list)@), name@),
        counts_total(counts_view(final(list)@)) == counts_total(counts_view(old(list)@)) + 1,
        names_distinct(counts_view(final(list)@)),
{
    let ghost v = counts_view(old(list)@);
    let mut j: usize = 0;
    while j < list.len()
        invariant
            j <= list@.len(),
            list@ == old(list)@,
            v == counts_view(list@),
            names_distinct(v),
            counts_total(v) < usize::MAX,
            forall|k: int| 0 <= k < j ==> v[k].0 != name@,
        decreases list@.len() - j,
    {
        if str_eq(list[j].name.as_str(), name.as_str()) {
            assert(v[j as int].0 == name@);
            proof {
                lemma_counts_total_update(v, j as int, (name@, (v[j as int].1 + 1) as usize));
                let i = choose|i: int| 0 <= i < v.len() && v[i].0 == name@;
                if i != j {
                    if i < j {
                        assert(v[i].0 != name@);
                    } else {
                        assert(v[j as int].0 != v[i].0);
                    }
                }
            }
            let c = list[j].count + 1;
            list.set(j, KeyCount { name, count: c });
            assert(counts_view(list@) =~= counted(v, name@));
            return;
        }
        j = j + 1;
    }
    let ghost nv = name@;
    list.push(KeyCount { name, count: 1 });
    assert(counts_view(list@) =~= v.push((nv, 1)));
    assert(counts_view(list@).drop_last() =~= v);
}

/// The per-prefab lists as `(prefab, total of its counts)`.
pub open spec fn prefab_totals(v: Seq<PrefabKeys>) -> nat
    decreases v.len(),
{
    if v.len() == 0 {
        0
    } else {
        (prefab_totals(v.drop_last()) + counts_total(counts_view(v.last().keys@))) as nat
    }
}

proof fn lemma_prefab_totals_update(v: Seq<PrefabKeys>, i: int, x: PrefabKeys)
    requires
        0 <= i < v.len(),
    ensures
        prefab_totals(v.update(i, x)) + counts_total(counts_view(v[i].keys@)) == prefab_totals(v)
            + counts_total(counts_view(x.keys@)),
        counts_total(counts_view(v[i].keys@)) <= prefab_totals(v),
    decreases v.len(),
{
    if i < v.len() - 1 {
        assert(v.update(i, x).drop_last() =~= v.drop_last().update(i, x));
        lemma_prefab_totals_update(v.drop_last(), i, x);
    } else {
        assert(v.update(i, x).drop_last() =~= v.drop_last());
    }
}

/// Every per-prefab key list has distinct names, and the prefabs too.
pub open spec fn prefabs_distinct(v: Seq<PrefabKeys>) -> bool {
    &&& forall|i: int| 0 <= i < v.len() ==> names_distinct(counts_view(#[trigger] v[i].keys@))
    &&& forall|i: int, j: int| 0 <= i < j < v.len() ==> #[trigger] v[i].prefab@ != #[trigger] v[j].prefab@
}

/// Count `label` once more under `prefab`.
fn bump_prefab(list: &mut Vec<PrefabKeys>, prefab: &String, label: String)
    requires
        prefab_totals(old(list)@) < usize::MAX,
        prefabs_distinct(old(list)@),
    ensures
        prefab_totals(final(list)@) == prefab_totals(old(list)@) + 1,
        prefabs_distinct(final(list)@),
{
    let ghost v = old(list)@;
    let mut j: usize = 0;
    while j < list.len()
        invariant
            j <= list@.len(),
            list@ == v,
            v == old(list)@,
            prefabs_distinct(v),
            prefab_totals(v) < usize::MAX,
            forall|k: int| 0 <= k < j ==> v[k].prefab@ != prefab@,
        decreases list@.len() - j,
    {
        if str_eq(list[j].prefab.as_str(), prefab.as_str()) {
            let entry = list.remove(j);
            assert(entry == v[j as int]);
            let mut keys = entry.keys;
            proof {
                lemma_prefab_totals_update(v, j as int, v[j as int]);
            }
            bump(&mut keys, label);
            let updated = PrefabKeys { prefab: entry.prefab, keys };
            let ghost u = updated;
            list.insert(j, updated);
            proof {
                lemma_prefab_totals_update(v, j as int, u);
                assert(list@ =~= v.update(j as int, u));
                assert forall|a: int, b: int| 0 <= a < b < list@.len() implies #[trigger] list@[a].prefab@
                    != #[trigger] list@[b].prefab@ by {
                    if a == j {
                        assert(v[a].prefab@ != v[b].prefab@);
                    } else if b == j {
                        assert(v[a].prefab@ != v[b].prefab@);
                    }
                }
            }
            return;
        }
        j = j + 1;
    }
    let mut keys: Vec<KeyCount> = Vec::new();
    assert(counts_view(keys@) =~= seq![]);
    bump(&mut keys, label);
    list.push(PrefabKeys { prefab: prefab.clone(), keys });
    assert(list@.drop_last() =~= v);
}


// ---------------------------------------------------------------- laws

/// A table none of whose properties a rule removes is kept whole.
proof fn lemma_kept_all<T: TableValue>(
    schema: Schema,
    names: Map<i32, Seq<char>>,
    o: OptionsView,
    prefab: i32,
    s: Seq<(i32, T::Model)>,
)
    requires
        forall|i: int| 0 <= i < s.len() ==> removal(schema, names, o, prefab, T::spec_kind(), (#[trigger] s[i]).0, T::value_of(s[i].1)) is None,
    ensures
        kept::<T>(schema, names, o, prefab, s) == s,
    decreases s.len(),
{
    if s.len() > 0 {
        assert forall|i: int| 0 <= i < s.drop_last().len() implies removal(schema, names, o, prefab, T::spec_kind(), (#[trigger] s.drop_last()[i]).0, T::value_of(s.drop_last()[i].1)) is None by {
            assert(s.drop_last()[i] == s[i]);
        }
        lemma_kept_all::<T>(schema, names, o, prefab, s.drop_last());
        assert(s.drop_last().push(s.last()) =~= s);
    }
}

/// A property whose key is allowed stays in its table.
proof fn lemma_kept_has_allowed<T: TableValue>(
    schema: Schema,
    names: Map<i32, Seq<char>>,
    o: OptionsView,
    prefab: i32,
    s: Seq<(i32, T::Model)>,
    i: int,
)
    requires
        0 <= i < s.len(),
        hashes_of(o.allow_keys).contains(s[i].0),
    ensures
        kept::<T>(schema, names, o, prefab, s).contains(s[i]),
    decreases s.len(),
{
    let k = kept::<T>(schema, names, o, prefab, s);
    if i == s.len() - 1 {
        assert(k[k.len() - 1] == s[i]);
    } else {
        lemma_kept_has_allowed::<T>(schema, names, o, prefab, s.drop_last(), i);
        let p = kept::<T>(schema, names, o, prefab, s.drop_last());
        assert(s.drop_last()[i] == s[i]);
        let q = choose|q: int| 0 <= q < p.len() && p[q] == s[i];
        assert(k[q] == p[q]);
    }
}

/// With both rules off the pass changes nothing.
pub proof fn lemma_clean_off_changes_nothing(schema: Schema, names: Map<i32, Seq<char>>, o: OptionsView, m: ZdoModel)
    requires
        !o.stale,
        !o.foreign,
    ensures
        cleaned(schema, names, o, m) == m,
{
    lemma_kept_all::<u32>(schema, names, o, m.prefab, m.floats);
    lemma_kept_all::<Vec3>(schema, names, o, m.prefab, m.vec3s);
    lemma_kept_all::<Quat>(schema, names, o, m.prefab, m.quats);
    lemma_kept_all::<i32>(schema, names, o, m.prefab, m.ints);
    lemma_kept_all::<i64>(schema, names, o, m.prefab, m.longs);
    lemma_kept_all::<CsString>(schema, names, o, m.prefab, m.strings);
    lemma_kept_all::<ByteArray>(schema, names, o, m.prefab, m.byte_arrays);
}

/// With the stale rule off, an object whose prefab the schema does not
/// know comes through the pass unchanged.
pub proof fn lemma_clean_unknown_prefab_unchanged(
    schema: Schema,
    names: Map<i32, Seq<char>>,
    o: OptionsView,
    m: ZdoModel,
)
    requires
        !o.stale,
        schema.components(m.prefab) is None,
    ensures
        cleaned(schema, names, o, m) == m,
{
    lemma_kept_all::<u32>(schema, names, o, m.prefab, m.floats);
    lemma_kept_all::<Vec3>(schema, names, o, m.prefab, m.vec3s);
    lemma_kept_all::<Quat>(schema, names, o, m.prefab, m.quats);
    lemma_kept_all::<i32>(schema, names, o, m.prefab, m.ints);
    lemma_kept_all::<i64>(schema, names, o, m.prefab, m.longs);
    lemma_kept_all::<CsString>(schema, names, o, m.prefab, m.strings);
    lemma_kept_all::<ByteArray>(schema, names, o, m.prefab, m.byte_arrays);
}

/// Every property whose key is allowed is still on the object after the
/// pass, in each table.
pub proof fn lemma_clean_keeps_allowed(schema: Schema, names: Map<i32, Seq<char>>, o: OptionsView, m: ZdoModel)
    ensures
        forall|i: int| 0 <= i < m.floats.len() && hashes_of(o.allow_keys).contains(m.floats[i].0)
            ==> cleaned(schema, names, o, m).floats.contains(#[trigger] m.floats[i]),
        forall|i: int| 0 <= i < m.vec3s.len() && hashes_of(o.allow_keys).contains(m.vec3s[i].0)
            ==> cleaned(schema, names, o, m).vec3s.contains(#[trigger] m.vec3s[i]),
        forall|i: int| 0 <= i < m.quats.len() && hashes_of(o.allow_keys).contains(m.quats[i].0)
            ==> cleaned(schema, names, o, m).quats.contains(#[trigger] m.quats[i]),
        forall|i: int| 0 <= i < m.ints.len() && hashes_of(o.allow_keys).contains(m.ints[i].0)
            ==> cleaned(schema, names, o, m).ints.contains(#[trigger] m.ints[i]),
        forall|i: int| 0 <= i < m.longs.len() && hashes_of(o.allow_keys).contains(m.longs[i].0)
            ==> cleaned(schema, names, o, m).longs.contains(#[trigger] m.longs[i]),
        forall|i: int| 0 <= i < m.strings.len() && hashes_of(o.allow_keys).contains(m.strings[i].0)
            ==> cleaned(schema, names, o, m).strings.contains(#[trigger] m.strings[i]),
        forall|i: int| 0 <= i < m.byte_arrays.len() && hashes_of(o.allow_keys).contains(m.byte_arrays[i].0)
            ==> cleaned(schema, names, o, m).byte_arrays.contains(#[trigger] m.byte_arrays[i]),
{
    assert forall|i: int| 0 <= i < m.floats.len() && hashes_of(o.allow_keys).contains(m.floats[i].0)
        implies cleaned(schema, names, o, m).floats.contains(#[trigger] m.floats[i]) by {
        lemma_kept_has_allowed::<u32>(schema, names, o, m.prefab, m.floats, i);
    }
    assert forall|i: int| 0 <= i < m.vec3s.len() && hashes_of(o.allow_keys).contains(m.vec3s[i].0)
        implies cleaned(schema, names, o, m).vec3s.contains(#[trigger] m.vec3s[i]) by {
        lemma_kept_has_allowed::<Vec3>(schema, names, o, m.prefab, m.vec3s, i);
    }
    assert forall|i: int| 0 <= i < m.quats.len() && hashes_of(o.allow_keys).contains(m.quats[i].0)
        implies cleaned(schema, names, o, m).quats.contains(#[trigger] m.quats[i]) by {
        lemma_kept_has_allowed::<Quat>(schema, names, o, m.prefab, m.quats, i);
    }
    assert forall|i: int| 0 <= i < m.ints.len() && hashes_of(o.allow_keys).contains(m.ints[i].0)
        implies cleaned(schema, names, o, m).ints.contains(#[trigger] m.ints[i]) by {
        lemma_kept_has_allowed::<i32>(schema, names, o, m.prefab, m.ints, i);
    }
    assert forall|i: int| 0 <= i < m.longs.len() && hashes_of(o.allow_keys).contains(m.longs[i].0)
        implies cleaned(schema, names, o, m).longs.contains(#[trigger] m.longs[i]) by {
        lemma_kept_has_allowed::<i64>(schema, names, o, m.prefab, m.longs, i);
    }
    assert forall|i: int| 0 <= i < m.strings.len() && hashes_of(o.allow_keys).contains(m.strings[i].0)
        implies cleaned(schema, names, o, m).strings.contains(#[trigger] m.strings[i]) by {
        lemma_kept_has_allowed::<CsString>(schema, names, o, m.prefab, m.strings, i);
    }
    assert forall|i: int| 0 <= i < m.byte_arrays.len() && hashes_of(o.allow_keys).contains(m.byte_arrays[i].0)
        implies cleaned(schema, names, o, m).byte_arrays.contains(#[trigger] m.byte_arrays[i]) by {
        lemma_kept_has_allowed::<ByteArray>(schema, names, o, m.prefab, m.byte_arrays, i);
    }
}

/// A key listed as allowed is never removed, whatever the rules say of it.
pub proof fn lemma_allowed_key_stays(
    schema: Schema,
    names: Map<i32, Seq<char>>,
    o: OptionsView,
    prefab: i32,
    kind: PropKind,
    key: i32,
    v: ValueView,
)
    requires
        hashes_of(o.allow_keys).contains(key),
    ensures
        removal(schema, names, o, prefab, kind, key, v) is None,
{
}

/// On an object whose prefab the schema does not know, the foreign rule
/// removes neither a property nor the connection.
pub proof fn lemma_unknown_prefab_untouched_by_foreign(
    schema: Schema,
    names: Map<i32, Seq<char>>,
    o: OptionsView,
    prefab: i32,
    kind: PropKind,
    key: i32,
    v: ValueView,
    c: Connection,
)
    requires
        schema.components(prefab) is None,
    ensures
        removal(schema, names, o, prefab, kind, key, v) != Some(RuleId::Foreign),
        !connection_removed(schema, o, prefab, c),
{
}

/// A key that cannot be named, that no component class uses by hash, and
/// that is no animator key is never foreign: it may be modded data.
pub proof fn lemma_unnamed_unowned_key_not_foreign(schema: Schema, prefab: i32, key: i32)
    requires
        schema.key_owners_of(key).len() == 0,
        !schema.is_anim_key(key),
    ensures
        !(schema.key_verdict(prefab, key, None) is Foreign),
{
    assert(schema.owners_of(key, None) =~= seq![]);
}

/// A connection side the game leaves unconstrained, or a connection type
/// the schema does not know, is never foreign.
pub proof fn lemma_unconstrained_connection_not_foreign(schema: Schema, prefab: i32, kind: Option<Seq<char>>, is_target: bool)
    requires
        match kind {
            None => true,
            Some(n) => match schema.connection_sides(n) {
                None => true,
                Some(sides) => (if is_target { sides.1 } else { sides.0 }).len() == 0,
            },
        },
    ensures
        !(schema.connection_verdict(prefab, kind, is_target) is Foreign),
{
}

proof fn lemma_kept_push<T: TableValue>(
    schema: Schema,
    names: Map<i32, Seq<char>>,
    o: OptionsView,
    prefab: i32,
    p: Seq<(i32, T::Model)>,
    x: (i32, T::Model),
)
    ensures
        kept::<T>(schema, names, o, prefab, p.push(x)) == if removal(
            schema,
            names,
            o,
            prefab,
            T::spec_kind(),
            x.0,
            T::value_of(x.1),
        ) is None {
            kept::<T>(schema, names, o, prefab, p).push(x)
        } else {
            kept::<T>(schema, names, o, prefab, p)
        },
{
    assert(p.push(x).drop_last() =~= p);
}

/// Filtering a table twice keeps what filtering it once keeps.
pub proof fn lemma_kept_idempotent<T: TableValue>(
    schema: Schema,
    names: Map<i32, Seq<char>>,
    o: OptionsView,
    prefab: i32,
    s: Seq<(i32, T::Model)>,
)
    ensures
        kept::<T>(schema, names, o, prefab, kept::<T>(schema, names, o, prefab, s)) == kept::<T>(
            schema,
            names,
            o,
            prefab,
            s,
        ),
    decreases s.len(),
{
    if s.len() > 0 {
        let p = s.drop_last();
        let x = s.last();
        lemma_kept_idempotent::<T>(schema, names, o, prefab, p);
        if removal(schema, names, o, prefab, T::spec_kind(), x.0, T::value_of(x.1)) is None {
            lemma_kept_push::<T>(schema, names, o, prefab, kept::<T>(schema, names, o, prefab, p), x);
        }
    }
}

/// Cleaning is idempotent: a second pass with the same schema, names and
/// options leaves a cleaned object as it is.
pub proof fn lemma_clean_idempotent(schema: Schema, names: Map<i32, Seq<char>>, o: OptionsView, m: ZdoModel)
    ensures
        cleaned(schema, names, o, cleaned(schema, names, o, m)) == cleaned(schema, names, o, m),
{
    lemma_kept_idempotent::<u32>(schema, names, o, m.prefab, m.floats);
    lemma_kept_idempotent::<Vec3>(schema, names, o, m.prefab, m.vec3s);
    lemma_kept_idempotent::<Quat>(schema, names, o, m.prefab, m.quats);
    lemma_kept_idempotent::<i32>(schema, names, o, m.prefab, m.ints);
    lemma_kept_idempotent::<i64>(schema, names, o, m.prefab, m.longs);
    lemma_kept_idempotent::<CsString>(schema, names, o, m.prefab, m.strings);
    lemma_kept_idempotent::<ByteArray>(schema, names, o, m.prefab, m.byte_arrays);
}

/// Each removal is made by exactly one rule: the per-rule counts of a pass
/// add up to the number of removals.
pub proof fn lemma_rule_counts_add_up(schema: Schema, names: Map<i32, Seq<char>>, o: OptionsView, ms: Seq<ZdoModel>)
    ensures
        rule_total(schema, names, o, ms, RuleId::Stale) + rule_total(schema, names, o, ms, RuleId::Foreign)
            == removed_total(schema, names, o, ms),
{
    lemma_totals_bound(schema, names, o, ms);
}

/// Every property an object keeps was on it, and every property it loses
/// was taken by a rule: what is kept and what is dropped together account
/// for the whole table.
pub proof fn lemma_kept_and_dropped_partition<T: TableValue>(
    schema: Schema,
    names: Map<i32, Seq<char>>,
    o: OptionsView,
    prefab: i32,
    s: Seq<(i32, T::Model)>,
)
    ensures
        dropped::<T>(schema, names, o, prefab, s).len() + kept::<T>(schema, names, o, prefab, s).len() == s.len(),
        forall|k: int|
            0 <= k < kept::<T>(schema, names, o, prefab, s).len() ==> s.contains(
                #[trigger] kept::<T>(schema, names, o, prefab, s)[k],
            ),
    decreases s.len(),
{
    lemma_table_counts::<T>(schema, names, o, prefab, s);
    if s.len() > 0 {
        let p = s.drop_last();
        lemma_kept_and_dropped_partition::<T>(schema, names, o, prefab, p);
        let kp = kept::<T>(schema, names, o, prefab, p);
        let ks = kept::<T>(schema, names, o, prefab, s);
        assert forall|k: int| 0 <= k < ks.len() implies s.contains(#[trigger] ks[k]) by {
            if k < kp.len() {
                assert(p.contains(kp[k]));
                let j = choose|j: int| 0 <= j < p.len() && p[j] == kp[k];
                assert(s[j] == kp[k]);
            } else {
                assert(s[s.len() - 1] == ks[k]);
            }
        }
    }
}

/// Nothing a rule removes is left in the filtered table.
proof fn lemma_kept_unremoved<T: TableValue>(
    schema: Schema,
    names: Map<i32, Seq<char>>,
    o: OptionsView,
    prefab: i32,
    s: Seq<(i32, T::Model)>,
)
    ensures
        forall|k: int|
            0 <= k < kept::<T>(schema, names, o, prefab, s).len() ==> removal(
                schema,
                names,
                o,
                prefab,
                T::spec_kind(),
                (#[trigger] kept::<T>(schema, names, o, prefab, s)[k]).0,
                T::value_of(kept::<T>(schema, names, o, prefab, s)[k].1),
            ) is None,
    decreases s.len(),
{
    if s.len() > 0 {
        lemma_kept_unremoved::<T>(schema, names, o, prefab, s.drop_last());
    }
}

/// A property a rule removes is listed among the table's removals under
/// that rule.
proof fn lemma_dropped_lists<T: TableValue>(
    schema: Schema,
    names: Map<i32, Seq<char>>,
    o: OptionsView,
    prefab: i32,
    s: Seq<(i32, T::Model)>,
    i: int,
    r: RuleId,
)
    requires
        0 <= i < s.len(),
        removal(schema, names, o, prefab, T::spec_kind(), s[i].0, T::value_of(s[i].1)) == Some(r),
    ensures
        dropped::<T>(schema, names, o, prefab, s).contains((r, Removed::Prop(T::spec_kind(), s[i].0))),
    decreases s.len(),
{
    let d = dropped::<T>(schema, names, o, prefab, s);
    if i == s.len() - 1 {
        assert(d[d.len() - 1] == (r, Removed::Prop(T::spec_kind(), s[i].0)));
    } else {
        let p = s.drop_last();
        assert(p[i] == s[i]);
        lemma_dropped_lists::<T>(schema, names, o, prefab, p, i, r);
        let dp = dropped::<T>(schema, names, o, prefab, p);
        let q = choose|q: int| 0 <= q < dp.len() && dp[q] == (r, Removed::Prop(T::spec_kind(), s[i].0));
        assert(d[q] == dp[q]);
    }
}

/// A removal listed under a rule is counted for that rule.
proof fn lemma_listed_is_counted(d: Seq<(RuleId, Removed)>, x: (RuleId, Removed))
    requires
        d.contains(x),
    ensures
        rule_count_in(d, x.0) >= 1,
    decreases d.len(),
{
    if d.last() != x {
        let j = choose|j: int| 0 <= j < d.len() && d[j] == x;
        assert(d.drop_last()[j] == x);
        lemma_listed_is_counted(d.drop_last(), x);
    }
}

/// With the stale rule on, a byte array whose value is empty and whose key
/// is not allowed is stripped, whatever the key and whatever the prefab:
/// it is gone from the cleaned object, the object's removals list it under
/// the stale rule, and that rule counts at least one removal on the object.
pub proof fn lemma_empty_byte_array_stripped_as_stale(
    schema: Schema,
    names: Map<i32, Seq<char>>,
    o: OptionsView,
    m: ZdoModel,
    i: int,
)
    requires
        o.stale,
        0 <= i < m.byte_arrays.len(),
        m.byte_arrays[i].1.len() == 0,
        !hashes_of(o.allow_keys).contains(m.byte_arrays[i].0),
    ensures
        removal(schema, names, o, m.prefab, PropKind::ByteArray, m.byte_arrays[i].0, ValueView::Bytes(seq![]))
            == Some(RuleId::Stale),
        !cleaned(schema, names, o, m).byte_arrays.contains(m.byte_arrays[i]),
        zdo_drops(schema, names, o, m).contains((RuleId::Stale, Removed::Prop(PropKind::ByteArray, m.byte_arrays[i].0))),
        rule_count_in(zdo_drops(schema, names, o, m), RuleId::Stale) >= 1,
{
    let x = m.byte_arrays[i];
    assert(x.1 =~= seq![]);
    let k = kept::<ByteArray>(schema, names, o, m.prefab, m.byte_arrays);
    lemma_kept_unremoved::<ByteArray>(schema, names, o, m.prefab, m.byte_arrays);
    if k.contains(x) {
        let q = choose|q: int| 0 <= q < k.len() && k[q] == x;
        assert(removal(schema, names, o, m.prefab, PropKind::ByteArray, k[q].0, ValueView::Bytes(k[q].1)) is None);
    }
    let y = (RuleId::Stale, Removed::Prop(PropKind::ByteArray, x.0));
    lemma_dropped_lists::<ByteArray>(schema, names, o, m.prefab, m.byte_arrays, i, RuleId::Stale);
    let da = dropped::<ByteArray>(schema, names, o, m.prefab, m.byte_arrays);
    let pre = dropped::<u32>(schema, names, o, m.prefab, m.floats) + dropped::<Vec3>(
        schema,
        names,
        o,
        m.prefab,
        m.vec3s,
    ) + dropped::<Quat>(schema, names, o, m.prefab, m.quats) + dropped::<i32>(schema, names, o, m.prefab, m.ints)
        + dropped::<i64>(schema, names, o, m.prefab, m.longs) + dropped::<CsString>(
        schema,
        names,
        o,
        m.prefab,
        m.strings,
    );
    let tail: Seq<(RuleId, Removed)> = match m.connection {
        Some(c) => if connection_removed(schema, o, m.prefab, c) {
            seq![(RuleId::Foreign, Removed::Conn(c))]
        } else {
            seq![]
        },
        None => seq![],
    };
    let all = zdo_drops(schema, names, o, m);
    assert(all =~= pre + da + tail);
    let j = choose|j: int| 0 <= j < da.len() && da[j] == y;
    assert(all[pre.len() + j] == y);
    lemma_listed_is_counted(all, y);
}

// ---------------------------------------------------------------- the pass

/// How many of the removals `d` a rule made.
pub open spec fn rule_count_in(d: Seq<(RuleId, Removed)>, rule: RuleId) -> nat
    decreases d.len(),
{
    if d.len() == 0 {
        0
    } else {
        rule_count_in(d.drop_last(), rule) + if d.last().0 == rule {
            1nat
        } else {
            0nat
        }
    }
}

/// The objects' models.
pub open spec fn models_of(zs: Seq<Zdo>) -> Seq<ZdoModel> {
    zs.map_values(|z: Zdo| z.model())
}

/// How many properties and connections the pass takes off `ms`.
pub open spec fn removed_total(schema: Schema, names: Map<i32, Seq<char>>, o: OptionsView, ms: Seq<ZdoModel>) -> nat
    decreases ms.len(),
{
    if ms.len() == 0 {
        0
    } else {
        removed_total(schema, names, o, ms.drop_last()) + zdo_drops(schema, names, o, ms.last()).len()
    }
}

/// How many of `ms` lose something.
pub open spec fn touched_count(schema: Schema, names: Map<i32, Seq<char>>, o: OptionsView, ms: Seq<ZdoModel>) -> nat
    decreases ms.len(),
{
    if ms.len() == 0 {
        0
    } else {
        touched_count(schema, names, o, ms.drop_last()) + if zdo_drops(schema, names, o, ms.last()).len() > 0 {
            1nat
        } else {
            0nat
        }
    }
}

/// How many removals from `ms` a rule makes.
pub open spec fn rule_total(schema: Schema, names: Map<i32, Seq<char>>, o: OptionsView, ms: Seq<ZdoModel>, rule: RuleId) -> nat
    decreases ms.len(),
{
    if ms.len() == 0 {
        0
    } else {
        rule_total(schema, names, o, ms.drop_last(), rule) + rule_count_in(
            zdo_drops(schema, names, o, ms.last()),
            rule,
        )
    }
}

/// How many unattributed keys `ms` carry, counted with repeats.
pub open spec fn unattributed_total(schema: Schema, names: Map<i32, Seq<char>>, o: OptionsView, ms: Seq<ZdoModel>) -> nat
    decreases ms.len(),
{
    if ms.len() == 0 {
        0
    } else {
        unattributed_total(schema, names, o, ms.drop_last()) + zdo_unattributed(schema, names, o, ms.last()).len()
    }
}

/// How many of `ms` have a prefab the schema does not know, when the foreign
/// rule is on.
pub open spec fn unknown_count(schema: Schema, o: OptionsView, ms: Seq<ZdoModel>) -> nat
    decreases ms.len(),
{
    if ms.len() == 0 {
        0
    } else {
        unknown_count(schema, o, ms.drop_last()) + if o.foreign && schema.components(ms.last().prefab) is None {
            1nat
        } else {
            0nat
        }
    }
}

/// Every property and connection of `ms`, each object counted one more.
pub open spec fn size_total(ms: Seq<ZdoModel>) -> nat
    decreases ms.len(),
{
    if ms.len() == 0 {
        0
    } else {
        size_total(ms.drop_last()) + property_total(ms.last()) + 1
    }
}

proof fn lemma_rule_split(d: Seq<(RuleId, Removed)>)
    ensures
        rule_count_in(d, RuleId::Stale) + rule_count_in(d, RuleId::Foreign) == d.len(),
    decreases d.len(),
{
    if d.len() > 0 {
        lemma_rule_split(d.drop_last());
    }
}

proof fn lemma_totals_bound(schema: Schema, names: Map<i32, Seq<char>>, o: OptionsView, ms: Seq<ZdoModel>)
    ensures
        removed_total(schema, names, o, ms) + unattributed_total(schema, names, o, ms) <= size_total(ms),
        rule_total(schema, names, o, ms, RuleId::Stale) + rule_total(schema, names, o, ms, RuleId::Foreign)
            == removed_total(schema, names, o, ms),
        touched_count(schema, names, o, ms) <= ms.len(),
        unknown_count(schema, o, ms) <= ms.len(),
    decreases ms.len(),
{
    if ms.len() > 0 {
        lemma_totals_bound(schema, names, o, ms.drop_last());
        lemma_zdo_counts(schema, names, o, ms.last());
        lemma_rule_split(zdo_drops(schema, names, o, ms.last()));
    }
}

proof fn lemma_size_prefix(ms: Seq<ZdoModel>, i: int)
    requires
        0 <= i <= ms.len(),
    ensures
        size_total(ms.take(i)) <= size_total(ms),
    decreases ms.len() - i,
{
    if i < ms.len() {
        lemma_size_prefix(ms, i + 1);
        assert(ms.take(i + 1).drop_last() =~= ms.take(i));
    } else {
        assert(ms.take(i) =~= ms);
    }
}

fn build_rules<'a>(names: &'a NameTable, schema: &'a Schema, opts: &Options) -> (r: Rules<'a>)
    requires
        schema.wf(),
    ensures
        r.wf(opts@),
        r.schema == schema,
        r.names == names,
{
    let stale = hash_all(&stale_keys());
    let stale_long = hash_all(&stale_long_keys());
    let stale_bytes = hash_all(&stale_byte_array_keys());
    let ghost keys = opts@.allow_keys;
    let mut allow: Vec<i32> = Vec::new();
    let mut allow_names: Vec<String> = Vec::new();
    let mut j: usize = 0;
    while j < opts.allow_keys.len()
        invariant
            j <= opts.allow_keys@.len(),
            keys == opts.allow_keys@.map_values(|s: String| s@),
            allow@ == hashes_of(keys).take(j as int),
            allow_names@.len() == j,
            forall|k: int| 0 <= k < j ==> (#[trigger] allow_names@[k])@ == keys[k],
        decreases opts.allow_keys@.len() - j,
    {
        allow.push(stable_hash(opts.allow_keys[j].as_str()));
        let c = opts.allow_keys[j].clone();
        assert(c@ == keys[j as int]);
        allow_names.push(c);
        j = j + 1;
        assert(allow@ =~= hashes_of(keys).take(j as int));
    }
    assert(hashes_of(keys).take(j as int) =~= hashes_of(keys));
    assert(allow_names@.map_values(|s: String| s@) =~= keys);
    Rules { stale, stale_long, stale_bytes, allow, allow_names, schema, names }
}


/// Count each of `keys` by its displayed name.
fn count_keys(list: &mut Vec<KeyCount>, names: &NameTable, keys: &Vec<i32>)
    requires
        names_distinct(counts_view(old(list)@)),
        counts_total(counts_view(old(list)@)) + keys@.len() <= usize::MAX,
    ensures
        names_distinct(counts_view(final(list)@)),
        counts_total(counts_view(final(list)@)) == counts_total(counts_view(old(list)@)) + keys@.len(),
{
    let mut k: usize = 0;
    while k < keys.len()
        invariant
            k <= keys@.len(),
            names_distinct(counts_view(list@)),
            counts_total(counts_view(list@)) == counts_total(counts_view(old(list)@)) + k,
            counts_total(counts_view(old(list)@)) + keys@.len() <= usize::MAX,
        decreases keys@.len() - k,
    {
        bump(list, names.display(keys[k]));
        k = k + 1;
    }
}

/// Count the removals `d` of one object by rule, and, when `detailed`, by
/// label under the object's prefab name.
fn count_removals(
    by_rule: &mut RuleCounts,
    by_prefab: &mut Vec<PrefabKeys>,
    d: &Vec<(RuleId, Removed)>,
    detailed: bool,
    prefab_name: &String,
    names: &NameTable,
)
    requires
        old(by_rule).stale + rule_count_in(d@, RuleId::Stale) <= usize::MAX,
        old(by_rule).foreign + rule_count_in(d@, RuleId::Foreign) <= usize::MAX,
        prefab_totals(old(by_prefab)@) + d@.len() <= usize::MAX,
        prefabs_distinct(old(by_prefab)@),
    ensures
        final(by_rule).stale == old(by_rule).stale + rule_count_in(d@, RuleId::Stale),
        final(by_rule).foreign == old(by_rule).foreign + rule_count_in(d@, RuleId::Foreign),
        detailed ==> prefab_totals(final(by_prefab)@) == prefab_totals(old(by_prefab)@) + d@.len(),
        !detailed ==> final(by_prefab)@ == old(by_prefab)@,
        prefabs_distinct(final(by_prefab)@),
{
    let mut k: usize = 0;
    while k < d.len()
        invariant
            k <= d@.len(),
            by_rule.stale == old(by_rule).stale + rule_count_in(d@.take(k as int), RuleId::Stale),
            by_rule.foreign == old(by_rule).foreign + rule_count_in(d@.take(k as int), RuleId::Foreign),
            old(by_rule).stale + rule_count_in(d@, RuleId::Stale) <= usize::MAX,
            old(by_rule).foreign + rule_count_in(d@, RuleId::Foreign) <= usize::MAX,
            prefab_totals(old(by_prefab)@) + d@.len() <= usize::MAX,
            detailed ==> prefab_totals(by_prefab@) == prefab_totals(old(by_prefab)@) + k,
            !detailed ==> by_prefab@ == old(by_prefab)@,
            prefabs_distinct(by_prefab@),
        decreases d@.len() - k,
    {
        proof {
            assert(d@.take(k + 1).drop_last() =~= d@.take(k as int));
            lemma_rule_count_prefix(d@, k as int + 1, RuleId::Stale);
            lemma_rule_count_prefix(d@, k as int + 1, RuleId::Foreign);
        }
        match d[k].0 {
            RuleId::Stale => {
                by_rule.stale = by_rule.stale + 1;
            },
            RuleId::Foreign => {
                by_rule.foreign = by_rule.foreign + 1;
            },
        }
        if detailed {
            let label = d[k].1.label(names);
            bump_prefab(by_prefab, prefab_name, label);
        }
        k = k + 1;
    }
    assert(d@.take(k as int) =~= d@);
}

/// Apply the rules to every object in place and describe what was removed.
pub fn clean(zdos: &mut Vec<Zdo>, names: &NameTable, schema: &Schema, opts: &Options) -> (report: Report)
    requires
        schema.wf(),
        size_total(models_of(old(zdos)@)) <= usize::MAX,
    ensures
        final(zdos)@.len() == old(zdos)@.len(),
        forall|i: int|
            0 <= i < old(zdos)@.len() ==> (#[trigger] final(zdos)@[i]).model() == cleaned(
                *schema,
                names@,
                opts@,
                old(zdos)@[i].model(),
            ),
        report.zdos_scanned == old(zdos)@.len(),
        report.properties_removed == removed_total(*schema, names@, opts@, models_of(old(zdos)@)),
        report.zdos_touched == touched_count(*schema, names@, opts@, models_of(old(zdos)@)),
        report.by_rule.stale == rule_total(*schema, names@, opts@, models_of(old(zdos)@), RuleId::Stale),
        report.by_rule.foreign == rule_total(*schema, names@, opts@, models_of(old(zdos)@), RuleId::Foreign),
        report.unknown_prefab_zdos == unknown_count(*schema, opts@, models_of(old(zdos)@)),
        counts_total(counts_view(report.unattributed_keys@)) == unattributed_total(
            *schema,
            names@,
            opts@,
            models_of(old(zdos)@),
        ),
        names_distinct(counts_view(report.unattributed_keys@)),
        !opts.detailed ==> report.by_prefab_key@.len() == 0,
        opts.detailed ==> prefab_totals(report.by_prefab_key@) == removed_total(
            *schema,
            names@,
            opts@,
            models_of(old(zdos)@),
        ),
        prefabs_distinct(report.by_prefab_key@),
{
    let ghost ms = models_of(old(zdos)@);
    let ghost sc = *schema;
    let ghost nm = names@;
    let ghost o = opts@;
    let rules = build_rules(names, schema, opts);
    let mut report = Report {
        zdos_scanned: 0,
        properties_removed: 0,
        zdos_touched: 0,
        by_rule: RuleCounts { stale: 0, foreign: 0 },
        by_prefab_key: Vec::new(),
        unattributed_keys: Vec::new(),
        unknown_prefab_zdos: 0,
    };
    proof {
        lemma_totals_bound(sc, nm, o, ms);
        assert(counts_view(report.unattributed_keys@) =~= seq![]);
    }
    let n = zdos.len();
    let mut i: usize = 0;
    while i < n
        invariant
            rules.wf(o),
            *rules.schema == sc,
            rules.names@ == nm,
            o == opts@,
            nm == names@,
            sc == *schema,
            ms == models_of(old(zdos)@),
            zdos@.len() == n,
            n == old(zdos)@.len(),
            i <= n,
            size_total(ms) <= usize::MAX,
            forall|k: int| i <= k < n ==> #[trigger] zdos@[k] == old(zdos)@[k],
            forall|k: int| 0 <= k < i ==> (#[trigger] zdos@[k]).model() == cleaned(sc, nm, o, ms[k]),
            report.zdos_scanned == i,
            report.properties_removed == removed_total(sc, nm, o, ms.take(i as int)),
            report.zdos_touched == touched_count(sc, nm, o, ms.take(i as int)),
            report.by_rule.stale == rule_total(sc, nm, o, ms.take(i as int), RuleId::Stale),
            report.by_rule.foreign == rule_total(sc, nm, o, ms.take(i as int), RuleId::Foreign),
            report.unknown_prefab_zdos == unknown_count(sc, o, ms.take(i as int)),
            counts_total(counts_view(report.unattributed_keys@)) == unattributed_total(sc, nm, o, ms.take(i as int)),
            names_distinct(counts_view(report.unattributed_keys@)),
            !o.detailed ==> report.by_prefab_key@.len() == 0,
            o.detailed ==> prefab_totals(report.by_prefab_key@) == removed_total(sc, nm, o, ms.take(i as int)),
            prefabs_distinct(report.by_prefab_key@),
        decreases n - i,
    {
        let ghost m = ms[i as int];
        let ghost before = ms.take(i as int);
        let ghost after = ms.take(i + 1);
        proof {
            assert(after.drop_last() =~= before);
            assert(after.last() == m);
            assert(m == old(zdos)@[i as int].model());
            lemma_size_prefix(ms, i + 1);
            lemma_totals_bound(sc, nm, o, after);
            lemma_zdo_counts(sc, nm, o, m);
            lemma_rule_split(zdo_drops(sc, nm, o, m));
        }
        report.zdos_scanned = report.zdos_scanned + 1;
        let prefab = zdos[i].prefab;
        if opts.foreign && !schema.knows_prefab(prefab) {
            report.unknown_prefab_zdos = report.unknown_prefab_zdos + 1;
        }
        let log = clean_zdo(&mut zdos[i], &rules, opts);
        count_keys(&mut report.unattributed_keys, names, &log.unattributed);
        let removed = log.removals.len();
        if removed > 0 {
            report.zdos_touched = report.zdos_touched + 1;
            report.properties_removed = report.properties_removed + removed;
            let prefab_name = names.display(prefab);
            count_removals(
                &mut report.by_rule,
                &mut report.by_prefab_key,
                &log.removals,
                opts.detailed,
                &prefab_name,
                names,
            );
        }
        proof {
            assert forall|k: int| 0 <= k < i + 1 implies (#[trigger] zdos@[k]).model() == cleaned(sc, nm, o, ms[k]) by {
                if k == i {
                    assert(ms[k] == old(zdos)@[k].model());
                }
            }
        }
        i = i + 1;
    }
    assert(ms.take(n as int) =~= ms);
    report
}

proof fn lemma_rule_count_prefix(d: Seq<(RuleId, Removed)>, k: int, rule: RuleId)
    requires
        0 <= k <= d.len(),
    ensures
        rule_count_in(d.take(k), rule) <= rule_count_in(d, rule),
    decreases d.len() - k,
{
    if k < d.len() {
        lemma_rule_count_prefix(d, k + 1, rule);
        assert(d.take(k + 1).drop_last() =~= d.take(k));
    } else {
        assert(d.take(k) =~= d);
    }
}

} // verus!
