//! World metadata (`World.SaveWorldFWLData` / `World.LoadWorld`): the `.fwl`
//! beside a `.db`, or the `_main.<N>.fwl2` inside a chunked world directory.
//! Same payload either way, and version 41 appends the player history.
//!
//! On disk: an `i32` payload length, then the payload.

use vstd::prelude::*;
use crate::chunk_files::FileError;
use crate::inventory::{opt_encodable, opt_model, parse_opt, read_opt, ser_opt, write_opt};
use crate::primitives::{Bool, CsString, StringList};
use crate::versions::{
    WORLD_CHUNKED_SAVE, WORLD_CURRENT, WORLD_GEN_LEGACY, WORLD_GEN_VERSION, WORLD_NEEDS_DB,
    WORLD_PLAYER_HISTORY, WORLD_STARTING_GLOBAL_KEYS,
};
use crate::wire::Wire;
use crate::world_db::{or_else, Counted};

verus! {

/// One player who joined the world (`ZNet.CrossNetworkUserInfo.Write`).
pub struct PlayerHistoryEntry {
    /// The platform user id as text, e.g. `Steam_76561198000000000`.
    pub id: CsString,
    pub display_name: CsString,
    pub server_assigned_display_name: CsString,
    pub playfab_id: CsString,
}

/// A history entry's fields in file order.
pub type EntryFields = (CsString, (CsString, (CsString, CsString)));

impl Wire for PlayerHistoryEntry {
    type Model = (Seq<char>, (Seq<char>, (Seq<char>, Seq<char>)));

    open spec fn model(&self) -> Self::Model {
        (self.id.model(), (self.display_name.model(), (self.server_assigned_display_name.model(), self.playfab_id.model())))
    }

    open spec fn wire_encodable(m: Self::Model) -> bool {
        <EntryFields as Wire>::wire_encodable(m)
    }

    open spec fn wire_ser(m: Self::Model) -> Seq<u8> {
        <EntryFields as Wire>::wire_ser(m)
    }

    open spec fn wire_parse(b: Seq<u8>) -> Option<(Self::Model, int)> {
        <EntryFields as Wire>::wire_parse(b)
    }

    proof fn lemma_roundtrip(m: Self::Model, rest: Seq<u8>) {
        <EntryFields as Wire>::lemma_roundtrip(m, rest);
    }

    fn read(buf: &[u8], pos: usize) -> (r: Option<(PlayerHistoryEntry, usize)>) {
        match <EntryFields as Wire>::read(buf, pos) {
            Some(((id, (display_name, (server_assigned_display_name, playfab_id))), p)) => Some(
                (PlayerHistoryEntry { id, display_name, server_assigned_display_name, playfab_id }, p),
            ),
            None => None,
        }
    }

    fn write(&self, out: &mut Vec<u8>) {
        let ghost o = out@;
        self.id.write(out);
        self.display_name.write(out);
        self.server_assigned_display_name.write(out);
        self.playfab_id.write(out);
        assert(out@ =~= o + Self::wire_ser(self.model()));
    }
}

/// Everyone who has joined the world (`ZNet.m_playerHistory`).
pub type PlayerHistory = Counted<PlayerHistoryEntry>;

/// The fixed fields after the version, in file order.
pub type MetaHead = (CsString, (CsString, (i32, i64)));

pub struct WorldMeta {
    pub version: i32,
    pub name: CsString,
    pub seed_name: CsString,
    pub seed: i32,
    pub uid: i64,
    /// From version 26.
    pub world_gen_version: Option<i32>,
    /// From version 30.
    pub needs_db: Option<Bool>,
    /// From version 32.
    pub starting_global_keys: Option<StringList>,
    /// From version 41.
    pub player_history: Option<PlayerHistory>,
}

/// World metadata as plain values.
pub struct MetaModel {
    pub version: i32,
    pub name: Seq<char>,
    pub seed_name: Seq<char>,
    pub seed: i32,
    pub uid: i64,
    pub world_gen_version: Option<i32>,
    pub needs_db: Option<bool>,
    pub starting_global_keys: Option<Seq<Seq<char>>>,
    pub player_history: Option<Seq<<PlayerHistoryEntry as Wire>::Model>>,
}

impl WorldMeta {
    pub open spec fn model(&self) -> MetaModel {
        MetaModel {
            version: self.version,
            name: self.name.model(),
            seed_name: self.seed_name.model(),
            seed: self.seed,
            uid: self.uid,
            world_gen_version: self.world_gen_version,
            needs_db: opt_model(self.needs_db),
            starting_global_keys: opt_model(self.starting_global_keys),
            player_history: opt_model(self.player_history),
        }
    }
}

/// The bytes of the last two optional fields.
#[verifier::opaque]
pub open spec fn ser_meta_t2(m: MetaModel) -> Seq<u8> {
    ser_opt::<StringList>(m.starting_global_keys) + ser_opt::<PlayerHistory>(m.player_history)
}

/// The bytes of the optional fields that are there.
#[verifier::opaque]
pub open spec fn ser_meta_tail(m: MetaModel) -> Seq<u8> {
    ser_opt::<i32>(m.world_gen_version) + ser_opt::<Bool>(m.needs_db) + ser_meta_t2(m)
}

/// The bytes of the payload: every field that is there, in file order.
pub open spec fn ser_meta(m: MetaModel) -> Seq<u8> {
    <i32 as Wire>::wire_ser(m.version) + <MetaHead as Wire>::wire_ser((m.name, (m.seed_name, (m.seed, m.uid))))
        + ser_meta_tail(m)
}

/// The last two optional fields of a `version` payload off the front of `b`.
#[verifier::opaque]
pub open spec fn parse_meta_t2(b: Seq<u8>, version: i32) -> Option<
    ((Option<Seq<Seq<char>>>, Option<Seq<<PlayerHistoryEntry as Wire>::Model>>), int),
> {
    match parse_opt::<StringList>(b, version >= WORLD_STARTING_GLOBAL_KEYS) {
        None => None,
        Some((s, k3)) => match parse_opt::<PlayerHistory>(b.skip(k3), version >= WORLD_PLAYER_HISTORY) {
            None => None,
            Some((h, k4)) => Some(((s, h), k3 + k4)),
        },
    }
}

/// The optional fields of a `version` payload off the front of `b`.
#[verifier::opaque]
pub open spec fn parse_meta_tail(b: Seq<u8>, version: i32) -> Option<
    ((Option<i32>, Option<bool>, Option<Seq<Seq<char>>>, Option<Seq<<PlayerHistoryEntry as Wire>::Model>>), int),
> {
    match parse_opt::<i32>(b, version >= WORLD_GEN_VERSION) {
        None => None,
        Some((g, k1)) => match parse_opt::<Bool>(b.skip(k1), version >= WORLD_NEEDS_DB) {
            None => None,
            Some((n, k2)) => match parse_meta_t2(b.skip(k1 + k2), version) {
                None => None,
                Some((t, k3)) => Some(((g, n, t.0, t.1), k1 + k2 + k3)),
            },
        },
    }
}

/// A payload off the front of `b`.
pub open spec fn parse_meta(b: Seq<u8>) -> Option<(MetaModel, int)> {
    match <i32 as Wire>::wire_parse(b) {
        None => None,
        Some((v, k1)) => match <MetaHead as Wire>::wire_parse(b.skip(k1)) {
            None => None,
            Some((h, k2)) => match parse_meta_tail(b.skip(k1 + k2), v) {
                None => None,
                Some((t, k3)) => Some(
                    (
                        MetaModel {
                            version: v,
                            name: h.0,
                            seed_name: h.1.0,
                            seed: h.1.1.0,
                            uid: h.1.1.1,
                            world_gen_version: t.0,
                            needs_db: t.1,
                            starting_global_keys: t.2,
                            player_history: t.3,
                        },
                        k1 + k2 + k3,
                    ),
                ),
            },
        },
    }
}

/// What reading a `.fwl` from `b` gives: an `i32` payload length, then a
/// payload filling exactly that many bytes; anything after it is ignored.
pub open spec fn meta_parsed(b: Seq<u8>, r: Result<MetaModel, FileError>) -> bool {
    match <i32 as Wire>::wire_parse(b) {
        None => r matches Err(FileError::Malformed),
        Some((len, _)) => if len < 0 || len > b.len() - 4 {
            r == Err::<MetaModel, FileError>(FileError::LengthOutOfRange { len, size: b.len() as usize })
        } else {
            let payload = b.subrange(4, 4 + len);
            match parse_meta(payload) {
                None => r matches Err(FileError::Malformed),
                Some((m, k)) => if k == len {
                    r == Ok::<MetaModel, FileError>(m)
                } else {
                    r matches Err(FileError::TrailingBytes { count }) && count == len - k
                },
            }
        },
    }
}

/// Whether metadata can be written: its strings and lists fit their
/// prefixes, and the payload its `i32` length.
pub open spec fn meta_encodable(m: MetaModel) -> bool {
    &&& <MetaHead as Wire>::wire_encodable((m.name, (m.seed_name, (m.seed, m.uid))))
    &&& opt_encodable::<StringList>(m.starting_global_keys)
    &&& opt_encodable::<PlayerHistory>(m.player_history)
    &&& ser_meta(m).len() <= i32::MAX
}

/// The bytes of a `.fwl` or `.fwl2`.
pub open spec fn ser_meta_file(m: MetaModel) -> Seq<u8> {
    <i32 as Wire>::wire_ser(ser_meta(m).len() as i32) + ser_meta(m)
}

fn read_meta_t2(buf: &[u8], pos: usize, version: i32) -> (r: Option<(Option<StringList>, Option<PlayerHistory>, usize)>)
    requires
        pos <= buf@.len(),
    ensures
        match r {
            Some((s, h, p)) => pos <= p <= buf@.len() && parse_meta_t2(buf@.skip(pos as int), version) == Some(
                ((opt_model(s), opt_model(h)), p - pos),
            ),
            None => parse_meta_t2(buf@.skip(pos as int), version) is None,
        },
{
    reveal(parse_meta_t2);
    let (s, p3) = match read_opt::<StringList>(buf, pos, version >= WORLD_STARTING_GLOBAL_KEYS) {
        Some(x) => x,
        None => {
            return None;
        },
    };
    assert(buf@.skip(pos as int).skip(p3 - pos) =~= buf@.skip(p3 as int));
    match read_opt::<PlayerHistory>(buf, p3, version >= WORLD_PLAYER_HISTORY) {
        Some((h, p4)) => Some((s, h, p4)),
        None => None,
    }
}

fn read_meta_tail(buf: &[u8], pos: usize, version: i32) -> (r: Option<
    (Option<i32>, Option<Bool>, Option<StringList>, Option<PlayerHistory>, usize),
>)
    requires
        pos <= buf@.len(),
    ensures
        match r {
            Some((g, n, s, h, p)) => pos <= p <= buf@.len() && parse_meta_tail(buf@.skip(pos as int), version)
                == Some(((g, opt_model(n), opt_model(s), opt_model(h)), p - pos)),
            None => parse_meta_tail(buf@.skip(pos as int), version) is None,
        },
{
    reveal(parse_meta_tail);
    let ghost b = buf@.skip(pos as int);
    let (g, p1) = match read_opt::<i32>(buf, pos, version >= WORLD_GEN_VERSION) {
        Some(x) => x,
        None => {
            return None;
        },
    };
    assert(b.skip(p1 - pos) =~= buf@.skip(p1 as int));
    let (n, p2) = match read_opt::<Bool>(buf, p1, version >= WORLD_NEEDS_DB) {
        Some(x) => x,
        None => {
            return None;
        },
    };
    assert(b.skip(p2 - pos) =~= buf@.skip(p2 as int));
    match read_meta_t2(buf, p2, version) {
        Some((s, h, p4)) => Some((g, n, s, h, p4)),
        None => None,
    }
}

fn write_meta_tail(m: &WorldMeta, out: &mut Vec<u8>)
    requires
        opt_encodable::<StringList>(m.model().starting_global_keys),
        opt_encodable::<PlayerHistory>(m.model().player_history),
    ensures
        final(out)@ == old(out)@ + ser_meta_tail(m.model()),
{
    reveal(ser_meta_tail);
    reveal(ser_meta_t2);
    let ghost o = out@;
    write_opt(&m.world_gen_version, out);
    write_opt(&m.needs_db, out);
    let ghost o2 = out@;
    write_opt(&m.starting_global_keys, out);
    write_opt(&m.player_history, out);
    assert(out@ =~= o2 + ser_meta_t2(m.model()));
    assert(out@ =~= o + ser_meta_tail(m.model()));
}

impl WorldMeta {
    /// Read a `.fwl` or `.fwl2`.
    pub fn parse(bytes: &[u8]) -> (r: Result<WorldMeta, FileError>)
        ensures
            meta_parsed(
                bytes@,
                match r {
                    Ok(m) => Ok(m.model()),
                    Err(e) => Err(e),
                },
            ),
    {
        assert(bytes@.skip(0) =~= bytes@);
        let (len, _) = match <i32 as Wire>::read(bytes, 0) {
            Some(x) => x,
            None => {
                return Err(FileError::Malformed);
            },
        };
        if len < 0 || len as usize > bytes.len() - 4 {
            return Err(FileError::LengthOutOfRange { len, size: bytes.len() });
        }
        let end = 4 + len as usize;
        let mut payload: Vec<u8> = Vec::new();
        let mut i: usize = 4;
        while i < end
            invariant
                4 <= i <= end,
                end <= bytes@.len(),
                payload@ == bytes@.subrange(4, i as int),
            decreases end - i,
        {
            payload.push(bytes[i]);
            i = i + 1;
            assert(payload@ =~= bytes@.subrange(4, i as int));
        }
        let p = payload.as_slice();
        assert(p@.skip(0) =~= p@);
        let (version, p1) = match <i32 as Wire>::read(p, 0) {
            Some(x) => x,
            None => {
                return Err(FileError::Malformed);
            },
        };
        let ((name, (seed_name, (seed, uid))), p2) = match <MetaHead as Wire>::read(p, p1) {
            Some(x) => x,
            None => {
                return Err(FileError::Malformed);
            },
        };
        assert(p@.skip(p2 as int) =~= p@.skip(p1 as int).skip(p2 - p1));
        let (g, n, s, h, p3) = match read_meta_tail(p, p2, version) {
            Some(x) => x,
            None => {
                return Err(FileError::Malformed);
            },
        };
        if p3 != p.len() {
            return Err(FileError::TrailingBytes { count: p.len() - p3 });
        }
        Ok(
            WorldMeta {
                version,
                name,
                seed_name,
                seed,
                uid,
                world_gen_version: g,
                needs_db: n,
                starting_global_keys: s,
                player_history: h,
            },
        )
    }

    /// The bytes of the `.fwl`: the payload's length, then the payload.
    /// Refused when a string or list is too long for its prefix, or the
    /// payload for its length.
    pub fn to_file_bytes(&self) -> (r: Result<Vec<u8>, FileError>)
        ensures
            match r {
                Ok(b) => meta_encodable(self.model()) && b@ == ser_meta_file(self.model()),
                Err(FileError::ValueTooLarge) => !meta_encodable(self.model()),
                Err(_) => false,
            },
    {
        let ghost m = self.model();
        let strings_ok = crate::inventory::string_fits(&self.name) && crate::inventory::string_fits(&self.seed_name);
        let keys_ok = match &self.starting_global_keys {
            Some(k) => crate::world_db::string_list_fits(k),
            None => true,
        };
        let history_ok = match &self.player_history {
            Some(h) => history_fits(h),
            None => true,
        };
        if !strings_ok || !keys_ok || !history_ok {
            return Err(FileError::ValueTooLarge);
        }
        let mut payload: Vec<u8> = Vec::new();
        self.version.write(&mut payload);
        self.name.write(&mut payload);
        self.seed_name.write(&mut payload);
        self.seed.write(&mut payload);
        self.uid.write(&mut payload);
        write_meta_tail(self, &mut payload);
        assert(payload@ =~= ser_meta(m));
        if payload.len() > 0x7FFF_FFFF {
            return Err(FileError::ValueTooLarge);
        }
        let mut out: Vec<u8> = Vec::new();
        (payload.len() as i32).write(&mut out);
        crate::wire::append_bytes(&mut out, payload.as_slice());
        Ok(out)
    }

    /// Whether this metadata describes a chunked world directory rather
    /// than a `.fwl` + `.db` pair.
    pub fn is_chunked(&self) -> (r: bool)
        ensures
            r == (self.version >= WORLD_CHUNKED_SAVE),
    {
        self.version >= WORLD_CHUNKED_SAVE
    }
}

fn history_fits(h: &PlayerHistory) -> (r: bool)
    ensures
        r == <PlayerHistory as Wire>::wire_encodable(h.model()),
{
    let n = h.items.len();
    if n > 0x7FFF_FFFF {
        return false;
    }
    let mut i: usize = 0;
    while i < n
        invariant
            i <= n,
            n == h.items@.len(),
            forall|j: int| 0 <= j < i ==> #[trigger] <PlayerHistoryEntry as Wire>::wire_encodable(h.model()[j]),
        decreases n - i,
    {
        assert(h.model()[i as int] == h.items@[i as int].model());
        let e = &h.items[i];
        if !crate::inventory::string_fits(&e.id) || !crate::inventory::string_fits(&e.display_name)
            || !crate::inventory::string_fits(&e.server_assigned_display_name) || !crate::inventory::string_fits(
            &e.playfab_id,
        ) {
            return false;
        }
        i = i + 1;
    }
    true
}

/// Metadata at the current version, with every field older versions lack
/// filled with the game's defaults (world generation 0, needs a database,
/// no starting keys, no player history).
pub open spec fn upgraded_meta(m: MetaModel) -> MetaModel {
    MetaModel {
        version: WORLD_CURRENT,
        world_gen_version: Some(or_else(m.world_gen_version, WORLD_GEN_LEGACY)),
        needs_db: Some(or_else(m.needs_db, true)),
        starting_global_keys: Some(or_else(m.starting_global_keys, seq![])),
        player_history: Some(or_else(m.player_history, seq![])),
        ..m
    }
}

impl WorldMeta {
    /// Fill fields absent from older versions with the game's defaults and
    /// stamp the current version, as the game does when it saves.
    pub fn upgrade(&mut self)
        ensures
            final(self).model() == upgraded_meta(old(self).model()),
    {
        let ghost m = self.model();
        self.version = WORLD_CURRENT;
        if self.world_gen_version.is_none() {
            self.world_gen_version = Some(WORLD_GEN_LEGACY);
        }
        if self.needs_db.is_none() {
            self.needs_db = Some(Bool(true));
        }
        if self.starting_global_keys.is_none() {
            let k = StringList { items: Vec::new() };
            assert(k.model() =~= seq![]);
            self.starting_global_keys = Some(k);
        }
        if self.player_history.is_none() {
            let h: PlayerHistory = Counted { items: Vec::new() };
            assert(h.model() =~= seq![]);
            self.player_history = Some(h);
        }
        assert(self.model() =~= upgraded_meta(m));
    }
}

/// Whether metadata's optional fields are there exactly when its version
/// carries them.
pub open spec fn meta_fits_version(m: MetaModel) -> bool {
    &&& (m.world_gen_version is Some) == (m.version >= WORLD_GEN_VERSION)
    &&& (m.needs_db is Some) == (m.version >= WORLD_NEEDS_DB)
    &&& (m.starting_global_keys is Some) == (m.version >= WORLD_STARTING_GLOBAL_KEYS)
    &&& (m.player_history is Some) == (m.version >= WORLD_PLAYER_HISTORY)
}

proof fn lemma_gated<T: Wire>(o: Option<T::Model>, present: bool, rest: Seq<u8>)
    requires
        opt_encodable::<T>(o),
        (o is Some) == present,
    ensures
        parse_opt::<T>(ser_opt::<T>(o) + rest, present) == Some((o, ser_opt::<T>(o).len() as int)),
        (ser_opt::<T>(o) + rest).skip(ser_opt::<T>(o).len() as int) == rest,
{
    crate::inventory::lemma_opt_roundtrip::<T>(o, rest);
    assert((ser_opt::<T>(o) + rest).skip(ser_opt::<T>(o).len() as int) =~= rest);
}

proof fn lemma_meta_tail_roundtrip(m: MetaModel)
    requires
        meta_encodable(m),
        meta_fits_version(m),
    ensures
        parse_meta_tail(ser_meta_tail(m), m.version) == Some(
            ((m.world_gen_version, m.needs_db, m.starting_global_keys, m.player_history), ser_meta_tail(m).len() as int),
        ),
{
    reveal(parse_meta_tail);
    reveal(ser_meta_tail);
    reveal(parse_meta_t2);
    reveal(ser_meta_t2);
    let g = ser_opt::<i32>(m.world_gen_version);
    let n = ser_opt::<Bool>(m.needs_db);
    let s = ser_opt::<StringList>(m.starting_global_keys);
    let y = ser_opt::<PlayerHistory>(m.player_history);
    let t = ser_meta_tail(m);
    assert(t =~= g + (n + (s + y)));
    lemma_gated::<i32>(m.world_gen_version, m.version >= WORLD_GEN_VERSION, n + (s + y));
    assert(t.skip(g.len() as int) =~= n + (s + y));
    lemma_gated::<Bool>(m.needs_db, m.version >= WORLD_NEEDS_DB, s + y);
    assert(t.skip((g.len() + n.len()) as int) =~= s + y);
    let u = s + y;
    lemma_gated::<StringList>(m.starting_global_keys, m.version >= WORLD_STARTING_GLOBAL_KEYS, y);
    assert(u.skip(s.len() as int) =~= y + seq![]);
    lemma_gated::<PlayerHistory>(m.player_history, m.version >= WORLD_PLAYER_HISTORY, seq![]);
    assert(y + seq![] =~= y);
}

/// Metadata written here reads back as itself.
pub proof fn lemma_meta_roundtrip(m: MetaModel)
    requires
        meta_encodable(m),
        meta_fits_version(m),
    ensures
        meta_parsed(ser_meta_file(m), Ok(m)),
{
    let p = ser_meta(m);
    let f = ser_meta_file(m);
    <i32 as Wire>::lemma_roundtrip(p.len() as i32, p);
    assert(f.subrange(4, 4 + p.len() as int) =~= p);
    let v = <i32 as Wire>::wire_ser(m.version);
    let h = <MetaHead as Wire>::wire_ser((m.name, (m.seed_name, (m.seed, m.uid))));
    let t = ser_meta_tail(m);
    assert(p =~= v + (h + t));
    <i32 as Wire>::lemma_roundtrip(m.version, h + t);
    assert(p.skip(v.len() as int) =~= h + t);
    <MetaHead as Wire>::lemma_roundtrip((m.name, (m.seed_name, (m.seed, m.uid))), t);
    assert(p.skip((v.len() + h.len()) as int) =~= t);
    lemma_meta_tail_roundtrip(m);
}

} // verus!
