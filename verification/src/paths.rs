//! Where a world's files are, as plain path strings, and the choices made
//! when writing results back without clobbering originals. Looking at the
//! file system happens outside this library; what it finds comes in as
//! plain values.

use vstd::prelude::*;
use crate::chunked::{main_file_name, spec_main_file_name};
use crate::text::{chars_of, decimal, digit_char, piece, push_decimal, trim, trimmed};

verus! {

/// How a world is stored on disk.
#[derive(Clone, Copy, Debug, PartialEq, Eq, Structural)]
pub enum Layout {
    /// `<name>.fwl` beside `<name>.db` (world versions up to 39).
    Legacy,
    /// `<name>/_main.<N>.fwl2`, `.db2`, `.chunks`, `.ok` and `*.chunk`
    /// (world version 40 up, game 1.0).
    Chunked,
}

pub open spec fn layout_label(l: Layout) -> Seq<char> {
    match l {
        Layout::Legacy => "single-file (.fwl + .db)"@,
        Layout::Chunked => "chunked directory"@,
    }
}

impl Layout {
    pub fn label(self) -> (r: &'static str)
        ensures
            r@ == layout_label(self),
    {
        match self {
            Layout::Legacy => "single-file (.fwl + .db)",
            Layout::Chunked => "chunked directory",
        }
    }
}

/// `dir` joined with the relative name `name`: `name` alone under an empty
/// directory, else separated by one `/`.
pub open spec fn join(dir: Seq<char>, name: Seq<char>) -> Seq<char> {
    if dir.len() == 0 {
        name
    } else if dir.last() == '/' {
        dir + name
    } else {
        dir + seq!['/'] + name
    }
}

/// `dir` joined with the relative name `name`.
pub fn join_path(dir: &str, name: &str) -> (r: String)
    ensures
        r@ == join(dir@, name@),
{
    let cs = chars_of(dir);
    let mut s = String::from_str(dir);
    if cs.len() == 0 {
        return String::from_str(name);
    }
    if cs[cs.len() - 1] != '/' {
        proof {
            reveal_strlit("/");
        }
        s.append("/");
    }
    s.append(name);
    assert(s@ =~= join(dir@, name@));
    s
}

/// A world's files, derived from whichever of them the user named.
pub struct WorldFiles {
    pub layout: Layout,
    /// The metadata file: `<name>.fwl` or `<dir>/_main.<N>.fwl2`.
    pub fwl: String,
    /// The data file: `<name>.db` or `<dir>/_main.<N>.db2`.
    pub db: String,
    /// The directory the world lives in: the parent of the pair, or the
    /// world's own directory when chunked.
    pub dir: String,
    /// The save number `N` of a chunked world.
    pub save_number: Option<u32>,
    /// File stem or directory name the game knows the world by.
    pub file_name: String,
}

/// A world's files as plain values.
pub struct WorldFilesView {
    pub layout: Layout,
    pub fwl: Seq<char>,
    pub db: Seq<char>,
    pub dir: Seq<char>,
    pub save_number: Option<u32>,
    pub file_name: Seq<char>,
}

impl View for WorldFiles {
    type V = WorldFilesView;

    open spec fn view(&self) -> WorldFilesView {
        WorldFilesView {
            layout: self.layout,
            fwl: self.fwl@,
            db: self.db@,
            dir: self.dir@,
            save_number: self.save_number,
            file_name: self.file_name@,
        }
    }
}

/// The chunked-layout files of save `n` of a world directory.
pub open spec fn chunked_files(world_dir: Seq<char>, file_name: Seq<char>, n: u32) -> WorldFilesView {
    WorldFilesView {
        layout: Layout::Chunked,
        fwl: join(world_dir, spec_main_file_name(n, "fwl2"@)),
        db: join(world_dir, spec_main_file_name(n, "db2"@)),
        dir: world_dir,
        save_number: Some(n),
        file_name,
    }
}

/// The single-file pair `<stem>.fwl` and `<stem>.db` in `dir`.
pub open spec fn legacy_files(dir: Seq<char>, stem: Seq<char>, file_name: Seq<char>) -> WorldFilesView {
    WorldFilesView {
        layout: Layout::Legacy,
        fwl: stem + ".fwl"@,
        db: stem + ".db"@,
        dir,
        save_number: None,
        file_name,
    }
}

impl WorldFiles {
    /// The files of save `number` of the world directory `dir`, known to the
    /// game as `file_name`.
    pub fn chunked(dir: &str, file_name: &str, number: u32) -> (w: WorldFiles)
        ensures
            w@ == chunked_files(dir@, file_name@, number),
    {
        proof {
            reveal_strlit("fwl2");
            reveal_strlit("db2");
        }
        let fwl = join_path(dir, main_file_name(number, "fwl2").as_str());
        let db = join_path(dir, main_file_name(number, "db2").as_str());
        WorldFiles {
            layout: Layout::Chunked,
            fwl,
            db,
            dir: String::from_str(dir),
            save_number: Some(number),
            file_name: String::from_str(file_name),
        }
    }

    /// The single-file pair of `stem` (a path without extension) in `dir`,
    /// known to the game as `file_name`.
    pub fn legacy(dir: &str, stem: &str, file_name: &str) -> (w: WorldFiles)
        ensures
            w@ == legacy_files(dir@, stem@, file_name@),
    {
        proof {
            reveal_strlit(".fwl");
            reveal_strlit(".db");
        }
        let mut fwl = String::from_str(stem);
        fwl.append(".fwl");
        let mut db = String::from_str(stem);
        db.append(".db");
        WorldFiles {
            layout: Layout::Legacy,
            fwl,
            db,
            dir: String::from_str(dir),
            save_number: None,
            file_name: String::from_str(file_name),
        }
    }

    /// The chunk map of a chunked world.
    pub fn chunks(&self) -> (r: Option<String>)
        ensures
            match r {
                Some(p) => self.save_number matches Some(n) && p@ == join(
                    self.dir@,
                    spec_main_file_name(n, "chunks"@),
                ),
                None => self.save_number is None,
            },
    {
        proof {
            reveal_strlit("chunks");
        }
        match self.save_number {
            Some(n) => Some(join_path(self.dir.as_str(), main_file_name(n, "chunks").as_str())),
            None => None,
        }
    }

    /// Where the same world would live under `dir` as `file_name`, in this
    /// layout.
    pub fn sibling(&self, dir: &str, file_name: &str) -> (w: WorldFiles)
        ensures
            w@ == match self.layout {
                Layout::Legacy => WorldFilesView {
                    layout: Layout::Legacy,
                    fwl: join(dir@, file_name@ + ".fwl"@),
                    db: join(dir@, file_name@ + ".db"@),
                    dir: dir@,
                    save_number: None,
                    file_name: file_name@,
                },
                Layout::Chunked => chunked_files(
                    join(dir@, file_name@),
                    file_name@,
                    match self.save_number {
                        Some(n) => n,
                        None => 1,
                    },
                ),
            },
    {
        proof {
            reveal_strlit(".fwl");
            reveal_strlit(".db");
        }
        match self.layout {
            Layout::Legacy => {
                let mut f = String::from_str(file_name);
                f.append(".fwl");
                let mut d = String::from_str(file_name);
                d.append(".db");
                WorldFiles {
                    layout: Layout::Legacy,
                    fwl: join_path(dir, f.as_str()),
                    db: join_path(dir, d.as_str()),
                    dir: String::from_str(dir),
                    save_number: None,
                    file_name: String::from_str(file_name),
                }
            },
            Layout::Chunked => {
                let n = match self.save_number {
                    Some(n) => n,
                    None => 1,
                };
                let world_dir = join_path(dir, file_name);
                WorldFiles::chunked(world_dir.as_str(), file_name, n)
            },
        }
    }

    /// The chunked-layout home of this world's name under `parent`:
    /// `<parent>/<file_name>/_main.<N>.*`.
    pub fn chunked_under(parent: &str, file_name: &str, save_number: u32) -> (w: WorldFiles)
        ensures
            w@ == chunked_files(join(parent@, file_name@), file_name@, save_number),
    {
        let world_dir = join_path(parent, file_name);
        WorldFiles::chunked(world_dir.as_str(), file_name, save_number)
    }

    /// A short description of where the world is, for reports.
    pub fn describe(&self) -> (r: String)
        ensures
            r@ == match self.layout {
                Layout::Legacy => self.fwl@ + "  (+ .db)"@,
                Layout::Chunked => self.dir@ + "  (save number "@ + decimal(
                    match self.save_number {
                        Some(n) => n as nat,
                        None => 0,
                    },
                ) + ")"@,
            },
    {
        proof {
            reveal_strlit("  (+ .db)");
            reveal_strlit("  (save number ");
            reveal_strlit(")");
        }
        match self.layout {
            Layout::Legacy => {
                let mut s = self.fwl.clone();
                s.append("  (+ .db)");
                s
            },
            Layout::Chunked => {
                let mut s = self.dir.clone();
                s.append("  (save number ");
                let n = match self.save_number {
                    Some(n) => n,
                    None => 0,
                };
                push_decimal(&mut s, n as u64);
                s.append(")");
                s
            },
        }
    }
}

// ---------------------------------------------------------------- save numbers

/// The value of decimal digits `d`.
pub open spec fn digits_value(d: Seq<char>) -> nat
    decreases d.len(),
{
    if d.len() == 0 {
        0
    } else {
        digits_value(d.drop_last()) * 10 + (d.last() as nat - '0' as nat) as nat
    }
}

/// Whether every character of `d` is an ASCII digit.
pub open spec fn all_digits(d: Seq<char>) -> bool {
    forall|k: int| 0 <= k < d.len() ==> '0' <= #[trigger] d[k] <= '9'
}

/// `str::parse::<u32>`: an optional `+`, then at least one ASCII digit, and
/// a value that fits.
pub open spec fn parse_u32(s: Seq<char>) -> Option<u32> {
    let d = if s.len() > 0 && s[0] == '+' {
        s.drop_first()
    } else {
        s
    };
    if d.len() > 0 && all_digits(d) && digits_value(d) <= u32::MAX {
        Some(digits_value(d) as u32)
    } else {
        None
    }
}

/// `N` from `_main.N.<ext>`: what lies between the `_main.` prefix and the
/// next `.`, as a number.
pub open spec fn spec_save_number_of(name: Seq<char>) -> Option<u32> {
    let p = "_main."@;
    if name.len() >= p.len() && name.take(p.len() as int) == p {
        let rest = name.skip(p.len() as int);
        match crate::text::find_char(rest, '.') {
            Some(i) => parse_u32(rest.take(i as int)),
            None => None,
        }
    } else {
        None
    }
}

proof fn lemma_digits_value_push(d: Seq<char>, c: char)
    ensures
        digits_value(d.push(c)) == digits_value(d) * 10 + (c as nat - '0' as nat) as nat,
{
    assert(d.push(c).drop_last() =~= d);
}

proof fn lemma_decimal_digits(n: nat)
    ensures
        decimal(n).len() > 0,
        all_digits(decimal(n)),
        digits_value(decimal(n)) == n,
        decimal(n)[0] != '+',
    decreases n,
{
    let d = n % 10;
    assert(digit_char(d) as nat - '0' as nat == d && '0' <= digit_char(d) <= '9') by {
        assert(d < 10);
        if d == 0 {} else if d == 1 {} else if d == 2 {} else if d == 3 {} else if d == 4 {} else if d == 5 {}
        else if d == 6 {} else if d == 7 {} else if d == 8 {} else {}
    }
    if n >= 10 {
        lemma_decimal_digits(n / 10);
        let h = decimal(n / 10);
        lemma_digits_value_push(h, digit_char(d));
        assert(decimal(n) =~= h.push(digit_char(d)));
        assert(decimal(n)[0] == h[0]);
    } else {
        assert(decimal(n) =~= seq![].push(digit_char(d)));
        lemma_digits_value_push(seq![], digit_char(d));
    }
}

/// The save number of a file named for save `n` is `n`, whatever its
/// extension.
pub proof fn lemma_save_number_of_main_file_name(n: u32, ext: Seq<char>)
    ensures
        spec_save_number_of(crate::chunked::spec_main_file_name(n, ext)) == Some(n),
{
    reveal_strlit("_main.");
    let d = decimal(n as nat);
    lemma_decimal_digits(n as nat);
    let name = crate::chunked::spec_main_file_name(n, ext);
    let p = "_main."@;
    assert(name.take(p.len() as int) =~= p);
    let rest = name.skip(p.len() as int);
    assert(rest =~= d + seq!['.'] + ext);
    assert forall|k: int| 0 <= k < d.len() implies rest[k] != '.' by {
        assert(rest[k] == d[k]);
    }
    crate::text::lemma_find_char_at(rest, '.', d.len() as int);
    assert(rest.take(d.len() as int) =~= d);
}

/// Parse a run of characters as `str::parse::<u32>` does.
pub fn parse_u32_chars(cs: &Vec<char>, a: usize, b: usize) -> (r: Option<u32>)
    requires
        a <= b <= cs@.len(),
    ensures
        r == parse_u32(cs@.subrange(a as int, b as int)),
{
    let ghost s = cs@.subrange(a as int, b as int);
    let mut i = a;
    if i < b && cs[i] == '+' {
        i = i + 1;
    }
    let ghost d = cs@.subrange(i as int, b as int);
    assert(d =~= if s.len() > 0 && s[0] == '+' {
        s.drop_first()
    } else {
        s
    });
    if i == b {
        return None;
    }
    let mut v: u64 = 0;
    let mut j = i;
    while j < b
        invariant
            i <= j <= b,
            b <= cs@.len(),
            s == cs@.subrange(a as int, b as int),
            d =~= (if s.len() > 0 && s[0] == '+' {
                s.drop_first()
            } else {
                s
            }),
            d == cs@.subrange(i as int, b as int),
            all_digits(cs@.subrange(i as int, j as int)),
            v == digits_value(cs@.subrange(i as int, j as int)),
            v <= u32::MAX,
        decreases b - j,
    {
        let c = cs[j];
        if c < '0' || c > '9' {
            assert(!all_digits(d)) by {
                assert(d[j - i] == c);
            }
            assert(parse_u32(s) is None);
            return None;
        }
        proof {
            assert(cs@.subrange(i as int, j + 1) =~= cs@.subrange(i as int, j as int).push(c));
            lemma_digits_value_push(cs@.subrange(i as int, j as int), c);
        }
        let dv = (c as u32 - '0' as u32) as u64;
        let nv = v * 10 + dv;
        if nv > 0xFFFF_FFFF {
            proof {
                assert(d.take(j + 1 - i) =~= cs@.subrange(i as int, j + 1));
                assert(all_digits(cs@.subrange(i as int, j + 1)));
                lemma_digits_prefix_grows(d, (j + 1 - i) as int);
            }
            assert(parse_u32(s) is None);
            return None;
        }
        v = nv;
        j = j + 1;
    }
    Some(v as u32)
}

proof fn lemma_digits_prefix_grows(d: Seq<char>, k: int)
    requires
        0 <= k <= d.len(),
        all_digits(d.take(k)),
    ensures
        all_digits(d) ==> digits_value(d.take(k)) <= digits_value(d),
    decreases d.len() - k,
{
    if k < d.len() && all_digits(d) {
        lemma_digits_prefix_grows(d, k + 1);
        assert(d.take(k + 1) =~= d.take(k).push(d[k]));
        lemma_digits_value_push(d.take(k), d[k]);
    } else if k == d.len() {
        assert(d.take(k) =~= d);
    }
}

/// `N` from `_main.N.<ext>`.
pub fn save_number_of(file_name: &str) -> (r: Option<u32>)
    ensures
        r == spec_save_number_of(file_name@),
{
    proof {
        reveal_strlit("_main.");
    }
    let cs = chars_of(file_name);
    let p = chars_of("_main.");
    if cs.len() < p.len() {
        return None;
    }
    let mut k: usize = 0;
    while k < p.len()
        invariant
            k <= p@.len(),
            p@ == "_main."@,
            cs@ == file_name@,
            p@.len() <= cs@.len(),
            forall|j: int| 0 <= j < k ==> cs@[j] == p@[j],
        decreases p@.len() - k,
    {
        if cs[k] != p[k] {
            assert(cs@.take(p@.len() as int) != p@) by {
                assert(cs@.take(p@.len() as int)[k as int] != p@[k as int]);
            }
            return None;
        }
        k = k + 1;
    }
    assert(cs@.take(p@.len() as int) =~= p@);
    let ghost rest = cs@.skip(p@.len() as int);
    let start = p.len();
    let mut i = start;
    while i < cs.len() && cs[i] != '.'
        invariant
            start <= i <= cs@.len(),
            start == p@.len(),
            rest == cs@.skip(start as int),
            forall|j: int| start <= j < i ==> cs@[j] != '.',
        decreases cs@.len() - i,
    {
        i = i + 1;
    }
    if i == cs.len() {
        proof {
            assert forall|j: int| 0 <= j < rest.len() implies rest[j] != '.' by {
                assert(rest[j] == cs@[j + start]);
            }
            crate::text::lemma_find_char_none(rest, '.');
        }
        return None;
    }
    proof {
        assert forall|j: int| 0 <= j < i - start implies rest[j] != '.' by {
            assert(rest[j] == cs@[j + start]);
        }
        crate::text::lemma_find_char_at(rest, '.', (i - start) as int);
        assert(rest.take((i - start) as int) =~= cs@.subrange(start as int, i as int));
    }
    parse_u32_chars(&cs, start, i)
}

/// Which save of a world directory to read, and whether it is complete.
pub struct SavePick {
    pub number: u32,
    /// The newest save has no `.ok` marker, so an older complete one was
    /// picked, or none is complete at all.
    pub incomplete_newest: bool,
}

/// Whether `name` ends with `suffix`.
fn ends_with(name: &str, suffix: &str) -> (r: bool)
    ensures
        r == (suffix@.len() <= name@.len() && name@.skip(name@.len() - suffix@.len()) == suffix@),
{
    let a = chars_of(name);
    let b = chars_of(suffix);
    if b.len() > a.len() {
        return false;
    }
    let off = a.len() - b.len();
    let mut k: usize = 0;
    while k < b.len()
        invariant
            k <= b@.len(),
            a@ == name@,
            b@ == suffix@,
            off + b@.len() == a@.len(),
            off + b.len() == a.len(),
            forall|j: int| 0 <= j < k ==> a@[off + j] == b@[j],
        decreases b@.len() - k,
    {
        if a[off + k] != b[k] {
            assert(a@.skip(off as int)[k as int] != b@[k as int]);
            return false;
        }
        k = k + 1;
    }
    assert(a@.skip(off as int) =~= b@);
    true
}

/// The largest of `v` that is also in `w`, if any.
fn max_common(v: &Vec<u32>, w: &Vec<u32>) -> (r: Option<u32>)
    ensures
        match r {
            Some(n) => v@.contains(n) && w@.contains(n) && forall|k: int|
                0 <= k < v@.len() && w@.contains(v@[k]) ==> v@[k] <= n,
            None => forall|k: int| 0 <= k < v@.len() ==> !w@.contains(v@[k]),
        },
{
    let mut best: Option<u32> = None;
    let mut k: usize = 0;
    while k < v.len()
        invariant
            k <= v@.len(),
            match best {
                Some(n) => v@.contains(n) && w@.contains(n) && forall|j: int|
                    0 <= j < k && w@.contains(v@[j]) ==> v@[j] <= n,
                None => forall|j: int| 0 <= j < k ==> !w@.contains(v@[j]),
            },
        decreases v@.len() - k,
    {
        let x = v[k];
        let mut found = false;
        let mut q: usize = 0;
        while q < w.len()
            invariant
                q <= w@.len(),
                found == exists|j: int| 0 <= j < q && w@[j] == x,
            decreases w@.len() - q,
        {
            if w[q] == x {
                found = true;
            }
            q = q + 1;
        }
        if found {
            match best {
                Some(n) => {
                    if x > n {
                        best = Some(x);
                    }
                },
                None => {
                    best = Some(x);
                },
            }
        }
        k = k + 1;
    }
    best
}

/// The save number to read from a world directory holding files `names`:
/// the highest `N` with both `_main.N.fwl2` and its `_main.N.ok` marker,
/// since the game writes the marker last; without any, the highest `N` with
/// metadata, which is what an interrupted save leaves behind. `None` when
/// no metadata file is there at all.
pub fn pick_save_number(names: &Vec<String>) -> (r: Option<SavePick>)
    ensures
        r is None <==> forall|k: int|
            0 <= k < names@.len() ==> !(spec_save_number_of(#[trigger] names@[k]@) is Some && ends_with_spec(
                names@[k]@,
                ".fwl2"@,
            )),
        r matches Some(p) ==> {
            &&& save_with(names@, p.number, ".fwl2"@)
            &&& (exists|n: u32| #[trigger] complete_save(names@, n)) ==> complete_save(names@, p.number) && forall|n: u32|
                #[trigger] complete_save(names@, n) ==> n <= p.number
            &&& !(exists|n: u32| #[trigger] complete_save(names@, n)) ==> forall|n: u32|
                #[trigger] save_with(names@, n, ".fwl2"@) ==> n <= p.number
            &&& p.incomplete_newest <==> (!complete_save(names@, p.number) || exists|n: u32|
                #[trigger] save_with(names@, n, ".fwl2"@) && n > p.number)
        },
{
    proof {
        reveal_strlit(".fwl2");
        reveal_strlit(".ok");
    }
    let mut with_meta: Vec<u32> = Vec::new();
    let mut with_ok: Vec<u32> = Vec::new();
    let mut k: usize = 0;
    while k < names.len()
        invariant
            k <= names@.len(),
            with_meta@.len() == 0 <==> forall|j: int|
                0 <= j < k ==> !(spec_save_number_of(#[trigger] names@[j]@) is Some && ends_with_spec(
                    names@[j]@,
                    ".fwl2"@,
                )),
            forall|x: u32| with_meta@.contains(x) <==> #[trigger] save_with(names@.take(k as int), x, ".fwl2"@),
            forall|x: u32| with_ok@.contains(x) <==> #[trigger] save_with(names@.take(k as int), x, ".ok"@),
        decreases names@.len() - k,
    {
        proof {
            reveal_strlit(".fwl2");
            reveal_strlit(".ok");
        }
        let name = names[k].as_str();
        let ghost pre = names@.take(k as int);
        let ghost post = names@.take(k + 1);
        assert(post =~= pre.push(names@[k as int]));
        let ghost wm = with_meta@;
        let ghost wo = with_ok@;
        match save_number_of(name) {
            Some(n) => {
                if ends_with(name, ".fwl2") {
                    with_meta.push(n);
                    proof {
                        lemma_suffix_last(name@, ".fwl2"@);
                        if ends_with_spec(name@, ".ok"@) {
                            lemma_suffix_last(name@, ".ok"@);
                        }
                    }
                } else if ends_with(name, ".ok") {
                    with_ok.push(n);
                }
            },
            None => {},
        }
        proof {
            assert forall|x: u32| with_meta@.contains(x) <==> #[trigger] save_with(post, x, ".fwl2"@) by {
                if save_with(post, x, ".fwl2"@) {
                    let q = choose|q: int| 0 <= q < post.len() && #[trigger] spec_save_number_of(post[q]@) == Some(x)
                        && ends_with_spec(post[q]@, ".fwl2"@);
                    if q < pre.len() {
                        assert(pre[q] == post[q]);
                        assert(save_with(pre, x, ".fwl2"@));
                        assert(wm.contains(x));
                        let i = choose|i: int| 0 <= i < wm.len() && wm[i] == x;
                        assert(with_meta@[i] == x);
                    } else {
                        assert(with_meta@[with_meta@.len() - 1] == x);
                    }
                }
                if with_meta@.contains(x) {
                    let i = choose|i: int| 0 <= i < with_meta@.len() && with_meta@[i] == x;
                    if i < wm.len() {
                        assert(wm[i] == x);
                        assert(wm.contains(x));
                        assert(save_with(pre, x, ".fwl2"@));
                        let q = choose|q: int| 0 <= q < pre.len() && #[trigger] spec_save_number_of(pre[q]@) == Some(x)
                            && ends_with_spec(pre[q]@, ".fwl2"@);
                        assert(post[q] == pre[q]);
                    } else {
                        assert(post[k as int] == names@[k as int]);
                    }
                }
            }
            assert forall|x: u32| with_ok@.contains(x) <==> #[trigger] save_with(post, x, ".ok"@) by {
                if save_with(post, x, ".ok"@) {
                    let q = choose|q: int| 0 <= q < post.len() && #[trigger] spec_save_number_of(post[q]@) == Some(x)
                        && ends_with_spec(post[q]@, ".ok"@);
                    if q < pre.len() {
                        assert(pre[q] == post[q]);
                        assert(save_with(pre, x, ".ok"@));
                        assert(wo.contains(x));
                        let i = choose|i: int| 0 <= i < wo.len() && wo[i] == x;
                        assert(with_ok@[i] == x);
                    } else {
                        assert(post[q]@ == name@);
                        lemma_suffix_last(name@, ".ok"@);
                        if ends_with_spec(name@, ".fwl2"@) {
                            lemma_suffix_last(name@, ".fwl2"@);
                        }
                        assert(with_ok@[with_ok@.len() - 1] == x);
                    }
                }
                if with_ok@.contains(x) {
                    let i = choose|i: int| 0 <= i < with_ok@.len() && with_ok@[i] == x;
                    if i < wo.len() {
                        assert(wo[i] == x);
                        assert(wo.contains(x));
                        assert(save_with(pre, x, ".ok"@));
                        let q = choose|q: int| 0 <= q < pre.len() && #[trigger] spec_save_number_of(pre[q]@) == Some(x)
                            && ends_with_spec(pre[q]@, ".ok"@);
                        assert(post[q] == pre[q]);
                    } else {
                        assert(post[k as int] == names@[k as int]);
                    }
                }
            }
        }
        k = k + 1;
    }
    assert(names@.take(names@.len() as int) =~= names@);
    if with_meta.len() == 0 {
        return None;
    }
    let mut newest = with_meta[0];
    let mut q: usize = 1;
    while q < with_meta.len()
        invariant
            1 <= q <= with_meta@.len(),
            with_meta@.contains(newest),
            forall|j: int| 0 <= j < q ==> with_meta@[j] <= newest,
        decreases with_meta@.len() - q,
    {
        if with_meta[q] > newest {
            newest = with_meta[q];
        }
        q = q + 1;
    }
    assert(forall|n: u32| #[trigger] save_with(names@, n, ".fwl2"@) ==> n <= newest) by {
        assert forall|n: u32| #[trigger] save_with(names@, n, ".fwl2"@) implies n <= newest by {
            assert(with_meta@.contains(n));
            let i = choose|i: int| 0 <= i < with_meta@.len() && with_meta@[i] == n;
        }
    }
    assert(save_with(names@, newest, ".fwl2"@));
    match max_common(&with_ok, &with_meta) {
        Some(n) => {
            proof {
                assert(complete_save(names@, n));
                assert forall|m: u32| #[trigger] complete_save(names@, m) implies m <= n by {
                    assert(with_ok@.contains(m));
                    let i = choose|i: int| 0 <= i < with_ok@.len() && with_ok@[i] == m;
                    assert(with_meta@.contains(with_ok@[i]));
                }
            }
            Some(SavePick { number: n, incomplete_newest: n != newest })
        },
        None => {
            proof {
                assert forall|m: u32| !#[trigger] complete_save(names@, m) by {
                    if complete_save(names@, m) {
                        assert(with_ok@.contains(m));
                        let i = choose|i: int| 0 <= i < with_ok@.len() && with_ok@[i] == m;
                        assert(with_meta@.contains(with_ok@[i]));
                    }
                }
            }
            Some(SavePick { number: newest, incomplete_newest: true })
        },
    }
}

proof fn lemma_suffix_last(s: Seq<char>, suffix: Seq<char>)
    requires
        ends_with_spec(s, suffix),
        suffix.len() > 0,
    ensures
        s[s.len() - 1] == suffix[suffix.len() - 1],
{
    assert(s.skip(s.len() - suffix.len())[suffix.len() - 1] == s[s.len() - 1]);
}

/// Whether some name of `names` is `_main.<n>.<...>` ending in `ext`.
pub open spec fn save_with(names: Seq<String>, n: u32, ext: Seq<char>) -> bool {
    exists|k: int|
        0 <= k < names.len() && #[trigger] spec_save_number_of(names[k]@) == Some(n) && ends_with_spec(names[k]@, ext)
}

/// Whether save `n` of `names` is complete: it has both its metadata and its
/// `.ok` marker.
pub open spec fn complete_save(names: Seq<String>, n: u32) -> bool {
    save_with(names, n, ".fwl2"@) && save_with(names, n, ".ok"@)
}

/// Whether `name` ends with `suffix`.
pub open spec fn ends_with_spec(name: Seq<char>, suffix: Seq<char>) -> bool {
    suffix.len() <= name.len() && name.skip(name.len() - suffix.len()) == suffix
}

// ---------------------------------------------------------------- writing

/// Where a mutating command writes its result. Exactly one of the two must
/// be chosen so nothing is overwritten by accident.
pub struct OutputArgs {
    /// Write the result to this path instead of touching the input.
    pub output: Option<String>,
    /// Overwrite the input file(s), keeping a timestamped backup beside them.
    pub in_place: bool,
    /// With `in_place`: skip the backup.
    pub no_backup: bool,
}

/// A refusal to write.
#[derive(Debug, PartialEq, Eq, Structural)]
pub enum OutputError {
    /// Neither an output path nor in-place writing was chosen.
    NoDestination,
}

impl OutputError {
    pub fn message(&self) -> (s: &'static str)
        ensures
            s@ == "choose where to write the result: --output <PATH> or --in-place"@,
    {
        "choose where to write the result: --output <PATH> or --in-place"
    }
}

impl OutputArgs {
    pub fn validate(&self) -> (r: Result<(), OutputError>)
        ensures
            r is Err <==> (self.output is None && !self.in_place),
    {
        if self.output.is_none() && !self.in_place {
            return Err(OutputError::NoDestination);
        }
        Ok(())
    }
}

/// The last component of a path: after the last `/`.
pub open spec fn last_component(p: Seq<char>) -> Seq<char>
    decreases p.len(),
{
    if p.len() == 0 {
        p
    } else if p.last() == '/' {
        seq![]
    } else {
        last_component(p.drop_last()).push(p.last())
    }
}

/// A path without what trailing separators and trailing `.` components add
/// to it: the text `std::path::Path::parent` cuts a path back to. A lone
/// `/` or `.` stays.
pub open spec fn trim_end(p: Seq<char>) -> Seq<char>
    decreases p.len(),
{
    if p.len() > 1 && p.last() == '/' {
        trim_end(p.drop_last())
    } else if p.len() >= 2 && p.last() == '.' && p[p.len() - 2] == '/' {
        trim_end(p.drop_last())
    } else {
        p
    }
}

/// `target.with_file_name("<name>.<secs>.fejdit-bak")` in the way
/// `std::path::Path` reads `/`-separated paths: `name` is the file name, the
/// last component once trailing separators and `.` components are set
/// aside, and the result is its parent joined with the new name. A path
/// with no file name (empty, `/`, `.`, or ending in `..`) gets
/// `file.<secs>.fejdit-bak` joined onto all of it.
pub open spec fn spec_backup_name(target: Seq<char>, secs: u64) -> Seq<char> {
    let t = trim_end(target);
    let last = last_component(t);
    let has_name = last.len() > 0 && last != "."@ && last != ".."@;
    let name = if has_name {
        last
    } else {
        "file"@
    };
    let base = if has_name {
        trim_end(t.take(t.len() - last.len()))
    } else {
        target
    };
    let tail = name + seq!['.'] + decimal(secs as nat) + ".fejdit-bak"@;
    if base.len() == 0 || base.last() == '/' {
        base + tail
    } else {
        base + seq!['/'] + tail
    }
}

/// The length of `trim_end` of the first `n` characters of `cs`.
fn trim_end_len(cs: &Vec<char>, n: usize) -> (m: usize)
    requires
        n <= cs@.len(),
    ensures
        m <= n,
        cs@.take(m as int) == trim_end(cs@.take(n as int)),
{
    let mut k = n;
    while (k > 1 && cs[k - 1] == '/') || (k >= 2 && cs[k - 1] == '.' && cs[k - 2] == '/')
        invariant
            k <= n <= cs@.len(),
            trim_end(cs@.take(k as int)) == trim_end(cs@.take(n as int)),
        decreases k,
    {
        assert(cs@.take(k as int).drop_last() =~= cs@.take(k - 1));
        k = k - 1;
    }
    k
}

proof fn lemma_last_component(p: Seq<char>, i: int)
    requires
        0 <= i <= p.len(),
        i == 0 || p[i - 1] == '/',
        forall|j: int| i <= j < p.len() ==> p[j] != '/',
    ensures
        last_component(p) == p.skip(i),
    decreases p.len(),
{
    if p.len() > i {
        lemma_last_component(p.drop_last(), i);
        assert(p.drop_last().skip(i).push(p.last()) =~= p.skip(i));
    } else {
        assert(p.skip(i) =~= seq![]);
    }
}

/// Where `target` is moved aside to, given the time in seconds since the
/// epoch.
#[verifier::spinoff_prover]
#[verifier::rlimit(30)]
pub fn backup_name(target: &str, secs: u64) -> (r: String)
    ensures
        r@ == spec_backup_name(target@, secs),
{
    proof {
        reveal_strlit("..");
        reveal_strlit(".");
        reveal_strlit("file");
        reveal_strlit(".fejdit-bak");
        reveal_strlit("/");
    }
    let cs = chars_of(target);
    let ghost p = cs@;
    let m = trim_end_len(&cs, cs.len());
    assert(p.take(p.len() as int) =~= p);
    let ghost t = p.take(m as int);
    let mut i = m;
    while i > 0 && cs[i - 1] != '/'
        invariant
            i <= m <= cs@.len(),
            cs@ == p,
            forall|j: int| i <= j < m ==> cs@[j] != '/',
        decreases i,
    {
        i = i - 1;
    }
    proof {
        lemma_last_component(t, i as int);
        assert(t.skip(i as int) =~= p.subrange(i as int, m as int));
        assert(t.take(i as int) =~= p.take(i as int));
    }
    let comp = piece(target, i, m);
    let ghost last = last_component(t);
    assert(comp@ == last);
    assert(t.len() - last.len() == i);
    let dots = chars_of(comp.as_str());
    let has_name = !(dots.len() == 0 || (dots.len() == 1 && dots[0] == '.') || (dots.len() == 2 && dots[0] == '.'
        && dots[1] == '.'));
    proof {
        if dots@.len() == 1 && dots@[0] == '.' {
            assert(comp@ =~= "."@);
        }
        if dots@.len() == 2 && dots@[0] == '.' && dots@[1] == '.' {
            assert(comp@ =~= ".."@);
        }
        if comp@ =~= "."@ || comp@ =~= ".."@ {
            assert(!has_name);
        }
    }
    let ghost hn = last.len() > 0 && last != "."@ && last != ".."@;
    assert(has_name == hn);
    let mut s = if has_name {
        let b = trim_end_len(&cs, i);
        piece(target, 0, b)
    } else {
        String::from_str(target)
    };
    let ghost base = s@;
    assert(base == (if hn {
        trim_end(t.take(t.len() - last.len()))
    } else {
        target@
    }));
    let sc = chars_of(s.as_str());
    if sc.len() > 0 && sc[sc.len() - 1] != '/' {
        s.append("/");
    }
    let ghost joined = s@;
    assert(joined == (if base.len() == 0 || base.last() == '/' {
        base
    } else {
        base + seq!['/']
    }));
    let mut tail = if has_name {
        comp
    } else {
        String::from_str("file")
    };
    tail.append(".");
    push_decimal(&mut tail, secs);
    tail.append(".fejdit-bak");
    let ghost name = if hn {
        last
    } else {
        "file"@
    };
    assert(tail@ =~= name + seq!['.'] + decimal(secs as nat) + ".fejdit-bak"@);
    s.append(tail.as_str());
    proof {
        if base.len() == 0 || base.last() == '/' {
            assert(s@ =~= base + tail@);
        } else {
            assert(s@ =~= base + seq!['/'] + tail@);
        }
    }
    s
}


// ---------------------------------------------------------------- world names

/// Why a new world name was refused.
#[derive(Debug, PartialEq, Eq, Structural)]
pub enum WorldNameError {
    /// Nothing is left once the white space around it is trimmed.
    Empty,
    /// It holds `/` or `\`; the name becomes a file name.
    PathSeparator,
}

/// Whether `s` holds a path separator.
pub open spec fn has_separator(s: Seq<char>) -> bool {
    exists|i: int| 0 <= i < s.len() && (s[i] == '/' || s[i] == '\\')
}

/// A world name as given: trimmed, and refused when empty or when it holds
/// a path separator, since it also names the world's files.
pub fn checked_world_name(raw: &str) -> (r: Result<String, WorldNameError>)
    ensures
        match r {
            Ok(n) => n@ == trimmed(raw@) && n@.len() > 0 && !has_separator(n@),
            Err(WorldNameError::Empty) => trimmed(raw@).len() == 0,
            Err(WorldNameError::PathSeparator) => trimmed(raw@).len() > 0 && has_separator(trimmed(raw@)),
        },
{
    let name = trim(raw);
    let cs = chars_of(name.as_str());
    if cs.len() == 0 {
        return Err(WorldNameError::Empty);
    }
    let mut i: usize = 0;
    while i < cs.len()
        invariant
            cs@ == name@,
            name@ == trimmed(raw@),
            i <= cs@.len(),
            forall|j: int| 0 <= j < i ==> cs@[j] != '/' && cs@[j] != '\\',
        decreases cs@.len() - i,
    {
        if cs[i] == '/' || cs[i] == '\\' {
            assert(trimmed(raw@)[i as int] == cs@[i as int]);
            assert(has_separator(trimmed(raw@)));
            return Err(WorldNameError::PathSeparator);
        }
        i = i + 1;
    }
    Ok(name)
}


// ---------------------------------------------------------------- finding a world

/// The file name of path `p` as `std::path::Path::file_name` reads a
/// `/`-separated path: its last component once trailing separators and `.`
/// components are set aside, none for `/`, `.`, `..` or an empty path.
pub open spec fn file_name_of(p: Seq<char>) -> Option<Seq<char>> {
    let last = last_component(trim_end(p));
    if last.len() > 0 && last != "."@ && last != ".."@ {
        Some(last)
    } else {
        None
    }
}

/// The last `.` of `name` past its first character, where the extension
/// starts (`Path::extension`): none for `..` or a name with no such dot.
pub open spec fn ext_dot(name: Seq<char>) -> Option<int> {
    if name == ".."@ {
        None
    } else if exists|i: int| 0 < i < name.len() && name[i] == '.' {
        Some(choose|i: int| 0 < i < name.len() && name[i] == '.' && forall|j: int| i < j < name.len() ==> name[j] != '.')
    } else {
        None
    }
}

/// `Path::extension`: what follows the last dot of the file name.
pub open spec fn extension_of(p: Seq<char>) -> Option<Seq<char>> {
    match file_name_of(p) {
        None => None,
        Some(n) => match ext_dot(n) {
            None => None,
            Some(i) => Some(n.skip(i + 1)),
        },
    }
}

/// `Path::with_extension`: the path cut after the file name's stem, then
/// `.ext` when `ext` is not empty; unchanged when it has no file name.
pub open spec fn spec_with_extension(p: Seq<char>, ext: Seq<char>) -> Seq<char> {
    match file_name_of(p) {
        None => p,
        Some(n) => {
            let stem_end = (trim_end(p).len() - n.len()) + match ext_dot(n) {
                None => n.len() as int,
                Some(i) => i,
            };
            p.take(stem_end) + if ext.len() > 0 {
                seq!['.'] + ext
            } else {
                seq![]
            }
        },
    }
}

/// The directory a path sits in (`Path::parent`), `.` when that is empty.
pub open spec fn spec_parent_of(p: Seq<char>) -> Seq<char> {
    let t = trim_end(p);
    let base = trim_end(t.take(t.len() - last_component(t).len()));
    if base.len() == 0 {
        "."@
    } else {
        base
    }
}

/// Whether `c` is `l` or, an ASCII capital, the capital of `l`.
pub open spec fn same_letter(c: char, l: char) -> bool {
    c == l || ('A' <= c <= 'Z' && (c as u32) + 32 == (l as u32))
}

/// Whether `e` is `lit` (lower case) but for ASCII case.
pub open spec fn ext_is(e: Seq<char>, lit: Seq<char>) -> bool {
    e.len() == lit.len() && forall|i: int| 0 <= i < e.len() ==> same_letter(#[trigger] e[i], lit[i])
}

/// Whether `e` names a file of a chunked world directory.
pub open spec fn is_chunked_ext(e: Seq<char>) -> bool {
    ext_is(e, "fwl2"@) || ext_is(e, "db2"@) || ext_is(e, "chunks"@) || ext_is(e, "ok"@) || ext_is(e, "chunk"@)
}

/// Where a world named on the command line is.
#[derive(Debug, PartialEq, Eq)]
pub enum LocatePlan {
    /// The `.fwl` + `.db` pair with this stem.
    Pair { stem: String },
    /// A world directory, and the save number the name gave, if any.
    Directory { dir: String, save_number: Option<u32> },
}

/// A plan as plain values.
pub enum LocatePlanView {
    Pair { stem: Seq<char> },
    Directory { dir: Seq<char>, save_number: Option<u32> },
}

impl View for LocatePlan {
    type V = LocatePlanView;

    open spec fn view(&self) -> LocatePlanView {
        match self {
            LocatePlan::Pair { stem } => LocatePlanView::Pair { stem: stem@ },
            LocatePlan::Directory { dir, save_number } => LocatePlanView::Directory {
                dir: dir@,
                save_number: *save_number,
            },
        }
    }
}

/// Why nothing could be found.
#[derive(Debug, PartialEq, Eq, Structural)]
pub enum LocateError {
    /// Neither `<input>.fwl` nor a world directory is there.
    NoWorld,
}

/// Where the world named `input` is: a directory is a world directory; a
/// `.fwl` or `.db` names its pair; any file of a world directory
/// (`_main.<N>.fwl2`, `.db2`, `.chunks`, `.ok`, or a `.chunk`) names the
/// directory it sits in, and the save number when its name gives one;
/// anything else is the stem of a pair when `<input>.fwl` is a file.
/// `is_dir` says whether `input` is a directory, `fwl_exists` whether the
/// path [`with_extension`] gives for `fwl` is a file.
pub open spec fn spec_locate_plan(input: Seq<char>, is_dir: bool, fwl_exists: bool) -> Result<
    LocatePlanView,
    LocateError,
> {
    if is_dir {
        Ok(LocatePlanView::Directory { dir: input, save_number: None })
    } else {
        match extension_of(input) {
            Some(e) => if ext_is(e, "fwl"@) || ext_is(e, "db"@) {
                Ok(LocatePlanView::Pair { stem: spec_with_extension(input, seq![]) })
            } else if is_chunked_ext(e) {
                Ok(
                    LocatePlanView::Directory {
                        dir: spec_parent_of(input),
                        save_number: spec_save_number_of(file_name_of(input)->0),
                    },
                )
            } else if fwl_exists {
                Ok(LocatePlanView::Pair { stem: input })
            } else {
                Err(LocateError::NoWorld)
            },
            None => if fwl_exists {
                Ok(LocatePlanView::Pair { stem: input })
            } else {
                Err(LocateError::NoWorld)
            },
        }
    }
}

/// Where the file name of `cs` starts and ends in `cs`, when it has one.
#[verifier::spinoff_prover]
#[verifier::rlimit(30)]
fn file_name_range(cs: &Vec<char>) -> (r: Option<(usize, usize)>)
    ensures
        match r {
            Some((a, b)) => a < b <= cs@.len() && b == trim_end(cs@).len() && file_name_of(cs@) == Some(
                cs@.subrange(a as int, b as int),
            ),
            None => file_name_of(cs@) is None,
        },
{
    proof {
        reveal_strlit(".");
        reveal_strlit("..");
    }
    let m = trim_end_len(cs, cs.len());
    assert(cs@.take(cs@.len() as int) =~= cs@);
    let ghost t = cs@.take(m as int);
    let mut i = m;
    while i > 0 && cs[i - 1] != '/'
        invariant
            i <= m <= cs@.len(),
            forall|j: int| i <= j < m ==> cs@[j] != '/',
        decreases i,
    {
        i = i - 1;
    }
    proof {
        lemma_last_component(t, i as int);
        assert(t.skip(i as int) =~= cs@.subrange(i as int, m as int));
    }
    let n = m - i;
    if n == 0 {
        return None;
    }
    if n == 1 && cs[i] == '.' {
        assert(cs@.subrange(i as int, m as int) =~= "."@);
        return None;
    }
    if n == 2 && cs[i] == '.' && cs[i + 1] == '.' {
        assert(cs@.subrange(i as int, m as int) =~= ".."@);
        return None;
    }
    proof {
        let l = cs@.subrange(i as int, m as int);
        if l == "."@ {
            assert(l[0] == '.');
        }
        if l == ".."@ {
            assert(l[0] == '.' && l[1] == '.');
        }
    }
    Some((i, m))
}

/// Where the extension's dot is in the file name `cs[a..b]`.
#[verifier::spinoff_prover]
#[verifier::rlimit(30)]
fn ext_dot_at(cs: &Vec<char>, a: usize, b: usize) -> (r: Option<usize>)
    requires
        a < b <= cs@.len(),
        cs@.subrange(a as int, b as int) != ".."@,
    ensures
        match r {
            Some(d) => a < d < b && ext_dot(cs@.subrange(a as int, b as int)) == Some(d - a),
            None => ext_dot(cs@.subrange(a as int, b as int)) is None,
        },
{
    let ghost n = cs@.subrange(a as int, b as int);
    let mut d = b;
    while d > a + 1 && cs[d - 1] != '.'
        invariant
            a + 1 <= d <= b,
            b <= cs@.len(),
            forall|j: int| d <= j < b ==> cs@[j] != '.',
        decreases d,
    {
        d = d - 1;
    }
    if d > a + 1 {
        let k = d - 1;
        proof {
            let i = (k - a) as int;
            assert(n[i] == '.');
            assert forall|j: int| i < j < n.len() implies n[j] != '.' by {
                assert(n[j] == cs@[a + j]);
            }
            let c = choose|c: int| 0 < c < n.len() && n[c] == '.' && forall|j: int| c < j < n.len() ==> n[j] != '.';
            if c < i {
                assert(n[i] != '.');
            } else if c > i {
                assert(n[c] == cs@[a + c]);
            }
        }
        Some(k)
    } else {
        proof {
            assert forall|i: int| 0 < i < n.len() implies n[i] != '.' by {
                assert(n[i] == cs@[a + i]);
            }
        }
        None
    }
}

/// Whether `cs[a..b]` is `lit` (lower case) but for ASCII case.
fn ext_matches(cs: &Vec<char>, a: usize, b: usize, lit: &str) -> (r: bool)
    requires
        a <= b <= cs@.len(),
    ensures
        r == ext_is(cs@.subrange(a as int, b as int), lit@),
{
    let l = chars_of(lit);
    let ghost e = cs@.subrange(a as int, b as int);
    if b - a != l.len() {
        return false;
    }
    let mut i: usize = 0;
    while i < l.len()
        invariant
            i <= l@.len(),
            l@ == lit@,
            b - a == l@.len(),
            a <= b <= cs@.len(),
            e == cs@.subrange(a as int, b as int),
            forall|j: int| 0 <= j < i ==> same_letter(#[trigger] e[j], l@[j]),
        decreases l@.len() - i,
    {
        let c = cs[a + i];
        let lc = l[i];
        assert(e[i as int] == c);
        let same = c == lc || ('A' <= c && c <= 'Z' && (c as u32) + 32 == (lc as u32));
        if !same {
            return false;
        }
        i = i + 1;
    }
    true
}

/// `Path::with_extension` on a `/`-separated path.
#[verifier::spinoff_prover]
#[verifier::rlimit(30)]
pub fn with_extension(input: &str, ext: &str) -> (r: String)
    ensures
        r@ == spec_with_extension(input@, ext@),
{
    proof {
        reveal_strlit(".");
        reveal_strlit("..");
    }
    let cs = chars_of(input);
    match file_name_range(&cs) {
        None => String::from_str(input),
        Some((a, b)) => {
            proof {
                if cs@.subrange(a as int, b as int) == ".."@ {
                    assert(file_name_of(cs@) is None);
                }
            }
            let end = match ext_dot_at(&cs, a, b) {
                Some(d) => d,
                None => b,
            };
            let mut s = piece(input, 0, end);
            let ecs = chars_of(ext);
            if ecs.len() > 0 {
                s.append(".");
                s.append(ext);
            }
            proof {
                if ext@.len() > 0 {
                    assert(s@ =~= input@.take(end as int) + (seq!['.'] + ext@));
                } else {
                    assert(s@ =~= input@.take(end as int) + seq![]);
                }
            }
            s
        },
    }
}

/// Where the file name of `cs` starts, where its extension starts, and
/// where both end, when it has an extension.
#[verifier::spinoff_prover]
#[verifier::rlimit(30)]
fn extension_range(cs: &Vec<char>) -> (r: Option<(usize, usize, usize)>)
    ensures
        match r {
            Some((a, e, b)) => a < e <= b <= cs@.len() && file_name_of(cs@) == Some(cs@.subrange(a as int, b as int))
                && extension_of(cs@) == Some(cs@.subrange(e as int, b as int)),
            None => extension_of(cs@) is None,
        },
{
    proof {
        reveal_strlit("..");
    }
    match file_name_range(cs) {
        None => None,
        Some((a, b)) => {
            proof {
                if cs@.subrange(a as int, b as int) == ".."@ {
                    assert(file_name_of(cs@) is None);
                }
            }
            match ext_dot_at(cs, a, b) {
                None => None,
                Some(d) => {
                    assert(cs@.subrange(a as int, b as int).skip(d - a + 1) =~= cs@.subrange(d + 1, b as int));
                    Some((a, d + 1, b))
                },
            }
        },
    }
}

/// Work out where the world named `input` is, given whether `input` is a
/// directory and whether `with_extension(input, "fwl")` is a file.
#[verifier::spinoff_prover]
#[verifier::rlimit(30)]
pub fn locate_plan(input: &str, is_dir: bool, fwl_exists: bool) -> (r: Result<LocatePlan, LocateError>)
    ensures
        match r {
            Ok(p) => spec_locate_plan(input@, is_dir, fwl_exists) == Ok::<LocatePlanView, LocateError>(p@),
            Err(e) => spec_locate_plan(input@, is_dir, fwl_exists) == Err::<LocatePlanView, LocateError>(e),
        },
{
    proof {
        reveal_strlit(".");
        reveal_strlit("..");
        reveal_strlit("fwl");
        reveal_strlit("db");
    }
    if is_dir {
        return Ok(LocatePlan::Directory { dir: String::from_str(input), save_number: None });
    }
    let cs = chars_of(input);
    let ext_range = extension_range(&cs);
    match ext_range {
        Some((a, e0, b)) => {
            if ext_matches(&cs, e0, b, "fwl") || ext_matches(&cs, e0, b, "db") {
                let stem = with_extension(input, "");
                proof {
                    reveal_strlit("");
                    assert(""@ =~= Seq::<char>::empty());
                }
                return Ok(LocatePlan::Pair { stem });
            }
            if ext_matches(&cs, e0, b, "fwl2") || ext_matches(&cs, e0, b, "db2") || ext_matches(&cs, e0, b, "chunks")
                || ext_matches(&cs, e0, b, "ok") || ext_matches(&cs, e0, b, "chunk") {
                let name = piece(input, a, b);
                let number = save_number_of(name.as_str());
                return Ok(LocatePlan::Directory { dir: parent_dir(input), save_number: number });
            }
            if fwl_exists {
                Ok(LocatePlan::Pair { stem: String::from_str(input) })
            } else {
                Err(LocateError::NoWorld)
            }
        },
        None => {
            if fwl_exists {
                Ok(LocatePlan::Pair { stem: String::from_str(input) })
            } else {
                Err(LocateError::NoWorld)
            }
        },
    }
}

/// The directory `input` sits in (`Path::parent`), `.` when that is empty.
#[verifier::spinoff_prover]
#[verifier::rlimit(30)]
pub fn parent_dir(input: &str) -> (r: String)
    ensures
        r@ == spec_parent_of(input@),
{
    proof {
        reveal_strlit(".");
    }
    let cs = chars_of(input);
    let m = trim_end_len(&cs, cs.len());
    assert(cs@.take(cs@.len() as int) =~= cs@);
    let ghost t = cs@.take(m as int);
    let mut i = m;
    while i > 0 && cs[i - 1] != '/'
        invariant
            i <= m <= cs@.len(),
            forall|j: int| i <= j < m ==> cs@[j] != '/',
        decreases i,
    {
        i = i - 1;
    }
    proof {
        lemma_last_component(t, i as int);
        assert(t.skip(i as int) =~= cs@.subrange(i as int, m as int));
        assert(t.take(t.len() - last_component(t).len()) =~= cs@.take(i as int));
    }
    let b = trim_end_len(&cs, i);
    if b == 0 {
        String::from_str(".")
    } else {
        piece(input, 0, b)
    }
}

} // verus!
