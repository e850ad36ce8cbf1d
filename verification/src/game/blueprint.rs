//! Blueprints: captured groups of structures, their rotation, their file
//! record, and the coordinate rules of multi-tile strips.

use vstd::prelude::*;
use crate::game::items::ItemId;
use crate::hyperbolic::rewrite::push_char;
use crate::hyperbolic::tiling::digit_char;
use crate::game::world::{
    Direction, EntityId, StructureKind, WorldState, dir_index, dir_of, kind_footprint, item_of_kind,
    rotated_cell, rotated_footprint, lemma_direction_cycles, in_footprint, occupied_cells,
};
use crate::sim::machine::{ItemStack, MachinePool};
use crate::sim::storage::StoragePool;

verus! {

/// A single structure captured into a blueprint.
#[derive(Debug)]
pub struct BlueprintEntry {
    /// Relative grid position within the selection bounding box.
    pub offset: (i32, i32),
    /// What kind of structure this is.
    pub kind: StructureKind,
    /// Facing direction.
    pub direction: Direction,
    /// Stored contents (for storage buildings). Empty for non-storage.
    pub items: Vec<(ItemId, u16)>,
    /// Selected recipe index (for machines). `None` for non-machines or no recipe set.
    pub recipe: Option<usize>,
}

/// Two entries describe the same structure with the same contents.
pub open spec fn entry_eq(a: BlueprintEntry, b: BlueprintEntry) -> bool {
    &&& a.offset == b.offset
    &&& a.kind == b.kind
    &&& a.direction == b.direction
    &&& a.items@ == b.items@
    &&& a.recipe == b.recipe
}

/// Two entry lists agree entry by entry.
pub open spec fn entries_eq(a: Seq<BlueprintEntry>, b: Seq<BlueprintEntry>) -> bool {
    &&& a.len() == b.len()
    &&& forall|i: int| 0 <= i < a.len() ==> entry_eq(#[trigger] a[i], b[i])
}

fn copy_items(items: &Vec<(ItemId, u16)>) -> (r: Vec<(ItemId, u16)>)
    ensures
        r@ == items@,
{
    let mut out: Vec<(ItemId, u16)> = Vec::new();
    let mut i: usize = 0;
    while i < items.len()
        invariant
            i <= items.len(),
            out@ == items@.subrange(0, i as int),
        decreases items.len() - i,
    {
        out.push(items[i]);
        i = i + 1;
    }
    out
}

impl Clone for BlueprintEntry {
    fn clone(&self) -> (r: Self)
        ensures
            entry_eq(r, *self),
    {
        BlueprintEntry {
            offset: self.offset,
            kind: self.kind,
            direction: self.direction,
            items: copy_items(&self.items),
            recipe: self.recipe,
        }
    }
}

fn copy_entries(entries: &Vec<BlueprintEntry>) -> (r: Vec<BlueprintEntry>)
    ensures
        entries_eq(r@, entries@),
{
    let mut out: Vec<BlueprintEntry> = Vec::new();
    let mut i: usize = 0;
    while i < entries.len()
        invariant
            i <= entries.len(),
            out@.len() == i,
            forall|j: int| 0 <= j < i ==> entry_eq(#[trigger] out@[j], entries@[j]),
        decreases entries.len() - i,
    {
        out.push(entries[i].clone());
        i = i + 1;
    }
    out
}

/// A clipboard buffer holding captured structures.
#[derive(Debug)]
pub struct Clipboard {
    pub entries: Vec<BlueprintEntry>,
    pub width: i32,
    pub height: i32,
    /// The tiling q parameter when this was captured.
    pub tiling_q: u32,
}

impl Clone for Clipboard {
    fn clone(&self) -> (r: Self)
        ensures
            entries_eq(r.entries@, self.entries@),
            r.width == self.width,
            r.height == self.height,
            r.tiling_q == self.tiling_q,
    {
        Clipboard {
            entries: copy_entries(&self.entries),
            width: self.width,
            height: self.height,
            tiling_q: self.tiling_q,
        }
    }
}

/// Where an entry's origin goes when a box of height `h` is turned a quarter
/// clockwise: the turned footprint's top-left corner. `fh` is the height of the
/// entry's unturned footprint.
pub open spec fn rotated_offset(offset: (i32, i32), h: i32, fh: i32) -> (int, int) {
    (h - offset.1 - fh, offset.0 as int)
}

/// The quarter turn of an entry in a box of height `h`.
pub open spec fn is_rotated_entry(after: BlueprintEntry, before: BlueprintEntry, h: i32) -> bool {
    &&& (after.offset.0 as int, after.offset.1 as int) == rotated_offset(
        before.offset,
        h,
        kind_footprint(before.kind).1,
    )
    &&& after.direction == dir_of(dir_index(before.direction) + 1)
    &&& after.kind == before.kind
    &&& after.items@ == before.items@
    &&& after.recipe == before.recipe
}

/// `after` is `before` turned a quarter clockwise.
pub open spec fn is_rotation_of(after: Clipboard, before: Clipboard) -> bool {
    &&& after.entries@.len() == before.entries@.len()
    &&& forall|i: int|
        0 <= i < before.entries@.len() ==> is_rotated_entry(
            #[trigger] after.entries@[i],
            before.entries@[i],
            before.height,
        )
    &&& after.width == before.height
    &&& after.height == before.width
    &&& after.tiling_q == before.tiling_q
}

/// Turning every entry stays within `i32`.
pub open spec fn rotation_fits(c: Clipboard) -> bool {
    forall|i: int|
        0 <= i < c.entries@.len() ==> {
            let e = #[trigger] c.entries@[i];
            &&& i32::MIN <= c.height - 1 - e.offset.1 <= i32::MAX
            &&& i32::MIN <= c.height - e.offset.1 - kind_footprint(e.kind).1
            &&& c.height - 1 >= i32::MIN
        }
}

/// One quarter turn clockwise advances a facing by one step.
proof fn lemma_turn_facing(d: Direction, k: nat)
    ensures
        dir_index(dir_of(dir_index(d) + k)) == (dir_index(d) + k) % 4,
{
}

/// Four quarter turns give a clipboard back: the box keeps its size, and
/// every entry its offset, facing, kind, contents and recipe.
pub proof fn lemma_four_turns_restore(c0: Clipboard, c1: Clipboard, c2: Clipboard, c3: Clipboard, c4: Clipboard)
    requires
        is_rotation_of(c1, c0),
        is_rotation_of(c2, c1),
        is_rotation_of(c3, c2),
        is_rotation_of(c4, c3),
    ensures
        c4.width == c0.width,
        c4.height == c0.height,
        c4.tiling_q == c0.tiling_q,
        c4.entries@.len() == c0.entries@.len(),
        forall|i: int| 0 <= i < c0.entries@.len() ==> {
            let a = #[trigger] c4.entries@[i];
            let b = c0.entries@[i];
            &&& a.offset == b.offset
            &&& a.direction == b.direction
            &&& a.kind == b.kind
            &&& a.items@ == b.items@
            &&& a.recipe == b.recipe
        },
{
    assert forall|i: int| 0 <= i < c0.entries@.len() implies {
        let a = #[trigger] c4.entries@[i];
        let b = c0.entries@[i];
        &&& a.offset == b.offset
        &&& a.direction == b.direction
        &&& a.kind == b.kind
        &&& a.items@ == b.items@
        &&& a.recipe == b.recipe
    } by {
        let e0 = c0.entries@[i];
        let e1 = c1.entries@[i];
        let e2 = c2.entries@[i];
        let e3 = c3.entries@[i];
        let e4 = c4.entries@[i];
        assert(is_rotated_entry(e1, e0, c0.height));
        assert(is_rotated_entry(e2, e1, c1.height));
        assert(is_rotated_entry(e3, e2, c2.height));
        assert(is_rotated_entry(e4, e3, c3.height));
        lemma_turn_facing(e0.direction, 1);
        lemma_turn_facing(e1.direction, 1);
        lemma_turn_facing(e2.direction, 1);
        lemma_turn_facing(e3.direction, 1);
        assert(dir_index(e4.direction) == dir_index(e0.direction));
        assert(e4.offset.0 == e0.offset.0 && e4.offset.1 == e0.offset.1);
    }
}

impl Clipboard {
    /// Rotate the entire clipboard 90° clockwise.
    ///
    /// Each entry's offset is turned with the clockwise cell rotation of the
    /// bounding box, moved so the origin stays at the top-left of the turned
    /// footprint, and its direction turned one step clockwise. Width and
    /// height are swapped.
    pub fn rotate_cw(&mut self)
        requires
            rotation_fits(*old(self)),
        ensures
            is_rotation_of(*final(self), *old(self)),
    {
        let w = self.width;
        let h = self.height;
        let n = self.entries.len();
        let mut i: usize = 0;
        while i < n
            invariant
                n == self.entries@.len(),
                n == old(self).entries@.len(),
                i <= n,
                w == old(self).width,
                h == old(self).height,
                self.width == old(self).width,
                self.height == old(self).height,
                self.tiling_q == old(self).tiling_q,
                rotation_fits(*old(self)),
                forall|j: int| 0 <= j < i ==> is_rotated_entry(#[trigger] self.entries@[j], old(self).entries@[j], h),
                forall|j: int| i <= j < n ==> #[trigger] self.entries@[j] == old(self).entries@[j],
            decreases n - i,
        {
            let ghost e_old = old(self).entries@[i as int];
            assert(self.entries@[i as int] == e_old);
            let (x, y) = self.entries[i].offset;
            // Turn the grid offset a quarter clockwise within the bounding box.
            let (ox, oy) = Direction::East.rotate_cell(x, y, w, h);
            let (fw, fh) = self.entries[i].kind.footprint();
            let (rfw, _rfh) = Direction::East.rotate_footprint(fw, fh);
            // The turned footprint's top-left corner is not the turned image of
            // the old top-left corner; move the origin back onto it.
            let adjusted_ox = ox - (rfw - 1);
            let dir = self.entries[i].direction.rotate_cw();
            self.entries[i].offset = (adjusted_ox, oy);
            self.entries[i].direction = dir;
            assert(is_rotated_entry(self.entries@[i as int], e_old, h));
            i = i + 1;
        }
        self.width = h;
        self.height = w;
    }
}

/// Four quarter turns give back the clipboard's offsets, directions, box and
/// contents.
pub proof fn lemma_four_rotations_identity(c0: Clipboard, c1: Clipboard, c2: Clipboard, c3: Clipboard, c4: Clipboard)
    requires
        is_rotation_of(c1, c0),
        is_rotation_of(c2, c1),
        is_rotation_of(c3, c2),
        is_rotation_of(c4, c3),
    ensures
        entries_eq(c4.entries@, c0.entries@),
        c4.width == c0.width,
        c4.height == c0.height,
        c4.tiling_q == c0.tiling_q,
{
    assert forall|i: int| 0 <= i < c0.entries@.len() implies entry_eq(#[trigger] c4.entries@[i], c0.entries@[i]) by {
        let e0 = c0.entries@[i];
        let e1 = c1.entries@[i];
        let e2 = c2.entries@[i];
        let e3 = c3.entries@[i];
        assert(is_rotated_entry(e1, e0, c0.height));
        assert(is_rotated_entry(e2, e1, c1.height));
        assert(is_rotated_entry(e3, e2, c2.height));
        assert(is_rotated_entry(c4.entries@[i], e3, c3.height));
        lemma_direction_cycles(e0.direction);
    }
}

// ---------------------------------------------------------------------------
// Blueprint records
// ---------------------------------------------------------------------------

/// Current blueprint file format version.
pub const BLUEPRINT_VERSION: u32 = 1;

/// A blueprint as it is saved to disk.
#[derive(Debug)]
pub struct BlueprintFile {
    /// Format version for forward compatibility.
    pub version: u32,
    /// User-provided blueprint name.
    pub name: String,
    /// Unix epoch seconds when saved.
    pub timestamp: u64,
    /// The `q` parameter of the {4,q} tiling this was captured in.
    pub tiling_q: u32,
    /// Bounding box width in grid cells.
    pub width: u32,
    /// Bounding box height in grid cells.
    pub height: u32,
    /// The structure entries.
    pub entries: Vec<BlueprintEntry>,
}

/// `f` records clipboard `c` under `name`, with any timestamp.
pub open spec fn is_file_of(f: BlueprintFile, c: Clipboard, name: Seq<char>) -> bool {
    &&& f.version == BLUEPRINT_VERSION
    &&& f.name@ == name
    &&& f.tiling_q == c.tiling_q
    &&& f.width == c.width as u32
    &&& f.height == c.height as u32
    &&& entries_eq(f.entries@, c.entries@)
}

/// `c` is the clipboard that file `f` records.
pub open spec fn is_clipboard_of(c: Clipboard, f: BlueprintFile) -> bool {
    &&& c.tiling_q == f.tiling_q
    &&& c.width == f.width as i32
    &&& c.height == f.height as i32
    &&& entries_eq(c.entries@, f.entries@)
}

/// A reading of the system clock.
#[verifier::external_type_specification]
#[verifier::external_body]
pub struct ExSystemTime(std::time::SystemTime);

/// The error of a clock reading earlier than a reference time.
#[verifier::external_type_specification]
#[verifier::external_body]
pub struct ExSystemTimeError(std::time::SystemTimeError);

/// `SystemTime::now()`: the clock's reading at the call. Nothing is claimed
/// of it.
#[verifier::external_body]
fn clock_now() -> std::time::SystemTime {
    std::time::SystemTime::now()
}

/// `SystemTime::duration_since(UNIX_EPOCH)`: how long after the Unix epoch
/// the reading `t` is, or an error when it is earlier. Nothing is claimed of
/// which, nor of the duration.
#[verifier::external_body]
fn since_unix_epoch(t: &std::time::SystemTime) -> Result<std::time::Duration, std::time::SystemTimeError> {
    t.duration_since(std::time::UNIX_EPOCH)
}

/// `Duration::as_secs`: the whole seconds of `d`. Nothing is claimed of the
/// value, as the duration has no model here.
#[verifier::external_body]
fn whole_seconds(d: &std::time::Duration) -> u64 {
    d.as_secs()
}

/// The clock's reading as whole seconds since the Unix epoch, or 0 when it
/// reads earlier than the epoch.
fn unix_seconds_now() -> u64 {
    let t = clock_now();
    match since_unix_epoch(&t) {
        Ok(d) => whole_seconds(&d),
        Err(_) => 0,
    }
}

impl BlueprintFile {
    /// Record a clipboard under a name, stamped with the given time.
    pub fn from_clipboard_at(clipboard: &Clipboard, name: String, timestamp: u64) -> (r: Self)
        ensures
            is_file_of(r, *clipboard, name@),
            r.timestamp == timestamp,
    {
        BlueprintFile {
            version: BLUEPRINT_VERSION,
            name,
            timestamp,
            tiling_q: clipboard.tiling_q,
            width: clipboard.width as u32,
            height: clipboard.height as u32,
            entries: copy_entries(&clipboard.entries),
        }
    }

    /// Record a clipboard under a name, stamped with the current time.
    pub fn from_clipboard(clipboard: &Clipboard, name: String) -> (r: Self)
        ensures
            is_file_of(r, *clipboard, name@),
    {
        let now = unix_seconds_now();
        Self::from_clipboard_at(clipboard, name, now)
    }

    /// Convert back to a `Clipboard`.
    pub fn to_clipboard(&self) -> (r: Clipboard)
        ensures
            is_clipboard_of(r, *self),
    {
        Clipboard {
            entries: copy_entries(&self.entries),
            width: self.width as i32,
            height: self.height as i32,
            tiling_q: self.tiling_q,
        }
    }
}

proof fn lemma_i32_u32_roundtrip(v: i32)
    ensures
        (v as u32) as i32 == v,
{
    assert((v as u32) as i32 == v) by (bit_vector);
}

/// Saving a clipboard to a record and reading it back gives the clipboard
/// back: the same entries, box and tiling.
pub proof fn lemma_file_roundtrip(c: Clipboard, name: Seq<char>, f: BlueprintFile, back: Clipboard)
    requires
        is_file_of(f, c, name),
        is_clipboard_of(back, f),
    ensures
        entries_eq(back.entries@, c.entries@),
        back.width == c.width,
        back.height == c.height,
        back.tiling_q == c.tiling_q,
{
    lemma_i32_u32_roundtrip(c.width);
    lemma_i32_u32_roundtrip(c.height);
}

/// Why a loaded blueprint record is refused.
#[derive(Clone, Copy, Debug, PartialEq, Eq, Structural)]
pub enum BlueprintLoadError {
    /// The record's format version is newer than this build understands.
    NewerVersion { found: u32 },
    /// The record was captured in another {4,q} tiling.
    TilingMismatch { saved: u32, expected: u32 },
}

/// Accept a loaded record only if its version is supported and it was
/// captured in the expected tiling. The version is checked first.
pub fn validate_blueprint(file: &BlueprintFile, expected_q: u32) -> (r: Result<(), BlueprintLoadError>)
    ensures
        file.version > BLUEPRINT_VERSION ==> r == Err::<(), BlueprintLoadError>(
            BlueprintLoadError::NewerVersion { found: file.version },
        ),
        file.version <= BLUEPRINT_VERSION && file.tiling_q != expected_q ==> r == Err::<
            (),
            BlueprintLoadError,
        >(BlueprintLoadError::TilingMismatch { saved: file.tiling_q, expected: expected_q }),
        file.version <= BLUEPRINT_VERSION && file.tiling_q == expected_q ==> r is Ok,
{
    if file.version > BLUEPRINT_VERSION {
        return Err(BlueprintLoadError::NewerVersion { found: file.version });
    }
    if file.tiling_q != expected_q {
        return Err(BlueprintLoadError::TilingMismatch { saved: file.tiling_q, expected: expected_q });
    }
    Ok(())
}


// ---------------------------------------------------------------------------
// Blueprint names
// ---------------------------------------------------------------------------

/// Characters that may not appear in a file name: path separators and NUL.
pub open spec fn name_char_allowed(c: char) -> bool {
    c != '/' && c != '\\' && c != '\0'
}

/// Unicode `White_Space`, the characters that `str::trim` removes.
pub open spec fn is_white_space(c: char) -> bool {
    ||| ('\u{9}' <= c && c <= '\u{d}')
    ||| c == ' '
    ||| c == '\u{85}'
    ||| c == '\u{a0}'
    ||| c == '\u{1680}'
    ||| ('\u{2000}' <= c && c <= '\u{200a}')
    ||| c == '\u{2028}'
    ||| c == '\u{2029}'
    ||| c == '\u{202f}'
    ||| c == '\u{205f}'
    ||| c == '\u{3000}'
}

fn char_is_white_space(c: char) -> (r: bool)
    ensures
        r == is_white_space(c),
{
    ('\u{9}' <= c && c <= '\u{d}') || c == ' ' || c == '\u{85}' || c == '\u{a0}' || c == '\u{1680}'
        || ('\u{2000}' <= c && c <= '\u{200a}') || c == '\u{2028}' || c == '\u{2029}' || c
        == '\u{202f}' || c == '\u{205f}' || c == '\u{3000}'
}

/// `s` without its leading white space.
pub open spec fn trim_start(s: Seq<char>) -> Seq<char>
    decreases s.len(),
{
    if s.len() > 0 && is_white_space(s[0]) {
        trim_start(s.drop_first())
    } else {
        s
    }
}

/// `s` without its trailing white space.
pub open spec fn trim_end(s: Seq<char>) -> Seq<char>
    decreases s.len(),
{
    if s.len() > 0 && is_white_space(s.last()) {
        trim_end(s.drop_last())
    } else {
        s
    }
}

/// The predicate form of `name_char_allowed`.
pub open spec fn allowed_pred() -> spec_fn(char) -> bool {
    |c: char| name_char_allowed(c)
}

/// The first 100 allowed characters of `name`.
pub open spec fn kept_name_chars(name: Seq<char>) -> Seq<char> {
    let f = name.filter(allowed_pred());
    if f.len() <= 100 {
        f
    } else {
        f.take(100)
    }
}

/// The file-name stem for a blueprint name: separators removed, at most 100
/// characters kept, surrounding white space trimmed, and `unnamed` if
/// nothing is left.
pub open spec fn sanitized_name(name: Seq<char>) -> Seq<char> {
    let t = trim_end(trim_start(kept_name_chars(name)));
    if t.len() == 0 {
        "unnamed"@
    } else {
        t
    }
}

/// Sanitize a user-provided name for use as a filename.
///
/// Strips path separators and limits length.
pub fn sanitize_name(name: &str) -> (r: String)
    ensures
        r@ == sanitized_name(name@),
{
    broadcast use vstd::string::group_string_axioms;
    broadcast use vstd::seq_lib::group_seq_properties;

    let ghost pred = allowed_pred();
    let mut kept: Vec<char> = Vec::new();
    let ghost mut filtered: Seq<char> = Seq::empty();
    let ghost mut seen: Seq<char> = Seq::empty();
    for c in it: name.chars()
        invariant
            pred == allowed_pred(),
            seen == it.seq().take(it.index() as int),
            filtered == seen.filter(pred),
            kept@ == (if filtered.len() <= 100 { filtered } else { filtered.take(100) }),
    {
        proof {
            assert(it.seq().take(it.index() + 1) =~= seen.push(c));
            seen.lemma_filter_push(c, pred);
            let f2 = if name_char_allowed(c) { filtered.push(c) } else { filtered };
            if filtered.len() >= 100 {
                assert(f2.take(100) =~= filtered.take(100));
            }
            filtered = f2;
            seen = seen.push(c);
        }
        if c != '/' && c != '\\' && c != '\0' && kept.len() < 100 {
            kept.push(c);
        }
    }
    proof {
        assert(seen =~= name@);
        assert(kept@ == kept_name_chars(name@));
    }
    let n = kept.len();
    let mut st: usize = 0;
    assert(kept@.subrange(0, n as int) =~= kept@);
    while st < n && char_is_white_space(kept[st])
        invariant
            n == kept@.len(),
            st <= n,
            trim_start(kept@) == trim_start(kept@.subrange(st as int, n as int)),
        decreases n - st,
    {
        assert(kept@.subrange(st as int, n as int).drop_first() =~= kept@.subrange(st as int + 1, n as int));
        st = st + 1;
    }
    assert(trim_start(kept@) == kept@.subrange(st as int, n as int));
    let mut en: usize = n;
    while en > st && char_is_white_space(kept[en - 1])
        invariant
            n == kept@.len(),
            st <= en <= n,
            trim_end(kept@.subrange(st as int, n as int)) == trim_end(kept@.subrange(st as int, en as int)),
        decreases en - st,
    {
        assert(kept@.subrange(st as int, en as int).drop_last() =~= kept@.subrange(st as int, en as int - 1));
        en = en - 1;
    }
    assert(trim_end(trim_start(kept@)) == kept@.subrange(st as int, en as int));
    if st == en {
        let r = String::from_str("unnamed");
        proof {
            reveal_strlit("unnamed");
        }
        return r;
    }
    let mut out = String::new();
    let mut k: usize = st;
    while k < en
        invariant
            st <= k <= en,
            en <= kept@.len(),
            out@ == kept@.subrange(st as int, k as int),
        decreases en - k,
    {
        push_char(&mut out, kept[k]);
        assert(out@ =~= kept@.subrange(st as int, k as int + 1));
        k = k + 1;
    }
    out
}


// ---------------------------------------------------------------------------
// Material needed to paste
// ---------------------------------------------------------------------------

/// How many entries of `entries` are built from `item`.
pub open spec fn tally(entries: Seq<BlueprintEntry>, item: ItemId) -> nat
    decreases entries.len(),
{
    if entries.len() == 0 {
        0
    } else {
        tally(entries.drop_last(), item) + if item_of_kind(entries.last().kind) == Some(item) {
            1nat
        } else {
            0nat
        }
    }
}

proof fn lemma_tally_prefix(entries: Seq<BlueprintEntry>, item: ItemId, k: int)
    requires
        0 <= k <= entries.len(),
    ensures
        tally(entries.subrange(0, k), item) <= tally(entries, item),
    decreases entries.len() - k,
{
    if k < entries.len() {
        lemma_tally_prefix(entries, item, k + 1);
        assert(entries.subrange(0, k + 1).drop_last() =~= entries.subrange(0, k));
    } else {
        assert(entries.subrange(0, k) =~= entries);
    }
}

/// `r` lists each item that the entries are built from once, with its count.
pub open spec fn is_tally_of(r: Seq<(ItemId, u16)>, entries: Seq<BlueprintEntry>) -> bool {
    &&& forall|i: int, j: int| 0 <= i < j < r.len() ==> #[trigger] r[i].0 != #[trigger] r[j].0
    &&& forall|i: int| 0 <= i < r.len() ==> (#[trigger] r[i]).1 == tally(entries, r[i].0) && r[i].1 > 0
    &&& forall|item: ItemId| tally(entries, item) > 0 ==> exists|i: int| 0 <= i < r.len() && (#[trigger] r[i]).0 == item
}

/// Decimal digits of `n`, most significant first.
pub open spec fn decimal_text(n: nat) -> Seq<char>
    decreases n,
{
    if n < 10 {
        seq![digit_char(n)]
    } else {
        decimal_text(n / 10).push(digit_char(n % 10))
    }
}

/// The file name tried at the `attempt`-th try for a blueprint named
/// `base`: `{base}.blueprint` first, then `{base}_2.blueprint`,
/// `{base}_3.blueprint`, and so on.
pub open spec fn candidate_name(base: Seq<char>, attempt: nat) -> Seq<char> {
    if attempt <= 1 {
        base + ".blueprint"@
    } else {
        base + seq!['_'] + decimal_text(attempt) + ".blueprint"@
    }
}

fn push_decimal(s: &mut String, n: u32)
    ensures
        final(s)@ == old(s)@ + decimal_text(n as nat),
    decreases n,
{
    if n >= 10 {
        push_decimal(s, n / 10);
    }
    let d = (n % 10) as u8;
    let code: u8 = 48 + d;
    push_char(s, code as char);
    proof {
        if n >= 10 {
            assert(final(s)@ =~= old(s)@ + decimal_text(n as nat));
        } else {
            assert(final(s)@ =~= old(s)@ + decimal_text(n as nat));
        }
    }
}

/// The file name for a blueprint named `base` at the `attempt`-th try
/// (counting from 1) to find one that is not taken.
pub fn candidate_file_name(base: &str, attempt: u32) -> (r: String)
    ensures
        r@ == candidate_name(base@, attempt as nat),
{
    let mut s = base.to_owned();
    if attempt > 1 {
        push_char(&mut s, '_');
        push_decimal(&mut s, attempt);
    }
    let ghost before = s@;
    push_char(&mut s, '.');
    push_char(&mut s, 'b');
    push_char(&mut s, 'l');
    push_char(&mut s, 'u');
    push_char(&mut s, 'e');
    push_char(&mut s, 'p');
    push_char(&mut s, 'r');
    push_char(&mut s, 'i');
    push_char(&mut s, 'n');
    push_char(&mut s, 't');
    proof {
        reveal_strlit(".blueprint");
        assert(s@ =~= before + ".blueprint"@);
        if attempt > 1 {
            assert(before =~= base@ + seq!['_'] + decimal_text(attempt as nat));
        }
    }
    s
}

/// Tally the items required to paste all entries in a clipboard.
///
/// Each structure requires one of its corresponding `ItemId`; a structure
/// that no catalogue item builds needs nothing. Returns a consolidated list
/// of `(ItemId, count)`.
pub fn required_items(clipboard: &Clipboard) -> (r: Vec<(ItemId, u16)>)
    requires
        forall|item: ItemId| tally(clipboard.entries@, item) <= u16::MAX,
    ensures
        is_tally_of(r@, clipboard.entries@),
{
    let ghost entries = clipboard.entries@;
    let mut counts: Vec<(ItemId, u16)> = Vec::new();
    let mut k: usize = 0;
    while k < clipboard.entries.len()
        invariant
            entries == clipboard.entries@,
            k <= entries.len(),
            forall|item: ItemId| tally(entries, item) <= u16::MAX,
            is_tally_of(counts@, entries.subrange(0, k as int)),
        decreases entries.len() - k,
    {
        let ghost before = entries.subrange(0, k as int);
        let ghost after = entries.subrange(0, k as int + 1);
        assert(after.drop_last() =~= before);
        let item_opt = clipboard.entries[k].kind.to_item();
        assert(after.last() == entries[k as int]);
        match item_opt {
            None => {
                assert forall|item: ItemId| tally(after, item) == tally(before, item) by {}
            },
            Some(item) => {
                proof {
                    lemma_tally_prefix(entries, item, k as int + 1);
                }
                let mut j: usize = 0;
                let mut found = false;
                while j < counts.len()
                    invariant_except_break
                        j <= counts@.len(),
                        forall|q: int| 0 <= q < j ==> (#[trigger] counts@[q]).0 != item,
                        !found,
                    ensures
                        found ==> j < counts@.len() && counts@[j as int].0 == item,
                        !found ==> forall|q: int| 0 <= q < counts@.len() ==> (#[trigger] counts@[q]).0 != item,
                    decreases counts@.len() - j,
                {
                    if counts[j].0 == item {
                        found = true;
                        break;
                    }
                    j = j + 1;
                }
                let ghost old_counts = counts@;
                if found {
                    let c = counts[j].1;
                    counts.set(j, (item, c + 1));
                    assert forall|it2: ItemId| tally(after, it2) > 0 implies exists|i: int|
                        0 <= i < counts@.len() && (#[trigger] counts@[i]).0 == it2 by {
                        if it2 != item {
                            assert(tally(after, it2) == tally(before, it2));
                            assert(exists|i: int| 0 <= i < old_counts.len() && (#[trigger] old_counts[i]).0 == it2);
                            let w = choose|i: int| 0 <= i < old_counts.len() && (#[trigger] old_counts[i]).0 == it2;
                            assert(counts@[w].0 == it2);
                        } else {
                            assert(counts@[j as int].0 == it2);
                        }
                    }
                } else {
                    counts.push((item, 1));
                    assert(tally(before, item) == 0) by {
                        if tally(before, item) > 0 {
                            let w = choose|i: int| 0 <= i < old_counts.len() && (#[trigger] old_counts[i]).0 == item;
                            assert(old_counts[w].0 == item);
                        }
                    }
                    assert forall|it2: ItemId| tally(after, it2) > 0 implies exists|i: int|
                        0 <= i < counts@.len() && (#[trigger] counts@[i]).0 == it2 by {
                        if it2 != item {
                            assert(tally(after, it2) == tally(before, it2));
                            assert(exists|i: int| 0 <= i < old_counts.len() && (#[trigger] old_counts[i]).0 == it2);
                            let w = choose|i: int| 0 <= i < old_counts.len() && (#[trigger] old_counts[i]).0 == it2;
                            assert(counts@[w].0 == it2);
                        } else {
                            assert(counts@[old_counts.len() as int].0 == it2);
                        }
                    }
                }
            },
        }
        k = k + 1;
    }
    assert(entries.subrange(0, entries.len() as int) =~= entries);
    counts
}

// ---------------------------------------------------------------------------
// Virtual coordinates of multi-tile strips
// ---------------------------------------------------------------------------

/// The tile (counted from the anchor) that holds virtual coordinate `v`.
pub open spec fn tile_delta_of(v: int) -> int {
    (v + 32) / 64
}

/// Convert a virtual coordinate to a `(tile_delta, local)` pair.
///
/// Virtual coordinates extend beyond the [-32, 32] local range.
/// `tile_delta` counts how many tiles from the anchor (delta=0).
/// `local` is within [-32, 32).
pub fn virtual_to_tile_local(v: i32) -> (r: (i32, i32))
    requires
        v <= i32::MAX - 32,
    ensures
        r.0 == tile_delta_of(v as int),
        r.1 == v - r.0 * 64,
        -32 <= r.1 < 32,
{
    let shifted = v + 32;
    let tile_delta = match shifted.checked_div_euclid(64) {
        Some(q) => q,
        None => 0,
    };
    let local = v - tile_delta * 64;
    (tile_delta, local)
}

/// Convert `(tile_delta, local)` back to a virtual coordinate.
pub fn tile_local_to_virtual(tile_delta: i32, local: i32) -> (r: i32)
    requires
        i32::MIN <= tile_delta * 64 <= i32::MAX,
        i32::MIN <= tile_delta * 64 + local <= i32::MAX,
    ensures
        r == tile_delta * 64 + local,
{
    tile_delta * 64 + local
}

/// Splitting a virtual coordinate into tile and local parts and joining them
/// again gives the coordinate back; and the right edge of tile `k` is the
/// left edge of tile `k + 1`.
pub proof fn lemma_virtual_roundtrip(v: int, k: int)
    ensures
        tile_delta_of(v) * 64 + (v - tile_delta_of(v) * 64) == v,
        -32 <= v - tile_delta_of(v) * 64 < 32,
        k * 64 + 32 == (k + 1) * 64 + -32,
{
}

/// `|x| == 32 && |y| == 32`: a tile corner.
pub open spec fn vertex_cell(x: int, y: int) -> bool {
    (x == 32 || x == -32) && (y == 32 || y == -32)
}

/// Check whether a grid cell is at a tiling vertex (tile corner).
///
/// Tiling vertices occur where `|gx| == 32 AND |gy| == 32`.
pub fn is_vertex_cell(gx: i32, gy: i32) -> (r: bool)
    ensures
        r == vertex_cell(gx as int, gy as int),
{
    (gx == 32 || gx == -32) && (gy == 32 || gy == -32)
}

/// Some cell of the footprint of `kind` facing `direction` with origin
/// `(gx, gy)` is a tile corner.
pub open spec fn touches_vertex(gx: int, gy: int, kind: StructureKind, direction: Direction) -> bool {
    let fp = kind_footprint(kind);
    let r = rotated_footprint(direction, fp.0, fp.1);
    exists|dx: int, dy: int| 0 <= dx < r.0 && 0 <= dy < r.1 && #[trigger] vertex_cell(gx + dx, gy + dy)
}

/// Check whether any cell in a structure's footprint touches a vertex cell.
pub fn footprint_touches_vertex(gx: i32, gy: i32, kind: StructureKind, direction: Direction) -> (r: bool)
    requires
        gx + rotated_footprint(direction, kind_footprint(kind).0, kind_footprint(kind).1).0 <= i32::MAX,
        gy + rotated_footprint(direction, kind_footprint(kind).0, kind_footprint(kind).1).1 <= i32::MAX,
    ensures
        r == touches_vertex(gx as int, gy as int, kind, direction),
{
    let (fw, fh) = kind.footprint();
    let (rw, rh) = direction.rotate_footprint(fw, fh);
    let mut dy: i32 = 0;
    while dy < rh
        invariant
            (rw, rh) == rotated_footprint(direction, kind_footprint(kind).0, kind_footprint(kind).1),
            1 <= rw <= 3,
            1 <= rh <= 3,
            gx + rw <= i32::MAX,
            gy + rh <= i32::MAX,
            0 <= dy <= rh,
            forall|a: int, b: int| 0 <= a < rw && 0 <= b < dy ==> !#[trigger] vertex_cell(gx + a, gy + b),
        decreases rh - dy,
    {
        let mut dx: i32 = 0;
        while dx < rw
            invariant
                (rw, rh) == rotated_footprint(direction, kind_footprint(kind).0, kind_footprint(kind).1),
                1 <= rw <= 3,
                1 <= rh <= 3,
                gx + rw <= i32::MAX,
                gy + rh <= i32::MAX,
                0 <= dy < rh,
                0 <= dx <= rw,
                forall|a: int, b: int| 0 <= a < rw && 0 <= b < dy ==> !#[trigger] vertex_cell(gx + a, gy + b),
                forall|a: int| 0 <= a < dx ==> !#[trigger] vertex_cell(gx + a, gy + dy),
            decreases rw - dx,
        {
            if is_vertex_cell(gx + dx, gy + dy) {
                assert(vertex_cell(gx + dx, gy + dy));
                return true;
            }
            dx = dx + 1;
        }
        dy = dy + 1;
    }
    false
}

// ---------------------------------------------------------------------------
// Capturing structures from the world, and checking where a paste fits
// ---------------------------------------------------------------------------

/// A cell visited by a capture scan: its tile, its grid cell on that tile,
/// and its cell in the coordinates of the selection.
pub type ScanCell = (Seq<u8>, (i32, i32), (i32, i32));

/// Some cell of `cells` is occupied by `e`.
pub open spec fn occupies_any(w: WorldState, cells: Seq<ScanCell>, e: EntityId) -> bool {
    exists|j: int| 0 <= j < cells.len() && w.occupant(cells[j].0, (#[trigger] cells[j]).1) == Some(e)
}

/// Structure `e`, met at cell `c`, goes into a capture: `c` is its origin
/// and, when `skip_vertex`, its footprint touches no tile corner.
pub open spec fn kept_at(w: WorldState, e: EntityId, c: ScanCell, skip_vertex: bool) -> bool {
    match w.info(e) {
        Some(inf) => inf.1 == c.1 && !(skip_vertex && touches_vertex(c.1.0 as int, c.1.1 as int, inf.2, inf.3)),
        None => false,
    }
}

/// The structures a scan of `cells` captures, each with the selection cell
/// where it was met. A structure is met at the first scanned cell it
/// occupies and is captured only if it is kept there.
pub open spec fn captured(w: WorldState, cells: Seq<ScanCell>, skip_vertex: bool) -> Seq<(EntityId, (i32, i32))>
    decreases cells.len(),
{
    if cells.len() == 0 {
        Seq::empty()
    } else {
        let prev = captured(w, cells.drop_last(), skip_vertex);
        let c = cells.last();
        match w.occupant(c.0, c.1) {
            Some(e) => if !occupies_any(w, cells.drop_last(), e) && kept_at(w, e, c, skip_vertex) {
                prev.push((e, c.2))
            } else {
                prev
            },
            None => prev,
        }
    }
}

/// The non-empty stacks of `slots`, in slot order.
pub open spec fn stack_items(slots: Seq<ItemStack>) -> Seq<(ItemId, u16)>
    decreases slots.len(),
{
    if slots.len() == 0 {
        Seq::empty()
    } else {
        let prev = stack_items(slots.drop_last());
        if slots.last().count > 0 {
            prev.push((slots.last().item, slots.last().count))
        } else {
            prev
        }
    }
}

/// What a capture records as the contents of structure `e` of `kind`: the
/// non-empty stacks of a storage building, nothing for anything else.
pub open spec fn stored_items(sp: StoragePool, e: EntityId, kind: StructureKind) -> Seq<(ItemId, u16)> {
    if kind == StructureKind::Storage {
        match sp.index_spec(e) {
            Some(i) => stack_items(sp.states()[i].slots@),
            None => Seq::empty(),
        }
    } else {
        Seq::empty()
    }
}

/// The recipe selected on machine `e`, if it is a machine with one.
pub open spec fn machine_recipe(mp: MachinePool, e: EntityId) -> Option<usize> {
    match mp.index_spec(e) {
        Some(i) => mp.cold.recipe@[i],
        None => None,
    }
}

/// `entry` records structure `e`, met at selection cell `v`, relative to
/// the selection corner `base`.
pub open spec fn is_capture_entry(
    entry: BlueprintEntry,
    w: WorldState,
    mp: MachinePool,
    sp: StoragePool,
    e: EntityId,
    v: (i32, i32),
    base: (i32, i32),
) -> bool {
    match w.info(e) {
        Some(inf) => {
            &&& entry.offset.0 == v.0 - base.0
            &&& entry.offset.1 == v.1 - base.1
            &&& entry.kind == inf.2
            &&& entry.direction == inf.3
            &&& entry.items@ == stored_items(sp, e, inf.2)
            &&& entry.recipe == machine_recipe(mp, e)
        },
        None => false,
    }
}

/// `entries` record, in order, what a scan of `cells` captures.
pub open spec fn captures(
    entries: Seq<BlueprintEntry>,
    w: WorldState,
    mp: MachinePool,
    sp: StoragePool,
    cells: Seq<ScanCell>,
    skip_vertex: bool,
    base: (i32, i32),
) -> bool {
    let cap = captured(w, cells, skip_vertex);
    &&& entries.len() == cap.len()
    &&& forall|i: int| 0 <= i < cap.len() ==> is_capture_entry(#[trigger] entries[i], w, mp, sp, cap[i].0, cap[i].1, base)
}

/// Cells `x0..=x1` of row `y` of `tile`, left to right, each with its
/// selection cell shifted by `shift`.
pub open spec fn row_cells(tile: Seq<u8>, x0: int, x1: int, y: int, shift: (int, int)) -> Seq<ScanCell> {
    if x1 < x0 {
        Seq::empty()
    } else {
        Seq::new(
            (x1 - x0 + 1) as nat,
            |k: int| (tile, ((x0 + k) as i32, y as i32), ((x0 + k + shift.0) as i32, (y + shift.1) as i32)),
        )
    }
}

/// Rows `y0..=y1` of the cells `x0..=x1`, top to bottom.
pub open spec fn rect_cells(tile: Seq<u8>, x0: int, x1: int, y0: int, y1: int, shift: (int, int)) -> Seq<ScanCell>
    decreases y1 - y0 + 1,
{
    if y1 < y0 {
        Seq::empty()
    } else {
        rect_cells(tile, x0, x1, y0, y1 - 1, shift) + row_cells(tile, x0, x1, y1, shift)
    }
}

/// The state of a scan after the cells `done`: the entries so far and the
/// structures met so far.
pub open spec fn scan_state(
    entries: Seq<BlueprintEntry>,
    seen: Seq<EntityId>,
    w: WorldState,
    mp: MachinePool,
    sp: StoragePool,
    done: Seq<ScanCell>,
    skip_vertex: bool,
    base: (i32, i32),
) -> bool {
    &&& captures(entries, w, mp, sp, done, skip_vertex, base)
    &&& forall|e: EntityId| seen.contains(e) <==> occupies_any(w, done, e)
}

fn contains_id(ids: &Vec<EntityId>, e: EntityId) -> (r: bool)
    ensures
        r == ids@.contains(e),
{
    let mut k: usize = 0;
    while k < ids.len()
        invariant
            k <= ids@.len(),
            forall|q: int| 0 <= q < k ==> ids@[q] != e,
        decreases ids@.len() - k,
    {
        if ids[k] == e {
            return true;
        }
        k = k + 1;
    }
    false
}

/// The non-empty stacks of storage building `e`, nothing if it is unknown.
fn storage_items(sp: &StoragePool, e: EntityId) -> (r: Vec<(ItemId, u16)>)
    requires
        sp.wf(),
    ensures
        r@ == match sp.index_spec(e) {
            Some(i) => stack_items(sp.states()[i].slots@),
            None => Seq::empty(),
        },
{
    let mut out: Vec<(ItemId, u16)> = Vec::new();
    match sp.get(e) {
        Some(state) => {
            let mut k: usize = 0;
            while k < 20
                invariant
                    k <= 20,
                    state.slots@.len() == 20,
                    out@ == stack_items(state.slots@.subrange(0, k as int)),
                decreases 20 - k,
            {
                assert(state.slots@.subrange(0, k as int + 1).drop_last() =~= state.slots@.subrange(0, k as int));
                let s = state.slots[k];
                if s.count > 0 {
                    out.push((s.item, s.count));
                }
                k = k + 1;
            }
            assert(state.slots@.subrange(0, 20) =~= state.slots@);
        },
        None => {},
    }
    out
}

proof fn lemma_occupies_push(w: WorldState, done: Seq<ScanCell>, c: ScanCell, e: EntityId)
    ensures
        occupies_any(w, done.push(c), e) <==> (occupies_any(w, done, e) || w.occupant(c.0, c.1) == Some(e)),
{
    let d2 = done.push(c);
    if occupies_any(w, done, e) {
        let j = choose|j: int| 0 <= j < done.len() && w.occupant(done[j].0, (#[trigger] done[j]).1) == Some(e);
        assert(d2[j] == done[j]);
    }
    if w.occupant(c.0, c.1) == Some(e) {
        assert(d2[done.len() as int] == c);
    }
    if occupies_any(w, d2, e) {
        let j = choose|j: int| 0 <= j < d2.len() && w.occupant(d2[j].0, (#[trigger] d2[j]).1) == Some(e);
        if j < done.len() {
            assert(d2[j] == done[j]);
        }
    }
}

/// Scan one cell: record the structure met there if it is met for the
/// first time and kept.
#[verifier::rlimit(40)]
fn capture_cell(
    world: &WorldState,
    mp: &MachinePool,
    sp: &StoragePool,
    tile: &[u8],
    cell: (i32, i32),
    v: (i32, i32),
    base: (i32, i32),
    skip_vertex: bool,
    seen: &mut Vec<EntityId>,
    entries: &mut Vec<BlueprintEntry>,
    Ghost(done): Ghost<Seq<ScanCell>>,
)
    requires
        world.wf(),
        mp.wf(),
        sp.wf(),
        scan_state(old(entries)@, old(seen)@, *world, *mp, *sp, done, skip_vertex, base),
        i32::MIN <= v.0 - base.0 <= i32::MAX,
        i32::MIN <= v.1 - base.1 <= i32::MAX,
        skip_vertex ==> cell.0 + 3 <= i32::MAX && cell.1 + 3 <= i32::MAX,
    ensures
        scan_state(final(entries)@, final(seen)@, *world, *mp, *sp, done.push((tile@, cell, v)), skip_vertex, base),
{
    let ghost c: ScanCell = (tile@, cell, v);
    let ghost d2 = done.push(c);
    proof {
        assert(d2.drop_last() =~= done);
        assert(d2.last() == c);
        assert forall|e: EntityId| occupies_any(*world, d2, e) <==> (occupies_any(*world, done, e) || world.occupant(c.0, c.1) == Some(e)) by {
            lemma_occupies_push(*world, done, c, e);
        }
    }
    let e = match world.entity_at(tile, cell) {
        Some(e) => e,
        None => {
            return;
        },
    };
    if contains_id(seen, e) {
        return;
    }
    seen.push(e);
    proof {
        assert forall|x: EntityId| seen@.contains(x) <==> occupies_any(*world, d2, x) by {
            if x == e {
                assert(seen@[seen@.len() - 1] == e);
            } else {
                if seen@.contains(x) {
                    let j = choose|j: int| 0 <= j < seen@.len() && seen@[j] == x;
                    assert(old(seen)@[j] == x);
                }
                if old(seen)@.contains(x) {
                    let j = choose|j: int| 0 <= j < old(seen)@.len() && old(seen)@[j] == x;
                    assert(seen@[j] == x);
                }
            }
        }
    }
    if !world.is_origin(e, cell.0, cell.1) {
        return;
    }
    let kind = match world.kind(e) {
        Some(k) => k,
        None => {
            return;
        },
    };
    let direction = match world.direction(e) {
        Some(d) => d,
        None => Direction::North,
    };
    if skip_vertex && footprint_touches_vertex(cell.0, cell.1, kind, direction) {
        return;
    }
    let items = if kind == StructureKind::Storage {
        storage_items(sp, e)
    } else {
        Vec::new()
    };
    let recipe = match mp.recipe(e) {
        Some(r) => r,
        None => None,
    };
    let ghost before = entries@;
    entries.push(BlueprintEntry { offset: (v.0 - base.0, v.1 - base.1), kind, direction, items, recipe });
    proof {
        let cap = captured(*world, d2, skip_vertex);
        assert(cap == captured(*world, done, skip_vertex).push((e, v)));
        assert forall|i: int| 0 <= i < cap.len() implies is_capture_entry(#[trigger] entries@[i], *world, *mp, *sp, cap[i].0, cap[i].1, base) by {
            if i < before.len() {
                assert(entries@[i] == before[i]);
            }
        }
    }
}

/// Scan the rectangle `x0..=x1` by `y0..=y1` of `tile`, row by row.
#[verifier::rlimit(40)]
fn capture_rect(
    world: &WorldState,
    mp: &MachinePool,
    sp: &StoragePool,
    tile: &[u8],
    x0: i32,
    x1: i32,
    y0: i32,
    y1: i32,
    shift: (i32, i32),
    base: (i32, i32),
    skip_vertex: bool,
    seen: &mut Vec<EntityId>,
    entries: &mut Vec<BlueprintEntry>,
    Ghost(done): Ghost<Seq<ScanCell>>,
)
    requires
        world.wf(),
        mp.wf(),
        sp.wf(),
        scan_state(old(entries)@, old(seen)@, *world, *mp, *sp, done, skip_vertex, base),
        x0 <= x1,
        y0 <= y1,
        x1 - x0 < i32::MAX,
        y1 - y0 < i32::MAX,
        i32::MIN <= x0 + shift.0,
        x1 + shift.0 <= i32::MAX,
        i32::MIN <= y0 + shift.1,
        y1 + shift.1 <= i32::MAX,
        i32::MIN <= x0 + shift.0 - base.0,
        x1 + shift.0 - base.0 <= i32::MAX,
        i32::MIN <= y0 + shift.1 - base.1,
        y1 + shift.1 - base.1 <= i32::MAX,
        skip_vertex ==> x1 + 3 <= i32::MAX && y1 + 3 <= i32::MAX,
    ensures
        scan_state(
            final(entries)@,
            final(seen)@,
            *world,
            *mp,
            *sp,
            done + rect_cells(tile@, x0 as int, x1 as int, y0 as int, y1 as int, (shift.0 as int, shift.1 as int)),
            skip_vertex,
            base,
        ),
{
    let ghost sh = (shift.0 as int, shift.1 as int);
    let mut dy: i32 = 0;
    while dy <= y1 - y0
        invariant
            world.wf(),
            mp.wf(),
            sp.wf(),
            x0 <= x1,
            y0 <= y1,
            x1 - x0 < i32::MAX,
            y1 - y0 < i32::MAX,
            i32::MIN <= x0 + shift.0,
            x1 + shift.0 <= i32::MAX,
            i32::MIN <= y0 + shift.1,
            y1 + shift.1 <= i32::MAX,
            i32::MIN <= x0 + shift.0 - base.0,
            x1 + shift.0 - base.0 <= i32::MAX,
            i32::MIN <= y0 + shift.1 - base.1,
            y1 + shift.1 - base.1 <= i32::MAX,
            skip_vertex ==> x1 + 3 <= i32::MAX && y1 + 3 <= i32::MAX,
            sh == (shift.0 as int, shift.1 as int),
            0 <= dy <= y1 - y0 + 1,
            scan_state(entries@, seen@, *world, *mp, *sp, done + rect_cells(tile@, x0 as int, x1 as int, y0 as int, y0 + dy - 1, sh), skip_vertex, base),
        decreases y1 - y0 + 1 - dy,
    {
        let gy = y0 + dy;
        let ghost rows = done + rect_cells(tile@, x0 as int, x1 as int, y0 as int, gy - 1, sh);
        let mut dx: i32 = 0;
        assert(rows + row_cells(tile@, x0 as int, x0 - 1, gy as int, sh) =~= rows);
        while dx <= x1 - x0
            invariant
                world.wf(),
                mp.wf(),
                sp.wf(),
                x0 <= x1,
                x1 - x0 < i32::MAX,
                y0 <= gy <= y1,
                i32::MIN <= x0 + shift.0,
                x1 + shift.0 <= i32::MAX,
                i32::MIN <= y0 + shift.1,
                y1 + shift.1 <= i32::MAX,
                i32::MIN <= x0 + shift.0 - base.0,
                x1 + shift.0 - base.0 <= i32::MAX,
                i32::MIN <= y0 + shift.1 - base.1,
                y1 + shift.1 - base.1 <= i32::MAX,
                skip_vertex ==> x1 + 3 <= i32::MAX && y1 + 3 <= i32::MAX,
                sh == (shift.0 as int, shift.1 as int),
                0 <= dx <= x1 - x0 + 1,
                scan_state(entries@, seen@, *world, *mp, *sp, rows + row_cells(tile@, x0 as int, x0 + dx - 1, gy as int, sh), skip_vertex, base),
            decreases x1 - x0 + 1 - dx,
        {
            let gx = x0 + dx;
            let ghost prefix = rows + row_cells(tile@, x0 as int, x0 + dx - 1, gy as int, sh);
            capture_cell(world, mp, sp, tile, (gx, gy), (gx + shift.0, gy + shift.1), base, skip_vertex, seen, entries, Ghost(prefix));
            proof {
                let c: ScanCell = (tile@, (gx, gy), ((gx + shift.0) as i32, (gy + shift.1) as i32));
                assert(row_cells(tile@, x0 as int, x0 + dx, gy as int, sh) =~= row_cells(tile@, x0 as int, x0 + dx - 1, gy as int, sh).push(c));
                assert(rows + row_cells(tile@, x0 as int, x0 + dx, gy as int, sh) =~= prefix.push(c));
            }
            dx = dx + 1;
        }
        proof {
            assert(rect_cells(tile@, x0 as int, x1 as int, y0 as int, gy as int, sh) == rect_cells(tile@, x0 as int, x1 as int, y0 as int, gy - 1, sh) + row_cells(tile@, x0 as int, x1 as int, gy as int, sh));
            assert(done + rect_cells(tile@, x0 as int, x1 as int, y0 as int, gy as int, sh) =~= rows + row_cells(tile@, x0 as int, x1 as int, gy as int, sh));
        }
        dy = dy + 1;
    }
}

/// Capture all structures within a rectangle on a single tile.
///
/// `top_left` and `bottom_right` are inclusive grid coordinates, in either
/// order. Multi-cell entities are captured once at their origin offset. On a
/// tile with nothing on it the size is `bottom_right - top_left + 1` as given.
pub fn capture_region(
    world: &WorldState,
    machine_pool: &MachinePool,
    storage_pool: &StoragePool,
    tile_address: &[u8],
    top_left: (i32, i32),
    bottom_right: (i32, i32),
    tiling_q: u32,
) -> (r: Clipboard)
    requires
        world.wf(),
        machine_pool.wf(),
        storage_pool.wf(),
        -i32::MAX < bottom_right.0 - top_left.0 < i32::MAX,
        -i32::MAX < bottom_right.1 - top_left.1 < i32::MAX,
    ensures
        r.tiling_q == tiling_q,
        ({
            let x0 = if top_left.0 <= bottom_right.0 { top_left.0 } else { bottom_right.0 };
            let x1 = if top_left.0 <= bottom_right.0 { bottom_right.0 } else { top_left.0 };
            let y0 = if top_left.1 <= bottom_right.1 { top_left.1 } else { bottom_right.1 };
            let y1 = if top_left.1 <= bottom_right.1 { bottom_right.1 } else { top_left.1 };
            if exists|xy: (i32, i32)| #[trigger] world.occupant(tile_address@, xy) is Some {
                &&& r.width == x1 - x0 + 1
                &&& r.height == y1 - y0 + 1
                &&& captures(r.entries@, *world, *machine_pool, *storage_pool,
                        rect_cells(tile_address@, x0 as int, x1 as int, y0 as int, y1 as int, (0, 0)), false, (x0, y0))
            } else {
                &&& r.width == bottom_right.0 - top_left.0 + 1
                &&& r.height == bottom_right.1 - top_left.1 + 1
                &&& r.entries@.len() == 0
            }
        }),
{
    if !world.has_tile(tile_address) {
        return Clipboard {
            entries: Vec::new(),
            width: bottom_right.0 - top_left.0 + 1,
            height: bottom_right.1 - top_left.1 + 1,
            tiling_q,
        };
    }
    let min_x = if top_left.0 <= bottom_right.0 { top_left.0 } else { bottom_right.0 };
    let max_x = if top_left.0 <= bottom_right.0 { bottom_right.0 } else { top_left.0 };
    let min_y = if top_left.1 <= bottom_right.1 { top_left.1 } else { bottom_right.1 };
    let max_y = if top_left.1 <= bottom_right.1 { bottom_right.1 } else { top_left.1 };

    let mut entries: Vec<BlueprintEntry> = Vec::new();
    let mut seen: Vec<EntityId> = Vec::new();
    proof {
        assert(captured(*world, Seq::<ScanCell>::empty(), false) =~= Seq::<(EntityId, (i32, i32))>::empty());
        assert forall|e: EntityId| seen@.contains(e) <==> occupies_any(*world, Seq::<ScanCell>::empty(), e) by {}
    }
    capture_rect(world, machine_pool, storage_pool, tile_address, min_x, max_x, min_y, max_y, (0, 0), (min_x, min_y),
        false, &mut seen, &mut entries, Ghost(Seq::empty()));
    proof {
        assert(Seq::<ScanCell>::empty() + rect_cells(tile_address@, min_x as int, max_x as int, min_y as int, max_y as int, (0, 0))
            =~= rect_cells(tile_address@, min_x as int, max_x as int, min_y as int, max_y as int, (0, 0)));
    }
    Clipboard { entries, width: max_x - min_x + 1, height: max_y - min_y + 1, tiling_q }
}

proof fn lemma_captured_from_cells(w: WorldState, cells: Seq<ScanCell>, skip_vertex: bool)
    ensures
        forall|i: int| 0 <= i < captured(w, cells, skip_vertex).len() ==> exists|j: int| 0 <= j < cells.len()
            && w.occupant(cells[j].0, cells[j].1) == Some(#[trigger] captured(w, cells, skip_vertex)[i].0)
            && kept_at(w, captured(w, cells, skip_vertex)[i].0, cells[j], skip_vertex)
            && captured(w, cells, skip_vertex)[i].1 == cells[j].2,
    decreases cells.len(),
{
    if cells.len() > 0 {
        let pre = cells.drop_last();
        lemma_captured_from_cells(w, pre, skip_vertex);
        let cap = captured(w, cells, skip_vertex);
        let prev = captured(w, pre, skip_vertex);
        assert forall|i: int| 0 <= i < cap.len() implies exists|j: int| 0 <= j < cells.len()
            && w.occupant(cells[j].0, cells[j].1) == Some(#[trigger] cap[i].0)
            && kept_at(w, cap[i].0, cells[j], skip_vertex)
            && cap[i].1 == cells[j].2 by {
            if i < prev.len() {
                assert(cap[i] == prev[i]);
                let j = choose|j: int| 0 <= j < pre.len()
                    && w.occupant(pre[j].0, pre[j].1) == Some(#[trigger] prev[i].0)
                    && kept_at(w, prev[i].0, pre[j], skip_vertex)
                    && prev[i].1 == pre[j].2;
                assert(cells[j] == pre[j]);
            } else {
                let last = cells.len() - 1;
                assert(cells[last] == cells.last());
            }
        }
    }
}

/// A capture takes each structure at most once, however many of the
/// scanned cells it covers.
pub proof fn lemma_captured_once(w: WorldState, cells: Seq<ScanCell>, skip_vertex: bool)
    ensures
        forall|i: int, j: int| 0 <= i < j < captured(w, cells, skip_vertex).len()
            ==> (#[trigger] captured(w, cells, skip_vertex)[i]).0 != (#[trigger] captured(w, cells, skip_vertex)[j]).0,
    decreases cells.len(),
{
    if cells.len() > 0 {
        let pre = cells.drop_last();
        lemma_captured_once(w, pre, skip_vertex);
        lemma_captured_from_cells(w, pre, skip_vertex);
        let cap = captured(w, cells, skip_vertex);
        let prev = captured(w, pre, skip_vertex);
        assert forall|i: int, j: int| 0 <= i < j < cap.len() implies (#[trigger] cap[i]).0 != (#[trigger] cap[j]).0 by {
            if j < prev.len() {
                assert(cap[i] == prev[i] && cap[j] == prev[j]);
            } else {
                assert(cap[i] == prev[i]);
                let k = choose|k: int| 0 <= k < pre.len()
                    && w.occupant(pre[k].0, pre[k].1) == Some(#[trigger] prev[i].0)
                    && kept_at(w, prev[i].0, pre[k], skip_vertex)
                    && prev[i].1 == pre[k].2;
                if cap[i].0 == cap[j].0 {
                    assert(occupies_any(w, pre, cap[j].0));
                }
            }
        }
    }
}

proof fn lemma_rect_cells(tile: Seq<u8>, x0: i32, x1: i32, y0: i32, y1: int)
    requires
        y1 <= i32::MAX,
    ensures
        forall|j: int| 0 <= j < rect_cells(tile, x0 as int, x1 as int, y0 as int, y1, (0, 0)).len() ==> {
            let c = #[trigger] rect_cells(tile, x0 as int, x1 as int, y0 as int, y1, (0, 0))[j];
            &&& c.0 == tile
            &&& c.2 == c.1
            &&& x0 <= c.1.0 <= x1
            &&& y0 <= c.1.1 <= y1
        },
    decreases y1 - y0 + 1,
{
    if y1 >= y0 {
        lemma_rect_cells(tile, x0, x1, y0, y1 - 1);
        let prev = rect_cells(tile, x0 as int, x1 as int, y0 as int, y1 - 1, (0, 0));
        let row = row_cells(tile, x0 as int, x1 as int, y1, (0, 0));
        let all = rect_cells(tile, x0 as int, x1 as int, y0 as int, y1, (0, 0));
        assert(all == prev + row);
        assert forall|j: int| 0 <= j < all.len() implies {
            let c = #[trigger] all[j];
            &&& c.0 == tile
            &&& c.2 == c.1
            &&& x0 <= c.1.0 <= x1
            &&& y0 <= c.1.1 <= y1
        } by {
            if j < prev.len() {
                assert(all[j] == prev[j]);
            } else {
                assert(all[j] == row[j - prev.len()]);
            }
        }
    }
}

/// A region capture records each structure at its origin: the structure is
/// on the captured tile, its origin lies in the rectangle, and the recorded
/// cell is that origin, so the entry's offset is the origin less the corner.
pub proof fn lemma_region_capture_at_origins(w: WorldState, tile: Seq<u8>, x0: i32, x1: i32, y0: i32, y1: i32)
    ensures
        forall|i: int| 0 <= i < captured(w, rect_cells(tile, x0 as int, x1 as int, y0 as int, y1 as int, (0, 0)), false).len() ==> {
            let e = (#[trigger] captured(w, rect_cells(tile, x0 as int, x1 as int, y0 as int, y1 as int, (0, 0)), false)[i]);
            &&& w.info(e.0) matches Some(inf) && inf.1 == e.1
            &&& w.occupant(tile, e.1) == Some(e.0)
            &&& x0 <= e.1.0 <= x1
            &&& y0 <= e.1.1 <= y1
        },
{
    let cells = rect_cells(tile, x0 as int, x1 as int, y0 as int, y1 as int, (0, 0));
    lemma_rect_cells(tile, x0, x1, y0, y1 as int);
    lemma_captured_from_cells(w, cells, false);
    let cap = captured(w, cells, false);
    assert forall|i: int| 0 <= i < cap.len() implies {
        let e = #[trigger] cap[i];
        &&& w.info(e.0) matches Some(inf) && inf.1 == e.1
        &&& w.occupant(tile, e.1) == Some(e.0)
        &&& x0 <= e.1.0 <= x1
        &&& y0 <= e.1.1 <= y1
    } by {
        let j = choose|j: int| 0 <= j < cells.len()
            && w.occupant(cells[j].0, cells[j].1) == Some(#[trigger] cap[i].0)
            && kept_at(w, cap[i].0, cells[j], false)
            && cap[i].1 == cells[j].2;
        let c = cells[j];
        assert(c.0 == tile && c.2 == c.1);
    }
}

/// The cells a strip capture scans on the tile at strip offset `delta`: the
/// selection clipped to that tile along the strip axis, in the tile's own
/// cells, row by row, each with its selection cell.
pub open spec fn tile_scan(tile: Seq<u8>, delta: int, vx0: int, vx1: int, vy0: int, vy1: int, axis_x: bool) -> Seq<ScanCell> {
    let lo = delta * 64 - 32;
    let hi = delta * 64 + 32;
    if axis_x {
        let a = if vx0 < lo { lo } else { vx0 };
        let b = if vx1 < hi { vx1 } else { hi };
        if a > b {
            Seq::empty()
        } else {
            rect_cells(tile, a - delta * 64, b - delta * 64, vy0, vy1, (delta * 64, 0))
        }
    } else {
        let a = if vy0 < lo { lo } else { vy0 };
        let b = if vy1 < hi { vy1 } else { hi };
        if a > b {
            Seq::empty()
        } else {
            rect_cells(tile, vx0, vx1, a - delta * 64, b - delta * 64, (0, delta * 64))
        }
    }
}

/// The cells a strip capture scans, tile after tile.
pub open spec fn strip_cells(tiles: Seq<(Seq<u8>, i32)>, vx0: int, vx1: int, vy0: int, vy1: int, axis_x: bool) -> Seq<ScanCell>
    decreases tiles.len(),
{
    if tiles.len() == 0 {
        Seq::empty()
    } else {
        strip_cells(tiles.drop_last(), vx0, vx1, vy0, vy1, axis_x) + tile_scan(
            tiles.last().0,
            tiles.last().1 as int,
            vx0,
            vx1,
            vy0,
            vy1,
            axis_x,
        )
    }
}

/// The tile addresses and strip offsets, as plain values.
pub open spec fn tile_list(tiles: Seq<(&[u8], i32)>) -> Seq<(Seq<u8>, i32)> {
    Seq::new(tiles.len(), |k: int| (tiles[k].0@, tiles[k].1))
}

/// Capture structures across a multi-tile strip.
///
/// `tiles` is a list of `(tile_address, delta)` pairs where delta is the strip offset.
/// `top_left` and `bottom_right` are in virtual coordinates, in either order.
/// `strip_axis_x` indicates whether the strip extends along x (true) or y (false).
/// Structures whose footprint touches a tile corner are left out.
pub fn capture_strip(
    world: &WorldState,
    machine_pool: &MachinePool,
    storage_pool: &StoragePool,
    tiles: &[(&[u8], i32)],
    top_left: (i32, i32),
    bottom_right: (i32, i32),
    strip_axis_x: bool,
    tiling_q: u32,
) -> (r: Clipboard)
    requires
        world.wf(),
        machine_pool.wf(),
        storage_pool.wf(),
        -i32::MAX < bottom_right.0 - top_left.0 < i32::MAX,
        -i32::MAX < bottom_right.1 - top_left.1 < i32::MAX,
        forall|k: int| 0 <= k < tiles@.len() ==> i32::MIN + 32 <= (#[trigger] tiles@[k]).1 * 64 <= i32::MAX - 32,
        strip_axis_x ==> top_left.1 + 3 <= i32::MAX && bottom_right.1 + 3 <= i32::MAX,
        !strip_axis_x ==> top_left.0 + 3 <= i32::MAX && bottom_right.0 + 3 <= i32::MAX,
    ensures
        r.tiling_q == tiling_q,
        ({
            let x0 = if top_left.0 <= bottom_right.0 { top_left.0 } else { bottom_right.0 };
            let x1 = if top_left.0 <= bottom_right.0 { bottom_right.0 } else { top_left.0 };
            let y0 = if top_left.1 <= bottom_right.1 { top_left.1 } else { bottom_right.1 };
            let y1 = if top_left.1 <= bottom_right.1 { bottom_right.1 } else { top_left.1 };
            &&& r.width == x1 - x0 + 1
            &&& r.height == y1 - y0 + 1
            &&& captures(r.entries@, *world, *machine_pool, *storage_pool,
                    strip_cells(tile_list(tiles@), x0 as int, x1 as int, y0 as int, y1 as int, strip_axis_x), true, (x0, y0))
        }),
{
    let vmin_x = if top_left.0 <= bottom_right.0 { top_left.0 } else { bottom_right.0 };
    let vmax_x = if top_left.0 <= bottom_right.0 { bottom_right.0 } else { top_left.0 };
    let vmin_y = if top_left.1 <= bottom_right.1 { top_left.1 } else { bottom_right.1 };
    let vmax_y = if top_left.1 <= bottom_right.1 { bottom_right.1 } else { top_left.1 };
    let ghost all = tile_list(tiles@);

    let mut entries: Vec<BlueprintEntry> = Vec::new();
    let mut seen: Vec<EntityId> = Vec::new();
    proof {
        assert(captured(*world, Seq::<ScanCell>::empty(), true) =~= Seq::<(EntityId, (i32, i32))>::empty());
        assert forall|e: EntityId| seen@.contains(e) <==> occupies_any(*world, Seq::<ScanCell>::empty(), e) by {}
        assert(all.take(0) =~= Seq::<(Seq<u8>, i32)>::empty());
    }
    let mut k: usize = 0;
    while k < tiles.len()
        invariant
            world.wf(),
            machine_pool.wf(),
            storage_pool.wf(),
            all == tile_list(tiles@),
            k <= tiles@.len(),
            vmin_x <= vmax_x,
            vmin_y <= vmax_y,
            vmax_x - vmin_x < i32::MAX,
            vmax_y - vmin_y < i32::MAX,
            forall|q: int| 0 <= q < tiles@.len() ==> i32::MIN + 32 <= (#[trigger] tiles@[q]).1 * 64 <= i32::MAX - 32,
            strip_axis_x ==> vmax_y + 3 <= i32::MAX,
            !strip_axis_x ==> vmax_x + 3 <= i32::MAX,
            scan_state(entries@, seen@, *world, *machine_pool, *storage_pool,
                strip_cells(all.take(k as int), vmin_x as int, vmax_x as int, vmin_y as int, vmax_y as int, strip_axis_x),
                true, (vmin_x, vmin_y)),
        decreases tiles@.len() - k,
    {
        let (tile_addr, delta) = tiles[k];
        let ghost done = strip_cells(all.take(k as int), vmin_x as int, vmax_x as int, vmin_y as int, vmax_y as int, strip_axis_x);
        let ghost scan = tile_scan(tile_addr@, delta as int, vmin_x as int, vmax_x as int, vmin_y as int, vmax_y as int, strip_axis_x);
        proof {
            assert(tiles@[k as int].1 * 64 <= i32::MAX - 32);
            assert(all.take(k as int + 1).drop_last() =~= all.take(k as int));
            assert(all.take(k as int + 1).last() == (tile_addr@, delta));
        }
        let tile_vmin = tile_local_to_virtual(delta, -32);
        let tile_vmax = tile_local_to_virtual(delta, 32);
        let base = delta * 64;
        if strip_axis_x {
            let clipped_vmin = if vmin_x < tile_vmin { tile_vmin } else { vmin_x };
            let clipped_vmax = if vmax_x < tile_vmax { vmax_x } else { tile_vmax };
            if clipped_vmin <= clipped_vmax {
                let lmin = clipped_vmin - base;
                let lmax = clipped_vmax - base;
                capture_rect(world, machine_pool, storage_pool, tile_addr, lmin, lmax, vmin_y, vmax_y, (base, 0),
                    (vmin_x, vmin_y), true, &mut seen, &mut entries, Ghost(done));
            } else {
                proof {
                    assert(done + scan =~= done);
                }
            }
        } else {
            let clipped_vmin = if vmin_y < tile_vmin { tile_vmin } else { vmin_y };
            let clipped_vmax = if vmax_y < tile_vmax { vmax_y } else { tile_vmax };
            if clipped_vmin <= clipped_vmax {
                let lmin = clipped_vmin - base;
                let lmax = clipped_vmax - base;
                capture_rect(world, machine_pool, storage_pool, tile_addr, vmin_x, vmax_x, lmin, lmax, (0, base),
                    (vmin_x, vmin_y), true, &mut seen, &mut entries, Ghost(done));
            } else {
                proof {
                    assert(done + scan =~= done);
                }
            }
        }
        k = k + 1;
    }
    proof {
        assert(all.take(tiles@.len() as int) =~= all);
    }
    Clipboard { entries, width: vmax_x - vmin_x + 1, height: vmax_y - vmin_y + 1, tiling_q }
}

/// Structure entry `e` pasted with the clipboard's corner at `anchor` on
/// tile `tile` would cover only free cells.
pub open spec fn paste_fits(w: WorldState, tile: Seq<u8>, anchor: (i32, i32), e: BlueprintEntry) -> bool {
    let origin = ((anchor.0 + e.offset.0) as i32, (anchor.1 + e.offset.1) as i32);
    let fp = kind_footprint(e.kind);
    forall|c: (i32, i32)| in_footprint(origin, rotated_footprint(e.direction, fp.0, fp.1), c) ==> w.occupant(tile, c) is None
}

/// Check whether each clipboard entry can be pasted at `anchor` on the given tile.
///
/// Returns a `Vec` of `(index, passable)` for each entry in the clipboard.
/// An entry passes if all cells it would occupy are currently unoccupied.
pub fn can_paste(world: &WorldState, tile_address: &[u8], anchor: (i32, i32), clipboard: &Clipboard) -> (r: Vec<(usize, bool)>)
    requires
        world.wf(),
        forall|i: int| 0 <= i < clipboard.entries@.len() ==> {
            let o = (#[trigger] clipboard.entries@[i]).offset;
            &&& i32::MIN <= anchor.0 + o.0
            &&& anchor.0 + o.0 + 3 <= i32::MAX
            &&& i32::MIN <= anchor.1 + o.1
            &&& anchor.1 + o.1 + 3 <= i32::MAX
        },
    ensures
        r@.len() == clipboard.entries@.len(),
        forall|i: int| 0 <= i < r@.len() ==> (#[trigger] r@[i]).0 == i
            && r@[i].1 == paste_fits(*world, tile_address@, anchor, clipboard.entries@[i]),
{
    let mut out: Vec<(usize, bool)> = Vec::new();
    let mut i: usize = 0;
    while i < clipboard.entries.len()
        invariant
            world.wf(),
            i <= clipboard.entries@.len(),
            out@.len() == i,
            forall|q: int| 0 <= q < clipboard.entries@.len() ==> {
                let o = (#[trigger] clipboard.entries@[q]).offset;
                &&& i32::MIN <= anchor.0 + o.0
                &&& anchor.0 + o.0 + 3 <= i32::MAX
                &&& i32::MIN <= anchor.1 + o.1
                &&& anchor.1 + o.1 + 3 <= i32::MAX
            },
            forall|q: int| 0 <= q < i ==> (#[trigger] out@[q]).0 == q
                && out@[q].1 == paste_fits(*world, tile_address@, anchor, clipboard.entries@[q]),
        decreases clipboard.entries@.len() - i,
    {
        let entry = &clipboard.entries[i];
        let origin = (anchor.0 + entry.offset.0, anchor.1 + entry.offset.1);
        let (fw, fh) = entry.kind.footprint();
        let footprint = entry.direction.rotate_footprint(fw, fh);
        let cells = occupied_cells(origin, footprint);
        let mut passable = true;
        let mut j: usize = 0;
        while j < cells.len()
            invariant
                world.wf(),
                j <= cells@.len(),
                passable == forall|q: int| 0 <= q < j ==> world.occupant(tile_address@, #[trigger] cells@[q]) is None,
            decreases cells@.len() - j,
        {
            if world.entity_at(tile_address, cells[j]).is_some() {
                passable = false;
            }
            j = j + 1;
        }
        proof {
            assert(passable == paste_fits(*world, tile_address@, anchor, clipboard.entries@[i as int])) by {
                if passable {
                    assert forall|c: (i32, i32)| in_footprint(origin, footprint, c) implies world.occupant(tile_address@, c) is None by {
                        assert(cells@.contains(c));
                        let q = choose|q: int| 0 <= q < cells@.len() && cells@[q] == c;
                        assert(world.occupant(tile_address@, cells@[q]) is None);
                    }
                } else {
                    let q = choose|q: int| 0 <= q < cells@.len() && !(world.occupant(tile_address@, #[trigger] cells@[q]) is None);
                    assert(cells@.contains(cells@[q]));
                    assert(in_footprint(origin, footprint, cells@[q]));
                }
            }
        }
        out.push((i, passable));
        i = i + 1;
    }
    out
}

} // verus!
