//! The metadata region of a save image: song titles and versions, the
//! initialisation check and the block allocation table.
use vstd::prelude::*;

use vstd::string::StringSliceAdditionalSpecFns;
use vstd::utf8::{decode_utf8, valid_utf8};

use crate::{LsdjError, BLOCK_COUNT};

verus! {

/// Length of a song title.
pub const TITLE_LENGTH: usize = 8;

/// Number of song slots.
pub const SONG_SLOTS: usize = 0x20;

/// Length of the version table (one byte per song slot).
pub const VERSION_TABLE_LENGTH: usize = 0x20;

/// Length of the reserved, zero-filled bytes.
pub const EMPTY_BYTES_LENGTH: usize = 0x1e;

/// Length of the initialisation check.
pub const SRAM_INIT_CHK_LENGTH: usize = 2;

/// Length of the block allocation table as it is stored. Block `n` (1-based)
/// has the entry at index `n - 1`; only the first `BLOCK_COUNT` entries stand
/// for blocks, the last one fills the metadata region to its size.
pub const ALLOC_TABLE_LENGTH: usize = 0xbf;

/// Size of the metadata region.
pub const METADATA_SIZE: usize = 0x200;

/// Allocation table entry of a block that belongs to no song.
pub const FREE_BLOCK: u8 = 0xff;

/// A song title: at most eight characters, padded with zeros.
pub type LsdjTitle = [u8; TITLE_LENGTH];

/// The metadata of a save image (its bytes 0x8000 to 0x81ff).
#[derive(Debug)]
pub struct LsdjMetadata {
    /// The titles of the song slots.
    pub title_table: [LsdjTitle; SONG_SLOTS],
    /// The version byte of each song slot, counted up at every save.
    pub version_table: [u8; VERSION_TABLE_LENGTH],
    /// Reserved, filled with zeros.
    pub empty_bytes: [u8; EMPTY_BYTES_LENGTH],
    /// Set to "jk" by the tracker when it initialises its memory.
    pub sram_init_chk: [u8; SRAM_INIT_CHK_LENGTH],
    /// The index of the song that is loaded into working memory.
    pub working_song: [u8; 1],
    /// The block allocation table: the song that each block belongs to, or
    /// `FREE_BLOCK`.
    pub alloc_table: [u8; ALLOC_TABLE_LENGTH],
}

/// The value of the initialisation check: "jk".
pub open spec fn init_check() -> Seq<u8> {
    seq![0x6au8, 0x6bu8]
}

/// True iff no byte of `src` up to and including index `i` is zero.
pub open spec fn no_zero_through(src: Seq<u8>, i: int) -> bool {
    forall|j: int| 0 <= j <= i ==> src[j] != 0
}

/// `src` with every byte from its first zero byte on set to zero.
pub open spec fn stripped(src: Seq<u8>) -> Seq<u8> {
    Seq::new(src.len(), |i: int| if no_zero_through(src, i) { src[i] } else { 0u8 })
}

/// Removes what follows the first zero byte of a title: the tracker leaves
/// stray characters there when it saves a shorter title.
pub fn strip_title(src: LsdjTitle) -> (r: LsdjTitle)
    ensures
        r@ == stripped(src@),
{
    let mut out: LsdjTitle = [0u8; TITLE_LENGTH];
    let mut end_reached = false;
    let mut i: usize = 0;
    while i < TITLE_LENGTH
        invariant
            0 <= i <= TITLE_LENGTH,
            end_reached == !no_zero_through(src@, i - 1),
            forall|j: int| 0 <= j < i ==> out@[j] == stripped(src@)[j],
        decreases TITLE_LENGTH - i,
    {
        if src[i] != 0 && !end_reached {
            out[i] = src[i];
        } else {
            end_reached = true;
            out[i] = 0;
        }
        i = i + 1;
    }
    assert(out@ =~= stripped(src@));
    out
}

/// True iff `c` may stand in a title: A to Z, 0 to 9, space, or 'x' (the
/// tracker's lightning bolt).
pub open spec fn is_title_char(c: u8) -> bool {
    (0x41 <= c && c <= 0x5a) || (0x30 <= c && c <= 0x39) || c == 0x78 || c == 0x20
}

/// The title made of `b`, padded with zeros to eight bytes.
pub open spec fn padded_title(b: Seq<u8>) -> Seq<u8> {
    Seq::new(TITLE_LENGTH as nat, |i: int| if i < b.len() { b[i] } else { 0u8 })
}

/// True iff `b` can be made a title.
pub open spec fn valid_title(b: Seq<u8>) -> bool {
    b.len() <= TITLE_LENGTH && forall|i: int| 0 <= i < b.len() ==> is_title_char(b[i])
}

/// The title that `from` spells, or `BadTitle` where it is longer than
/// eight bytes or holds a character that titles cannot hold.
pub fn lsdjtitle_from(from: &str) -> (r: Result<LsdjTitle, LsdjError>)
    ensures
        valid_title(from.spec_bytes()) ==> (r matches Ok(t) && t@ == padded_title(from.spec_bytes())),
        !valid_title(from.spec_bytes()) ==> r == Err::<LsdjTitle, LsdjError>(LsdjError::BadTitle),
{
    let bytes = from.as_bytes();
    if bytes.len() > TITLE_LENGTH {
        return Err(LsdjError::BadTitle);
    }
    let mut title: LsdjTitle = [0u8; TITLE_LENGTH];
    let mut i: usize = 0;
    while i < bytes.len()
        invariant
            bytes@ == from.spec_bytes(),
            bytes@.len() <= TITLE_LENGTH,
            0 <= i <= bytes@.len(),
            forall|j: int| 0 <= j < i ==> is_title_char(bytes@[j]),
            forall|j: int| 0 <= j < i ==> title@[j] == bytes@[j],
            forall|j: int| bytes@.len() <= j < TITLE_LENGTH ==> title@[j] == 0,
        decreases bytes@.len() - i,
    {
        let c = bytes[i];
        if (0x41 <= c && c <= 0x5a) || (0x30 <= c && c <= 0x39) || c == 0x78 || c == 0x20 {
            title[i] = c;
        } else {
            return Err(LsdjError::BadTitle);
        }
        i = i + 1;
    }
    assert(title@ =~= padded_title(from.spec_bytes()));
    Ok(title)
}

/// How many entries of `t` equal `v`.
pub open spec fn count_eq(t: Seq<u8>, v: u8) -> nat
    decreases t.len(),
{
    if t.len() == 0 {
        0
    } else {
        count_eq(t.drop_last(), v) + if t.last() == v {
            1nat
        } else {
            0nat
        }
    }
}

/// How many entries of `t` are not `FREE_BLOCK`.
pub open spec fn count_used(t: Seq<u8>) -> nat
    decreases t.len(),
{
    if t.len() == 0 {
        0
    } else {
        count_used(t.drop_last()) + if t.last() != FREE_BLOCK {
            1nat
        } else {
            0nat
        }
    }
}

/// The entries of the allocation table `t` that stand for blocks.
pub open spec fn block_entries(t: Seq<u8>) -> Seq<u8> {
    t.take(BLOCK_COUNT as int)
}

/// True iff some entry of `t` is `song`.
pub open spec fn owns_block(t: Seq<u8>, song: u8) -> bool {
    exists|i: int| 0 <= i < t.len() && t[i] == song
}

proof fn lemma_count_eq_step(t: Seq<u8>, v: u8, k: int)
    requires
        0 <= k < t.len(),
    ensures
        count_eq(t.take(k + 1), v) == count_eq(t.take(k), v) + if t[k] == v {
            1nat
        } else {
            0nat
        },
{
    assert(t.take(k + 1).drop_last() =~= t.take(k));
}

pub(crate) proof fn lemma_count_used_step(t: Seq<u8>, k: int)
    requires
        0 <= k < t.len(),
    ensures
        count_used(t.take(k + 1)) == count_used(t.take(k)) + if t[k] != FREE_BLOCK {
            1nat
        } else {
            0nat
        },
{
    assert(t.take(k + 1).drop_last() =~= t.take(k));
}

/// A prefix holds no more entries equal to `v` than the whole.
proof fn lemma_count_eq_prefix(t: Seq<u8>, v: u8, k: int)
    requires
        0 <= k <= t.len(),
    ensures
        count_eq(t.take(k), v) <= count_eq(t, v),
    decreases t.len() - k,
{
    if k < t.len() {
        lemma_count_eq_step(t, v, k);
        lemma_count_eq_prefix(t, v, k + 1);
    } else {
        assert(t.take(k) =~= t);
    }
}

/// A table none of whose entries is free has every entry in use.
proof fn lemma_count_used_full(t: Seq<u8>)
    requires
        forall|i: int| 0 <= i < t.len() ==> t[i] != FREE_BLOCK,
    ensures
        count_used(t) == t.len(),
    decreases t.len(),
{
    if t.len() > 0 {
        lemma_count_used_full(t.drop_last());
    }
}

/// Allocation exhaustion: once blocks 1 to `BLOCK_COUNT` have all been
/// reserved, `next_empty_block` finds no free block and `blocks_used` counts
/// all of them.
pub proof fn lemma_allocation_exhaustion(m: LsdjMetadata)
    requires
        forall|i: int| 0 <= i < BLOCK_COUNT ==> m.alloc_table@[i] != FREE_BLOCK,
    ensures
        !(exists|i: int| 0 <= i < BLOCK_COUNT && m.alloc_table@[i] == FREE_BLOCK),
        count_used(block_entries(m.alloc_table@)) == BLOCK_COUNT,
{
    lemma_count_used_full(block_entries(m.alloc_table@));
}

/// The bytes of `titles`, one title after another.
pub open spec fn titles_bytes(titles: Seq<LsdjTitle>) -> Seq<u8>
    decreases titles.len(),
{
    if titles.len() == 0 {
        Seq::empty()
    } else {
        titles_bytes(titles.drop_last()) + titles.last()@
    }
}

/// The metadata region as it is laid out in a save file.
pub open spec fn metadata_bytes(m: LsdjMetadata) -> Seq<u8> {
    titles_bytes(m.title_table@) + m.version_table@ + m.empty_bytes@ + m.sram_init_chk@ + m.working_song@
        + m.alloc_table@
}

/// True iff `m` is what the first `METADATA_SIZE` bytes of `b` hold, laid
/// out as in a save file.
pub open spec fn metadata_read_from(m: LsdjMetadata, b: Seq<u8>) -> bool {
    &&& forall|i: int| 0 <= i < SONG_SLOTS ==> (#[trigger] m.title_table@[i])@ == b.subrange(
        i * TITLE_LENGTH,
        (i + 1) * TITLE_LENGTH,
    )
    &&& m.version_table@ == b.subrange(0x100, 0x120)
    &&& m.empty_bytes@ == b.subrange(0x120, 0x13e)
    &&& m.sram_init_chk@ == b.subrange(0x13e, 0x140)
    &&& m.working_song@ == b.subrange(0x140, 0x141)
    &&& m.alloc_table@ == b.subrange(0x141, 0x200)
}

/// Upper-case hexadecimal digits.
pub const HEX_DIGITS: [char; 16] = [
    '0', '1', '2', '3', '4', '5', '6', '7', '8', '9', 'A', 'B', 'C', 'D', 'E', 'F',
];

/// The hexadecimal digits, as a sequence.
pub open spec fn hex_digits() -> Seq<char> {
    seq!['0', '1', '2', '3', '4', '5', '6', '7', '8', '9', 'A', 'B', 'C', 'D', 'E', 'F']
}

/// `n` as two upper-case hexadecimal digits.
pub open spec fn hex2(n: u8) -> Seq<char> {
    seq![hex_digits()[n as int / 16], hex_digits()[n as int % 16]]
}

/// `n` in upper-case hexadecimal, without leading zeros.
pub open spec fn hex_short(n: u8) -> Seq<char> {
    if n < 16 {
        seq![hex_digits()[n as int]]
    } else {
        hex2(n)
    }
}

/// How a title is shown: its stripped bytes read as UTF-8, or nothing where
/// they are not UTF-8.
pub open spec fn title_text(title: Seq<u8>) -> Seq<char> {
    if valid_utf8(stripped(title)) {
        decode_utf8(stripped(title))
    } else {
        Seq::empty()
    }
}

/// The line of the song list for song slot `i`: index, title and version.
pub open spec fn song_line(m: LsdjMetadata, i: int) -> Seq<char> {
    hex2(i as u8) + seq![':', ' '] + title_text(m.title_table@[i]@) + seq!['.'] + hex_short(
        m.version_table@[i],
    ) + seq!['\n']
}

/// The song list from slot `i` on: a line per slot, up to the first slot
/// whose title starts with a zero byte.
pub open spec fn song_list(m: LsdjMetadata, i: int) -> Seq<char>
    decreases SONG_SLOTS - i,
{
    if i < 0 || i >= SONG_SLOTS || m.title_table@[i]@[0] == 0 {
        Seq::empty()
    } else {
        song_line(m, i) + song_list(m, i + 1)
    }
}

/// Relies on `String::push`: the character is appended.
#[verifier::external_body]
fn push_char(s: &mut String, c: char)
    ensures
        final(s)@ == old(s)@.push(c),
{
    s.push(c);
}

/// Relies on `std::str::from_utf8`: it accepts exactly the byte strings that
/// are valid UTF-8, and decodes them.
#[verifier::external_body]
fn utf8_text(b: &[u8]) -> (r: Option<String>)
    ensures
        r is Some == valid_utf8(b@),
        r matches Some(s) ==> s@ == decode_utf8(b@),
{
    match std::str::from_utf8(b) {
        Ok(s) => Some(String::from(s)),
        Err(_) => None,
    }
}

/// Appends `n` as two upper-case hexadecimal digits to `out`.
fn push_hex2(out: &mut String, n: u8)
    ensures
        final(out)@ == old(out)@ + hex2(n),
{
    assert(HEX_DIGITS@ == hex_digits());
    push_char(out, HEX_DIGITS[(n / 16) as usize]);
    push_char(out, HEX_DIGITS[(n % 16) as usize]);
    assert(out@ =~= old(out)@ + hex2(n));
}

/// True iff no song slot can be given out: every block is in use, or every
/// slot owns a block.
pub open spec fn songs_full(t: Seq<u8>) -> bool {
    count_used(block_entries(t)) == BLOCK_COUNT || forall|s: u8| (s as usize) < SONG_SLOTS ==> owns_block(
        block_entries(t),
        s,
    )
}

/// True iff `m` is the metadata of a fresh save: zero titles, versions and
/// working song, the initialisation check set, and every block free.
pub open spec fn is_blank(m: LsdjMetadata) -> bool {
    &&& forall|i: int, j: int| 0 <= i < SONG_SLOTS && 0 <= j < TITLE_LENGTH ==> m.title_table@[i]@[j] == 0
    &&& forall|i: int| 0 <= i < VERSION_TABLE_LENGTH ==> m.version_table@[i] == 0
    &&& forall|i: int| 0 <= i < EMPTY_BYTES_LENGTH ==> m.empty_bytes@[i] == 0
    &&& m.sram_init_chk@ == init_check()
    &&& m.working_song@[0] == 0
    &&& forall|i: int| 0 <= i < ALLOC_TABLE_LENGTH ==> m.alloc_table@[i] == FREE_BLOCK
}

/// True iff `a` and `b` agree everywhere but in the allocation table.
pub open spec fn same_but_alloc(a: LsdjMetadata, b: LsdjMetadata) -> bool {
    &&& a.title_table == b.title_table
    &&& a.version_table == b.version_table
    &&& a.empty_bytes == b.empty_bytes
    &&& a.sram_init_chk == b.sram_init_chk
    &&& a.working_song == b.working_song
}

impl LsdjMetadata {
    /// Metadata of a fresh save: zero titles, versions and working song, the
    /// initialisation check set, and every block free.
    pub fn empty() -> (r: LsdjMetadata)
        ensures
            is_blank(r),
    {
        let title: LsdjTitle = [0u8; TITLE_LENGTH];
        let r = LsdjMetadata {
            title_table: [title; SONG_SLOTS],
            version_table: [0u8; VERSION_TABLE_LENGTH],
            empty_bytes: [0u8; EMPTY_BYTES_LENGTH],
            sram_init_chk: [0x6au8, 0x6bu8],
            working_song: [0u8],
            alloc_table: [FREE_BLOCK; ALLOC_TABLE_LENGTH],
        };
        assert(r.sram_init_chk@ =~= init_check());
        r
    }

    /// The metadata read from the first `METADATA_SIZE` bytes of `bytes`
    /// (laid out as `bytes` writes it); `BadFormat` where `bytes` is shorter.
    pub fn from_bytes(bytes: &[u8]) -> (r: Result<LsdjMetadata, LsdjError>)
        ensures
            bytes@.len() < METADATA_SIZE ==> r == Err::<LsdjMetadata, LsdjError>(LsdjError::BadFormat),
            bytes@.len() >= METADATA_SIZE ==> (r matches Ok(m) && metadata_read_from(m, bytes@)),
    {
        if bytes.len() < METADATA_SIZE {
            return Err(LsdjError::BadFormat);
        }
        let mut m = LsdjMetadata::empty();
        let mut i: usize = 0;
        while i < SONG_SLOTS
            invariant
                0 <= i <= SONG_SLOTS,
                bytes@.len() >= METADATA_SIZE,
                forall|j: int| 0 <= j < i ==> (#[trigger] m.title_table@[j])@ == bytes@.subrange(
                    j * TITLE_LENGTH,
                    (j + 1) * TITLE_LENGTH,
                ),
            decreases SONG_SLOTS - i,
        {
            let mut title: LsdjTitle = [0u8; TITLE_LENGTH];
            crate::compression::copy_from(&mut title, bytes, i * TITLE_LENGTH);
            m.title_table[i] = title;
            i = i + 1;
        }
        crate::compression::copy_from(&mut m.version_table, bytes, 0x100);
        crate::compression::copy_from(&mut m.empty_bytes, bytes, 0x120);
        crate::compression::copy_from(&mut m.sram_init_chk, bytes, 0x13e);
        crate::compression::copy_from(&mut m.working_song, bytes, 0x140);
        crate::compression::copy_from(&mut m.alloc_table, bytes, 0x141);
        Ok(m)
    }

    /// True iff the initialisation check reads "jk".
    pub fn check_sram_init(&self) -> (r: bool)
        ensures
            r == (self.sram_init_chk@ == init_check()),
    {
        if self.sram_init_chk[0] == 0x6a && self.sram_init_chk[1] == 0x6b {
            assert(self.sram_init_chk@ =~= init_check());
            true
        } else {
            false
        }
    }

    /// True iff block `block_index` (1-based) belongs to a song; a number
    /// that names no block (0, or above `BLOCK_COUNT`) belongs to none.
    pub fn is_allocated(&self, block_index: usize) -> (r: bool)
        ensures
            r == (1 <= block_index <= BLOCK_COUNT && self.alloc_table@[block_index - 1] != FREE_BLOCK),
    {
        1 <= block_index && block_index <= BLOCK_COUNT && self.alloc_table[block_index - 1] != FREE_BLOCK
    }

    /// The lowest-numbered free block (1-based), or `None` where every block
    /// is taken.
    pub fn next_empty_block(&self) -> (r: Option<usize>)
        ensures
            r matches Some(b) ==> (1 <= b <= BLOCK_COUNT && self.alloc_table@[b - 1] == FREE_BLOCK
                && forall|j: int| 0 <= j < b - 1 ==> self.alloc_table@[j] != FREE_BLOCK),
            r is None ==> forall|j: int| 0 <= j < BLOCK_COUNT ==> self.alloc_table@[j] != FREE_BLOCK,
    {
        let mut block: usize = 1;
        while block <= BLOCK_COUNT
            invariant
                1 <= block <= BLOCK_COUNT + 1,
                forall|j: int| 0 <= j < block - 1 ==> self.alloc_table@[j] != FREE_BLOCK,
            decreases BLOCK_COUNT + 1 - block,
        {
            if !self.is_allocated(block) {
                return Some(block);
            }
            block = block + 1;
        }
        None
    }

    /// Gives block `block` (1-based) to song slot `song`; fails with
    /// `BlockTaken`, changing nothing, where the block is not free.
    pub fn reserve(&mut self, block: usize, song: u8) -> (r: Result<(), LsdjError>)
        requires
            1 <= block <= BLOCK_COUNT,
            (song as usize) < SONG_SLOTS,
        ensures
            same_but_alloc(*final(self), *old(self)),
            old(self).alloc_table@[block - 1] != FREE_BLOCK ==> r == Err::<(), LsdjError>(LsdjError::BlockTaken)
                && final(self).alloc_table == old(self).alloc_table,
            old(self).alloc_table@[block - 1] == FREE_BLOCK ==> r == Ok::<(), LsdjError>(())
                && final(self).alloc_table@ == old(self).alloc_table@.update(block - 1, song),
    {
        if self.alloc_table[block - 1] != FREE_BLOCK {
            return Err(LsdjError::BlockTaken);
        }
        self.alloc_table[block - 1] = song;
        Ok(())
    }

    /// Sets the title of song `song`, whatever title it had.
    pub fn title(&mut self, song: u8, title: LsdjTitle)
        requires
            (song as usize) < SONG_SLOTS,
        ensures
            final(self).title_table@ == old(self).title_table@.update(song as int, title),
            final(self).version_table == old(self).version_table,
            final(self).empty_bytes == old(self).empty_bytes,
            final(self).sram_init_chk == old(self).sram_init_chk,
            final(self).working_song == old(self).working_song,
            final(self).alloc_table == old(self).alloc_table,
    {
        self.title_table[song as usize] = title;
    }

    /// The number (1-based) of the block of song `song` that comes after
    /// `skip` others of its blocks in table order, or `None` where the song
    /// has no more than `skip` blocks.
    pub fn next_block_for(&self, song: u8, skip: usize) -> (r: Option<usize>)
        ensures
            r matches Some(b) ==> (1 <= b <= BLOCK_COUNT && self.alloc_table@[b - 1] == song
                && count_eq(self.alloc_table@.take(b - 1), song) == skip),
            r is None <==> count_eq(block_entries(self.alloc_table@), song) <= skip,
    {
        let ghost t = block_entries(self.alloc_table@);
        let mut left = skip;
        let mut i: usize = 0;
        while i < BLOCK_COUNT
            invariant
                t == block_entries(self.alloc_table@),
                0 <= i <= BLOCK_COUNT,
                count_eq(t.take(i as int), song) + left == skip,
            decreases BLOCK_COUNT - i,
        {
            proof {
                lemma_count_eq_step(t, song, i as int);
            }
            if self.alloc_table[i] == song {
                if left == 0 {
                    proof {
                        lemma_count_eq_prefix(t, song, i + 1);
                        assert(t.take(i as int) =~= self.alloc_table@.take(i as int));
                    }
                    return Some(i + 1);
                }
                left = left - 1;
            }
            i = i + 1;
        }
        assert(t.take(BLOCK_COUNT as int) =~= t);
        None
    }

    /// The number of blocks that belong to song `song`.
    pub fn size_of(&self, song: u8) -> (r: usize)
        ensures
            r == count_eq(block_entries(self.alloc_table@), song),
    {
        let ghost t = block_entries(self.alloc_table@);
        let mut size: usize = 0;
        let mut i: usize = 0;
        while i < BLOCK_COUNT
            invariant
                t == block_entries(self.alloc_table@),
                0 <= i <= BLOCK_COUNT,
                size == count_eq(t.take(i as int), song),
                size <= i,
            decreases BLOCK_COUNT - i,
        {
            proof {
                lemma_count_eq_step(t, song, i as int);
            }
            if self.alloc_table[i] == song {
                size = size + 1;
            }
            i = i + 1;
        }
        assert(t.take(BLOCK_COUNT as int) =~= t);
        size
    }

    /// The number of blocks that belong to a song.
    pub fn blocks_used(&self) -> (r: usize)
        ensures
            r == count_used(block_entries(self.alloc_table@)),
            r <= BLOCK_COUNT,
    {
        let ghost t = block_entries(self.alloc_table@);
        let mut used: usize = 0;
        let mut i: usize = 0;
        while i < BLOCK_COUNT
            invariant
                t == block_entries(self.alloc_table@),
                0 <= i <= BLOCK_COUNT,
                used == count_used(t.take(i as int)),
                used <= i,
            decreases BLOCK_COUNT - i,
        {
            proof {
                lemma_count_used_step(t, i as int);
            }
            if self.alloc_table[i] != FREE_BLOCK {
                used = used + 1;
            }
            i = i + 1;
        }
        assert(t.take(BLOCK_COUNT as int) =~= t);
        used
    }

    /// One line per song, `index: title.version`, index and version in
    /// hexadecimal, up to the first slot whose title is empty.
    pub fn list_songs(&self) -> (r: String)
        ensures
            r@ == song_list(*self, 0),
    {
        let mut out = String::new();
        let mut i: usize = 0;
        while i < SONG_SLOTS
            invariant
                0 <= i <= SONG_SLOTS,
                song_list(*self, 0) == out@ + song_list(*self, i as int),
            ensures
                song_list(*self, 0) == out@ + song_list(*self, i as int),
                i >= SONG_SLOTS || self.title_table@[i as int]@[0] == 0,
            decreases SONG_SLOTS - i,
        {
            if self.title_table[i][0] == 0 {
                break;
            }
            let ghost before = out@;
            push_hex2(&mut out, i as u8);
            push_char(&mut out, ':');
            push_char(&mut out, ' ');
            let stripped_title = strip_title(self.title_table[i]);
            match utf8_text(&stripped_title) {
                Some(text) => out.append(text.as_str()),
                None => {},
            }
            push_char(&mut out, '.');
            assert(HEX_DIGITS@ == hex_digits());
            let version = self.version_table[i];
            if version < 16 {
                push_char(&mut out, HEX_DIGITS[version as usize]);
            } else {
                push_hex2(&mut out, version);
            }
            push_char(&mut out, '\n');
            assert(out@ =~= before + song_line(*self, i as int));
            i = i + 1;
        }
        assert(song_list(*self, i as int) =~= Seq::<char>::empty());
        out
    }

    /// The metadata as it is laid out in a save file.
    pub fn bytes(&self) -> (r: Vec<u8>)
        ensures
            r@ == metadata_bytes(*self),
    {
        let mut out: Vec<u8> = Vec::new();
        let mut i: usize = 0;
        while i < SONG_SLOTS
            invariant
                0 <= i <= SONG_SLOTS,
                out@ == titles_bytes(self.title_table@.take(i as int)),
            decreases SONG_SLOTS - i,
        {
            crate::compression::append_bytes(&mut out, &self.title_table[i]);
            assert(self.title_table@.take(i + 1).drop_last() =~= self.title_table@.take(i as int));
            i = i + 1;
        }
        assert(self.title_table@.take(SONG_SLOTS as int) =~= self.title_table@);
        crate::compression::append_bytes(&mut out, &self.version_table);
        crate::compression::append_bytes(&mut out, &self.empty_bytes);
        crate::compression::append_bytes(&mut out, &self.sram_init_chk);
        crate::compression::append_bytes(&mut out, &self.working_song);
        crate::compression::append_bytes(&mut out, &self.alloc_table);
        out
    }

    /// True iff some block belongs to song `song`.
    fn claims(&self, song: u8) -> (r: bool)
        ensures
            r == owns_block(block_entries(self.alloc_table@), song),
    {
        let ghost t = block_entries(self.alloc_table@);
        let mut j: usize = 0;
        while j < BLOCK_COUNT
            invariant
                t == block_entries(self.alloc_table@),
                0 <= j <= BLOCK_COUNT,
                forall|k: int| 0 <= k < j ==> t[k] != song,
            decreases BLOCK_COUNT - j,
        {
            if self.alloc_table[j] == song {
                assert(t[j as int] == song);
                return true;
            }
            j = j + 1;
        }
        false
    }

    /// The lowest song slot that owns no block, or `None` where every block
    /// is in use or every slot owns a block.
    pub fn next_available_song(&self) -> (r: Option<u8>)
        ensures
            r is None <==> songs_full(self.alloc_table@),
            r matches Some(s) ==> ((s as usize) < SONG_SLOTS && !owns_block(block_entries(self.alloc_table@), s)
                && forall|p: u8| p < s ==> owns_block(block_entries(self.alloc_table@), p)),
    {
        let ghost t = block_entries(self.alloc_table@);
        if self.blocks_used() == BLOCK_COUNT {
            return None;
        }
        let mut song: u8 = 0;
        let mut round: usize = 0;
        while round < SONG_SLOTS
            invariant
                t == block_entries(self.alloc_table@),
                0 <= round <= SONG_SLOTS,
                song as usize <= round,
                forall|p: u8| p < song ==> owns_block(t, p),
                (song as usize) < round ==> !owns_block(t, song),
            decreases SONG_SLOTS - round,
        {
            if self.claims(song) {
                song = song + 1;
            }
            round = round + 1;
        }
        if song as usize >= SONG_SLOTS {
            assert forall|s: u8| (s as usize) < SONG_SLOTS implies owns_block(t, s) by {
                assert(s < song);
            }
            None
        } else {
            Some(song)
        }
    }
}

} // verus!
