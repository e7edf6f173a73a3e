//! A whole save image: working memory, metadata and the block table, and the
//! import and export of songs.
use vstd::prelude::*;

use crate::compression::{
    block_bytes, chain_fits, encode_chain, find_pointer, holds_chain, LsdjBlock, LsdjSram,
};
use crate::metadata::{
    block_entries, count_used, is_blank, lemma_count_used_step, metadata_bytes, metadata_read_from,
    owns_block, songs_full, LsdjMetadata, LsdjTitle, ALLOC_TABLE_LENGTH, FREE_BLOCK, SONG_SLOTS,
};
use crate::{LsdjError, BLOCK_COUNT, BLOCK_SIZE, SRAM_SIZE};

verus! {

/// Where the block table starts in a save file.
pub const BLOCK_ADDRESS: usize = 0x8200;

/// All parts of a save image.
#[derive(Debug)]
pub struct LsdjSave {
    /// The working memory.
    pub sram: LsdjSram,
    /// The metadata region.
    pub metadata: LsdjMetadata,
    /// The block table, block `n` (1-based) at index `n - 1`.
    pub blocks: [LsdjBlock; BLOCK_COUNT],
}

/// The bytes of the blocks among the first `n` of `blocks` whose allocation
/// table entry in `t` is `song`, in table order.
pub open spec fn song_bytes(t: Seq<u8>, blocks: Seq<LsdjBlock>, song: u8, n: int) -> Seq<u8>
    decreases n,
{
    if n <= 0 {
        Seq::empty()
    } else {
        song_bytes(t, blocks, song, n - 1) + if t[n - 1] == song {
            blocks[n - 1].data@
        } else {
            Seq::empty()
        }
    }
}

/// The indices below `n` of the free entries of `t`, ascending.
pub open spec fn free_slots(t: Seq<u8>, n: int) -> Seq<usize>
    decreases n,
{
    if n <= 0 {
        Seq::empty()
    } else {
        free_slots(t, n - 1) + if t[n - 1] == FREE_BLOCK {
            seq![(n - 1) as usize]
        } else {
            Seq::empty()
        }
    }
}

/// The `k`-th block-sized piece of `bytes`.
pub open spec fn chunk(bytes: Seq<u8>, k: int) -> Seq<u8> {
    bytes.subrange(k * BLOCK_SIZE, (k + 1) * BLOCK_SIZE)
}

/// The error of the first of the pieces `k` to `n - 2` of `bytes` whose chain
/// pointer cannot be redirected, if there is one.
pub open spec fn patch_error(bytes: Seq<u8>, n: int, k: int) -> Option<LsdjError>
    decreases n - k,
{
    if k >= n - 1 {
        None
    } else {
        match find_pointer(chunk(bytes, k), 0) {
            Err(e) => Some(e),
            Ok(_) => patch_error(bytes, n, k + 1),
        }
    }
}

/// Piece `k` of `n` as it is written to the block table: every piece but the
/// last has its chain pointer redirected to the block (1-based) that
/// `slots` gives to the next piece.
pub open spec fn patched(bytes: Seq<u8>, slots: Seq<usize>, n: int, k: int) -> Seq<u8> {
    if k < n - 1 {
        chunk(bytes, k).update(find_pointer(chunk(bytes, k), 0)->Ok_0, (slots[k + 1] + 1) as u8)
    } else {
        chunk(bytes, k)
    }
}

proof fn lemma_free_slots(t: Seq<u8>, n: int)
    requires
        0 <= n <= t.len(),
        t.len() <= ALLOC_TABLE_LENGTH,
    ensures
        forall|k: int| 0 <= k < free_slots(t, n).len() ==> (free_slots(t, n)[k] as int) < n
            && t[free_slots(t, n)[k] as int] == FREE_BLOCK,
        forall|a: int, b: int| 0 <= a < b < free_slots(t, n).len() ==> free_slots(t, n)[a] < free_slots(t, n)[b],
        forall|i: int| 0 <= i < n && t[i] == FREE_BLOCK ==> free_slots(t, n).contains(i as usize),
        free_slots(t, n).len() <= n,
    decreases n,
{
    if n > 0 {
        lemma_free_slots(t, n - 1);
        let prev = free_slots(t, n - 1);
        let cur = free_slots(t, n);
        assert forall|k: int| 0 <= k < cur.len() implies (cur[k] as int) < n && t[cur[k] as int] == FREE_BLOCK by {
            if k < prev.len() {
                assert(cur[k] == prev[k]);
            } else {
                assert(cur[k] == (n - 1) as usize);
            }
        }
        assert forall|a: int, b: int| 0 <= a < b < cur.len() implies cur[a] < cur[b] by {
            assert(cur[a] == prev[a]);
            if b < prev.len() {
                assert(cur[b] == prev[b]);
            } else {
                assert(cur[b] == (n - 1) as usize);
            }
        }
        assert forall|i: int| 0 <= i < n && t[i] == FREE_BLOCK implies free_slots(t, n).contains(i as usize) by {
            if i < n - 1 {
                let k = choose|k: int| 0 <= k < prev.len() && prev[k] == i as usize;
                assert(free_slots(t, n)[k] == i as usize);
            } else {
                assert(free_slots(t, n)[prev.len() as int] == i as usize);
            }
        }
    }
}

/// The free entries below `n` and the used ones make up all `n`.
proof fn lemma_free_slots_count(t: Seq<u8>, n: int)
    requires
        0 <= n <= t.len(),
    ensures
        free_slots(t, n).len() + count_used(t.take(n)) == n,
    decreases n,
{
    if n > 0 {
        lemma_free_slots_count(t, n - 1);
        lemma_count_used_step(t, n - 1);
    } else {
        assert(t.take(0) =~= Seq::<u8>::empty());
    }
}

/// True iff `new` is `old` with the song of `bytes` imported as song `song`
/// under `title`: the first free blocks of the block table, one per piece,
/// now belong to the song and hold its pieces, each but the last chained to
/// the next; and the song has its title.
pub open spec fn imported(old: LsdjSave, new: LsdjSave, song: u8, bytes: Seq<u8>, title: LsdjTitle) -> bool {
    let t = old.metadata.alloc_table@;
    let n = (bytes.len() as int) / (BLOCK_SIZE as int);
    let slots = free_slots(t, BLOCK_COUNT as int);
    &&& forall|i: int| 0 <= i < ALLOC_TABLE_LENGTH ==> #[trigger] new.metadata.alloc_table@[i] == if slots.take(
        n,
    ).contains(i as usize) {
        song
    } else {
        t[i]
    }
    &&& forall|k: int| 0 <= k < n ==> (#[trigger] new.blocks@[slots[k] as int]).position == 0
        && new.blocks@[slots[k] as int].data@ == patched(bytes, slots, n, k)
    &&& forall|i: int| 0 <= i < BLOCK_COUNT && !slots.take(n).contains(i as usize) ==> new.blocks@[i] == old.blocks@[i]
    &&& new.metadata.title_table@ == old.metadata.title_table@.update(song as int, title)
    &&& new.metadata.version_table == old.metadata.version_table
    &&& new.metadata.empty_bytes == old.metadata.empty_bytes
    &&& new.metadata.sram_init_chk == old.metadata.sram_init_chk
    &&& new.metadata.working_song == old.metadata.working_song
    &&& new.sram == old.sram
}

/// The indices of the free entries among the first `BLOCK_COUNT` of `t`.
fn free_block_indices(t: &[u8; ALLOC_TABLE_LENGTH]) -> (r: Vec<usize>)
    ensures
        r@ == free_slots(t@, BLOCK_COUNT as int),
{
    let mut r: Vec<usize> = Vec::new();
    let mut i: usize = 0;
    while i < BLOCK_COUNT
        invariant
            0 <= i <= BLOCK_COUNT,
            r@ == free_slots(t@, i as int),
        decreases BLOCK_COUNT - i,
    {
        if t[i] == FREE_BLOCK {
            r.push(i);
        }
        i = i + 1;
        assert(r@ =~= free_slots(t@, i as int));
    }
    r
}

/// Piece `k` of `bytes` as a block at position 0.
fn piece(bytes: &[u8], k: usize) -> (r: LsdjBlock)
    requires
        (k + 1) * BLOCK_SIZE <= bytes@.len(),
    ensures
        r.position == 0,
        r.data@ == chunk(bytes@, k as int),
{
    let mut block = LsdjBlock::empty();
    let len = bytes.len();
    let start = k * BLOCK_SIZE;
    let mut j: usize = 0;
    while j < BLOCK_SIZE
        invariant
            start == k * BLOCK_SIZE,
            start + BLOCK_SIZE <= bytes@.len(),
            0 <= j <= BLOCK_SIZE,
            block.position == 0,
            forall|i: int| 0 <= i < j ==> block.data@[i] == bytes@[start + i],
        decreases BLOCK_SIZE - j,
    {
        block.data[j] = bytes[start + j];
        j = j + 1;
    }
    assert(block.data@ =~= chunk(bytes@, k as int));
    block
}

impl LsdjSave {
    /// The save image read from `bytes`, laid out as `bytes` writes it, with
    /// the cursors at 0; `BadFormat` where `bytes` is shorter than that.
    pub fn from_bytes(bytes: &[u8]) -> (r: Result<LsdjSave, LsdjError>)
        ensures
            bytes@.len() < BLOCK_ADDRESS + BLOCK_COUNT * BLOCK_SIZE ==> r == Err::<LsdjSave, LsdjError>(
                LsdjError::BadFormat,
            ),
            bytes@.len() >= BLOCK_ADDRESS + BLOCK_COUNT * BLOCK_SIZE ==> (r matches Ok(s) && {
                &&& s.sram.position == 0
                &&& s.sram.data@ == bytes@.take(SRAM_SIZE as int)
                &&& forall|i: int| 0 <= i < BLOCK_COUNT ==> (#[trigger] s.blocks@[i]).position == 0
                    && s.blocks@[i].data@ == bytes@.subrange(
                    BLOCK_ADDRESS + i * BLOCK_SIZE,
                    BLOCK_ADDRESS + (i + 1) * BLOCK_SIZE,
                )
            }),
            r matches Ok(s) ==> metadata_read_from(s.metadata, bytes@.subrange(SRAM_SIZE as int, BLOCK_ADDRESS as int)),
    {
        if bytes.len() < BLOCK_ADDRESS + BLOCK_COUNT * BLOCK_SIZE {
            return Err(LsdjError::BadFormat);
        }
        let sram = match LsdjSram::from_bytes(bytes) {
            Ok(m) => m,
            Err(e) => {
                return Err(e);
            },
        };
        let metadata = match LsdjMetadata::from_bytes(&bytes[SRAM_SIZE..BLOCK_ADDRESS]) {
            Ok(m) => m,
            Err(e) => {
                return Err(e);
            },
        };
        let mut s = LsdjSave::empty();
        s.sram = sram;
        s.metadata = metadata;

        let mut i: usize = 0;
        while i < BLOCK_COUNT
            invariant
                0 <= i <= BLOCK_COUNT,
                bytes@.len() >= BLOCK_ADDRESS + BLOCK_COUNT * BLOCK_SIZE,
                s.sram.position == 0,
                s.sram.data@ == bytes@.take(SRAM_SIZE as int),
                metadata_read_from(s.metadata, bytes@.subrange(SRAM_SIZE as int, BLOCK_ADDRESS as int)),
                forall|j: int| 0 <= j < i ==> (#[trigger] s.blocks@[j]).position == 0
                    && s.blocks@[j].data@ == bytes@.subrange(
                    BLOCK_ADDRESS + j * BLOCK_SIZE,
                    BLOCK_ADDRESS + (j + 1) * BLOCK_SIZE,
                ),
            decreases BLOCK_COUNT - i,
        {
            let mut block = LsdjBlock::empty();
            crate::compression::copy_from(&mut block.data, bytes, BLOCK_ADDRESS + i * BLOCK_SIZE);
            s.blocks[i] = block;
            i = i + 1;
        }
        Ok(s)
    }

    /// The whole save image as it is laid out in a save file: the working
    /// memory, the metadata, then the block table.
    pub fn bytes(&self) -> (r: Vec<u8>)
        ensures
            r@ == self.sram.data@ + metadata_bytes(self.metadata) + block_bytes(self.blocks@),
    {
        let mut out: Vec<u8> = Vec::new();
        crate::compression::append_bytes(&mut out, &self.sram.data);
        let meta = self.metadata.bytes();
        crate::compression::append_bytes(&mut out, meta.as_slice());
        let mut i: usize = 0;
        while i < BLOCK_COUNT
            invariant
                0 <= i <= BLOCK_COUNT,
                out@ == self.sram.data@ + metadata_bytes(self.metadata) + block_bytes(self.blocks@.take(i as int)),
            decreases BLOCK_COUNT - i,
        {
            crate::compression::append_bytes(&mut out, &self.blocks[i].data);
            assert(self.blocks@.take(i + 1).drop_last() =~= self.blocks@.take(i as int));
            i = i + 1;
        }
        assert(self.blocks@.take(BLOCK_COUNT as int) =~= self.blocks@);
        out
    }

    /// A save image whose parts are all empty: zeroed memory and blocks, the
    /// metadata of a fresh save.
    pub fn empty() -> (r: LsdjSave)
        ensures
            r.sram.position == 0,
            forall|i: int| 0 <= i < crate::SRAM_SIZE ==> r.sram.data@[i] == 0,
            forall|i: int, j: int| 0 <= i < BLOCK_COUNT && 0 <= j < BLOCK_SIZE ==> r.blocks@[i].data@[j] == 0,
            is_blank(r.metadata),
    {
        let block = LsdjBlock::empty();
        LsdjSave { sram: LsdjSram::empty(), metadata: LsdjMetadata::empty(), blocks: [block; BLOCK_COUNT] }
    }

    /// Compresses the working memory into blocks appended to `blocks`, the
    /// first of them being block number `first_block`; see
    /// `LsdjSram::compress_into`.
    pub fn compress_sram_into(&mut self, blocks: &mut Vec<LsdjBlock>, first_block: usize) -> (r: Result<u8, LsdjError>)
        requires
            1 <= first_block,
            old(blocks)@.len() == first_block - 1,
        ensures
            !chain_fits(old(self).sram, first_block) ==> r == Err::<u8, LsdjError>(LsdjError::NoBlocks)
                && final(self).sram == old(self).sram && final(blocks)@ == old(blocks)@,
            chain_fits(old(self).sram, first_block) ==> ({
                let chain = encode_chain(old(self).sram.data@, old(self).sram.position as int, first_block as u8);
                &&& r == Ok::<u8, LsdjError>(chain.len() as u8)
                &&& holds_chain(old(blocks)@, final(blocks)@, chain)
                &&& final(self).sram.data == old(self).sram.data
            }),
            final(self).metadata == old(self).metadata,
            final(self).blocks@ == old(self).blocks@,
    {
        self.sram.compress_into(blocks, first_block)
    }

    /// The bytes of the blocks of song `song`, in allocation table order: the
    /// song as it is stored, still compressed. Empty where the song owns no
    /// block. (The allocation table has one entry more than the block table;
    /// a block of that entry has no bytes.)
    pub fn export_song(&self, song: u8) -> (r: Vec<u8>)
        ensures
            r@ == song_bytes(self.metadata.alloc_table@, self.blocks@, song, BLOCK_COUNT as int),
    {
        let mut bytes: Vec<u8> = Vec::new();
        let mut i: usize = 0;
        while i < BLOCK_COUNT
            invariant
                0 <= i <= BLOCK_COUNT,
                bytes@ == song_bytes(self.metadata.alloc_table@, self.blocks@, song, i as int),
            decreases BLOCK_COUNT - i,
        {
            if self.metadata.alloc_table[i] == song {
                crate::compression::append_bytes(&mut bytes, &self.blocks[i].data);
            } else {
                assert(bytes@ =~= song_bytes(self.metadata.alloc_table@, self.blocks@, song, i + 1));
            }
            i = i + 1;
        }
        bytes
    }
}

impl LsdjSave {
    /// Adds the song whose compressed blocks are `bytes` under `title`, as the
    /// lowest song slot that owns no block, and returns that slot. Fails with
    /// `SongsFull` where no slot can be given out, with `BadFormat` where
    /// `bytes` is not a whole number of blocks, with `NoBlocks` where fewer
    /// blocks of the block table are free than it has, and with the error of
    /// the first piece but the last whose chain pointer cannot be redirected.
    /// A failure changes nothing.
    pub fn import_song(&mut self, bytes: &[u8], title: LsdjTitle) -> (r: Result<u8, LsdjError>)
        ensures
            ({
                let t = old(self).metadata.alloc_table@;
                let n = (bytes@.len() as int) / (BLOCK_SIZE as int);
                let slots = free_slots(t, BLOCK_COUNT as int);
                &&& songs_full(t) ==> r == Err::<u8, LsdjError>(LsdjError::SongsFull)
                &&& !songs_full(t) && (bytes@.len() as int) % (BLOCK_SIZE as int) != 0
                    ==> r == Err::<u8, LsdjError>(LsdjError::BadFormat)
                &&& !songs_full(t) && (bytes@.len() as int) % (BLOCK_SIZE as int) == 0
                    && n > BLOCK_COUNT - count_used(block_entries(t))
                    ==> r == Err::<u8, LsdjError>(LsdjError::NoBlocks)
                &&& !songs_full(t) && (bytes@.len() as int) % (BLOCK_SIZE as int) == 0
                    && n <= BLOCK_COUNT - count_used(block_entries(t))
                    && patch_error(bytes@, n, 0) is Some
                    ==> r == Err::<u8, LsdjError>(patch_error(bytes@, n, 0)->Some_0)
                &&& !songs_full(t) && (bytes@.len() as int) % (BLOCK_SIZE as int) == 0
                    && n <= BLOCK_COUNT - count_used(block_entries(t))
                    && patch_error(bytes@, n, 0) is None ==> r is Ok
                &&& r is Err ==> *final(self) == *old(self)
                &&& r matches Ok(song) ==> {
                    &&& (song as usize) < SONG_SLOTS
                    &&& !owns_block(block_entries(t), song)
                    &&& forall|p: u8| p < song ==> owns_block(block_entries(t), p)
                    &&& imported(*old(self), *final(self), song, bytes@, title)
                }
            }),
    {
        let ghost t = self.metadata.alloc_table@;
        let song = match self.metadata.next_available_song() {
            Some(s) => s,
            None => {
                return Err(LsdjError::SongsFull);
            },
        };
        if bytes.len() % BLOCK_SIZE != 0 {
            return Err(LsdjError::BadFormat);
        }
        let n = bytes.len() / BLOCK_SIZE;
        let slots = free_block_indices(&self.metadata.alloc_table);
        proof {
            lemma_free_slots_count(t, BLOCK_COUNT as int);
        }
        if n > slots.len() {
            return Err(LsdjError::NoBlocks);
        }
        proof {
            lemma_free_slots(t, BLOCK_COUNT as int);
        }
        let mut pieces: Vec<LsdjBlock> = Vec::new();
        let mut k: usize = 0;
        while k < n
            invariant
                t == old(self).metadata.alloc_table@,
                !songs_full(t),
                (song as usize) < SONG_SLOTS,
                !owns_block(block_entries(t), song),
                forall|q: u8| q < song ==> owns_block(block_entries(t), q),
                (bytes@.len() as int) % (BLOCK_SIZE as int) == 0,
                n == (bytes@.len() as int) / (BLOCK_SIZE as int),
                n <= slots@.len(),
                slots@.len() + count_used(block_entries(t)) == BLOCK_COUNT,
                slots@ == free_slots(t, BLOCK_COUNT as int),
                forall|j: int| 0 <= j < slots@.len() ==> (slots@[j] as int) < BLOCK_COUNT,
                0 <= k <= n,
                pieces@.len() == k,
                forall|j: int| 0 <= j < k ==> (#[trigger] pieces@[j]).position == 0
                    && pieces@[j].data@ == patched(bytes@, slots@, n as int, j),
                patch_error(bytes@, n as int, 0) == patch_error(bytes@, n as int, k as int),
                *self == *old(self),
            decreases n - k,
        {
            assert((k + 1) * BLOCK_SIZE <= bytes@.len()) by (nonlinear_arith)
                requires
                    k < n,
                    n == (bytes@.len() as int) / (BLOCK_SIZE as int),
            ;
            let mut block = piece(bytes, k);
            if k + 1 < n {
                let next = slots[k + 1] + 1;
                match block.skip_to_block(next) {
                    Err(e) => {
                        return Err(e);
                    },
                    Ok(()) => {},
                }
            }
            pieces.push(block);
            k = k + 1;
        }
        let ghost old_blocks = self.blocks@;
        let mut k: usize = 0;
        while k < n
            invariant
                t == old(self).metadata.alloc_table@,
                !songs_full(t),
                (song as usize) < SONG_SLOTS,
                !owns_block(block_entries(t), song),
                forall|q: u8| q < song ==> owns_block(block_entries(t), q),
                (bytes@.len() as int) % (BLOCK_SIZE as int) == 0,
                n == (bytes@.len() as int) / (BLOCK_SIZE as int),
                patch_error(bytes@, n as int, 0) is None,
                forall|j: int| 0 <= j < n ==> (#[trigger] pieces@[j]).position == 0
                    && pieces@[j].data@ == patched(bytes@, slots@, n as int, j),
                n <= slots@.len(),
                slots@.len() + count_used(block_entries(t)) == BLOCK_COUNT,
                slots@ == free_slots(t, BLOCK_COUNT as int),
                forall|j: int| 0 <= j < slots@.len() ==> (slots@[j] as int) < BLOCK_COUNT
                    && t[slots@[j] as int] == FREE_BLOCK,
                forall|a: int, b: int| 0 <= a < b < slots@.len() ==> slots@[a] < slots@[b],
                0 <= k <= n,
                pieces@.len() == n,
                old_blocks == old(self).blocks@,
                self.metadata.alloc_table@ == Seq::new(
                    ALLOC_TABLE_LENGTH as nat,
                    |i: int| if slots@.take(k as int).contains(i as usize) { song } else { t[i] },
                ),
                forall|j: int| 0 <= j < k ==> self.blocks@[slots@[j] as int] == pieces@[j],
                forall|i: int| 0 <= i < BLOCK_COUNT && !slots@.take(k as int).contains(i as usize)
                    ==> self.blocks@[i] == old_blocks[i],
                self.metadata.title_table == old(self).metadata.title_table,
                self.metadata.version_table == old(self).metadata.version_table,
                self.metadata.empty_bytes == old(self).metadata.empty_bytes,
                self.metadata.sram_init_chk == old(self).metadata.sram_init_chk,
                self.metadata.working_song == old(self).metadata.working_song,
                self.sram == old(self).sram,
            decreases n - k,
        {
            let p = slots[k];
            assert(!slots@.take(k as int).contains(p)) by {
                if slots@.take(k as int).contains(p) {
                    let j = choose|j: int| 0 <= j < k && slots@.take(k as int)[j] == p;
                    assert(slots@[j] < slots@[k as int]);
                }
            }
            let reserved = self.metadata.reserve(p + 1, song);
            assert(reserved is Ok);
            self.blocks[p] = pieces[k];
            proof {
                let before = slots@.take(k as int);
                let after = slots@.take(k + 1);
                assert forall|x: usize| after.contains(x) == (before.contains(x) || x == p) by {
                    if after.contains(x) {
                        let j = choose|j: int| 0 <= j < k + 1 && after[j] == x;
                        if j < k {
                            assert(before[j] == x);
                        }
                    }
                    if before.contains(x) {
                        let j = choose|j: int| 0 <= j < k && before[j] == x;
                        assert(after[j] == x);
                    }
                    if x == p {
                        assert(after[k as int] == x);
                    }
                }
                assert(self.metadata.alloc_table@ =~= Seq::new(
                    ALLOC_TABLE_LENGTH as nat,
                    |i: int| if after.contains(i as usize) { song } else { t[i] },
                ));
                assert forall|j: int| 0 <= j < k + 1 implies self.blocks@[slots@[j] as int] == pieces@[j] by {
                    if j < k {
                        assert(slots@[j] < slots@[k as int]);
                    }
                }
            }
            k = k + 1;
        }
        assert forall|j: int| 0 <= j < n implies (#[trigger] self.blocks@[slots@[j] as int]).position == 0
            && self.blocks@[slots@[j] as int].data@ == patched(bytes@, slots@, n as int, j) by {
            assert(self.blocks@[slots@[j] as int] == pieces@[j]);
        }
        self.metadata.title(song, title);
        Ok(song)
    }
}

} // verus!
