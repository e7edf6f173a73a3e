//! The block codec: dictionary matching, compression of working memory into
//! blocks, decompression of blocks and the patching of chain pointers.
use vstd::prelude::*;

use crate::{LsdjError, BLOCK_COUNT, BLOCK_SIZE, SRAM_SIZE};

verus! {

/// Starts a run-length token, or doubled, stands for itself.
pub const RLE_BYTE: u8 = 0xc0;

/// Gives the following byte a special meaning.
pub const SPECIAL_BYTE: u8 = 0xe0;

/// After `SPECIAL_BYTE`: the default instrument.
pub const DEF_INST_BYTE: u8 = 0xf1;

/// After `SPECIAL_BYTE`: the default wave.
pub const DEF_WAVE_BYTE: u8 = 0xf0;

/// After `SPECIAL_BYTE`: the end of the compressed data.
pub const EOF_BYTE: u8 = 0xff;

/// Length of each of the two dictionary patterns.
pub const DEF_SIZE: usize = 0x10;

/// The bytes of the default instrument.
pub const DEF_INST_VALUES: [u8; DEF_SIZE] = [
    0xa8, 0x00, 0x00, 0xff, 0x00, 0x00, 0x03, 0x00,
    0x00, 0xd0, 0x00, 0x00, 0x00, 0xf3, 0x00, 0x00,
];

/// The bytes of the default wave.
pub const DEF_WAVE_VALUES: [u8; DEF_SIZE] = [
    0x8e, 0xcd, 0xcc, 0xbb, 0xaa, 0xa9, 0x99, 0x88,
    0x87, 0x76, 0x66, 0x55, 0x54, 0x43, 0x32, 0x31,
];

/// The default instrument, as a sequence.
pub open spec fn def_inst() -> Seq<u8> {
    seq![
        0xa8u8, 0x00, 0x00, 0xff, 0x00, 0x00, 0x03, 0x00,
        0x00, 0xd0, 0x00, 0x00, 0x00, 0xf3, 0x00, 0x00,
    ]
}

/// The default wave, as a sequence.
pub open spec fn def_wave() -> Seq<u8> {
    seq![
        0x8eu8, 0xcd, 0xcc, 0xbb, 0xaa, 0xa9, 0x99, 0x88,
        0x87, 0x76, 0x66, 0x55, 0x54, 0x43, 0x32, 0x31,
    ]
}

/// True iff `data` is byte for byte the default instrument.
pub fn is_def_inst(data: &[u8]) -> (r: bool)
    ensures
        r == (data@ == def_inst()),
{
    if data.len() != DEF_SIZE {
        assert(data@.len() != def_inst().len());
        return false;
    }
    let mut i: usize = 0;
    while i < DEF_SIZE
        invariant
            data@.len() == DEF_SIZE,
            DEF_INST_VALUES@ == def_inst(),
            0 <= i <= DEF_SIZE,
            forall|j: int| 0 <= j < i ==> data@[j] == def_inst()[j],
        decreases DEF_SIZE - i,
    {
        if data[i] != DEF_INST_VALUES[i] {
            return false;
        }
        i = i + 1;
    }
    assert(data@ =~= def_inst());
    true
}


/// True iff `data` is byte for byte the default wave.
pub fn is_def_wave(data: &[u8]) -> (r: bool)
    ensures
        r == (data@ == def_wave()),
{
    if data.len() != DEF_SIZE {
        assert(data@.len() != def_wave().len());
        return false;
    }
    let mut i: usize = 0;
    while i < DEF_SIZE
        invariant
            data@.len() == DEF_SIZE,
            DEF_WAVE_VALUES@ == def_wave(),
            0 <= i <= DEF_SIZE,
            forall|j: int| 0 <= j < i ==> data@[j] == def_wave()[j],
        decreases DEF_SIZE - i,
    {
        if data[i] != DEF_WAVE_VALUES[i] {
            return false;
        }
        i = i + 1;
    }
    assert(data@ =~= def_wave());
    true
}

/// `count` copies of `value`.
pub open spec fn repeat(value: u8, count: nat) -> Seq<u8> {
    Seq::new(count, |_j: int| value)
}

/// Puts `bytes` in front of what a decoded remainder wrote.
pub open spec fn prepend(bytes: Seq<u8>, rest: (Seq<u8>, Option<u8>)) -> (Seq<u8>, Option<u8>) {
    (bytes + rest.0, rest.1)
}

/// What the compressed stream `d` decodes to from index `i` on: the bytes it
/// writes, and how it ends. `Some(0)` is the end-of-data token (or a chain
/// pointer to block 0), `Some(n)` a chain pointer to block `n`, and `None` a
/// stream that runs off its end, or cuts a token short, before either.
pub open spec fn decode(d: Seq<u8>, i: int) -> (Seq<u8>, Option<u8>)
    decreases d.len() - i,
{
    if i < 0 || i >= d.len() {
        (seq![], None)
    } else if d[i] == RLE_BYTE {
        if i + 1 >= d.len() {
            (seq![], None)
        } else if d[i + 1] == RLE_BYTE {
            prepend(seq![RLE_BYTE], decode(d, i + 2))
        } else if i + 2 >= d.len() {
            (seq![], None)
        } else {
            prepend(repeat(d[i + 1], d[i + 2] as nat), decode(d, i + 3))
        }
    } else if d[i] == SPECIAL_BYTE {
        if i + 1 >= d.len() {
            (seq![], None)
        } else if d[i + 1] == SPECIAL_BYTE {
            prepend(seq![SPECIAL_BYTE], decode(d, i + 2))
        } else if d[i + 1] == DEF_INST_BYTE {
            prepend(def_inst(), decode(d, i + 2))
        } else if d[i + 1] == DEF_WAVE_BYTE {
            prepend(def_wave(), decode(d, i + 2))
        } else if d[i + 1] == EOF_BYTE {
            (seq![], Some(0u8))
        } else {
            (seq![], Some(d[i + 1]))
        }
    } else {
        prepend(seq![d[i]], decode(d, i + 1))
    }
}

/// `mem` with `out` written over it from index `pos` on.
pub open spec fn splice(mem: Seq<u8>, pos: int, out: Seq<u8>) -> Seq<u8> {
    mem.take(pos) + out + mem.skip(pos + out.len())
}

/// What decompressing block bytes `d` into memory `mem` at cursor `pos` gives:
/// the block's successor (`None` for a malformed block), the new memory and
/// the new cursor. The bytes decoded before a malformed end are written too;
/// output that does not fit behind the cursor is not written at all.
pub open spec fn decompress_step(d: Seq<u8>, mem: Seq<u8>, pos: int) -> (Option<u8>, Seq<u8>, int) {
    let (out, end) = decode(d, 0);
    if 0 <= pos && pos + out.len() <= SRAM_SIZE {
        (end, splice(mem, pos, out), pos + out.len())
    } else {
        (None, mem, pos)
    }
}

/// Placeholder that a block file may hold where a chain pointer goes.
pub const PLACEHOLDER_BYTE: u8 = 0x78;

/// True iff `n`, after `SPECIAL_BYTE`, is a chain pointer that can be
/// redirected: a block number or the placeholder.
pub open spec fn is_pointer(n: u8) -> bool {
    (1 <= n && n <= BLOCK_COUNT) || n == PLACEHOLDER_BYTE
}

/// Where, scanning `d` from index `i` on, the chain pointer byte stands; or
/// why there is none. Escaped special bytes and dictionary tokens are
/// stepped over; the end-of-data token means `NoSkip`, as does a stream with
/// no special byte left; a special byte that is last, or followed by
/// anything else, means `BadFormat`.
pub open spec fn find_pointer(d: Seq<u8>, i: int) -> Result<int, LsdjError>
    decreases d.len() - i,
{
    if i < 0 || i >= d.len() {
        Err(LsdjError::NoSkip)
    } else if d[i] != SPECIAL_BYTE {
        find_pointer(d, i + 1)
    } else if i + 1 >= d.len() {
        Err(LsdjError::BadFormat)
    } else if is_pointer(d[i + 1]) {
        Ok(i + 1)
    } else if d[i + 1] == DEF_INST_BYTE || d[i + 1] == DEF_WAVE_BYTE || d[i + 1] == SPECIAL_BYTE {
        find_pointer(d, i + 2)
    } else if d[i + 1] == EOF_BYTE {
        Err(LsdjError::NoSkip)
    } else {
        Err(LsdjError::BadFormat)
    }
}

proof fn lemma_find_pointer_skips(d: Seq<u8>, i: int, k: int)
    requires
        0 <= i <= k < d.len(),
        forall|j: int| 0 <= j < k ==> d[j] != SPECIAL_BYTE,
    ensures
        find_pointer(d, i) == find_pointer(d, k),
    decreases k - i,
{
    if i < k {
        lemma_find_pointer_skips(d, i + 1, k);
    }
}

/// Chain patch: where the first special byte of a block stands at `k` and
/// is followed by a block number or the placeholder, patching redirects the
/// byte at `k + 1`; where it is followed by the end-of-data marker, the
/// block is terminal and patching fails with `NoSkip`.
pub proof fn lemma_chain_patch(d: Seq<u8>, k: int)
    requires
        0 <= k,
        k + 1 < d.len(),
        d[k] == SPECIAL_BYTE,
        forall|j: int| 0 <= j < k ==> d[j] != SPECIAL_BYTE,
    ensures
        is_pointer(d[k + 1]) ==> find_pointer(d, 0) == Ok::<int, LsdjError>(k + 1),
        d[k + 1] == EOF_BYTE ==> find_pointer(d, 0) == Err::<int, LsdjError>(LsdjError::NoSkip),
{
    lemma_find_pointer_skips(d, 0, k);
}

/// How many of the bytes after `src[off]`, from the `k`-th on, repeat it,
/// counting no further than a run of 255 bytes.
pub open spec fn run_extra(src: Seq<u8>, off: int, k: nat) -> nat
    decreases 254 - k,
{
    if k < 254 && off + 1 + k < src.len() && src[off + 1 + k] == src[off] {
        run_extra(src, off, k + 1)
    } else {
        k
    }
}

/// Length of the run of bytes equal to `src[off]` that starts there, capped
/// at 255 (a count must fit in one byte).
pub open spec fn run_len(src: Seq<u8>, off: int) -> nat {
    1 + run_extra(src, off, 0)
}

/// True iff the 16 bytes of `src` from `off` on are `pattern`.
pub open spec fn pattern_at(src: Seq<u8>, off: int, pattern: Seq<u8>) -> bool {
    off + DEF_SIZE <= src.len() && src.subrange(off, off + DEF_SIZE) == pattern
}

/// The token that encodes `src` at `off`, and how many source bytes it
/// stands for: an escape byte doubled, a dictionary token, up to three
/// literal bytes, or a run-length token for a run of four or more.
pub open spec fn token_at(src: Seq<u8>, off: int) -> (Seq<u8>, nat) {
    let c = src[off];
    let run = run_len(src, off);
    if c == RLE_BYTE {
        (seq![RLE_BYTE, RLE_BYTE], 1)
    } else if c == SPECIAL_BYTE {
        (seq![SPECIAL_BYTE, SPECIAL_BYTE], 1)
    } else if pattern_at(src, off, def_inst()) {
        (seq![SPECIAL_BYTE, DEF_INST_BYTE], DEF_SIZE as nat)
    } else if pattern_at(src, off, def_wave()) {
        (seq![SPECIAL_BYTE, DEF_WAVE_BYTE], DEF_SIZE as nat)
    } else if run <= 3 {
        (repeat(c, run), run)
    } else {
        (seq![RLE_BYTE, c, run as u8], run)
    }
}

/// The bytes that compressing `src` from `off` on writes into a block whose
/// first `at` bytes are taken, where the block is number `block_num`; the
/// source offset where it stops; and what it returns: 0 where the source
/// ran out (end-of-data token), else the number of the next block (chain
/// pointer token). A token is only begun while five bytes of the block are
/// free, so that it and a closing two-byte token always fit.
pub open spec fn encode(src: Seq<u8>, off: int, at: int, block_num: u8) -> (Seq<u8>, int, u8)
    decreases src.len() - off via encode_decreases
{
    if off < 0 || off >= src.len() {
        (seq![SPECIAL_BYTE, EOF_BYTE], off, 0u8)
    } else if at + 5 > BLOCK_SIZE {
        (seq![SPECIAL_BYTE, (block_num + 1) as u8], off, (block_num + 1) as u8)
    } else {
        let (t, adv) = token_at(src, off);
        let rest = encode(src, off + adv, at + t.len(), block_num);
        (t + rest.0, rest.1, rest.2)
    }
}

#[via_fn]
proof fn encode_decreases(src: Seq<u8>, off: int, at: int, block_num: u8) {
    if 0 <= off < src.len() {
        lemma_token_size(src, off);
    }
}

proof fn lemma_run_extra_bound(src: Seq<u8>, off: int, k: nat)
    requires
        k <= 254,
    ensures
        k <= run_extra(src, off, k) <= 254,
        off + 1 + k <= src.len() ==> off + 1 + run_extra(src, off, k) <= src.len(),
        forall|j: int| off + 1 + k <= j < off + 1 + run_extra(src, off, k) ==> src[j] == src[off],
    decreases 254 - k,
{
    if k < 254 && off + 1 + k < src.len() && src[off + 1 + k] == src[off] {
        lemma_run_extra_bound(src, off, k + 1);
    }
}

/// A token is at most three bytes long, and at most twice as long as the
/// source bytes it stands for.
proof fn lemma_token_size(src: Seq<u8>, off: int)
    requires
        0 <= off < src.len(),
    ensures
        1 <= token_at(src, off).1,
        off + token_at(src, off).1 <= src.len(),
        token_at(src, off).0.len() <= 3,
        token_at(src, off).0.len() <= 2 * token_at(src, off).1,
{
    lemma_run_extra_bound(src, off, 0);
}

/// What the encoder writes fits in the block, it never goes back in the
/// source, and it only chains once it has filled the block, which takes at
/// least half as many source bytes as block bytes.
proof fn lemma_encode_bounds(src: Seq<u8>, off: int, at: int, block_num: u8)
    requires
        0 <= off,
        0 <= at <= BLOCK_SIZE - 2,
        block_num < 255,
    ensures
        at + encode(src, off, at, block_num).0.len() <= BLOCK_SIZE,
        off <= encode(src, off, at, block_num).1,
        off <= src.len() ==> encode(src, off, at, block_num).1 <= src.len(),
        off >= src.len() ==> encode(src, off, at, block_num).1 == off,
        off < src.len() && encode(src, off, at, block_num).2 == 0 ==> encode(src, off, at, block_num).1 == src.len(),
        encode(src, off, at, block_num).2 != 0 ==> at + 2 * (encode(src, off, at, block_num).1 - off) > BLOCK_SIZE - 5,
        encode(src, off, at, block_num).2 != 0 ==> encode(src, off, at, block_num).1 < src.len(),
        encode(src, off, at, block_num).2 == 0 || encode(src, off, at, block_num).2 == block_num + 1,
    decreases src.len() - off,
{
    if off < src.len() && at + 5 <= BLOCK_SIZE {
        lemma_token_size(src, off);
        let (t, adv) = token_at(src, off);
        lemma_encode_bounds(src, off + adv, at + t.len(), block_num);
    }
}

/// Decoding from inside the second part of a concatenation does not see the
/// first.
proof fn lemma_decode_shift(p: Seq<u8>, r: Seq<u8>, i: int)
    requires
        p.len() <= i,
    ensures
        decode(p + r, i) == decode(r, i - p.len()),
    decreases (p + r).len() - i,
{
    let d = p + r;
    let j = i - p.len();
    if i < d.len() {
        assert(d[i] == r[j]);
        if i + 1 < d.len() {
            assert(d[i + 1] == r[j + 1]);
            lemma_decode_shift(p, r, i + 2);
            if i + 2 < d.len() {
                assert(d[i + 2] == r[j + 2]);
                lemma_decode_shift(p, r, i + 3);
            }
        }
        lemma_decode_shift(p, r, i + 1);
    }
}

/// Bytes that are neither escape byte decode to themselves.
proof fn lemma_decode_literals(lits: Seq<u8>, r: Seq<u8>)
    requires
        forall|k: int| 0 <= k < lits.len() ==> lits[k] != RLE_BYTE && lits[k] != SPECIAL_BYTE,
    ensures
        decode(lits + r, 0) == prepend(lits, decode(r, 0)),
    decreases lits.len(),
{
    if lits.len() == 0 {
        assert(lits + r =~= r);
        assert(lits + decode(r, 0).0 =~= decode(r, 0).0);
    } else {
        let c = lits[0];
        let tail = lits.skip(1);
        assert(lits + r =~= seq![c] + (tail + r));
        lemma_decode_shift(seq![c], tail + r, 1);
        lemma_decode_literals(tail, r);
        assert(lits + decode(r, 0).0 =~= seq![c] + (tail + decode(r, 0).0));
    }
}

/// A two-byte token followed by `r` decodes as the token, then as `r`.
proof fn lemma_decode_pair(a: u8, b: u8, r: Seq<u8>)
    ensures
        decode(seq![a, b] + r, 2) == decode(r, 0),
{
    lemma_decode_shift(seq![a, b], r, 2);
}

/// The token that encodes `src` at `off`, followed by `r`, decodes to the
/// source bytes the token stands for, then to what `r` decodes to.
proof fn lemma_token_decodes(src: Seq<u8>, off: int, r: Seq<u8>)
    requires
        0 <= off < src.len(),
    ensures
        decode(token_at(src, off).0 + r, 0) == prepend(
            src.subrange(off, off + token_at(src, off).1),
            decode(r, 0),
        ),
{
    lemma_token_size(src, off);
    lemma_run_extra_bound(src, off, 0);
    let (t, adv) = token_at(src, off);
    let c = src[off];
    let run = run_len(src, off);
    let d = t + r;
    let piece = src.subrange(off, off + adv);
    if c == RLE_BYTE || c == SPECIAL_BYTE {
        lemma_decode_pair(t[0], t[1], r);
        assert(d =~= seq![t[0], t[1]] + r);
        assert(piece =~= seq![c]);
    } else if pattern_at(src, off, def_inst()) || pattern_at(src, off, def_wave()) {
        lemma_decode_pair(t[0], t[1], r);
        assert(d =~= seq![t[0], t[1]] + r);
    } else if run <= 3 {
        assert(piece =~= repeat(c, run));
        lemma_decode_literals(t, r);
    } else {
        assert(d[0] == RLE_BYTE && d[1] == c && d[2] == run as u8);
        lemma_decode_shift(t, r, 3);
        assert(piece =~= repeat(c, run));
    }
}

/// Decoding a stream that already ends within `a` does not look past `a`.
proof fn lemma_decode_prefix(a: Seq<u8>, b: Seq<u8>, i: int)
    requires
        0 <= i,
        decode(a, i).1 is Some,
    ensures
        decode(a + b, i) == decode(a, i),
    decreases a.len() - i,
{
    let d = a + b;
    assert(d[i] == a[i]);
    if i + 1 < a.len() {
        assert(d[i + 1] == a[i + 1]);
    }
    if i + 2 < a.len() {
        assert(d[i + 2] == a[i + 2]);
    }
    if a[i] == RLE_BYTE {
        if a[i + 1] == RLE_BYTE {
            lemma_decode_prefix(a, b, i + 2);
        } else {
            lemma_decode_prefix(a, b, i + 3);
        }
    } else if a[i] == SPECIAL_BYTE {
        if a[i + 1] == SPECIAL_BYTE || a[i + 1] == DEF_INST_BYTE || a[i + 1] == DEF_WAVE_BYTE {
            lemma_decode_prefix(a, b, i + 2);
        }
    } else {
        lemma_decode_prefix(a, b, i + 1);
    }
}

/// What the encoder writes decodes back to the source bytes it consumed,
/// and ends as the encoder said: with the end-of-data token or with the
/// chain pointer it returned.
proof fn lemma_encode_decodes(src: Seq<u8>, off: int, at: int, block_num: u8)
    requires
        0 <= off <= src.len(),
        0 <= at <= BLOCK_SIZE - 2,
        block_num < 255,
        block_num + 1 < SPECIAL_BYTE || encode(src, off, at, block_num).2 == 0,
    ensures
        decode(encode(src, off, at, block_num).0, 0) == (
            src.subrange(off, encode(src, off, at, block_num).1),
            Some(encode(src, off, at, block_num).2),
        ),
    decreases src.len() - off,
{
    let e = encode(src, off, at, block_num);
    if off >= src.len() {
        assert(src.subrange(off, off) =~= Seq::<u8>::empty());
    } else if at + 5 > BLOCK_SIZE {
        assert(src.subrange(off, off) =~= Seq::<u8>::empty());
    } else {
        lemma_token_size(src, off);
        let (t, adv) = token_at(src, off);
        lemma_encode_bounds(src, off + adv, at + t.len(), block_num);
        lemma_encode_decodes(src, off + adv, at + t.len(), block_num);
        let rest = encode(src, off + adv, at + t.len(), block_num);
        lemma_token_decodes(src, off, rest.0);
        assert(src.subrange(off, rest.1) =~= src.subrange(off, off + adv) + src.subrange(off + adv, rest.1));
    }
}

/// Round trip: a block whose leading bytes are what the compressor wrote
/// for `src` from `off` on decodes to exactly the source bytes that were
/// consumed, and ends with the successor that the compressor returned. Where
/// no chain split was needed (the compressor returned 0), that is all of
/// `src` from `off` on. Where one was, the block number that the chain
/// pointer names must not be one of the stream's marker bytes.
pub proof fn lemma_round_trip(src: Seq<u8>, off: int, block_num: u8, block: Seq<u8>)
    requires
        0 <= off <= src.len(),
        block_num < 255,
        block_num + 1 < SPECIAL_BYTE || encode(src, off, 0, block_num).2 == 0,
        block.take(encode(src, off, 0, block_num).0.len() as int) == encode(src, off, 0, block_num).0,
        encode(src, off, 0, block_num).0.len() <= block.len(),
    ensures
        decode(block, 0) == (
            src.subrange(off, encode(src, off, 0, block_num).1),
            Some(encode(src, off, 0, block_num).2),
        ),
        encode(src, off, 0, block_num).2 == 0 ==> decode(block, 0).0 == src.subrange(off, src.len() as int),
{
    let t = encode(src, off, 0, block_num).0;
    lemma_encode_bounds(src, off, 0, block_num);
    lemma_encode_decodes(src, off, 0, block_num);
    assert(block =~= t + block.skip(t.len() as int));
    lemma_decode_prefix(t, block.skip(t.len() as int), 0);
}

/// Run-length boundary: a run of exactly three equal bytes (neither of them
/// an escape byte) is encoded as the three bytes themselves; a run of
/// exactly four as the run-length token with count 4.
pub proof fn lemma_rle_boundary(src: Seq<u8>, off: int, v: u8)
    requires
        0 <= off,
        off + 3 <= src.len(),
        v != RLE_BYTE,
        v != SPECIAL_BYTE,
        src[off] == v,
        src[off + 1] == v,
        src[off + 2] == v,
    ensures
        off + 3 == src.len() || src[off + 3] != v ==> token_at(src, off) == (seq![v, v, v], 3nat),
        off + 4 <= src.len() && src[off + 3] == v && (off + 4 == src.len() || src[off + 4] != v)
            ==> token_at(src, off) == (seq![RLE_BYTE, v, 4u8], 4nat),
{
    assert(!pattern_at(src, off, def_inst())) by {
        if pattern_at(src, off, def_inst()) {
            assert(src.subrange(off, off + DEF_SIZE)[0] == src[off]);
            assert(src.subrange(off, off + DEF_SIZE)[1] == src[off + 1]);
        }
    }
    assert(!pattern_at(src, off, def_wave())) by {
        if pattern_at(src, off, def_wave()) {
            assert(src.subrange(off, off + DEF_SIZE)[0] == src[off]);
            assert(src.subrange(off, off + DEF_SIZE)[1] == src[off + 1]);
        }
    }
    if off + 3 == src.len() || src[off + 3] != v {
        assert(run_extra(src, off, 2) == 2);
        assert(run_extra(src, off, 1) == 2);
        assert(run_extra(src, off, 0) == 2);
        assert(repeat(v, 3) =~= seq![v, v, v]);
    }
    if off + 4 <= src.len() && src[off + 3] == v && (off + 4 == src.len() || src[off + 4] != v) {
        assert(run_extra(src, off, 3) == 3);
        assert(run_extra(src, off, 2) == 3);
        assert(run_extra(src, off, 1) == 3);
        assert(run_extra(src, off, 0) == 3);
    }
}

/// Escape doubling: a source byte equal to either escape byte is encoded as
/// that byte twice, and that pair decodes back to the one byte.
pub proof fn lemma_escape_doubling(src: Seq<u8>, off: int, rest: Seq<u8>)
    requires
        0 <= off < src.len(),
        src[off] == RLE_BYTE || src[off] == SPECIAL_BYTE,
    ensures
        token_at(src, off) == (seq![src[off], src[off]], 1nat),
        decode(seq![src[off], src[off]] + rest, 0) == prepend(seq![src[off]], decode(rest, 0)),
{
    lemma_token_decodes(src, off, rest);
    assert(src.subrange(off, off + 1) =~= seq![src[off]]);
}

/// The token streams of the blocks that compressing `src` from `off` on
/// fills, in order, the first of them being block number `block_num`.
pub open spec fn encode_chain(src: Seq<u8>, off: int, block_num: u8) -> Seq<Seq<u8>>
    decreases src.len() - off via encode_chain_decreases
{
    let (t, end, ret) = encode(src, off, 0, block_num);
    if ret == 0 || off < 0 || block_num >= 255 {
        seq![t]
    } else {
        seq![t] + encode_chain(src, end, ret)
    }
}

#[via_fn]
proof fn encode_chain_decreases(src: Seq<u8>, off: int, block_num: u8) {
    if 0 <= off && block_num < 255 {
        lemma_encode_bounds(src, off, 0, block_num);
    }
}

/// True iff the blocks that compressing `mem` from its cursor on fills,
/// numbered from `first_block`, all have numbers from 1 to `BLOCK_COUNT`.
pub open spec fn chain_fits(mem: LsdjSram, first_block: usize) -> bool {
    &&& 1 <= first_block <= BLOCK_COUNT
    &&& first_block - 1 + encode_chain(mem.data@, mem.position as int, first_block as u8).len() <= BLOCK_COUNT
}

/// True iff `new` is `old` with one block per token stream of `chain`
/// appended, at position 0, holding the stream and zeros after it.
pub open spec fn holds_chain(old: Seq<LsdjBlock>, new: Seq<LsdjBlock>, chain: Seq<Seq<u8>>) -> bool {
    &&& new.len() == old.len() + chain.len()
    &&& new.take(old.len() as int) == old
    &&& forall|j: int| 0 <= j < chain.len() ==> {
        &&& (#[trigger] new[old.len() + j]).position == 0
        &&& new[old.len() + j].data@ == splice(zero_block(), 0, chain[j])
    }
}

/// A block of all zero bytes.
pub open spec fn zero_block() -> Seq<u8> {
    Seq::new(BLOCK_SIZE as nat, |_i: int| 0u8)
}

/// The bytes of all of `blocks`, one after another.
pub open spec fn block_bytes(blocks: Seq<LsdjBlock>) -> Seq<u8>
    decreases blocks.len(),
{
    if blocks.len() == 0 {
        Seq::empty()
    } else {
        block_bytes(blocks.drop_last()) + blocks.last().data@
    }
}

/// Decompressing a list of blocks into `mem` at cursor `pos`, starting with
/// the block at list index `index`, where `count` blocks were decompressed
/// before: each block names its successor by its 1-based index in the list.
/// Gives the number of blocks decompressed (`None` for a malformed block, or
/// where a 256th block would be needed), the memory and the cursor. The walk
/// stops at the end-of-data token, or where the index leaves the list.
pub open spec fn decompress_chain(blocks: Seq<LsdjBlock>, mem: Seq<u8>, pos: int, index: int, count: nat) -> (
    Option<nat>,
    Seq<u8>,
    int,
)
    decreases 255 - count,
{
    if index < 0 || index >= blocks.len() {
        (Some(count), mem, pos)
    } else if count >= 255 {
        (None, mem, pos)
    } else {
        let (end, mem2, pos2) = decompress_step(blocks[index].data@, mem, pos);
        match end {
            None => (None, mem2, pos2),
            Some(n) => if n == 0 {
                (Some(count + 1), mem2, pos2)
            } else {
                decompress_chain(blocks, mem2, pos2, n - 1, count + 1)
            },
        }
    }
}

/// A compressed memory takes no more blocks than its consumed bytes allow:
/// every block but the last consumes at least 254 source bytes.
proof fn lemma_encode_chain_len(src: Seq<u8>, off: int, block_num: u8)
    requires
        0 <= off <= src.len(),
        block_num < 255,
    ensures
        254 * (encode_chain(src, off, block_num).len() - 1) <= src.len() - off,
        encode_chain(src, off, block_num).len() >= 1,
    decreases src.len() - off,
{
    lemma_encode_bounds(src, off, 0, block_num);
    let (t, end, ret) = encode(src, off, 0, block_num);
    if ret != 0 && block_num < 254 {
        lemma_encode_chain_len(src, end, ret);
    }
}

proof fn lemma_splice_twice(mem: Seq<u8>, p: int, a: Seq<u8>, b: Seq<u8>)
    requires
        0 <= p,
        p + a.len() + b.len() <= mem.len(),
    ensures
        splice(splice(mem, p, a), p + a.len(), b) == splice(mem, p, a + b),
{
    assert(splice(splice(mem, p, a), p + a.len(), b) =~= splice(mem, p, a + b));
}

/// The blocks of a compressed chain, held in a list at the indices of
/// their block numbers, decompress to the bytes that were compressed.
proof fn lemma_chain_decodes(
    src: Seq<u8>,
    off: int,
    block_num: u8,
    blocks: Seq<LsdjBlock>,
    mem: Seq<u8>,
    pos: int,
    count: nat,
)
    requires
        0 <= off <= src.len(),
        1 <= block_num,
        block_num + encode_chain(src, off, block_num).len() < SPECIAL_BYTE,
        count + encode_chain(src, off, block_num).len() <= 255,
        0 <= pos,
        pos + (src.len() - off) <= SRAM_SIZE,
        mem.len() == SRAM_SIZE,
        block_num - 1 + encode_chain(src, off, block_num).len() <= blocks.len(),
        forall|j: int| 0 <= j < encode_chain(src, off, block_num).len() ==>
            (#[trigger] blocks[block_num - 1 + j]).data@ == splice(
            zero_block(),
            0,
            encode_chain(src, off, block_num)[j],
        ),
    ensures
        decompress_chain(blocks, mem, pos, block_num - 1, count) == (
            Some(count + encode_chain(src, off, block_num).len()),
            splice(mem, pos, src.subrange(off, src.len() as int)),
            pos + (src.len() - off),
        ),
    decreases src.len() - off,
{
    let chain = encode_chain(src, off, block_num);
    let (t, end, ret) = encode(src, off, 0, block_num);
    lemma_encode_bounds(src, off, 0, block_num);
    let block = blocks[block_num - 1 + 0];
    assert(block.data@.take(t.len() as int) =~= t);
    lemma_round_trip(src, off, block_num, block.data@);
    let piece = src.subrange(off, end);
    if ret == 0 {
        assert(end == src.len());
    } else {
        let rest = encode_chain(src, end, ret);
        assert(chain =~= seq![t] + rest);
        assert forall|j: int| 0 <= j < rest.len() implies (#[trigger] blocks[ret - 1 + j]).data@ == splice(
            zero_block(),
            0,
            rest[j],
        ) by {
            assert(blocks[ret - 1 + j] == blocks[block_num - 1 + (j + 1)]);
            assert(rest[j] == chain[j + 1]);
        }
        lemma_chain_decodes(src, end, ret, blocks, splice(mem, pos, piece), pos + piece.len(), count + 1);
        lemma_splice_twice(mem, pos, piece, src.subrange(end, src.len() as int));
        assert(piece + src.subrange(end, src.len() as int) =~= src.subrange(off, src.len() as int));
    }
}

/// Whole round trip: the blocks that compressing a whole working memory
/// fills, numbered from 1 and kept in a list in that order (as
/// `LsdjSram::compress_into` appends them to an empty list), decompress from
/// the first one on (as `LsdjBlockExt::decompress_to` walks them) to exactly
/// that memory, every block counted.
pub proof fn lemma_chain_round_trip(src: Seq<u8>, blocks: Seq<LsdjBlock>, mem: Seq<u8>)
    requires
        src.len() == SRAM_SIZE,
        mem.len() == SRAM_SIZE,
        blocks.len() == encode_chain(src, 0, 1).len(),
        forall|j: int| 0 <= j < blocks.len() ==> (#[trigger] blocks[j]).data@ == splice(
            zero_block(),
            0,
            encode_chain(src, 0, 1)[j],
        ),
    ensures
        decompress_chain(blocks, mem, 0, 0, 0) == (Some(blocks.len()), src, SRAM_SIZE as int),
{
    lemma_encode_chain_len(src, 0, 1);
    assert forall|j: int| 0 <= j < encode_chain(src, 0, 1).len() implies (#[trigger] blocks[1 - 1 + j]).data@
        == splice(zero_block(), 0, encode_chain(src, 0, 1)[j]) by {
        assert(blocks[1 - 1 + j] == blocks[j]);
    }
    lemma_chain_decodes(src, 0, 1, blocks, mem, 0, 0);
    assert(splice(mem, 0, src.subrange(0, src.len() as int)) =~= src);
}

/// Appends the bytes of `b` to `out`.
pub(crate) fn append_bytes(out: &mut Vec<u8>, b: &[u8])
    ensures
        final(out)@ == old(out)@ + b@,
{
    let mut k: usize = 0;
    while k < b.len()
        invariant
            0 <= k <= b@.len(),
            out@ == old(out)@ + b@.take(k as int),
        decreases b@.len() - k,
    {
        out.push(b[k]);
        k = k + 1;
        assert(out@ =~= old(out)@ + b@.take(k as int));
    }
    assert(b@.take(b@.len() as int) =~= b@);
}

/// Fills `dst` with the bytes of `src` from `start` on.
pub(crate) fn copy_from<const N: usize>(dst: &mut [u8; N], src: &[u8], start: usize)
    requires
        start + N <= src@.len(),
    ensures
        final(dst)@ == src@.subrange(start as int, start + N),
{
    let len = src.len();
    let mut k: usize = 0;
    while k < N
        invariant
            0 <= k <= N,
            len == src@.len(),
            start + N <= src@.len(),
            forall|j: int| 0 <= j < k ==> dst@[j] == src@[start + j],
        decreases N - k,
    {
        dst[k] = src[start + k];
        k = k + 1;
    }
    assert(dst@ =~= src@.subrange(start as int, start + N));
}

/// A block of compressed song data.
#[derive(Clone, Copy, Debug)]
pub struct LsdjBlock {
    pub position: usize,
    pub data: [u8; BLOCK_SIZE],
}

/// The working memory of the tracker, with a cursor used by the codec.
#[derive(Debug)]
pub struct LsdjSram {
    pub position: usize,
    pub data: [u8; SRAM_SIZE],
}

/// Appends `count` copies of `value` to `out`.
fn push_repeat(out: &mut Vec<u8>, value: u8, count: u8)
    ensures
        final(out)@ == old(out)@ + repeat(value, count as nat),
{
    let mut k: u8 = 0;
    while k < count
        invariant
            0 <= k <= count,
            out@ == old(out)@ + repeat(value, k as nat),
        decreases count - k,
    {
        out.push(value);
        k = k + 1;
        assert(out@ =~= old(out)@ + repeat(value, k as nat));
    }
}

/// Appends the bytes of `pattern` to `out`.
fn push_all(out: &mut Vec<u8>, pattern: &[u8; DEF_SIZE])
    ensures
        final(out)@ == old(out)@ + pattern@,
{
    let mut k: usize = 0;
    while k < DEF_SIZE
        invariant
            0 <= k <= DEF_SIZE,
            out@ == old(out)@ + pattern@.take(k as int),
        decreases DEF_SIZE - k,
    {
        out.push(pattern[k]);
        k = k + 1;
        assert(out@ =~= old(out)@ + pattern@.take(k as int));
    }
    assert(pattern@.take(DEF_SIZE as int) =~= pattern@);
}

/// Decodes the stream of `data`: the bytes written and the successor, or
/// `None` where the stream is malformed.
fn decode_block(data: &[u8; BLOCK_SIZE]) -> (r: (Vec<u8>, Option<u8>))
    ensures
        r.0@ == decode(data@, 0).0,
        r.1 == decode(data@, 0).1,
{
    let mut out: Vec<u8> = Vec::new();
    let mut i: usize = 0;
    assert(decode(data@, 0).0 == out@ + decode(data@, 0).0);
    while i < BLOCK_SIZE
        invariant
            0 <= i <= BLOCK_SIZE + 1,
            data@.len() == BLOCK_SIZE,
            DEF_INST_VALUES@ == def_inst(),
            DEF_WAVE_VALUES@ == def_wave(),
            decode(data@, 0).0 == out@ + decode(data@, i as int).0,
            decode(data@, 0).1 == decode(data@, i as int).1,
        decreases BLOCK_SIZE + 1 - i,
    {
        let b = data[i];
        if b == RLE_BYTE {
            if i + 1 >= BLOCK_SIZE {
                return (out, None);
            }
            if data[i + 1] == RLE_BYTE {
                out.push(RLE_BYTE);
                i = i + 2;
            } else {
                if i + 2 >= BLOCK_SIZE {
                    return (out, None);
                }
                push_repeat(&mut out, data[i + 1], data[i + 2]);
                i = i + 3;
            }
        } else if b == SPECIAL_BYTE {
            if i + 1 >= BLOCK_SIZE {
                return (out, None);
            }
            let n = data[i + 1];
            if n == SPECIAL_BYTE {
                out.push(SPECIAL_BYTE);
            } else if n == DEF_INST_BYTE {
                push_all(&mut out, &DEF_INST_VALUES);
            } else if n == DEF_WAVE_BYTE {
                push_all(&mut out, &DEF_WAVE_VALUES);
            } else if n == EOF_BYTE {
                return (out, Some(0));
            } else {
                return (out, Some(n));
            }
            i = i + 2;
        } else {
            out.push(b);
            i = i + 1;
        }
    }
    (out, None)
}

impl LsdjBlock {
    /// A block at position 0 whose bytes are all zero.
    pub fn empty() -> (r: LsdjBlock)
        ensures
            r.position == 0,
            forall|i: int| 0 <= i < BLOCK_SIZE ==> r.data@[i] == 0,
    {
        LsdjBlock { position: 0, data: [0u8; BLOCK_SIZE] }
    }

    /// Decompresses this block into `dest` at its cursor and moves the cursor
    /// past the bytes written. Returns the number of the block that continues
    /// the data, or 0 where the data ends here. A block without an end token
    /// or a chain pointer is a `BadFormat` error, after what it decoded was
    /// written; output that does not fit behind the cursor is a `BadFormat`
    /// error that leaves `dest` as it was.
    pub fn decompress(&self, dest: &mut LsdjSram) -> (r: Result<u8, LsdjError>)
        ensures
            ({
                let (end, mem, pos) = decompress_step(self.data@, old(dest).data@, old(dest).position as int);
                &&& final(dest).data@ == mem
                &&& final(dest).position == pos
                &&& match end {
                    Some(n) => r == Ok::<u8, LsdjError>(n),
                    None => r == Err::<u8, LsdjError>(LsdjError::BadFormat),
                }
            }),
    {
        let (out, end) = decode_block(&self.data);
        let pos = dest.position;
        if pos > SRAM_SIZE || out.len() > SRAM_SIZE - pos {
            return Err(LsdjError::BadFormat);
        }
        let mut k: usize = 0;
        while k < out.len()
            invariant
                0 <= k <= out@.len(),
                pos + out@.len() <= SRAM_SIZE,
                pos == old(dest).position,
                dest.position == pos,
                forall|j: int| 0 <= j < SRAM_SIZE ==> #[trigger] dest.data@[j] == if pos <= j < pos + k {
                    out@[j - pos]
                } else {
                    old(dest).data@[j]
                },
            decreases out@.len() - k,
        {
            dest.data[pos + k] = out[k];
            k = k + 1;
        }
        assert(dest.data@ =~= splice(old(dest).data@, pos as int, out@));
        dest.position = pos + out.len();
        match end {
            Some(n) => Ok(n),
            None => Err(LsdjError::BadFormat),
        }
    }

    /// Redirects the block's chain pointer (the byte after the first special
    /// byte that starts one) to block `block`, which is written as its low
    /// byte. Fails, leaving the block as it was, where the block holds no chain
    /// pointer or is malformed.
    pub fn skip_to_block(&mut self, block: usize) -> (r: Result<(), LsdjError>)
        ensures
            match find_pointer(old(self).data@, 0) {
                Ok(k) => r == Ok::<(), LsdjError>(()) && final(self).position == old(self).position
                    && final(self).data@ == old(self).data@.update(k, block as u8),
                Err(e) => r == Err::<(), LsdjError>(e) && *final(self) == *old(self),
            },
    {
        let mut i: usize = 0;
        while i < BLOCK_SIZE
            invariant
                0 <= i <= BLOCK_SIZE + 1,
                self.data@.len() == BLOCK_SIZE,
                *self == *old(self),
                find_pointer(self.data@, 0) == find_pointer(self.data@, i as int),
            decreases BLOCK_SIZE + 1 - i,
        {
            if self.data[i] != SPECIAL_BYTE {
                i = i + 1;
            } else if i + 1 >= BLOCK_SIZE {
                return Err(LsdjError::BadFormat);
            } else {
                let n = self.data[i + 1];
                if (1 <= n && n as usize <= BLOCK_COUNT) || n == PLACEHOLDER_BYTE {
                    self.data[i + 1] = block as u8;
                    return Ok(());
                } else if n == DEF_INST_BYTE || n == DEF_WAVE_BYTE || n == SPECIAL_BYTE {
                    i = i + 2;
                } else if n == EOF_BYTE {
                    return Err(LsdjError::NoSkip);
                } else {
                    return Err(LsdjError::BadFormat);
                }
            }
        }
        Err(LsdjError::NoSkip)
    }
}

/// Writes the token that encodes `src` at `p` into `dest` at `at`; returns
/// how many source bytes it stands for and its length.
fn emit_token(src: &[u8; SRAM_SIZE], p: usize, dest: &mut [u8; BLOCK_SIZE], at: usize) -> (r: (usize, usize))
    requires
        p < SRAM_SIZE,
        at + 5 <= BLOCK_SIZE,
    ensures
        r.0 == token_at(src@, p as int).1,
        r.1 == token_at(src@, p as int).0.len(),
        final(dest)@ == splice(old(dest)@, at as int, token_at(src@, p as int).0),
{
    proof {
        lemma_token_size(src@, p as int);
    }
    let ghost t = token_at(src@, p as int).0;
    let c = src[p];
    if c == RLE_BYTE {
        dest[at] = RLE_BYTE;
        dest[at + 1] = RLE_BYTE;
        assert(dest@ =~= splice(old(dest)@, at as int, t));
        return (1, 2);
    }
    if c == SPECIAL_BYTE {
        dest[at] = SPECIAL_BYTE;
        dest[at + 1] = SPECIAL_BYTE;
        assert(dest@ =~= splice(old(dest)@, at as int, t));
        return (1, 2);
    }
    assert(DEF_INST_VALUES@ == def_inst());
    assert(DEF_WAVE_VALUES@ == def_wave());
    if p + DEF_SIZE <= SRAM_SIZE && is_def_inst(&src[p..p + DEF_SIZE]) {
        dest[at] = SPECIAL_BYTE;
        dest[at + 1] = DEF_INST_BYTE;
        assert(dest@ =~= splice(old(dest)@, at as int, t));
        return (DEF_SIZE, 2);
    }
    if p + DEF_SIZE <= SRAM_SIZE && is_def_wave(&src[p..p + DEF_SIZE]) {
        dest[at] = SPECIAL_BYTE;
        dest[at + 1] = DEF_WAVE_BYTE;
        assert(dest@ =~= splice(old(dest)@, at as int, t));
        return (DEF_SIZE, 2);
    }
    let mut run: usize = 1;
    while run < 255 && p + run < SRAM_SIZE && src[p + run] == c
        invariant
            1 <= run <= 255,
            p < SRAM_SIZE,
            c == src@[p as int],
            run_len(src@, p as int) == 1 + run_extra(src@, p as int, (run - 1) as nat),
        decreases 255 - run,
    {
        run = run + 1;
    }
    assert(run_len(src@, p as int) == run);
    if run <= 3 {
        let mut k: usize = 0;
        while k < run
            invariant
                0 <= k <= run <= 3,
                at + 5 <= BLOCK_SIZE,
                forall|j: int| 0 <= j < at ==> dest@[j] == old(dest)@[j],
                forall|j: int| at + run <= j < BLOCK_SIZE ==> dest@[j] == old(dest)@[j],
                forall|j: int| at <= j < at + k ==> dest@[j] == c,
            decreases run - k,
        {
            dest[at + k] = c;
            k = k + 1;
        }
        assert(dest@ =~= splice(old(dest)@, at as int, t));
        (run, run)
    } else {
        dest[at] = RLE_BYTE;
        dest[at + 1] = c;
        dest[at + 2] = run as u8;
        assert(dest@ =~= splice(old(dest)@, at as int, t));
        (run, 3)
    }
}

impl PartialEq for LsdjSram {
    /// Two memories are equal where their bytes are; the cursors do not count.
    fn eq(&self, other: &LsdjSram) -> (r: bool) {
        let mut i: usize = 0;
        while i < SRAM_SIZE
            invariant
                0 <= i <= SRAM_SIZE,
                forall|j: int| 0 <= j < i ==> self.data@[j] == other.data@[j],
            decreases SRAM_SIZE - i,
        {
            if self.data[i] != other.data[i] {
                return false;
            }
            i = i + 1;
        }
        assert(self.data@ =~= other.data@);
        true
    }
}

impl vstd::std_specs::cmp::PartialEqSpecImpl for LsdjSram {
    open spec fn obeys_eq_spec() -> bool {
        true
    }

    open spec fn eq_spec(&self, other: &LsdjSram) -> bool {
        self.data@ == other.data@
    }
}

impl LsdjSram {
    /// Working memory read from the first `SRAM_SIZE` bytes of `bytes`, with
    /// the cursor at 0; `BadFormat` where `bytes` is shorter.
    pub fn from_bytes(bytes: &[u8]) -> (r: Result<LsdjSram, LsdjError>)
        ensures
            bytes@.len() < SRAM_SIZE ==> r == Err::<LsdjSram, LsdjError>(LsdjError::BadFormat),
            bytes@.len() >= SRAM_SIZE ==> (r matches Ok(m) && m.position == 0 && m.data@ == bytes@.take(
                SRAM_SIZE as int,
            )),
    {
        if bytes.len() < SRAM_SIZE {
            return Err(LsdjError::BadFormat);
        }
        let mut m = LsdjSram::empty();
        copy_from(&mut m.data, bytes, 0);
        assert(bytes@.subrange(0, SRAM_SIZE as int) =~= bytes@.take(SRAM_SIZE as int));
        Ok(m)
    }

    /// Working memory whose bytes are all zero, with the cursor at 0.
    pub fn empty() -> (r: LsdjSram)
        ensures
            r.position == 0,
            forall|i: int| 0 <= i < SRAM_SIZE ==> r.data@[i] == 0,
    {
        LsdjSram { position: 0, data: [0u8; SRAM_SIZE] }
    }

    /// Compresses this memory from its cursor on into `dest`, which is block
    /// number `block_num`, and moves the cursor past what was encoded.
    /// Returns 0 where the memory was encoded to its end, else the number of
    /// the block that must receive the rest.
    pub fn compress(&mut self, dest: &mut LsdjBlock, block_num: u8) -> (r: u8)
        requires
            block_num < 255,
        ensures
            ({
                let (t, end, ret) = encode(old(self).data@, old(self).position as int, 0, block_num);
                &&& r == ret
                &&& final(self).position == end
                &&& final(self).data == old(self).data
                &&& final(dest).position == old(dest).position
                &&& final(dest).data@ == splice(old(dest).data@, 0, t)
                &&& t.len() <= BLOCK_SIZE
            }),
    {
        let ghost src = self.data@;
        let ghost full = encode(src, self.position as int, 0, block_num);
        proof {
            lemma_encode_bounds(src, self.position as int, 0, block_num);
        }
        let base = self.position;
        if base >= SRAM_SIZE {
            dest.data[0] = SPECIAL_BYTE;
            dest.data[1] = EOF_BYTE;
            assert(dest.data@ =~= splice(old(dest).data@, 0, full.0));
            return 0;
        }
        let mut offset: usize = 0;
        let mut at: usize = 0;
        while base + offset < SRAM_SIZE
            invariant
                base < SRAM_SIZE,
                base + offset <= SRAM_SIZE,
                block_num < 255,
                at <= BLOCK_SIZE - 2,
                self.data@ == src,
                self.position == base,
                *self == *old(self),
                src.len() == SRAM_SIZE,
                dest.position == old(dest).position,
                full == encode(src, base as int, 0, block_num),
                full.0 == dest.data@.take(at as int) + encode(src, base + offset, at as int, block_num).0,
                full.1 == encode(src, base + offset, at as int, block_num).1,
                full.2 == encode(src, base + offset, at as int, block_num).2,
                forall|j: int| at <= j < BLOCK_SIZE ==> #[trigger] dest.data@[j] == old(dest).data@[j],
            decreases SRAM_SIZE - (base + offset),
        {
            let p = base + offset;
            proof {
                lemma_token_size(src, p as int);
                lemma_encode_bounds(src, p as int, at as int, block_num);
            }
            if at + 5 > BLOCK_SIZE {
                dest.data[at] = SPECIAL_BYTE;
                dest.data[at + 1] = block_num + 1;
                assert(dest.data@ =~= splice(old(dest).data@, 0, full.0));
                self.position = p;
                return block_num + 1;
            }
            let ghost t = token_at(src, p as int).0;
            let ghost rest = encode(src, p + token_at(src, p as int).1, at + t.len(), block_num);
            let ghost before = dest.data@;
            let (adv, len) = emit_token(&self.data, p, &mut dest.data, at);
            offset = offset + adv;
            at = at + len;
            assert(dest.data@.take(at as int) =~= before.take(at - t.len()) + t);
            assert(full.0 =~= dest.data@.take(at as int) + rest.0);
        }
        proof {
            lemma_encode_bounds(src, (base + offset) as int, at as int, block_num);
        }
        dest.data[at] = SPECIAL_BYTE;
        dest.data[at + 1] = EOF_BYTE;
        assert(dest.data@ =~= splice(old(dest).data@, 0, full.0));
        self.position = base + offset;
        0
    }
}

impl LsdjSram {
    /// Compresses the whole memory, from its cursor on, into blocks appended
    /// to `blocks`, the first of them being block number `first_block`, which
    /// must be the number that the next block of `blocks` has. Moves the
    /// cursor to the end and returns the number of blocks written. Fails with
    /// `NoBlocks`, changing nothing, where the blocks would run past block
    /// `BLOCK_COUNT`.
    pub fn compress_into(&mut self, blocks: &mut Vec<LsdjBlock>, first_block: usize) -> (r: Result<u8, LsdjError>)
        requires
            1 <= first_block,
            old(blocks)@.len() == first_block - 1,
        ensures
            !chain_fits(*old(self), first_block) ==> r == Err::<u8, LsdjError>(LsdjError::NoBlocks)
                && *final(self) == *old(self) && final(blocks)@ == old(blocks)@,
            chain_fits(*old(self), first_block) ==> ({
                let chain = encode_chain(old(self).data@, old(self).position as int, first_block as u8);
                &&& r == Ok::<u8, LsdjError>(chain.len() as u8)
                &&& holds_chain(old(blocks)@, final(blocks)@, chain)
                &&& final(self).data == old(self).data
                &&& old(self).position <= SRAM_SIZE ==> final(self).position == SRAM_SIZE
                &&& old(self).position > SRAM_SIZE ==> final(self).position == old(self).position
            }),
    {
        if first_block > BLOCK_COUNT {
            return Err(LsdjError::NoBlocks);
        }
        let ghost src = self.data@;
        let pos0 = self.position;
        let ghost whole = encode_chain(src, pos0 as int, first_block as u8);
        let ghost done: Seq<Seq<u8>> = Seq::empty();
        let mut out: Vec<LsdjBlock> = Vec::new();
        let mut current: usize = first_block;
        let mut written: u8 = 0;
        assert(whole == done + encode_chain(src, self.position as int, current as u8));
        loop
            invariant_except_break
                whole == done + encode_chain(src, self.position as int, current as u8),
                current == first_block + done.len(),
                done.len() > 0 ==> self.position < SRAM_SIZE,
                done.len() > 0 ==> self.position >= pos0 + 254 * done.len(),
                done.len() == 0 ==> self.position == pos0,
            invariant
                src.len() == SRAM_SIZE,
                self.data@ == src,
                self.data == old(self).data,
                pos0 == old(self).position,
                whole == encode_chain(src, pos0 as int, first_block as u8),
                written == done.len(),
                out@.len() == done.len(),
                first_block - 1 + done.len() <= current,
                current <= BLOCK_COUNT,
                forall|j: int| 0 <= j < done.len() ==> {
                    &&& (#[trigger] out@[j]).position == 0
                    &&& out@[j].data@ == splice(zero_block(), 0, done[j])
                },
                1 <= first_block <= BLOCK_COUNT,
            ensures
                whole == done,
                written == done.len(),
                out@.len() == done.len(),
                first_block - 1 + done.len() <= BLOCK_COUNT,
                forall|j: int| 0 <= j < done.len() ==> {
                    &&& (#[trigger] out@[j]).position == 0
                    &&& out@[j].data@ == splice(zero_block(), 0, done[j])
                },
                self.data == old(self).data,
                pos0 <= SRAM_SIZE ==> self.position == SRAM_SIZE,
                pos0 > SRAM_SIZE ==> self.position == pos0,
            decreases SRAM_SIZE - self.position,
        {
            let ghost p = self.position as int;
            proof {
                lemma_encode_bounds(src, p, 0, current as u8);
            }
            let mut block = LsdjBlock::empty();
            assert(block.data@ =~= zero_block());
            let next = self.compress(&mut block, current as u8);
            let ghost t = encode(src, p, 0, current as u8).0;
            let ghost prev = out@;
            let ghost prev_done = done;
            out.push(block);
            written = written + 1;
            proof {
                done = done.push(t);
                assert forall|j: int| 0 <= j < done.len() implies {
                    &&& (#[trigger] out@[j]).position == 0
                    &&& out@[j].data@ == splice(zero_block(), 0, done[j])
                } by {
                    if j < prev_done.len() {
                        assert(out@[j] == prev[j]);
                        assert(done[j] == prev_done[j]);
                    }
                }
            }
            if next == 0 {
                assert(whole =~= done);
                break;
            }
            assert(whole =~= done + encode_chain(src, self.position as int, (current + 1) as u8));
            if current >= BLOCK_COUNT {
                assert(encode_chain(src, self.position as int, (current + 1) as u8).len() >= 1);
                self.position = pos0;
                return Err(LsdjError::NoBlocks);
            }
            current = current + 1;
        }
        let ghost len0 = blocks@.len();
        let mut k: usize = 0;
        while k < out.len()
            invariant
                0 <= k <= out@.len(),
                len0 == old(blocks)@.len(),
                blocks@ == old(blocks)@ + out@.take(k as int),
            decreases out@.len() - k,
        {
            blocks.push(out[k]);
            k = k + 1;
            assert(blocks@ =~= old(blocks)@ + out@.take(k as int));
        }
        assert(out@.take(out@.len() as int) =~= out@);
        assert(blocks@.take(old(blocks)@.len() as int) =~= old(blocks)@);
        assert forall|j: int| 0 <= j < done.len() implies {
            &&& (#[trigger] blocks@[old(blocks)@.len() + j]).position == 0
            &&& blocks@[old(blocks)@.len() + j].data@ == splice(zero_block(), 0, done[j])
        } by {
            assert(blocks@[old(blocks)@.len() + j] == out@[j]);
        }
        Ok(written)
    }
}

/// Operations on a list of blocks.
pub trait LsdjBlockExt<T> {
    /// The blocks of the list, in order.
    spec fn block_list(&self) -> Seq<LsdjBlock>;

    /// Decompresses the blocks into `dest`, starting with the block at list
    /// index `start_index` and following each block's successor (a 1-based
    /// list index) until the data ends or the index leaves the list. Returns
    /// the number of blocks decompressed.
    fn decompress_to(&self, dest: &mut LsdjSram, start_index: usize) -> (r: Result<u8, LsdjError>)
        ensures
            ({
                let (count, mem, pos) = decompress_chain(
                    self.block_list(),
                    old(dest).data@,
                    old(dest).position as int,
                    start_index as int,
                    0,
                );
                &&& final(dest).data@ == mem
                &&& final(dest).position == pos
                &&& match count {
                    Some(k) => r == Ok::<u8, LsdjError>(k as u8),
                    None => r == Err::<u8, LsdjError>(LsdjError::BadFormat),
                }
            }),
    ;

    /// All bytes of all blocks, one block after another.
    fn bytes(&self) -> (r: Vec<u8>)
        ensures
            r@ == block_bytes(self.block_list()),
    ;
}

impl LsdjBlockExt<LsdjBlock> for Vec<LsdjBlock> {
    open spec fn block_list(&self) -> Seq<LsdjBlock> {
        self@
    }

    fn decompress_to(&self, dest: &mut LsdjSram, start_index: usize) -> (r: Result<u8, LsdjError>) {
        let ghost whole = decompress_chain(self@, dest.data@, dest.position as int, start_index as int, 0);
        let mut count: u8 = 0;
        let mut current: usize = start_index;
        while current < self.len()
            invariant
                count <= 255,
                whole == decompress_chain(self@, old(dest).data@, old(dest).position as int, start_index as int, 0),
                whole == decompress_chain(self@, dest.data@, dest.position as int, current as int, count as nat),
            decreases 255 - count,
        {
            if count == 255 {
                return Err(LsdjError::BadFormat);
            }
            let next = self[current].decompress(dest);
            match next {
                Err(e) => {
                    return Err(e);
                },
                Ok(n) => {
                    count = count + 1;
                    if n == 0 {
                        return Ok(count);
                    }
                    current = (n - 1) as usize;
                },
            }
        }
        Ok(count)
    }

    fn bytes(&self) -> (r: Vec<u8>) {
        let mut out: Vec<u8> = Vec::new();
        let mut i: usize = 0;
        while i < self.len()
            invariant
                0 <= i <= self@.len(),
                out@ == block_bytes(self@.take(i as int)),
            decreases self@.len() - i,
        {
            append_bytes(&mut out, &self[i].data);
            assert(self@.take(i + 1).drop_last() =~= self@.take(i as int));
            i = i + 1;
        }
        assert(self@.take(self@.len() as int) =~= self@);
        out
    }
}

} // verus!
