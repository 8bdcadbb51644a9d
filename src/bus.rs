use vstd::prelude::*;
use crate::command::{cmd_word, cmd_word_spec, swap16, swap16_spec};
use crate::consts::{
    BACKPLANE_ADDRESS_32BIT_FLAG, BACKPLANE_ADDRESS_MASK, BACKPLANE_MAX_TRANSFER_SIZE,
    BACKPLANE_WINDOW_SIZE, FEEDBEAD, FUNC_BACKPLANE, FUNC_BUS, FUNC_WLAN, HIGH_SPEED, INC_ADDR,
    READ, REG_BACKPLANE_BACKPLANE_ADDRESS_HIGH, REG_BACKPLANE_BACKPLANE_ADDRESS_LOW,
    REG_BACKPLANE_BACKPLANE_ADDRESS_MID, REG_BUS_CTRL, REG_BUS_TEST_RO, REG_BUS_TEST_RW,
    TEST_PATTERN, WORD_LENGTH_32, WRITE,
};
use crate::transport::{
    erase, erase_op, exchanged, lemma_exchanged_fault, lemma_exchanged_none, lemma_exchanged_one,
    lemma_exchanged_then, read_shape, read_words, Op, Transport,
};

verus! {

/// Errors of a bus operation.
#[derive(Debug, PartialEq, Eq)]
pub enum BusError<E> {
    /// The transport failed; its error is passed on unchanged.
    Transport(E),
    /// A block address that is not a multiple of 4.
    Misaligned,
    /// A block transfer that runs past the end of the 32-bit address space.
    OutOfRange,
    /// The device never showed its magic value within the allowed polls.
    HandshakeTimeout,
    /// A test register read back a wrong value during bring-up.
    Integrity,
}

/// The shape of a single-word register write.
pub open spec fn writen_shape(func: u32, addr: u32, val: u32, len: u32) -> Seq<Op> {
    seq![Op::Write(seq![cmd_word_spec(WRITE, INC_ADDR, func, addr, len), val])]
}

/// The shape of a single-word register read: the backplane function inserts
/// one word of turnaround before the payload.
pub open spec fn readn_shape(func: u32, addr: u32, len: u32) -> Seq<Op> {
    let head = seq![Op::Write(seq![cmd_word_spec(READ, INC_ADDR, func, addr, len)])];
    if func == FUNC_BACKPLANE {
        head + seq![read_shape(1), read_shape(1)]
    } else {
        head + seq![read_shape(1)]
    }
}

/// The first word of the last exchange of `t`.
pub open spec fn last_word(t: Seq<Op>) -> u32 {
    read_words(t.last())[0]
}

/// Offset of an address within its backplane window.
pub open spec fn window_offset(addr: u32) -> u32 {
    addr % BACKPLANE_WINDOW_SIZE
}

/// The backplane window holding an address.
pub open spec fn window_of(addr: u32) -> u32 {
    (addr - addr % BACKPLANE_WINDOW_SIZE) as u32
}

/// Byte of `x` at bit position `shift`.
pub open spec fn byte_of(x: u32, shift: u32) -> u32 {
    (x >> shift) & 0xFFu32
}

/// The write of one window register, made when its byte changes or when the
/// device's window is not known.
pub open spec fn window_byte_write(reg: u32, cur: Option<u32>, new: u32, shift: u32) -> Seq<Op> {
    if byte_changes(cur, new, shift) {
        writen_shape(FUNC_BACKPLANE, reg, byte_of(new, shift), 1)
    } else {
        Seq::empty()
    }
}

/// The register writes that move the device from window `cur` to window `new`:
/// high, middle and low byte, each only if it differs. From an unknown window
/// (`None`) all three are written.
pub open spec fn window_writes(cur: Option<u32>, new: u32) -> Seq<Op> {
    window_byte_write(REG_BACKPLANE_BACKPLANE_ADDRESS_HIGH, cur, new, 24)
        + window_byte_write(REG_BACKPLANE_BACKPLANE_ADDRESS_MID, cur, new, 16)
        + window_byte_write(REG_BACKPLANE_BACKPLANE_ADDRESS_LOW, cur, new, 8)
}

/// Length of the next transaction of a block transfer at `addr` with
/// `remaining` bytes left: it stops at the transfer size limit and at the
/// end of the window.
pub open spec fn chunk_len(addr: u32, remaining: nat) -> nat {
    let room = (BACKPLANE_WINDOW_SIZE - window_offset(addr)) as nat;
    let lim = if remaining < BACKPLANE_MAX_TRANSFER_SIZE as nat {
        remaining
    } else {
        BACKPLANE_MAX_TRANSFER_SIZE as nat
    };
    if lim < room {
        lim
    } else {
        room
    }
}

/// Byte `i` of `d`, zero past its end.
pub open spec fn byte_at(d: Seq<u8>, i: int) -> u32 {
    if 0 <= i < d.len() {
        d[i] as u32
    } else {
        0
    }
}

/// The little-endian word made of bytes `i..i + 4` of `d`.
pub open spec fn le_word(d: Seq<u8>, i: int) -> u32 {
    byte_at(d, i) | byte_at(d, i + 1) << 8u32 | byte_at(d, i + 2) << 16u32 | byte_at(d, i + 3)
        << 24u32
}

/// Bytes packed into little-endian words, the last one padded with zeros.
pub open spec fn pack_words(d: Seq<u8>) -> Seq<u32> {
    Seq::new((d.len() + 3) / 4, |j: int| le_word(d, 4 * j))
}

/// Bytes `0..n` of little-endian words.
pub open spec fn unpack_bytes(ws: Seq<u32>, n: nat) -> Seq<u8> {
    Seq::new(n, |i: int| #[verifier::truncate] (((ws[i / 4] >> (8 * (i % 4)) as u32) & 0xFFu32) as u8))
}

/// The command word of one backplane block transaction.
pub open spec fn block_cmd(write: bool, addr: u32, n: nat) -> u32 {
    cmd_word_spec(write, INC_ADDR, FUNC_BACKPLANE, window_offset(addr), n as u32)
}

/// The exchanges of one block write transaction of `d` at `addr` from cached
/// window `win`: the window selection, the command and the packed payload.
pub open spec fn write_chunk_shape(win: Option<u32>, addr: u32, d: Seq<u8>) -> Seq<Op> {
    window_writes(win, window_of(addr)) + seq![
        Op::Write(seq![block_cmd(WRITE, addr, d.len())]),
        Op::Write(pack_words(d)),
    ]
}

/// Addresses `x` and `x + k` lie in one window when `k` stays within its room.
pub proof fn lemma_same_window(x: u32, k: nat)
    requires
        window_offset(x) + k < BACKPLANE_WINDOW_SIZE,
    ensures
        window_of((x + k) as u32) == window_of(x),
        window_offset((x + k) as u32) == window_offset(x) + k,
{
    let q = x / 0x8000;
    assert(x == q * 0x8000 + x % 0x8000);
    assert(((x + k) as u32) == q * 0x8000 + (x % 0x8000 + k));
    vstd::arithmetic::div_mod::lemma_fundamental_div_mod_converse(
        (x + k) as int,
        0x8000,
        q as int,
        (x % 0x8000 + k) as int,
    );
}

/// The exchanges of one block read transaction of `n` bytes at `addr` from
/// cached window `win`: the window selection, the command, one word of
/// turnaround and the payload words.
pub open spec fn read_chunk_shape(win: Option<u32>, addr: u32, n: nat) -> Seq<Op> {
    window_writes(win, window_of(addr)) + seq![
        Op::Write(seq![block_cmd(READ, addr, n)]),
        read_shape(1),
        read_shape((n + 3) / 4),
    ]
}

/// The exchanges of a block read of `len` bytes at `addr` from cached window `win`.
pub open spec fn bp_read_shape(win: Option<u32>, addr: u32, len: nat) -> Seq<Op>
    decreases len,
{
    if len == 0 {
        Seq::empty()
    } else {
        let n = chunk_len(addr, len);
        read_chunk_shape(win, addr, n) + bp_read_shape(Some(window_of(addr)), (addr + n) as u32, (len - n) as nat)
    }
}

/// The bytes that a block read of `len` bytes at `addr` from cached window
/// `win` delivers, taken from the payload words of the exchanges `ops`.
pub open spec fn read_data(win: Option<u32>, addr: u32, len: nat, ops: Seq<Op>) -> Seq<u8>
    decreases len,
{
    if len == 0 {
        Seq::empty()
    } else {
        let n = chunk_len(addr, len);
        let k = window_writes(win, window_of(addr)).len() as int;
        unpack_bytes(read_words(ops[k + 2]), n) + read_data(
            Some(window_of(addr)),
            (addr + n) as u32,
            (len - n) as nat,
            ops.skip(k + 3),
        )
    }
}

/// Address field of a single backplane access: the window offset, with the
/// word-wide flag for 4-byte accesses.
pub open spec fn bp_bus_addr(addr: u32, len: u32) -> u32 {
    if len == 4 {
        window_offset(addr) | BACKPLANE_ADDRESS_32BIT_FLAG
    } else {
        window_offset(addr)
    }
}

/// The exchanges of a single backplane read: window selection, then the read.
pub open spec fn bp_readn_shape(win: Option<u32>, addr: u32, len: u32) -> Seq<Op> {
    window_writes(win, window_of(addr)) + readn_shape(FUNC_BACKPLANE, bp_bus_addr(addr, len), len)
}

/// The exchanges of a single backplane write: window selection, then the write.
pub open spec fn bp_writen_shape(win: Option<u32>, addr: u32, val: u32, len: u32) -> Seq<Op> {
    window_writes(win, window_of(addr)) + writen_shape(FUNC_BACKPLANE, bp_bus_addr(addr, len), val, len)
}

/// Number of words that hold `len` bytes.
pub open spec fn words_for(len: nat) -> nat {
    (len + 3) / 4
}

/// The exchanges of a data-path read of `len` bytes.
pub open spec fn wlan_read_shape(len: u32) -> Seq<Op> {
    seq![
        Op::Write(seq![cmd_word_spec(READ, INC_ADDR, FUNC_WLAN, 0, len)]),
        read_shape(words_for(len as nat)),
    ]
}

/// The exchanges of a data-path write of `words`.
pub open spec fn wlan_write_shape(words: Seq<u32>) -> Seq<Op> {
    seq![
        Op::Write(seq![cmd_word_spec(WRITE, INC_ADDR, FUNC_WLAN, 0, (words.len() * 4) as u32)]),
        Op::Write(words),
    ]
}

/// The exchanges of a bus-function word read with half-words exchanged.
pub open spec fn read_swapped_shape(addr: u32) -> Seq<Op> {
    seq![
        Op::Write(seq![swap16_spec(cmd_word_spec(READ, INC_ADDR, FUNC_BUS, addr, 4))]),
        read_shape(1),
    ]
}

/// The exchanges of a bus-function word write with half-words exchanged.
pub open spec fn write_swapped_shape(addr: u32, val: u32) -> Seq<Op> {
    seq![Op::Write(seq![swap16_spec(cmd_word_spec(WRITE, INC_ADDR, FUNC_BUS, addr, 4)), swap16_spec(val)])]
}

/// The exchanges of `n` polls of the read-only test register.
pub open spec fn poll_shape(n: nat) -> Seq<Op>
    decreases n,
{
    if n == 0 {
        Seq::empty()
    } else {
        poll_shape((n - 1) as nat) + read_swapped_shape(REG_BUS_TEST_RO)
    }
}

/// The value that poll `i` of a handshake whose exchanges are `t` saw.
pub open spec fn polled(t: Seq<Op>, i: int) -> u32 {
    swap16_spec(read_words(t[2 * i + 1])[0])
}

/// The first word of exchange `i` of `t`.
pub open spec fn word_at(t: Seq<Op>, i: int) -> u32 {
    read_words(t[i])[0]
}

/// The magic value showed at poll `p` and at no earlier poll.
pub open spec fn magic_at(t: Seq<Op>, p: nat) -> bool {
    &&& p >= 1
    &&& forall|i: int| 0 <= i < p - 1 ==> polled(t, i) != FEEDBEAD
    &&& polled(t, p - 1) == FEEDBEAD
}

/// The exchanges of the handshake after the magic value showed: the test
/// pattern written and read back swapped, the configuration written swapped,
/// and both test registers read back in the configured word order.
pub open spec fn check_shape() -> Seq<Op> {
    write_swapped_shape(REG_BUS_TEST_RW, TEST_PATTERN) + read_swapped_shape(REG_BUS_TEST_RW)
        + write_swapped_shape(REG_BUS_CTRL, WORD_LENGTH_32 | HIGH_SPEED) + readn_shape(
        FUNC_BUS,
        REG_BUS_TEST_RO,
        4,
    ) + readn_shape(FUNC_BUS, REG_BUS_TEST_RW, 4)
}

/// The read-backs of a handshake whose magic value showed at poll `p`, up to
/// exchange `m`, all gave the expected values.
pub open spec fn checks_pass(t: Seq<Op>, p: nat, m: int) -> bool {
    &&& m > 2 * p + 2 ==> swap16_spec(word_at(t, 2 * p + 2 as int)) == TEST_PATTERN
    &&& m > 2 * p + 5 ==> word_at(t, 2 * p + 5 as int) == FEEDBEAD
    &&& m > 2 * p + 7 ==> word_at(t, 2 * p + 7 as int) == TEST_PATTERN
}

/// The exchanges of a handshake whose magic value showed at poll `p`.
pub open spec fn init_shape(p: nat) -> Seq<Op> {
    poll_shape(p) + check_shape()
}

/// The exchanges of a block write of `data` at `addr` from cached window `win`:
/// for each chunk, the window selection, the command and the packed payload.
pub open spec fn bp_write_shape(win: Option<u32>, addr: u32, data: Seq<u8>) -> Seq<Op>
    decreases data.len(),
{
    if data.len() == 0 {
        Seq::empty()
    } else {
        let n = chunk_len(addr, data.len());
        write_chunk_shape(win, addr, data.take(n as int)) + bp_write_shape(Some(window_of(addr)), (addr + n) as u32, data.skip(n as int))
    }
}

/// Byte `i` of `data[start..start + n]` as a word, zero past its end.
fn byte_or_zero(data: &[u8], start: usize, n: usize, i: usize) -> (r: u32)
    requires
        start + n <= data@.len(),
    ensures
        r == byte_at(data@.subrange(start as int, start + n), i as int),
{
    let len = data.len();
    if i < n {
        assert(start + i < len);
        data[start + i] as u32
    } else {
        0
    }
}

/// Packs `data[start..start + n]` into little-endian words.
fn pack_chunk(data: &[u8], start: usize, n: usize) -> (r: Vec<u32>)
    requires
        start + n <= data@.len(),
        n <= BACKPLANE_MAX_TRANSFER_SIZE,
    ensures
        r@ == pack_words(data@.subrange(start as int, start + n)),
{
    let ghost d = data@.subrange(start as int, start + n);
    let nwords = (n + 3) / 4;
    let mut words: Vec<u32> = Vec::new();
    let mut j: usize = 0;
    while j < nwords
        invariant
            start + n <= data@.len(),
            n <= BACKPLANE_MAX_TRANSFER_SIZE,
            d == data@.subrange(start as int, start + n),
            nwords == (n + 3) / 4,
            j <= nwords,
            words@.len() == j,
            forall|k: int| 0 <= k < j ==> words@[k] == le_word(d, 4 * k),
        decreases nwords - j,
    {
        let w = byte_or_zero(data, start, n, 4 * j) | byte_or_zero(data, start, n, 4 * j + 1) << 8u32
            | byte_or_zero(data, start, n, 4 * j + 2) << 16u32 | byte_or_zero(data, start, n, 4 * j + 3)
            << 24u32;
        words.push(w);
        j += 1;
    }
    assert(words@ =~= pack_words(d));
    words
}

/// One more transaction of a block read extends the bytes delivered so far.
proof fn lemma_read_step(
    w0: Option<u32>,
    addr: u32,
    total: nat,
    done: Seq<Op>,
    c: Seq<Op>,
    dprev: Seq<u8>,
    dnew: Seq<u8>,
    pos: nat,
    n: nat,
    win: Option<u32>,
    cur: u32,
    rem: nat,
)
    requires
        forall|x: Seq<Op>| read_data(w0, addr, total, done + x) == dprev.take(pos as int) + read_data(win, cur, rem, x),
        rem > 0,
        n == chunk_len(cur, rem),
        c.len() == window_writes(win, window_of(cur)).len() + 3,
        dnew.take((pos + n) as int) == dprev.take(pos as int) + unpack_bytes(read_words(c.last()), n),
    ensures
        forall|x: Seq<Op>| read_data(w0, addr, total, (done + c) + x)
            == dnew.take((pos + n) as int) + read_data(Some(window_of(cur)), (cur + n) as u32, (rem - n) as nat, x),
{
    let k = window_writes(win, window_of(cur)).len() as int;
    assert forall|x: Seq<Op>| read_data(w0, addr, total, (done + c) + x)
        == dnew.take((pos + n) as int) + read_data(Some(window_of(cur)), (cur + n) as u32, (rem - n) as nat, x) by {
        assert((done + c) + x =~= done + (c + x));
        assert((c + x).skip(k + 3) =~= x);
        assert((c + x)[k + 2] == c.last());
        assert(read_data(w0, addr, total, done + (c + x)) == dprev.take(pos as int) + read_data(win, cur, rem, c + x));
        assert(dprev.take(pos as int) + (unpack_bytes(read_words(c.last()), n) + read_data(Some(window_of(cur)), (cur + n) as u32, (rem - n) as nat, x))
            =~= dnew.take((pos + n) as int) + read_data(Some(window_of(cur)), (cur + n) as u32, (rem - n) as nat, x));
    }
}

/// The low byte of a word.
fn narrow_8(v: u32) -> (r: u8)
    ensures
        r as u32 == v & 0xFF,
{
    assert(v & 0xFF < 0x100) by (bit_vector);
    (v & 0xFF) as u8
}

/// The low half-word of a word.
fn narrow_16(v: u32) -> (r: u16)
    ensures
        r as u32 == v & 0xFFFF,
{
    assert(v & 0xFFFF < 0x10000) by (bit_vector);
    (v & 0xFFFF) as u16
}

/// A word, whole.
fn narrow_32(v: u32) -> (r: u32)
    ensures
        r == v,
{
    v
}

/// The exchanges of `k` polls.
pub open spec fn poll_rest(k: nat) -> Seq<Op>
    decreases k,
{
    if k == 0 {
        Seq::empty()
    } else {
        read_swapped_shape(REG_BUS_TEST_RO) + poll_rest((k - 1) as nat)
    }
}

proof fn lemma_poll_tail(i: nat, k: nat)
    ensures
        poll_shape(i + 1) + poll_rest(k) == poll_shape(i + 1 + k),
    decreases k,
{
    if k > 0 {
        lemma_poll_tail(i + 1, (k - 1) as nat);
        assert(poll_shape(i + 2) == poll_shape(i + 1) + read_swapped_shape(REG_BUS_TEST_RO));
        assert(poll_shape(i + 1) + poll_rest(k) =~= poll_shape(i + 2) + poll_rest((k - 1) as nat));
    }
}

proof fn lemma_poll_shape_len(n: nat)
    ensures
        poll_shape(n).len() == 2 * n,
    decreases n,
{
    if n > 0 {
        lemma_poll_shape_len((n - 1) as nat);
    }
}

/// Later exchanges leave earlier ones in place.
proof fn lemma_exchanged_keeps(a: Seq<Op>, b: Seq<Op>, s: Seq<Op>, ok: bool)
    requires
        exchanged(a, b, s, ok),
    ensures
        forall|i: int| 0 <= i < a.len() ==> b[i] == a[i],
{
    assert forall|i: int| 0 <= i < a.len() implies b[i] == a[i] by {
        assert(b.take(a.len() as int)[i] == b[i]);
    }
}

proof fn lemma_fault_last(a: Seq<Op>, b: Seq<Op>, s: Seq<Op>)
    requires
        exchanged(a, b, s, false),
    ensures
        a.len() < b.len(),
        b.last() == Op::Fault,
        b.take(a.len() as int) == a,
{
    let k = choose|k: int| 0 <= k < s.len() && erase(b.skip(a.len() as int)) == s.take(k).push(Op::Fault);
    let d = b.skip(a.len() as int);
    assert(erase(d).last() == erase_op(d.last()));
    assert(d.last() == b.last());
}

/// Exchanges after `t0` that `b` still holds as `a` had them.
proof fn lemma_suffix_keeps(t0: Seq<Op>, a: Seq<Op>, b: Seq<Op>)
    requires
        t0.len() <= a.len() <= b.len(),
        b.take(a.len() as int) == a,
    ensures
        forall|i: int| 0 <= i < a.len() - t0.len() ==> #[trigger] b.skip(t0.len() as int)[i] == a.skip(t0.len() as int)[i],
{
    assert forall|i: int| 0 <= i < a.len() - t0.len() implies #[trigger] b.skip(t0.len() as int)[i] == a.skip(t0.len() as int)[i] by {
        assert(b.take(a.len() as int)[t0.len() + i] == b[t0.len() + i]);
    }
}

proof fn lemma_prefix_trans(a: Seq<Op>, b: Seq<Op>, c: Seq<Op>)
    requires
        a.len() <= b.len() <= c.len(),
        b.take(a.len() as int) == a,
        c.take(b.len() as int) == b,
    ensures
        c.take(a.len() as int) == a,
{
    assert(c.take(a.len() as int) =~= c.take(b.len() as int).take(a.len() as int));
}

proof fn lemma_magic_keeps(sa: Seq<Op>, sb: Seq<Op>, p: nat)
    requires
        2 * p <= sa.len(),
        forall|i: int| 0 <= i < sa.len() ==> #[trigger] sb[i] == sa[i],
        magic_at(sa, p),
    ensures
        magic_at(sb, p),
{
    assert forall|i: int| 0 <= i < p implies polled(sb, i) == polled(sa, i) by {
        assert(sb[2 * i + 1] == sa[2 * i + 1]);
    }
}

/// The transactions of a block transfer of `len` bytes at `addr`: start
/// address and length of each.
pub open spec fn block_chunks(addr: u32, len: nat) -> Seq<(u32, nat)>
    decreases len,
{
    if len == 0 {
        Seq::empty()
    } else {
        let n = chunk_len(addr, len);
        seq![(addr, n)] + block_chunks((addr + n) as u32, (len - n) as nat)
    }
}

/// The exchanges of block write transactions `chunks` over `data`, from
/// cached window `win`.
pub open spec fn write_chunks(win: Option<u32>, chunks: Seq<(u32, nat)>, data: Seq<u8>) -> Seq<Op>
    decreases chunks.len(),
{
    if chunks.len() == 0 {
        Seq::empty()
    } else {
        write_chunk_shape(win, chunks[0].0, data.take(chunks[0].1 as int)) + write_chunks(
            Some(window_of(chunks[0].0)),
            chunks.skip(1),
            data.skip(chunks[0].1 as int),
        )
    }
}

/// The exchanges of block read transactions `chunks`, from cached window `win`.
pub open spec fn read_chunks(win: Option<u32>, chunks: Seq<(u32, nat)>) -> Seq<Op>
    decreases chunks.len(),
{
    if chunks.len() == 0 {
        Seq::empty()
    } else {
        read_chunk_shape(win, chunks[0].0, chunks[0].1) + read_chunks(Some(window_of(chunks[0].0)), chunks.skip(1))
    }
}

/// A block write is one transaction per entry of `block_chunks`, in order.
pub proof fn lemma_write_shape_by_chunks(win: Option<u32>, addr: u32, data: Seq<u8>)
    ensures
        bp_write_shape(win, addr, data) == write_chunks(win, block_chunks(addr, data.len()), data),
    decreases data.len(),
{
    if data.len() > 0 {
        let n = chunk_len(addr, data.len());
        let rest = block_chunks((addr + n) as u32, (data.len() - n) as nat);
        lemma_write_shape_by_chunks(Some(window_of(addr)), (addr + n) as u32, data.skip(n as int));
        assert(block_chunks(addr, data.len()).skip(1) =~= rest);
    }
}

/// A block read is one transaction per entry of `block_chunks`, in order.
pub proof fn lemma_read_shape_by_chunks(win: Option<u32>, addr: u32, len: nat)
    ensures
        bp_read_shape(win, addr, len) == read_chunks(win, block_chunks(addr, len)),
    decreases len,
{
    if len > 0 {
        let n = chunk_len(addr, len);
        let rest = block_chunks((addr + n) as u32, (len - n) as nat);
        lemma_read_shape_by_chunks(Some(window_of(addr)), (addr + n) as u32, (len - n) as nat);
        assert(block_chunks(addr, len).skip(1) =~= rest);
    }
}

/// Each transaction of a block transfer has the length
/// `min(remaining, BACKPLANE_MAX_TRANSFER_SIZE, window_remaining)`, is not
/// empty, and stays inside the window of its start address.
pub proof fn lemma_chunk_len_bounds(addr: u32, remaining: nat)
    requires
        remaining > 0,
    ensures
        1 <= chunk_len(addr, remaining),
        chunk_len(addr, remaining) <= remaining,
        chunk_len(addr, remaining) <= BACKPLANE_MAX_TRANSFER_SIZE,
        chunk_len(addr, remaining) <= BACKPLANE_WINDOW_SIZE - window_offset(addr),
        chunk_len(addr, remaining) == remaining || chunk_len(addr, remaining)
            == BACKPLANE_MAX_TRANSFER_SIZE || chunk_len(addr, remaining) == BACKPLANE_WINDOW_SIZE
            - window_offset(addr),
{
}

/// No transaction of a block transfer crosses a window boundary: offset plus
/// length stays within the window, for every transaction of the transfer.
/// Each one starts inside the transfer and has the length
/// `min(remaining, BACKPLANE_MAX_TRANSFER_SIZE, window_remaining)` for the
/// bytes that remain from its start.
pub proof fn lemma_block_chunks_stay_in_window(addr: u32, len: nat)
    requires
        addr + len <= 0x1_0000_0000,
    ensures
        forall|i: int| 0 <= i < block_chunks(addr, len).len() ==>
            window_offset(#[trigger] block_chunks(addr, len)[i].0) + block_chunks(addr, len)[i].1
                <= BACKPLANE_WINDOW_SIZE,
        forall|i: int| 0 <= i < block_chunks(addr, len).len() ==>
            1 <= (#[trigger] block_chunks(addr, len)[i]).1 <= BACKPLANE_MAX_TRANSFER_SIZE,
        forall|i: int| 0 <= i < block_chunks(addr, len).len() ==> {
            &&& addr <= (#[trigger] block_chunks(addr, len)[i]).0 < addr + len
            &&& block_chunks(addr, len)[i].1 == chunk_len(
                block_chunks(addr, len)[i].0,
                (len - (block_chunks(addr, len)[i].0 - addr)) as nat,
            )
        },
    decreases len,
{
    if len > 0 {
        let n = chunk_len(addr, len);
        lemma_chunk_len_bounds(addr, len);
        lemma_block_chunks_stay_in_window((addr + n) as u32, (len - n) as nat);
        let rest = block_chunks((addr + n) as u32, (len - n) as nat);
        assert forall|i: int| 0 <= i < block_chunks(addr, len).len() implies
            window_offset(#[trigger] block_chunks(addr, len)[i].0) + block_chunks(addr, len)[i].1
                <= BACKPLANE_WINDOW_SIZE && 1 <= block_chunks(addr, len)[i].1 <= BACKPLANE_MAX_TRANSFER_SIZE
                && addr <= block_chunks(addr, len)[i].0 < addr + len
                && block_chunks(addr, len)[i].1 == chunk_len(
                    block_chunks(addr, len)[i].0,
                    (len - (block_chunks(addr, len)[i].0 - addr)) as nat,
                ) by {
            if i > 0 {
                assert(block_chunks(addr, len)[i] == rest[i - 1]);
            }
        }
    }
}

/// A real window: its offset bits are zero.
pub open spec fn is_window(w: u32) -> bool {
    w == window_of(w)
}

proof fn lemma_window_of_is_window(addr: u32)
    ensures
        is_window(window_of(addr)),
{
    assert(addr - addr % 0x8000 == addr & 0xFFFF8000u32) by (bit_vector);
    assert((addr & 0xFFFF8000u32) - (addr & 0xFFFF8000u32) % 0x8000 == addr & 0xFFFF8000u32) by (bit_vector);
}

/// Selecting a window costs at most three register writes; from an unknown
/// window exactly three, the full window; from a known window none exactly
/// when it already is that window.
pub proof fn lemma_window_writes_count(cur: Option<u32>, addr: u32)
    ensures
        window_writes(cur, window_of(addr)).len() <= 3,
        cur is None ==> window_writes(cur, window_of(addr)) == seq![
            writen_shape(FUNC_BACKPLANE, REG_BACKPLANE_BACKPLANE_ADDRESS_HIGH, byte_of(window_of(addr), 24), 1)[0],
            writen_shape(FUNC_BACKPLANE, REG_BACKPLANE_BACKPLANE_ADDRESS_MID, byte_of(window_of(addr), 16), 1)[0],
            writen_shape(FUNC_BACKPLANE, REG_BACKPLANE_BACKPLANE_ADDRESS_LOW, byte_of(window_of(addr), 8), 1)[0],
        ],
        cur is Some && is_window(cur->Some_0) ==> (window_writes(cur, window_of(addr)).len() == 0 <==> window_of(addr) == cur->Some_0),
{
    let w = window_of(addr);
    if cur is None {
        assert(window_writes(cur, w) =~= seq![
            writen_shape(FUNC_BACKPLANE, REG_BACKPLANE_BACKPLANE_ADDRESS_HIGH, byte_of(w, 24), 1)[0],
            writen_shape(FUNC_BACKPLANE, REG_BACKPLANE_BACKPLANE_ADDRESS_MID, byte_of(w, 16), 1)[0],
            writen_shape(FUNC_BACKPLANE, REG_BACKPLANE_BACKPLANE_ADDRESS_LOW, byte_of(w, 8), 1)[0],
        ]);
    }
    if let Some(c) = cur {
        assert(addr - addr % 0x8000 == addr & 0xFFFF8000u32) by (bit_vector);
        assert(c - c % 0x8000 == c & 0xFFFF8000u32) by (bit_vector);
        assert(c == c & 0xFFFF8000u32 && ((addr & 0xFFFF8000u32) >> 24u32) & 0xFFu32 == (c >> 24u32) & 0xFFu32
            && ((addr & 0xFFFF8000u32) >> 16u32) & 0xFFu32 == (c >> 16u32) & 0xFFu32
            && ((addr & 0xFFFF8000u32) >> 8u32) & 0xFFu32 == (c >> 8u32) & 0xFFu32 ==> (addr & 0xFFFF8000u32) == c) by (bit_vector);
    }
}

/// The window-register writes made by a run of single backplane accesses at
/// `addrs`, starting from cached window `cur`.
pub open spec fn window_writes_seq(cur: Option<u32>, addrs: Seq<u32>) -> Seq<Op>
    decreases addrs.len(),
{
    if addrs.len() == 0 {
        Seq::empty()
    } else {
        window_writes(cur, window_of(addrs[0])) + window_writes_seq(Some(window_of(addrs[0])), addrs.skip(1))
    }
}

/// After the first of a run of accesses that all fall into one window, the
/// others cost no window-register writes.
pub proof fn lemma_same_window_run(cur: Option<u32>, addrs: Seq<u32>)
    requires
        addrs.len() > 0,
        forall|i: int| 0 <= i < addrs.len() ==> window_of(#[trigger] addrs[i]) == window_of(addrs[0]),
    ensures
        window_writes_seq(cur, addrs) == window_writes(cur, window_of(addrs[0])),
    decreases addrs.len(),
{
    let w = window_of(addrs[0]);
    lemma_window_of_is_window(addrs[0]);
    let rest = addrs.skip(1);
    if rest.len() > 0 {
        assert forall|i: int| 0 <= i < rest.len() implies window_of(#[trigger] rest[i]) == window_of(rest[0]) by {
            assert(rest[i] == addrs[i + 1]);
            assert(rest[0] == addrs[1]);
        }
        lemma_same_window_run(Some(w), rest);
        assert(window_of(rest[0]) == w) by {
            assert(rest[0] == addrs[1]);
        }
        lemma_window_writes_count(Some(w), rest[0]);
        assert(window_writes(Some(w), window_of(rest[0])) =~= Seq::<Op>::empty());
    }
    assert(window_writes(cur, w) + window_writes_seq(Some(w), rest) =~= window_writes(cur, w));
}

/// Whether the byte of `new` at `shift` must be written from cached window `cur`.
pub open spec fn byte_changes(cur: Option<u32>, new: u32, shift: u32) -> bool {
    match cur {
        Some(c) => byte_of(new, shift) != byte_of(c, shift),
        None => true,
    }
}

/// Number of window bytes (high, middle, low) that differ between `cur` and
/// `new`; all three when `cur` is unknown.
pub open spec fn changed_bytes(cur: Option<u32>, new: u32) -> nat {
    (if byte_changes(cur, new, 24) { 1nat } else { 0nat }) + (if byte_changes(cur, new, 16) { 1nat } else { 0nat }) + (
    if byte_changes(cur, new, 8) { 1nat } else { 0nat })
}

/// Sum of `changed_bytes` over a run of accesses, each compared with the
/// window selected just before it.
pub open spec fn changed_bytes_seq(cur: Option<u32>, addrs: Seq<u32>) -> nat
    decreases addrs.len(),
{
    if addrs.len() == 0 {
        0
    } else {
        changed_bytes(cur, window_of(addrs[0])) + changed_bytes_seq(Some(window_of(addrs[0])), addrs.skip(1))
    }
}

/// Over a run of backplane accesses, the window-register writes number the
/// differing window bytes of each access against the window just before it.
pub proof fn lemma_window_writes_sum(cur: Option<u32>, addrs: Seq<u32>)
    ensures
        window_writes_seq(cur, addrs).len() == changed_bytes_seq(cur, addrs),
    decreases addrs.len(),
{
    if addrs.len() > 0 {
        lemma_window_writes_sum(Some(window_of(addrs[0])), addrs.skip(1));
    }
}

/// How many of the accesses at `addrs`, starting from cached window `cur`,
/// fall into another window than the one before them (the first one always
/// does when the window is unknown).
pub open spec fn window_changes(cur: Option<u32>, addrs: Seq<u32>) -> nat
    decreases addrs.len(),
{
    if addrs.len() == 0 {
        0
    } else {
        (if Some(window_of(addrs[0])) != cur { 1nat } else { 0nat }) + window_changes(
            Some(window_of(addrs[0])),
            addrs.skip(1),
        )
    }
}

/// How many of the accesses at `addrs`, starting from cached window `cur`,
/// write any window register.
pub open spec fn window_selections(cur: Option<u32>, addrs: Seq<u32>) -> nat
    decreases addrs.len(),
{
    if addrs.len() == 0 {
        0
    } else {
        (if window_writes(cur, window_of(addrs[0])).len() > 0 { 1nat } else { 0nat }) + window_selections(
            Some(window_of(addrs[0])),
            addrs.skip(1),
        )
    }
}

/// Over any run of backplane accesses, starting from an unknown or a real
/// window, the accesses that write window registers are exactly those whose
/// window differs from the window of the access before.
pub proof fn lemma_window_selections_are_changes(cur: Option<u32>, addrs: Seq<u32>)
    requires
        cur is Some ==> is_window(cur->Some_0),
    ensures
        window_selections(cur, addrs) == window_changes(cur, addrs),
    decreases addrs.len(),
{
    if addrs.len() > 0 {
        let a0 = addrs[0];
        lemma_window_writes_count(cur, a0);
        lemma_window_of_is_window(a0);
        lemma_window_selections_are_changes(Some(window_of(a0)), addrs.skip(1));
    }
}

/// A fault during the checks of a handshake whose magic value showed at poll
/// `p`: the run is a part of `init_shape(p)` ending in the fault, and the
/// polls stay as they were.
proof fn lemma_init_fault(
    t0: Seq<Op>,
    ta: Seq<Op>,
    tc: Seq<Op>,
    tn: Seq<Op>,
    p: nat,
    sk: Seq<Op>,
    step: Seq<Op>,
)
    requires
        exchanged(t0, ta, poll_shape(p), true),
        magic_at(ta.skip(t0.len() as int), p),
        exchanged(t0, tc, sk, true),
        ta.len() <= tc.len(),
        tc.take(ta.len() as int) == ta,
        exchanged(tc, tn, step, false),
        sk + step == init_shape(p).take((sk + step).len() as int),
        (sk + step).len() <= init_shape(p).len(),
    ensures
        exchanged(t0, tn, init_shape(p), false),
        magic_at(tn.skip(t0.len() as int), p),
        t0.len() < tn.len(),
        tn.take(t0.len() as int) == t0,
        tn.last() == Op::Fault,
{
    let rest = init_shape(p).skip((sk + step).len() as int);
    lemma_exchanged_then(t0, tc, tn, sk, step, false);
    lemma_exchanged_fault(t0, tn, sk + step, rest);
    assert(sk + step + rest =~= init_shape(p));
    lemma_fault_last(tc, tn, step);
    lemma_prefix_trans(ta, tc, tn);
    lemma_poll_shape_len(p);
    lemma_suffix_keeps(t0, ta, tn);
    lemma_magic_keeps(ta.skip(t0.len() as int), tn.skip(t0.len() as int), p);
    lemma_fault_last(t0, tn, init_shape(p));
}

/// A session on the bus: the transport and the cached backplane window.
pub struct Bus<T: Transport> {
    backplane_window: Option<u32>,
    spi: T,
}

impl<T: Transport> Bus<T> {
    /// The window the device is known to have selected, if any.
    pub closed spec fn window(&self) -> Option<u32> {
        self.backplane_window
    }

    /// Every exchange made on the transport so far.
    pub closed spec fn trace(&self) -> Seq<Op> {
        self.spi.trace()
    }

    /// The error of the transport's last failed exchange.
    pub closed spec fn transport_fault(&self) -> Option<T::Error> {
        self.spi.last_fault()
    }

    /// A session that does not know the device's window, so the first
    /// backplane access writes all three window registers.
    pub fn new(spi: T) -> (r: Self)
        ensures
            r.window() is None,
            r.trace() == spi.trace(),
    {
        Bus { backplane_window: None, spi }
    }

    /// The transport.
    pub fn transport(&self) -> (r: &T)
        ensures
            r.trace() == self.trace(),
    {
        &self.spi
    }

    /// Gives the transport back.
    pub fn into_transport(self) -> (r: T)
        ensures
            r.trace() == self.trace(),
    {
        self.spi
    }

    fn writen(&mut self, func: u32, addr: u32, val: u32, len: u32) -> (r: Result<(), BusError<T::Error>>)
        ensures
            r matches Err(BusError::Transport(e)) ==> final(self).transport_fault() == Some(e),
            final(self).window() == old(self).window(),
            exchanged(old(self).trace(), final(self).trace(), writen_shape(func, addr, val, len), r is Ok),
            r is Err ==> r matches Err(BusError::Transport(_)),
    {
        let cmd = cmd_word(WRITE, INC_ADDR, func, addr, len);
        let words: [u32; 2] = [cmd, val];
        let ghost t0 = self.spi.trace();
        let res = self.spi.write(&words);
        proof {
            assert(words@ =~= seq![cmd, val]);
            lemma_exchanged_one(t0, Op::Write(words@));
        }
        match res {
            Ok(()) => Ok(()),
            Err(e) => Err(BusError::Transport(e)),
        }
    }

    fn readn(&mut self, func: u32, addr: u32, len: u32) -> (r: Result<u32, BusError<T::Error>>)
        ensures
            r matches Err(BusError::Transport(e)) ==> final(self).transport_fault() == Some(e),
            final(self).window() == old(self).window(),
            exchanged(old(self).trace(), final(self).trace(), readn_shape(func, addr, len), r is Ok),
            r matches Ok(v) ==> v == last_word(final(self).trace()),
            r is Err ==> r matches Err(BusError::Transport(_)),
    {
        let cmd = cmd_word(READ, INC_ADDR, func, addr, len);
        let words: [u32; 1] = [cmd];
        let mut buf: [u32; 1] = [0];
        let ghost t0 = self.spi.trace();
        let res = self.spi.write(&words);
        proof {
            assert(words@ =~= seq![cmd]);
            lemma_exchanged_one(t0, Op::Write(words@));
        }
        if let Err(e) = res {
            proof {
                lemma_exchanged_fault(t0, self.spi.trace(), seq![Op::Write(words@)], readn_shape(func, addr, len).skip(1));
                assert(seq![Op::Write(words@)] + readn_shape(func, addr, len).skip(1) =~= readn_shape(func, addr, len));
            }
            return Err(BusError::Transport(e));
        }
        let ghost t1 = self.spi.trace();
        let ghost rest: Seq<Op> = if func == FUNC_BACKPLANE { seq![read_shape(1), read_shape(1)] } else { seq![read_shape(1)] };
        if func == FUNC_BACKPLANE {
            let res = self.spi.read(&mut buf);
            proof {
                lemma_exchanged_one(t1, Op::Read(buf@));
                assert(erase_op(Op::Read(buf@)) == read_shape(1)) by {
                    assert(Seq::new(buf@.len(), |i: int| 0u32) =~= Seq::new(1, |i: int| 0u32));
                }
            }
            if let Err(e) = res {
                proof {
                    lemma_exchanged_fault(t1, self.spi.trace(), seq![read_shape(1)], seq![read_shape(1)]);
                    assert(seq![read_shape(1)] + seq![read_shape(1)] =~= rest);
                    lemma_exchanged_then(t0, t1, self.spi.trace(), seq![Op::Write(words@)], rest, false);
                    assert(seq![Op::Write(words@)] + rest =~= readn_shape(func, addr, len));
                }
                return Err(BusError::Transport(e));
            }
        }
        let ghost t2 = self.spi.trace();
        let res = self.spi.read(&mut buf);
        proof {
            lemma_exchanged_one(t2, Op::Read(buf@));
            assert(erase_op(Op::Read(buf@)) == read_shape(1)) by {
                assert(Seq::new(buf@.len(), |i: int| 0u32) =~= Seq::new(1, |i: int| 0u32));
            }
            let ok = res is Ok;
            if func == FUNC_BACKPLANE {
                if !ok {
                    lemma_exchanged_then(t1, t2, self.spi.trace(), seq![read_shape(1)], seq![read_shape(1)], false);
                } else {
                    lemma_exchanged_then(t1, t2, self.spi.trace(), seq![read_shape(1)], seq![read_shape(1)], true);
                }
                assert(seq![read_shape(1)] + seq![read_shape(1)] =~= rest);
            }
            lemma_exchanged_then(t0, t1, self.spi.trace(), seq![Op::Write(words@)], rest, ok);
            assert(seq![Op::Write(words@)] + rest =~= readn_shape(func, addr, len));
        }
        match res {
            Ok(()) => Ok(buf[0]),
            Err(e) => Err(BusError::Transport(e)),
        }
    }

    /// Selects the backplane window of `addr`: writes the high, middle and
    /// low window registers whose byte differs from the known window, all
    /// three when the window is not known.
    pub fn backplane_set_window(&mut self, addr: u32) -> (r: Result<(), BusError<T::Error>>)
        ensures
            r matches Err(BusError::Transport(e)) ==> final(self).transport_fault() == Some(e),
            exchanged(old(self).trace(), final(self).trace(), window_writes(old(self).window(), window_of(addr)), r is Ok),
            r is Ok ==> final(self).window() == Some(window_of(addr)),
            r is Err ==> final(self).window() is None && r matches Err(BusError::Transport(_)),
    {
        let new_window = addr & !BACKPLANE_ADDRESS_MASK;
        assert(addr & !0x7FFFu32 == (addr - addr % 0x8000) as u32) by (bit_vector);
        let cur = self.backplane_window;
        let (known, c) = match cur {
            Some(c) => (true, c),
            None => (false, 0u32),
        };
        let ghost t0 = self.spi.trace();
        let ghost s_hi = window_byte_write(REG_BACKPLANE_BACKPLANE_ADDRESS_HIGH, cur, new_window, 24);
        let ghost s_mid = window_byte_write(REG_BACKPLANE_BACKPLANE_ADDRESS_MID, cur, new_window, 16);
        let ghost s_lo = window_byte_write(REG_BACKPLANE_BACKPLANE_ADDRESS_LOW, cur, new_window, 8);
        proof { lemma_exchanged_none(t0); }
        if !known || (new_window >> 24u32) & 0xFF != (c >> 24u32) & 0xFF {
            if let Err(e) = self.writen(FUNC_BACKPLANE, REG_BACKPLANE_BACKPLANE_ADDRESS_HIGH, (new_window >> 24u32) & 0xFF, 1) {
                self.backplane_window = None;
                proof {
                    lemma_exchanged_fault(t0, self.spi.trace(), s_hi, s_mid + s_lo);
                    assert(s_hi + (s_mid + s_lo) =~= s_hi + s_mid + s_lo);
                }
                return Err(e);
            }
        } else {
            assert(s_hi =~= Seq::<Op>::empty());
        }
        let ghost t1 = self.spi.trace();
        proof { lemma_exchanged_none(t1); }
        if !known || (new_window >> 16u32) & 0xFF != (c >> 16u32) & 0xFF {
            if let Err(e) = self.writen(FUNC_BACKPLANE, REG_BACKPLANE_BACKPLANE_ADDRESS_MID, (new_window >> 16u32) & 0xFF, 1) {
                self.backplane_window = None;
                proof {
                    lemma_exchanged_fault(t1, self.spi.trace(), s_mid, s_lo);
                    lemma_exchanged_then(t0, t1, self.spi.trace(), s_hi, s_mid + s_lo, false);
                    assert(s_hi + (s_mid + s_lo) =~= s_hi + s_mid + s_lo);
                }
                return Err(e);
            }
        } else {
            assert(s_mid =~= Seq::<Op>::empty());
        }
        let ghost t2 = self.spi.trace();
        proof {
            lemma_exchanged_then(t0, t1, t2, s_hi, s_mid, true);
            lemma_exchanged_none(t2);
        }
        if !known || (new_window >> 8u32) & 0xFF != (c >> 8u32) & 0xFF {
            if let Err(e) = self.writen(FUNC_BACKPLANE, REG_BACKPLANE_BACKPLANE_ADDRESS_LOW, (new_window >> 8u32) & 0xFF, 1) {
                self.backplane_window = None;
                proof {
                    lemma_exchanged_then(t0, t2, self.spi.trace(), s_hi + s_mid, s_lo, false);
                }
                return Err(e);
            }
        } else {
            assert(s_lo =~= Seq::<Op>::empty());
        }
        proof {
            lemma_exchanged_then(t0, t2, self.spi.trace(), s_hi + s_mid, s_lo, true);
        }
        self.backplane_window = Some(new_window);
        Ok(())
    }

    /// Writes `data` to the backplane at `addr`, chunk by chunk: no
    /// transaction crosses a window or exceeds the transfer size limit.
    pub fn bp_write(&mut self, addr: u32, data: &[u8]) -> (r: Result<(), BusError<T::Error>>)
        ensures
            r matches Err(BusError::Transport(e)) ==> final(self).transport_fault() == Some(e),
            addr % 4 != 0 ==> r matches Err(BusError::Misaligned),
            addr % 4 == 0 && addr + data@.len() > 0x1_0000_0000 ==> r matches Err(BusError::OutOfRange),
            ((r matches Err(BusError::Misaligned)) || (r matches Err(BusError::OutOfRange))) ==> {
                &&& final(self).trace() == old(self).trace()
                &&& final(self).window() == old(self).window()
            },
            addr % 4 == 0 && addr + data@.len() <= 0x1_0000_0000 ==> {
                &&& exchanged(old(self).trace(), final(self).trace(), bp_write_shape(old(self).window(), addr, data@), r is Ok)
                &&& r is Err ==> final(self).window() is None && (r matches Err(BusError::Transport(_)))
                &&& r is Ok && data@.len() > 0 ==> final(self).window() == Some(window_of((addr + data@.len() - 1) as u32))
                &&& r is Ok && data@.len() == 0 ==> final(self).window() == old(self).window()
            },
    {
        if addr % 4 != 0 {
            return Err(BusError::Misaligned);
        }
        if data.len() as u64 > 0x1_0000_0000u64 - addr as u64 {
            return Err(BusError::OutOfRange);
        }
        let ghost t0 = self.spi.trace();
        let ghost w0 = self.backplane_window;
        let ghost done: Seq<Op> = Seq::empty();
        proof {
            lemma_exchanged_none(t0);
            assert(data@.skip(0) =~= data@);
        }
        let mut a: u64 = addr as u64;
        let mut pos: usize = 0;
        while pos < data.len()
            invariant
                t0 == old(self).trace(),
                w0 == old(self).window(),
                addr % 4 == 0,
                pos <= data@.len(),
                a == addr + pos,
                addr + data@.len() <= 0x1_0000_0000,
                exchanged(t0, self.spi.trace(), done, true),
                done + bp_write_shape(self.backplane_window, a as u32, data@.skip(pos as int))
                    == bp_write_shape(w0, addr, data@),
                pos == 0 ==> self.backplane_window == w0,
                pos > 0 ==> self.backplane_window == Some(window_of((a - 1) as u32)),
            decreases data@.len() - pos,
        {
            let cur: u32 = a as u32;
            let offs = cur & BACKPLANE_ADDRESS_MASK;
            assert(cur & 0x7FFFu32 == cur % 0x8000) by (bit_vector);
            let room = BACKPLANE_WINDOW_SIZE - offs;
            let remaining = data.len() - pos;
            let mut n: usize = if remaining < BACKPLANE_MAX_TRANSFER_SIZE as usize {
                remaining
            } else {
                BACKPLANE_MAX_TRANSFER_SIZE as usize
            };
            if room as usize <= n {
                n = room as usize;
            }
            let ghost rest = data@.skip(pos as int);
            let ghost win = self.backplane_window;
            assert(n == chunk_len(cur, rest.len()));
            assert(data@.subrange(pos as int, pos + n) =~= rest.take(n as int));
            let ghost chunk = write_chunk_shape(win, cur, rest.take(n as int));
            let ghost tail = bp_write_shape(Some(window_of(cur)), (cur + n) as u32, rest.skip(n as int));
            assert(bp_write_shape(win, cur, rest) == chunk + tail);
            let ghost tc = self.spi.trace();
            if let Err(e) = self.bp_write_chunk(cur, data, pos, n) {
                proof {
                    lemma_exchanged_fault(tc, self.spi.trace(), chunk, tail);
                    lemma_exchanged_then(t0, tc, self.spi.trace(), done, chunk + tail, false);
                    assert(done + (chunk + tail) =~= done + bp_write_shape(win, cur, rest));
                }
                return Err(e);
            }
            proof {
                lemma_exchanged_then(t0, tc, self.spi.trace(), done, chunk, true);
                assert(rest.skip(n as int) =~= data@.skip(pos + n));
                assert(done + chunk + tail =~= done + (chunk + tail));
                lemma_same_window(cur, (n - 1) as nat);
                done = done + chunk;
            }
            a = a + n as u64;
            pos = pos + n;
        }
        proof {
            assert(data@.skip(pos as int) =~= Seq::<u8>::empty());
            assert(done =~= done + bp_write_shape(self.backplane_window, a as u32, data@.skip(pos as int)));
        }
        Ok(())
    }

    fn bp_write_chunk(&mut self, cur: u32, data: &[u8], pos: usize, n: usize) -> (r: Result<(), BusError<T::Error>>)
        requires
            pos + n <= data@.len(),
            1 <= n <= BACKPLANE_MAX_TRANSFER_SIZE,
            window_offset(cur) + n <= BACKPLANE_WINDOW_SIZE,
        ensures
            r matches Err(BusError::Transport(e)) ==> final(self).transport_fault() == Some(e),
            exchanged(old(self).trace(), final(self).trace(),
                write_chunk_shape(old(self).window(), cur, data@.subrange(pos as int, pos + n)), r is Ok),
            r is Ok ==> final(self).window() == Some(window_of(cur)),
            r is Err ==> final(self).window() is None && (r matches Err(BusError::Transport(_))),
    {
        let ghost d = data@.subrange(pos as int, pos + n);
        let ghost win = self.backplane_window;
        let ghost ww = window_writes(win, window_of(cur));
        let words = pack_chunk(data, pos, n);
        let offs = cur & BACKPLANE_ADDRESS_MASK;
        assert(cur & 0x7FFFu32 == cur % 0x8000) by (bit_vector);
        let cmd = cmd_word(WRITE, INC_ADDR, FUNC_BACKPLANE, offs, n as u32);
        let head: [u32; 1] = [cmd];
        assert(head@ =~= seq![block_cmd(WRITE, cur, d.len())]);
        let ghost cmd_op = Op::Write(head@);
        let ghost data_op = Op::Write(words@);
        assert(write_chunk_shape(win, cur, d) =~= ww + seq![cmd_op] + seq![data_op]);
        let ghost tc = self.spi.trace();
        if let Err(e) = self.backplane_set_window(cur) {
            proof {
                lemma_exchanged_fault(tc, self.spi.trace(), ww, seq![cmd_op] + seq![data_op]);
                assert(ww + (seq![cmd_op] + seq![data_op]) =~= ww + seq![cmd_op] + seq![data_op]);
            }
            return Err(e);
        }
        let ghost t1 = self.spi.trace();
        let res = self.spi.write(&head);
        proof {
            lemma_exchanged_one(t1, cmd_op);
            lemma_exchanged_then(tc, t1, self.spi.trace(), ww, seq![cmd_op], res is Ok);
        }
        if let Err(e) = res {
            self.backplane_window = None;
            proof {
                lemma_exchanged_fault(tc, self.spi.trace(), ww + seq![cmd_op], seq![data_op]);
            }
            return Err(BusError::Transport(e));
        }
        let ghost t2 = self.spi.trace();
        let res = self.spi.write(words.as_slice());
        proof {
            lemma_exchanged_one(t2, data_op);
            lemma_exchanged_then(tc, t2, self.spi.trace(), ww + seq![cmd_op], seq![data_op], res is Ok);
        }
        match res {
            Ok(()) => Ok(()),
            Err(e) => {
                self.backplane_window = None;
                Err(BusError::Transport(e))
            },
        }
    }

    fn bp_read_chunk(&mut self, cur: u32, data: &mut [u8], pos: usize, n: usize) -> (r: Result<(), BusError<T::Error>>)
        requires
            pos + n <= old(data)@.len(),
            1 <= n <= BACKPLANE_MAX_TRANSFER_SIZE,
            window_offset(cur) + n <= BACKPLANE_WINDOW_SIZE,
        ensures
            r matches Err(BusError::Transport(e)) ==> final(self).transport_fault() == Some(e),
            final(data)@.len() == old(data)@.len(),
            exchanged(old(self).trace(), final(self).trace(),
                read_chunk_shape(old(self).window(), cur, n as nat), r is Ok),
            r is Ok ==> final(self).window() == Some(window_of(cur)),
            r is Ok ==> final(data)@ == old(data)@.take(pos as int) + unpack_bytes(
                read_words(final(self).trace().last()), n as nat) + old(data)@.skip(pos + n),
            r is Err ==> final(self).window() is None && (r matches Err(BusError::Transport(_))),
    {
        let ghost win = self.backplane_window;
        let ghost ww = window_writes(win, window_of(cur));
        let nwords = (n + 3) / 4;
        let mut buf: Vec<u32> = Vec::new();
        while buf.len() < nwords
            invariant
                buf@.len() <= nwords,
            decreases nwords - buf@.len(),
        {
            buf.push(0);
        }
        let mut junk: [u32; 1] = [0];
        let offs = cur & BACKPLANE_ADDRESS_MASK;
        assert(cur & 0x7FFFu32 == cur % 0x8000) by (bit_vector);
        let cmd = cmd_word(READ, INC_ADDR, FUNC_BACKPLANE, offs, n as u32);
        let head: [u32; 1] = [cmd];
        assert(head@ =~= seq![block_cmd(READ, cur, n as nat)]);
        let ghost cmd_op = Op::Write(head@);
        let ghost shape = read_chunk_shape(win, cur, n as nat);
        let ghost tc = self.spi.trace();
        if let Err(e) = self.backplane_set_window(cur) {
            proof {
                lemma_exchanged_fault(tc, self.spi.trace(), ww, shape.skip(ww.len() as int));
                assert(ww + shape.skip(ww.len() as int) =~= shape);
            }
            return Err(e);
        }
        let ghost t1 = self.spi.trace();
        let res = self.spi.write(&head);
        proof {
            lemma_exchanged_one(t1, cmd_op);
            lemma_exchanged_then(tc, t1, self.spi.trace(), ww, seq![cmd_op], res is Ok);
        }
        if let Err(e) = res {
            self.backplane_window = None;
            proof {
                lemma_exchanged_fault(tc, self.spi.trace(), ww + seq![cmd_op], seq![read_shape(1), read_shape(((n + 3) / 4) as nat)]);
                assert(ww + seq![cmd_op] + seq![read_shape(1), read_shape(((n + 3) / 4) as nat)] =~= shape);
            }
            return Err(BusError::Transport(e));
        }
        let ghost t2 = self.spi.trace();
        let res = self.spi.read(&mut junk);
        proof {
            lemma_exchanged_one(t2, Op::Read(junk@));
            assert(erase_op(Op::Read(junk@)) == read_shape(1)) by {
                assert(Seq::new(junk@.len(), |i: int| 0u32) =~= Seq::new(1, |i: int| 0u32));
            }
            lemma_exchanged_then(tc, t2, self.spi.trace(), ww + seq![cmd_op], seq![read_shape(1)], res is Ok);
        }
        if let Err(e) = res {
            self.backplane_window = None;
            proof {
                lemma_exchanged_fault(tc, self.spi.trace(), ww + seq![cmd_op] + seq![read_shape(1)], seq![read_shape(((n + 3) / 4) as nat)]);
                assert(ww + seq![cmd_op] + seq![read_shape(1)] + seq![read_shape(((n + 3) / 4) as nat)] =~= shape);
            }
            return Err(BusError::Transport(e));
        }
        let ghost t3 = self.spi.trace();
        let res = self.spi.read(buf.as_mut_slice());
        proof {
            lemma_exchanged_one(t3, Op::Read(buf@));
            assert(erase_op(Op::Read(buf@)) == read_shape(((n + 3) / 4) as nat)) by {
                assert(Seq::new(buf@.len(), |i: int| 0u32) =~= Seq::new(((n + 3) / 4) as nat, |i: int| 0u32));
            }
            lemma_exchanged_then(tc, t3, self.spi.trace(), ww + seq![cmd_op] + seq![read_shape(1)], seq![read_shape(((n + 3) / 4) as nat)], res is Ok);
            assert(ww + seq![cmd_op] + seq![read_shape(1)] + seq![read_shape(((n + 3) / 4) as nat)] =~= shape);
        }
        if let Err(e) = res {
            self.backplane_window = None;
            return Err(BusError::Transport(e));
        }
        let ghost d0 = data@;
        let dl = data.len();
        let mut i: usize = 0;
        while i < n
            invariant
                pos + n <= d0.len(),
                dl == d0.len(),
                1 <= n <= BACKPLANE_MAX_TRANSFER_SIZE,
                buf@.len() == (n + 3) / 4,
                i <= n,
                data@.len() == d0.len(),
                forall|j: int| 0 <= j < pos ==> data@[j] == d0[j],
                forall|j: int| pos + n <= j < d0.len() ==> data@[j] == d0[j],
                forall|j: int| 0 <= j < i ==> data@[pos + j] == unpack_bytes(buf@, n as nat)[j],
            decreases n - i,
        {
            let w = buf[i / 4];
            data[pos + i] = #[verifier::truncate] (((w >> (8 * (i % 4)) as u32) & 0xFF) as u8);
            i += 1;
        }
        assert(data@ =~= d0.take(pos as int) + unpack_bytes(buf@, n as nat) + d0.skip(pos + n));
        Ok(())
    }

    /// Reads `data.len()` bytes of the backplane at `addr` into `data`, chunk
    /// by chunk: no transaction crosses a window or exceeds the transfer size
    /// limit.
    #[verifier::rlimit(60)]
    pub fn bp_read(&mut self, addr: u32, data: &mut [u8]) -> (r: Result<(), BusError<T::Error>>)
        ensures
            r matches Err(BusError::Transport(e)) ==> final(self).transport_fault() == Some(e),
            final(data)@.len() == old(data)@.len(),
            addr % 4 != 0 ==> r matches Err(BusError::Misaligned),
            addr % 4 == 0 && addr + old(data)@.len() > 0x1_0000_0000 ==> r matches Err(BusError::OutOfRange),
            ((r matches Err(BusError::Misaligned)) || (r matches Err(BusError::OutOfRange))) ==> {
                &&& final(self).trace() == old(self).trace()
                &&& final(self).window() == old(self).window()
                &&& final(data)@ == old(data)@
            },
            addr % 4 == 0 && addr + old(data)@.len() <= 0x1_0000_0000 ==> {
                &&& exchanged(old(self).trace(), final(self).trace(), bp_read_shape(old(self).window(), addr, old(data)@.len()), r is Ok)
                &&& r is Ok ==> final(data)@ == read_data(old(self).window(), addr, old(data)@.len(),
                    final(self).trace().skip(old(self).trace().len() as int))
                &&& r is Err ==> final(self).window() is None && (r matches Err(BusError::Transport(_)))
                &&& r is Ok && old(data)@.len() > 0 ==> final(self).window() == Some(window_of((addr + old(data)@.len() - 1) as u32))
                &&& r is Ok && old(data)@.len() == 0 ==> final(self).window() == old(self).window()
            },
    {
        let len = data.len();
        if addr % 4 != 0 {
            return Err(BusError::Misaligned);
        }
        if len as u64 > 0x1_0000_0000u64 - addr as u64 {
            return Err(BusError::OutOfRange);
        }
        let ghost t0 = self.spi.trace();
        let ghost w0 = self.backplane_window;
        let ghost total = len as nat;
        proof {
            lemma_exchanged_none(t0);
            assert forall|x: Seq<Op>| read_data(w0, addr, total, t0.skip(t0.len() as int) + x) == data@.take(0) + read_data(w0, addr, total, x) by {
                assert(t0.skip(t0.len() as int) + x =~= x);
                assert(data@.take(0) + read_data(w0, addr, total, x) =~= read_data(w0, addr, total, x));
            }
            assert(Seq::<Op>::empty() + bp_read_shape(w0, addr, total) =~= bp_read_shape(w0, addr, total));
        }
        let mut a: u64 = addr as u64;
        let mut pos: usize = 0;
        while pos < len
            invariant
                t0 == old(self).trace(),
                w0 == old(self).window(),
                len == data@.len(),
                len == old(data)@.len(),
                total == len,
                addr % 4 == 0,
                pos <= len,
                a == addr + pos,
                addr + len <= 0x1_0000_0000,
                t0.len() <= self.spi.trace().len(),
                exchanged(t0, self.spi.trace(), erase(self.spi.trace().skip(t0.len() as int)), true),
                erase(self.spi.trace().skip(t0.len() as int)) + bp_read_shape(self.backplane_window, a as u32, (len - pos) as nat)
                    == bp_read_shape(w0, addr, total),
                forall|x: Seq<Op>| read_data(w0, addr, total, self.spi.trace().skip(t0.len() as int) + x)
                    == data@.take(pos as int) + read_data(self.backplane_window, a as u32, (len - pos) as nat, x),
                pos == 0 ==> self.backplane_window == w0,
                pos > 0 ==> self.backplane_window == Some(window_of((a - 1) as u32)),
            decreases len - pos,
        {
            let cur: u32 = a as u32;
            let offs = cur & BACKPLANE_ADDRESS_MASK;
            assert(cur & 0x7FFFu32 == cur % 0x8000) by (bit_vector);
            let room = BACKPLANE_WINDOW_SIZE - offs;
            let remaining = len - pos;
            let mut n: usize = if remaining < BACKPLANE_MAX_TRANSFER_SIZE as usize {
                remaining
            } else {
                BACKPLANE_MAX_TRANSFER_SIZE as usize
            };
            if room as usize <= n {
                n = room as usize;
            }
            let ghost rem = remaining as nat;
            let ghost win = self.backplane_window;
            assert(n == chunk_len(cur, rem));
            let ghost chunk = read_chunk_shape(win, cur, n as nat);
            let ghost tail = bp_read_shape(Some(window_of(cur)), (cur + n) as u32, (rem - n) as nat);
            assert(bp_read_shape(win, cur, rem) == chunk + tail);
            let ghost tc = self.spi.trace();
            let ghost done = erase(tc.skip(t0.len() as int));
            let ghost dprev = data@;
            let res = self.bp_read_chunk(cur, data, pos, n);
            if let Err(e) = res {
                proof {
                    lemma_exchanged_fault(tc, self.spi.trace(), chunk, tail);
                    lemma_exchanged_then(t0, tc, self.spi.trace(), done, chunk + tail, false);
                    assert(done + (chunk + tail) =~= done + bp_read_shape(win, cur, rem));
                }
                return Err(e);
            }
            proof {
                let tn = self.spi.trace();
                lemma_exchanged_then(t0, tc, tn, done, chunk, true);
                let c = tn.skip(tc.len() as int);
                let k = window_writes(win, window_of(cur)).len() as int;
                assert(c.len() == k + 3);
                assert(tn.skip(t0.len() as int) =~= tc.skip(t0.len() as int) + c);
                crate::transport::lemma_erase_concat(tc.skip(t0.len() as int), c);
                assert(done + chunk + tail =~= done + (chunk + tail));
                assert(c.last() == tn.last());
                assert(tc.skip(t0.len() as int) + c == tn.skip(t0.len() as int));
                assert(data@.take(pos + n) =~= dprev.take(pos as int) + unpack_bytes(read_words(tn.last()), n as nat));
                lemma_read_step(w0, addr, total, tc.skip(t0.len() as int), c, dprev, data@, pos as nat, n as nat, win, cur, rem);
                lemma_same_window(cur, (n - 1) as nat);
                assert(erase(tn.skip(t0.len() as int)) == done + chunk);
            }
            a = a + n as u64;
            pos = pos + n;
        }
        proof {
            let d = self.spi.trace().skip(t0.len() as int);
            assert(d + Seq::<Op>::empty() =~= d);
            assert(data@.take(pos as int) =~= data@);
            assert(erase(d) + Seq::<Op>::empty() =~= erase(d));
        }
        Ok(())
    }

    /// Reads a 8-bit register of function `func`.
    pub fn read8(&mut self, func: u32, addr: u32) -> (r: Result<u8, BusError<T::Error>>)
        ensures
            (func > 3 || addr > 0x1FFFF) <==> r matches Err(BusError::OutOfRange),
            r matches Err(BusError::OutOfRange) ==> final(self).trace() == old(self).trace(),
            r matches Err(BusError::Transport(e)) ==> final(self).transport_fault() == Some(e),
            final(self).window() == old(self).window(),
            func <= 3 && addr <= 0x1FFFF ==> exchanged(old(self).trace(), final(self).trace(), readn_shape(func, addr, 1), r is Ok),
            r matches Ok(v) ==> v as u32 == last_word(final(self).trace()) & 0xFF,
            r is Err ==> (r matches Err(BusError::Transport(_))) || (r matches Err(BusError::OutOfRange)),
    {
        if func > 3 || addr > 0x1FFFF {
            return Err(BusError::OutOfRange);
        }
        match self.readn(func, addr, 1) {
            Ok(v) => Ok(narrow_8(v)),
            Err(e) => Err(e),
        }
    }

    /// Writes a 8-bit register of function `func`.
    pub fn write8(&mut self, func: u32, addr: u32, val: u8) -> (r: Result<(), BusError<T::Error>>)
        ensures
            (func > 3 || addr > 0x1FFFF) <==> r matches Err(BusError::OutOfRange),
            r matches Err(BusError::OutOfRange) ==> final(self).trace() == old(self).trace(),
            r matches Err(BusError::Transport(e)) ==> final(self).transport_fault() == Some(e),
            final(self).window() == old(self).window(),
            func <= 3 && addr <= 0x1FFFF ==> exchanged(old(self).trace(), final(self).trace(), writen_shape(func, addr, val as u32, 1), r is Ok),
            r is Err ==> (r matches Err(BusError::Transport(_))) || (r matches Err(BusError::OutOfRange)),
    {
        if func > 3 || addr > 0x1FFFF {
            return Err(BusError::OutOfRange);
        }
        self.writen(func, addr, val as u32, 1)
    }

    /// Reads a 16-bit register of function `func`.
    pub fn read16(&mut self, func: u32, addr: u32) -> (r: Result<u16, BusError<T::Error>>)
        ensures
            (func > 3 || addr > 0x1FFFF) <==> r matches Err(BusError::OutOfRange),
            r matches Err(BusError::OutOfRange) ==> final(self).trace() == old(self).trace(),
            r matches Err(BusError::Transport(e)) ==> final(self).transport_fault() == Some(e),
            final(self).window() == old(self).window(),
            func <= 3 && addr <= 0x1FFFF ==> exchanged(old(self).trace(), final(self).trace(), readn_shape(func, addr, 2), r is Ok),
            r matches Ok(v) ==> v as u32 == last_word(final(self).trace()) & 0xFFFF,
            r is Err ==> (r matches Err(BusError::Transport(_))) || (r matches Err(BusError::OutOfRange)),
    {
        if func > 3 || addr > 0x1FFFF {
            return Err(BusError::OutOfRange);
        }
        match self.readn(func, addr, 2) {
            Ok(v) => Ok(narrow_16(v)),
            Err(e) => Err(e),
        }
    }

    /// Writes a 16-bit register of function `func`.
    pub fn write16(&mut self, func: u32, addr: u32, val: u16) -> (r: Result<(), BusError<T::Error>>)
        ensures
            (func > 3 || addr > 0x1FFFF) <==> r matches Err(BusError::OutOfRange),
            r matches Err(BusError::OutOfRange) ==> final(self).trace() == old(self).trace(),
            r matches Err(BusError::Transport(e)) ==> final(self).transport_fault() == Some(e),
            final(self).window() == old(self).window(),
            func <= 3 && addr <= 0x1FFFF ==> exchanged(old(self).trace(), final(self).trace(), writen_shape(func, addr, val as u32, 2), r is Ok),
            r is Err ==> (r matches Err(BusError::Transport(_))) || (r matches Err(BusError::OutOfRange)),
    {
        if func > 3 || addr > 0x1FFFF {
            return Err(BusError::OutOfRange);
        }
        self.writen(func, addr, val as u32, 2)
    }

    /// Reads a 32-bit register of function `func`.
    pub fn read32(&mut self, func: u32, addr: u32) -> (r: Result<u32, BusError<T::Error>>)
        ensures
            (func > 3 || addr > 0x1FFFF) <==> r matches Err(BusError::OutOfRange),
            r matches Err(BusError::OutOfRange) ==> final(self).trace() == old(self).trace(),
            r matches Err(BusError::Transport(e)) ==> final(self).transport_fault() == Some(e),
            final(self).window() == old(self).window(),
            func <= 3 && addr <= 0x1FFFF ==> exchanged(old(self).trace(), final(self).trace(), readn_shape(func, addr, 4), r is Ok),
            r matches Ok(v) ==> v as u32 == last_word(final(self).trace()),
            r is Err ==> (r matches Err(BusError::Transport(_))) || (r matches Err(BusError::OutOfRange)),
    {
        if func > 3 || addr > 0x1FFFF {
            return Err(BusError::OutOfRange);
        }
        match self.readn(func, addr, 4) {
            Ok(v) => Ok(narrow_32(v)),
            Err(e) => Err(e),
        }
    }

    /// Writes a 32-bit register of function `func`.
    pub fn write32(&mut self, func: u32, addr: u32, val: u32) -> (r: Result<(), BusError<T::Error>>)
        ensures
            (func > 3 || addr > 0x1FFFF) <==> r matches Err(BusError::OutOfRange),
            r matches Err(BusError::OutOfRange) ==> final(self).trace() == old(self).trace(),
            r matches Err(BusError::Transport(e)) ==> final(self).transport_fault() == Some(e),
            final(self).window() == old(self).window(),
            func <= 3 && addr <= 0x1FFFF ==> exchanged(old(self).trace(), final(self).trace(), writen_shape(func, addr, val as u32, 4), r is Ok),
            r is Err ==> (r matches Err(BusError::Transport(_))) || (r matches Err(BusError::OutOfRange)),
    {
        if func > 3 || addr > 0x1FFFF {
            return Err(BusError::OutOfRange);
        }
        self.writen(func, addr, val as u32, 4)
    }

    /// Reads 8 bits of the backplane at `addr`, selecting its window first.
    pub fn bp_read8(&mut self, addr: u32) -> (r: Result<u8, BusError<T::Error>>)
        ensures
            r matches Err(BusError::Transport(e)) ==> final(self).transport_fault() == Some(e),
            exchanged(old(self).trace(), final(self).trace(), bp_readn_shape(old(self).window(), addr, 1), r is Ok),
            r matches Ok(v) ==> v as u32 == last_word(final(self).trace()) & 0xFF && final(self).window() == Some(window_of(addr)),
            r is Err ==> r matches Err(BusError::Transport(_)),
    {
        match self.backplane_readn(addr, 1) {
            Ok(v) => Ok(narrow_8(v)),
            Err(e) => Err(e),
        }
    }

    /// Writes 8 bits of the backplane at `addr`, selecting its window first.
    pub fn bp_write8(&mut self, addr: u32, val: u8) -> (r: Result<(), BusError<T::Error>>)
        ensures
            r matches Err(BusError::Transport(e)) ==> final(self).transport_fault() == Some(e),
            exchanged(old(self).trace(), final(self).trace(), bp_writen_shape(old(self).window(), addr, val as u32, 1), r is Ok),
            r is Ok ==> final(self).window() == Some(window_of(addr)),
            r is Err ==> r matches Err(BusError::Transport(_)),
    {
        self.backplane_writen(addr, val as u32, 1)
    }

    /// Reads 16 bits of the backplane at `addr`, selecting its window first.
    pub fn bp_read16(&mut self, addr: u32) -> (r: Result<u16, BusError<T::Error>>)
        ensures
            r matches Err(BusError::Transport(e)) ==> final(self).transport_fault() == Some(e),
            exchanged(old(self).trace(), final(self).trace(), bp_readn_shape(old(self).window(), addr, 2), r is Ok),
            r matches Ok(v) ==> v as u32 == last_word(final(self).trace()) & 0xFFFF && final(self).window() == Some(window_of(addr)),
            r is Err ==> r matches Err(BusError::Transport(_)),
    {
        match self.backplane_readn(addr, 2) {
            Ok(v) => Ok(narrow_16(v)),
            Err(e) => Err(e),
        }
    }

    /// Writes 16 bits of the backplane at `addr`, selecting its window first.
    pub fn bp_write16(&mut self, addr: u32, val: u16) -> (r: Result<(), BusError<T::Error>>)
        ensures
            r matches Err(BusError::Transport(e)) ==> final(self).transport_fault() == Some(e),
            exchanged(old(self).trace(), final(self).trace(), bp_writen_shape(old(self).window(), addr, val as u32, 2), r is Ok),
            r is Ok ==> final(self).window() == Some(window_of(addr)),
            r is Err ==> r matches Err(BusError::Transport(_)),
    {
        self.backplane_writen(addr, val as u32, 2)
    }

    /// Reads 32 bits of the backplane at `addr`, selecting its window first.
    pub fn bp_read32(&mut self, addr: u32) -> (r: Result<u32, BusError<T::Error>>)
        ensures
            r matches Err(BusError::Transport(e)) ==> final(self).transport_fault() == Some(e),
            exchanged(old(self).trace(), final(self).trace(), bp_readn_shape(old(self).window(), addr, 4), r is Ok),
            r matches Ok(v) ==> v as u32 == last_word(final(self).trace()) && final(self).window() == Some(window_of(addr)),
            r is Err ==> r matches Err(BusError::Transport(_)),
    {
        match self.backplane_readn(addr, 4) {
            Ok(v) => Ok(narrow_32(v)),
            Err(e) => Err(e),
        }
    }

    /// Writes 32 bits of the backplane at `addr`, selecting its window first.
    pub fn bp_write32(&mut self, addr: u32, val: u32) -> (r: Result<(), BusError<T::Error>>)
        ensures
            r matches Err(BusError::Transport(e)) ==> final(self).transport_fault() == Some(e),
            exchanged(old(self).trace(), final(self).trace(), bp_writen_shape(old(self).window(), addr, val as u32, 4), r is Ok),
            r is Ok ==> final(self).window() == Some(window_of(addr)),
            r is Err ==> r matches Err(BusError::Transport(_)),
    {
        self.backplane_writen(addr, val as u32, 4)
    }

    fn backplane_readn(&mut self, addr: u32, len: u32) -> (r: Result<u32, BusError<T::Error>>)
        ensures
            r matches Err(BusError::Transport(e)) ==> final(self).transport_fault() == Some(e),
            exchanged(old(self).trace(), final(self).trace(), bp_readn_shape(old(self).window(), addr, len), r is Ok),
            r matches Ok(v) ==> v == last_word(final(self).trace()) && final(self).window() == Some(window_of(addr)),
            r is Err ==> r matches Err(BusError::Transport(_)),
    {
        let ghost t0 = self.spi.trace();
        let ghost ww = window_writes(self.backplane_window, window_of(addr));
        if let Err(e) = self.backplane_set_window(addr) {
            proof { lemma_exchanged_fault(t0, self.spi.trace(), ww, readn_shape(FUNC_BACKPLANE, bp_bus_addr(addr, len), len)); }
            return Err(e);
        }
        let bus_addr = Self::bus_addr(addr, len);
        let ghost t1 = self.spi.trace();
        let r = self.readn(FUNC_BACKPLANE, bus_addr, len);
        proof { lemma_exchanged_then(t0, t1, self.spi.trace(), ww, readn_shape(FUNC_BACKPLANE, bp_bus_addr(addr, len), len), r is Ok); }
        r
    }

    fn backplane_writen(&mut self, addr: u32, val: u32, len: u32) -> (r: Result<(), BusError<T::Error>>)
        ensures
            r matches Err(BusError::Transport(e)) ==> final(self).transport_fault() == Some(e),
            exchanged(old(self).trace(), final(self).trace(), bp_writen_shape(old(self).window(), addr, val, len), r is Ok),
            r is Ok ==> final(self).window() == Some(window_of(addr)),
            r is Err ==> r matches Err(BusError::Transport(_)),
    {
        let ghost t0 = self.spi.trace();
        let ghost ww = window_writes(self.backplane_window, window_of(addr));
        if let Err(e) = self.backplane_set_window(addr) {
            proof { lemma_exchanged_fault(t0, self.spi.trace(), ww, writen_shape(FUNC_BACKPLANE, bp_bus_addr(addr, len), val, len)); }
            return Err(e);
        }
        let bus_addr = Self::bus_addr(addr, len);
        let ghost t1 = self.spi.trace();
        let r = self.writen(FUNC_BACKPLANE, bus_addr, val, len);
        proof { lemma_exchanged_then(t0, t1, self.spi.trace(), ww, writen_shape(FUNC_BACKPLANE, bp_bus_addr(addr, len), val, len), r is Ok); }
        r
    }

    fn bus_addr(addr: u32, len: u32) -> (r: u32)
        ensures
            r == bp_bus_addr(addr, len),
    {
        let offs = addr & BACKPLANE_ADDRESS_MASK;
        assert(addr & 0x7FFFu32 == addr % 0x8000) by (bit_vector);
        if len == 4 {
            offs | BACKPLANE_ADDRESS_32BIT_FLAG
        } else {
            offs
        }
    }

    /// Reads `len_in_u8` bytes, rounded up to whole words, from the data
    /// function into the front of `buf`.
    pub fn wlan_read(&mut self, buf: &mut [u32], len_in_u8: u32) -> (r: Result<(), BusError<T::Error>>)
        ensures
            r matches Err(BusError::Transport(e)) ==> final(self).transport_fault() == Some(e),
            final(self).window() == old(self).window(),
            final(buf)@.len() == old(buf)@.len(),
            (len_in_u8 > 0x7FF || words_for(len_in_u8 as nat) > old(buf)@.len()) <==> r matches Err(BusError::OutOfRange),
            r matches Err(BusError::OutOfRange) ==> final(self).trace() == old(self).trace() && final(buf)@ == old(buf)@,
            !(r matches Err(BusError::OutOfRange)) ==> {
                &&& exchanged(old(self).trace(), final(self).trace(), wlan_read_shape(len_in_u8), r is Ok)
                &&& r is Ok ==> final(buf)@ == read_words(final(self).trace().last()) + old(buf)@.skip(words_for(len_in_u8 as nat) as int)
                &&& r is Err ==> r matches Err(BusError::Transport(_))
            },
    {
        let blen = buf.len();
        if len_in_u8 > 0x7FF || (len_in_u8 as usize + 3) / 4 > blen {
            return Err(BusError::OutOfRange);
        }
        let nwords = (len_in_u8 as usize + 3) / 4;
        let cmd = cmd_word(READ, INC_ADDR, FUNC_WLAN, 0, len_in_u8);
        let head: [u32; 1] = [cmd];
        let ghost t0 = self.spi.trace();
        let ghost cmd_op = Op::Write(head@);
        assert(head@ =~= seq![cmd_word_spec(READ, INC_ADDR, FUNC_WLAN, 0, len_in_u8)]);
        assert(wlan_read_shape(len_in_u8) =~= seq![cmd_op] + seq![read_shape(nwords as nat)]);
        let res = self.spi.write(&head);
        proof { lemma_exchanged_one(t0, cmd_op); }
        if let Err(e) = res {
            proof { lemma_exchanged_fault(t0, self.spi.trace(), seq![cmd_op], seq![read_shape(nwords as nat)]); }
            return Err(BusError::Transport(e));
        }
        let mut words: Vec<u32> = Vec::new();
        while words.len() < nwords
            invariant
                words@.len() <= nwords,
            decreases nwords - words@.len(),
        {
            words.push(0);
        }
        let ghost t1 = self.spi.trace();
        let res = self.spi.read(words.as_mut_slice());
        proof {
            lemma_exchanged_one(t1, Op::Read(words@));
            assert(erase_op(Op::Read(words@)) == read_shape(nwords as nat)) by {
                assert(Seq::new(words@.len(), |i: int| 0u32) =~= Seq::new(nwords as nat, |i: int| 0u32));
            }
            lemma_exchanged_then(t0, t1, self.spi.trace(), seq![cmd_op], seq![read_shape(nwords as nat)], res is Ok);
        }
        if let Err(e) = res {
            return Err(BusError::Transport(e));
        }
        let ghost b0 = buf@;
        let mut i: usize = 0;
        while i < nwords
            invariant
                nwords <= blen,
                blen == b0.len(),
                buf@.len() == b0.len(),
                words@.len() == nwords,
                i <= nwords,
                forall|j: int| 0 <= j < i ==> buf@[j] == words@[j],
                forall|j: int| nwords <= j < b0.len() ==> buf@[j] == b0[j],
            decreases nwords - i,
        {
            buf[i] = words[i];
            i += 1;
        }
        assert(buf@ =~= words@ + b0.skip(nwords as int));
        Ok(())
    }

    /// Writes `buf` to the data function.
    pub fn wlan_write(&mut self, buf: &[u32]) -> (r: Result<(), BusError<T::Error>>)
        ensures
            r matches Err(BusError::Transport(e)) ==> final(self).transport_fault() == Some(e),
            final(self).window() == old(self).window(),
            buf@.len() * 4 > 0x7FF <==> r matches Err(BusError::OutOfRange),
            r matches Err(BusError::OutOfRange) ==> final(self).trace() == old(self).trace(),
            !(r matches Err(BusError::OutOfRange)) ==> {
                &&& exchanged(old(self).trace(), final(self).trace(), wlan_write_shape(buf@), r is Ok)
                &&& r is Err ==> r matches Err(BusError::Transport(_))
            },
    {
        if buf.len() > 0x1FF {
            return Err(BusError::OutOfRange);
        }
        let cmd = cmd_word(WRITE, INC_ADDR, FUNC_WLAN, 0, buf.len() as u32 * 4);
        let head: [u32; 1] = [cmd];
        let ghost t0 = self.spi.trace();
        let ghost cmd_op = Op::Write(head@);
        assert(head@ =~= seq![cmd_word_spec(WRITE, INC_ADDR, FUNC_WLAN, 0, (buf@.len() * 4) as u32)]);
        assert(wlan_write_shape(buf@) =~= seq![cmd_op] + seq![Op::Write(buf@)]);
        let res = self.spi.write(&head);
        proof { lemma_exchanged_one(t0, cmd_op); }
        if let Err(e) = res {
            proof { lemma_exchanged_fault(t0, self.spi.trace(), seq![cmd_op], seq![Op::Write(buf@)]); }
            return Err(BusError::Transport(e));
        }
        let ghost t1 = self.spi.trace();
        let res = self.spi.write(buf);
        proof {
            lemma_exchanged_one(t1, Op::Write(buf@));
            lemma_exchanged_then(t0, t1, self.spi.trace(), seq![cmd_op], seq![Op::Write(buf@)], res is Ok);
        }
        match res {
            Ok(()) => Ok(()),
            Err(e) => Err(BusError::Transport(e)),
        }
    }

    /// Reads a bus-function register in the device's reset word order: the
    /// command goes out with its half-words exchanged, and the answer's
    /// half-words are exchanged back.
    pub fn read32_swapped(&mut self, addr: u32) -> (r: Result<u32, BusError<T::Error>>)
        ensures
            (addr > 0x1FFFF) <==> r matches Err(BusError::OutOfRange),
            r matches Err(BusError::OutOfRange) ==> final(self).trace() == old(self).trace(),
            r matches Err(BusError::Transport(e)) ==> final(self).transport_fault() == Some(e),
            final(self).window() == old(self).window(),
            addr <= 0x1FFFF ==> exchanged(old(self).trace(), final(self).trace(), read_swapped_shape(addr), r is Ok),
            r matches Ok(v) ==> v == swap16_spec(last_word(final(self).trace())),
            r is Err ==> (r matches Err(BusError::Transport(_))) || (r matches Err(BusError::OutOfRange)),
    {
        if addr > 0x1FFFF {
            return Err(BusError::OutOfRange);
        }
        let cmd = cmd_word(READ, INC_ADDR, FUNC_BUS, addr, 4);
        let head: [u32; 1] = [swap16(cmd)];
        let mut buf: [u32; 1] = [0];
        let ghost t0 = self.spi.trace();
        let ghost cmd_op = Op::Write(head@);
        assert(head@ =~= seq![swap16_spec(cmd_word_spec(READ, INC_ADDR, FUNC_BUS, addr, 4))]);
        assert(read_swapped_shape(addr) =~= seq![cmd_op] + seq![read_shape(1)]);
        let res = self.spi.write(&head);
        proof { lemma_exchanged_one(t0, cmd_op); }
        if let Err(e) = res {
            proof { lemma_exchanged_fault(t0, self.spi.trace(), seq![cmd_op], seq![read_shape(1)]); }
            return Err(BusError::Transport(e));
        }
        let ghost t1 = self.spi.trace();
        let res = self.spi.read(&mut buf);
        proof {
            lemma_exchanged_one(t1, Op::Read(buf@));
            assert(erase_op(Op::Read(buf@)) == read_shape(1)) by {
                assert(Seq::new(buf@.len(), |i: int| 0u32) =~= Seq::new(1, |i: int| 0u32));
            }
            lemma_exchanged_then(t0, t1, self.spi.trace(), seq![cmd_op], seq![read_shape(1)], res is Ok);
        }
        match res {
            Ok(()) => Ok(swap16(buf[0])),
            Err(e) => Err(BusError::Transport(e)),
        }
    }

    /// Writes a bus-function register in the device's reset word order:
    /// command and value go out with their half-words exchanged.
    pub fn write32_swapped(&mut self, addr: u32, val: u32) -> (r: Result<(), BusError<T::Error>>)
        ensures
            (addr > 0x1FFFF) <==> r matches Err(BusError::OutOfRange),
            r matches Err(BusError::OutOfRange) ==> final(self).trace() == old(self).trace(),
            r matches Err(BusError::Transport(e)) ==> final(self).transport_fault() == Some(e),
            final(self).window() == old(self).window(),
            addr <= 0x1FFFF ==> exchanged(old(self).trace(), final(self).trace(), write_swapped_shape(addr, val), r is Ok),
            r is Err ==> (r matches Err(BusError::Transport(_))) || (r matches Err(BusError::OutOfRange)),
    {
        if addr > 0x1FFFF {
            return Err(BusError::OutOfRange);
        }
        let cmd = cmd_word(WRITE, INC_ADDR, FUNC_BUS, addr, 4);
        let words: [u32; 2] = [swap16(cmd), swap16(val)];
        let ghost t0 = self.spi.trace();
        assert(words@ =~= seq![swap16_spec(cmd_word_spec(WRITE, INC_ADDR, FUNC_BUS, addr, 4)), swap16_spec(val)]);
        let res = self.spi.write(&words);
        proof { lemma_exchanged_one(t0, Op::Write(words@)); }
        match res {
            Ok(()) => Ok(()),
            Err(e) => Err(BusError::Transport(e)),
        }
    }

    fn poll_magic(&mut self, max_polls: u32) -> (r: Result<u32, BusError<T::Error>>)
        ensures
            r matches Err(BusError::Transport(e)) ==> final(self).transport_fault() == Some(e),
            final(self).window() == old(self).window(),
            r matches Ok(p) ==> {
                &&& 1 <= p <= max_polls
                &&& exchanged(old(self).trace(), final(self).trace(), poll_shape(p as nat), true)
                &&& magic_at(final(self).trace().skip(old(self).trace().len() as int), p as nat)
            },
            r matches Err(BusError::HandshakeTimeout) ==> {
                &&& exchanged(old(self).trace(), final(self).trace(), poll_shape(max_polls as nat), true)
                &&& forall|i: int| 0 <= i < max_polls ==> polled(final(self).trace().skip(old(self).trace().len() as int), i) != FEEDBEAD
            },
            r is Err ==> (r matches Err(BusError::HandshakeTimeout)) || (r matches Err(BusError::Transport(_))),
            r matches Err(BusError::Transport(_)) ==> exchanged(old(self).trace(), final(self).trace(), poll_shape(max_polls as nat), false),
    {
        let ghost t0 = self.spi.trace();
        proof {
            lemma_exchanged_none(t0);
            assert(poll_shape(0) =~= Seq::<Op>::empty());
        }
        let mut i: u32 = 0;
        while i < max_polls
            invariant
                t0 == old(self).trace(),
                self.backplane_window == old(self).window(),
                i <= max_polls,
                exchanged(t0, self.spi.trace(), poll_shape(i as nat), true),
                forall|j: int| 0 <= j < i ==> polled(self.spi.trace().skip(t0.len() as int), j) != FEEDBEAD,
            decreases max_polls - i,
        {
            let ghost tc = self.spi.trace();
            let res = self.read32_swapped(REG_BUS_TEST_RO);
            proof {
                lemma_exchanged_then(t0, tc, self.spi.trace(), poll_shape(i as nat), read_swapped_shape(REG_BUS_TEST_RO), res is Ok);
                assert(poll_shape((i + 1) as nat) == poll_shape(i as nat) + read_swapped_shape(REG_BUS_TEST_RO));
            }
            match res {
                Err(e) => {
                    proof {
                        let k = (max_polls - i - 1) as nat;
                        lemma_poll_tail(i as nat, k);
                        lemma_exchanged_fault(t0, self.spi.trace(), poll_shape((i + 1) as nat), poll_rest(k));
                    }
                    return Err(e);
                },
                Ok(v) => {
                    proof {
                        let tn = self.spi.trace();
                        lemma_poll_shape_len((i + 1) as nat);
                        lemma_exchanged_keeps(tc, tn, read_swapped_shape(REG_BUS_TEST_RO), true);
                        let sn = tn.skip(t0.len() as int);
                        let sc = tc.skip(t0.len() as int);
                        lemma_poll_shape_len(i as nat);
                        assert forall|j: int| 0 <= j < i implies polled(sn, j) == polled(sc, j) by {
                            assert(sn[2 * j + 1] == sc[2 * j + 1]);
                        }
                        assert(sn[2 * i + 1] == tn.last());
                    }
                    if v == FEEDBEAD {
                        return Ok(i + 1);
                    }
                },
            }
            i = i + 1;
        }
        Err(BusError::HandshakeTimeout)
    }

    /// Brings the device up after its reset: polls the read-only test
    /// register with half-words exchanged, at most `max_polls` times, until
    /// it shows the magic value; writes and reads back the test pattern;
    /// configures 32-bit words in high-speed mode; then checks both test
    /// registers in the configured word order.
    #[verifier::rlimit(80)]
    pub fn init(&mut self, max_polls: u32) -> (r: Result<(), BusError<T::Error>>)
        ensures
            r matches Err(BusError::Transport(e)) ==> final(self).transport_fault() == Some(e),
            final(self).window() == old(self).window(),
            r is Ok ==> exists|p: nat| {
                &&& 1 <= p <= max_polls
                &&& #[trigger] magic_at(final(self).trace().skip(old(self).trace().len() as int), p)
                &&& exchanged(old(self).trace(), final(self).trace(), init_shape(p), true)
                &&& checks_pass(final(self).trace().skip(old(self).trace().len() as int), p, (2 * p + 8) as int)
            },
            r matches Err(BusError::HandshakeTimeout) ==> {
                &&& exchanged(old(self).trace(), final(self).trace(), poll_shape(max_polls as nat), true)
                &&& forall|i: int| 0 <= i < max_polls ==> polled(final(self).trace().skip(old(self).trace().len() as int), i) != FEEDBEAD
            },
            r matches Err(BusError::Integrity) ==> exists|p: nat, m: int| {
                &&& 1 <= p <= max_polls
                &&& #[trigger] magic_at(final(self).trace().skip(old(self).trace().len() as int), p)
                &&& exchanged(old(self).trace(), final(self).trace(), #[trigger] init_shape(p).take(m), true)
                &&& checks_pass(final(self).trace().skip(old(self).trace().len() as int), p, m - 1)
                &&& !checks_pass(final(self).trace().skip(old(self).trace().len() as int), p, m)
            },
            r matches Err(BusError::Transport(_)) ==> exchanged(old(self).trace(), final(self).trace(), poll_shape(max_polls as nat), false)
                || exists|p: nat| {
                    &&& 1 <= p <= max_polls
                    &&& #[trigger] magic_at(final(self).trace().skip(old(self).trace().len() as int), p)
                    &&& exchanged(old(self).trace(), final(self).trace(), init_shape(p), false)
                },
            r matches Err(BusError::Transport(_)) ==> {
                &&& old(self).trace().len() < final(self).trace().len()
                &&& final(self).trace().take(old(self).trace().len() as int) == old(self).trace()
                &&& final(self).trace().last() == Op::Fault
            },
            !(r matches Err(BusError::Misaligned)),
            !(r matches Err(BusError::OutOfRange)),
    {
        let ghost t0 = self.spi.trace();
        let p = match self.poll_magic(max_polls) {
            Ok(p) => p,
            Err(e) => {
                proof {
                    if e is Transport {
                        lemma_fault_last(t0, self.spi.trace(), poll_shape(max_polls as nat));
                    }
                }
                return Err(e);
            },
        };
        let ghost pn = p as nat;
        let ghost s0 = poll_shape(pn);
        let ghost s1 = s0 + write_swapped_shape(REG_BUS_TEST_RW, TEST_PATTERN);
        let ghost s2 = s1 + read_swapped_shape(REG_BUS_TEST_RW);
        let ghost s3 = s2 + write_swapped_shape(REG_BUS_CTRL, WORD_LENGTH_32 | HIGH_SPEED);
        let ghost s4 = s3 + readn_shape(FUNC_BUS, REG_BUS_TEST_RO, 4);
        let ghost s5 = s4 + readn_shape(FUNC_BUS, REG_BUS_TEST_RW, 4);
        proof {
            lemma_poll_shape_len(pn);
            assert(s5 =~= init_shape(pn));
            assert(s2 =~= init_shape(pn).take((2 * pn + 3) as int));
            assert(s4 =~= init_shape(pn).take((2 * pn + 6) as int));
        }
        let ghost ta = self.spi.trace();

        let ghost tc = self.spi.trace();
        let res = self.write32_swapped(REG_BUS_TEST_RW, TEST_PATTERN);
        if let Err(e) = res {
            proof {
                assert(ta.take(ta.len() as int) =~= ta);
                assert(s1 =~= init_shape(pn).take(s1.len() as int));
                lemma_init_fault(t0, ta, tc, self.spi.trace(), pn, s0, write_swapped_shape(REG_BUS_TEST_RW, TEST_PATTERN));
            }
            return Err(e);
        }
        proof { lemma_exchanged_then(t0, tc, self.spi.trace(), s0, write_swapped_shape(REG_BUS_TEST_RW, TEST_PATTERN), true); }

        let tc = Ghost(self.spi.trace());
        let res = self.read32_swapped(REG_BUS_TEST_RW);
        let v = match res {
            Ok(v) => v,
            Err(e) => {
                proof {
                    lemma_init_fault(t0, ta, tc@, self.spi.trace(), pn, s1, read_swapped_shape(REG_BUS_TEST_RW));
                }
                return Err(e);
            },
        };
        let ghost tb = self.spi.trace();
        proof {
            lemma_exchanged_then(t0, tc@, tb, s1, read_swapped_shape(REG_BUS_TEST_RW), true);
            lemma_prefix_trans(ta, tc@, tb);
            lemma_suffix_keeps(t0, ta, tb);
            lemma_magic_keeps(ta.skip(t0.len() as int), tb.skip(t0.len() as int), pn);
            assert(tb.skip(t0.len() as int)[(2 * pn + 2) as int] == tb.last());
        }
        if v != TEST_PATTERN {
            proof {
                assert(checks_pass(tb.skip(t0.len() as int), pn, (2 * pn + 2) as int));
                assert(!checks_pass(tb.skip(t0.len() as int), pn, (2 * pn + 3) as int));
            }
            return Err(BusError::Integrity);
        }

        let tc = Ghost(self.spi.trace());
        let res = self.write32_swapped(REG_BUS_CTRL, WORD_LENGTH_32 | HIGH_SPEED);
        if let Err(e) = res {
            proof {
                assert(s3 =~= init_shape(pn).take(s3.len() as int));
                lemma_init_fault(t0, ta, tc@, self.spi.trace(), pn, s2, write_swapped_shape(REG_BUS_CTRL, WORD_LENGTH_32 | HIGH_SPEED));
            }
            return Err(e);
        }
        proof { lemma_exchanged_then(t0, tc@, self.spi.trace(), s2, write_swapped_shape(REG_BUS_CTRL, WORD_LENGTH_32 | HIGH_SPEED), true); }

        let tc = Ghost(self.spi.trace());
        let res = self.read32(FUNC_BUS, REG_BUS_TEST_RO);
        let v = match res {
            Ok(v) => v,
            Err(e) => {
                proof {
                    lemma_prefix_trans(ta, tb, tc@);
                    lemma_init_fault(t0, ta, tc@, self.spi.trace(), pn, s3, readn_shape(FUNC_BUS, REG_BUS_TEST_RO, 4));
                }
                return Err(e);
            },
        };
        let ghost tcc = self.spi.trace();
        proof {
            lemma_exchanged_then(t0, tc@, tcc, s3, readn_shape(FUNC_BUS, REG_BUS_TEST_RO, 4), true);
            lemma_prefix_trans(tb, tc@, tcc);
            lemma_suffix_keeps(t0, tb, tcc);
            lemma_magic_keeps(tb.skip(t0.len() as int), tcc.skip(t0.len() as int), pn);
            assert(tcc.skip(t0.len() as int)[(2 * pn + 2) as int] == tb.skip(t0.len() as int)[(2 * pn + 2) as int]);
            assert(tcc.skip(t0.len() as int)[(2 * pn + 5) as int] == tcc.last());
        }
        if v != FEEDBEAD {
            proof {
                assert(checks_pass(tcc.skip(t0.len() as int), pn, (2 * pn + 5) as int));
                assert(!checks_pass(tcc.skip(t0.len() as int), pn, (2 * pn + 6) as int));
            }
            return Err(BusError::Integrity);
        }

        let tc = Ghost(self.spi.trace());
        let res = self.read32(FUNC_BUS, REG_BUS_TEST_RW);
        let v = match res {
            Ok(v) => v,
            Err(e) => {
                proof {
                    lemma_prefix_trans(ta, tb, tc@);
                    assert(s5 =~= init_shape(pn).take(s5.len() as int));
                    lemma_init_fault(t0, ta, tc@, self.spi.trace(), pn, s4, readn_shape(FUNC_BUS, REG_BUS_TEST_RW, 4));
                }
                return Err(e);
            },
        };
        let ghost td = self.spi.trace();
        proof {
            lemma_exchanged_then(t0, tc@, td, s4, readn_shape(FUNC_BUS, REG_BUS_TEST_RW, 4), true);
            lemma_suffix_keeps(t0, tcc, td);
            lemma_magic_keeps(tcc.skip(t0.len() as int), td.skip(t0.len() as int), pn);
            assert(td.skip(t0.len() as int)[(2 * pn + 2) as int] == tcc.skip(t0.len() as int)[(2 * pn + 2) as int]);
            assert(td.skip(t0.len() as int)[(2 * pn + 5) as int] == tcc.skip(t0.len() as int)[(2 * pn + 5) as int]);
            assert(td.skip(t0.len() as int)[(2 * pn + 7) as int] == td.last());
            assert(init_shape(pn).take((2 * pn + 8) as int) =~= init_shape(pn));
        }
        if v != TEST_PATTERN {
            proof {
                assert(checks_pass(td.skip(t0.len() as int), pn, (2 * pn + 7) as int));
                assert(!checks_pass(td.skip(t0.len() as int), pn, (2 * pn + 8) as int));
            }
            return Err(BusError::Integrity);
        }
        proof {
            assert(checks_pass(td.skip(t0.len() as int), pn, (2 * pn + 8) as int));
        }
        Ok(())
    }
}

} // verus!
