use crate::bitfield::{bit_count, bit_of, BitField};
use crate::meta_info_file::File;
use crate::util::joined;
use vstd::prelude::*;

verus! {

pub const FIXED_BLOCK_SIZE: u32 = 16384;

/// Content split into pieces: how many, how long each, how long in all.
pub trait PiecedContent {
    fn number_of_pieces(&self) -> u32;

    fn piece_length(&self) -> u32;

    fn total_length(&self) -> u32;
}

/// Back-pressure: no block is handed out while this many are in flight.
pub const MAX_IN_FLIGHT_BLOCKS: usize = 1024;

#[derive(Debug, PartialEq, Eq, Clone, Copy)]
pub enum BlockState {
    NotRequested,
    Requested,
    Done,
}

/// A block handed out and not yet absorbed.
#[derive(Debug, PartialEq, Eq, Clone, Copy)]
pub struct Block {
    pub state: BlockState,
    pub offset: u32,
    pub piece_index: u32,
    pub block_length: u32,
}

/// An active piece: its blocks `next_block..block_count` are still queued
/// for dispatch, in order.
#[derive(Debug, PartialEq, Eq, Clone, Copy)]
pub struct Piece {
    pub index: u32,
    pub next_block: u32,
    pub block_count: u32,
}

impl Piece {
    /// How many of the piece's blocks are still queued.
    pub fn blocks_left(&self) -> (r: u32)
        requires
            self.next_block <= self.block_count,
        ensures
            r == self.block_count - self.next_block,
    {
        self.block_count - self.next_block
    }
}

/// A block request: piece index, offset within the piece, length.
#[derive(Debug, PartialEq, Eq, Clone, Copy)]
pub struct PieceIndexOffsetLength(pub u32, pub u32, pub u32);

/// What became of an arriving block.
#[derive(Debug, PartialEq, Eq, Clone, Copy)]
pub enum FillOutcome {
    /// Written into the buffer; the block is now done.
    Filled,
    /// The block was already done: counted as a duplicate and discarded.
    Duplicate,
    /// No such block in this torrent.
    Unknown,
    /// A real block that is not in flight: discarded.
    NotRequested,
    /// More bytes than fit in the buffer from the block's position: discarded.
    Oversized,
}

/// Shared piece and block state of one download.
pub struct Torrent {
    total_blocks: u32,
    pieces: Vec<Piece>,
    piece_length: u32,
    total_pieces: u32,
    total_length: u32,
    blocks_per_piece: u32,
    completed_blocks: u32,
    repeated_blocks: Vec<u64>,
    in_progress_blocks: Vec<Block>,
    completed: Vec<bool>,
    data_buffer: Vec<u8>,
    arrivals: Ghost<Seq<nat>>,
}

/// The number of blocks that cover `len` bytes.
pub open spec fn blocks_for(len: int) -> int {
    (len + 16383) / 16384
}

/// A layout that metadata can describe: `n` pieces of `piece_length` bytes,
/// the last one possibly shorter, covering `total_length` bytes.
pub open spec fn valid_layout(n: int, piece_length: int, total_length: int) -> bool {
    &&& 0 < piece_length
    &&& 0 < total_length
    &&& 0 < n
    &&& (n - 1) * piece_length < total_length <= n * piece_length
}

/// The abstract state of the scheduler.
pub ghost struct TorrentView {
    pub total_pieces: int,
    pub piece_length: int,
    pub total_length: int,
    pub total_blocks: int,
    pub active: Seq<Piece>,
    pub in_flight: Seq<Block>,
    pub done: Seq<bool>,
    pub repeats: Seq<u64>,
    pub arrivals: Seq<nat>,
    pub buffer: Seq<u8>,
    pub completed: int,
}

impl TorrentView {
    /// Bytes in piece `p`: all but the last piece are full.
    pub open spec fn piece_size(self, p: int) -> int {
        if p < self.total_pieces - 1 {
            self.piece_length
        } else {
            self.total_length - (self.total_pieces - 1) * self.piece_length
        }
    }

    pub open spec fn blocks_per_piece(self) -> int {
        blocks_for(self.piece_length)
    }

    pub open spec fn block_count(self, p: int) -> int {
        blocks_for(self.piece_size(p))
    }

    /// Bytes in block `k` of piece `p`.
    pub open spec fn block_size(self, p: int, k: int) -> int {
        if self.piece_size(p) - k * 16384 < 16384 {
            self.piece_size(p) - k * 16384
        } else {
            16384
        }
    }

    /// Whether (p, k) names a block of this torrent.
    pub open spec fn is_block(self, p: int, k: int) -> bool {
        0 <= p < self.total_pieces && 0 <= k < self.block_count(p)
    }

    /// Position of block (p, k) in the per-block tables.
    pub open spec fn block_number(self, p: int, k: int) -> int {
        p * self.blocks_per_piece() + k
    }

    /// Position of piece `p`'s byte `offset` in the output buffer.
    pub open spec fn buffer_position(self, p: int, offset: int) -> int {
        p * self.piece_length + offset
    }

    pub open spec fn request_for(self, p: int, k: int) -> PieceIndexOffsetLength {
        PieceIndexOffsetLength(p as u32, (k * 16384) as u32, self.block_size(p, k) as u32)
    }

    pub open spec fn all_done(self) -> bool {
        forall|g: int| 0 <= g < self.done.len() ==> #[trigger] self.done[g]
    }
}

/// Whether the peer's bitfield advertises piece `p`.
pub open spec fn advertises(bits: Seq<u8>, p: int) -> bool {
    0 <= p < bit_count(bits) && bit_of(bits, p)
}

/// The list position of the first active piece that the peer advertises,
/// or the list's length.
pub open spec fn first_advertised(active: Seq<Piece>, bits: Seq<u8>) -> int
    decreases active.len(),
{
    if active.len() == 0 {
        0
    } else if advertises(bits, active[0].index as int) {
        0
    } else {
        1 + first_advertised(active.drop_first(), bits)
    }
}

/// One hand-out: the head of the queue of the first active piece (in list
/// order) that the peer advertises, unless the in-flight cap is reached.
/// The block goes in flight; a piece whose queue empties leaves the list,
/// which stays in piece-index order.
pub open spec fn next_block_step(v: TorrentView, bits: Seq<u8>) -> (
    Option<PieceIndexOffsetLength>,
    TorrentView,
) {
    let i = first_advertised(v.active, bits);
    if v.in_flight.len() >= MAX_IN_FLIGHT_BLOCKS || i >= v.active.len() {
        (None, v)
    } else {
        let pc = v.active[i];
        let p = pc.index as int;
        let k = pc.next_block as int;
        let block = Block {
            state: BlockState::Requested,
            offset: (k * 16384) as u32,
            piece_index: pc.index,
            block_length: v.block_size(p, k) as u32,
        };
        let active = if k + 1 == pc.block_count {
            v.active.remove(i)
        } else {
            v.active.update(
                i,
                Piece { index: pc.index, next_block: (k + 1) as u32, block_count: pc.block_count },
            )
        };
        (Some(v.request_for(p, k)), TorrentView { active, in_flight: v.in_flight.push(block), ..v })
    }
}

/// Up to `n` hand-outs in a row, stopping at the first that gives nothing:
/// the blocks handed out and the state after them.
pub open spec fn next_blocks(v: TorrentView, bits: Seq<u8>, n: nat) -> (
    Seq<PieceIndexOffsetLength>,
    TorrentView,
)
    decreases n,
{
    if n == 0 {
        (Seq::empty(), v)
    } else {
        match next_block_step(v, bits) {
            (None, w) => (Seq::empty(), w),
            (Some(b), w) => {
                let (rest, u) = next_blocks(w, bits, (n - 1) as nat);
                (seq![b] + rest, u)
            },
        }
    }
}

/// What absorbing the block `(p, offset, data)` does: an unknown block,
/// one not in flight, or data that would run past the end of the buffer
/// change nothing; a block already done
/// counts one more arrival and one more duplicate; a block in flight has its
/// data written at its buffer position, is marked done and leaves the
/// in-flight list.
pub open spec fn fill_step(v: TorrentView, p: u32, offset: u32, data: Seq<u8>) -> (
    FillOutcome,
    TorrentView,
) {
    let k = offset as int / 16384;
    let g = v.block_number(p as int, k);
    let i = first_in_flight(v.in_flight, p, offset);
    if offset % 16384 != 0 || !v.is_block(p as int, k) {
        (FillOutcome::Unknown, v)
    } else if v.done[g] {
        (
            FillOutcome::Duplicate,
            TorrentView {
                repeats: v.repeats.update(g, tally(v.arrivals[g] + 1)),
                arrivals: v.arrivals.update(g, v.arrivals[g] + 1),
                ..v
            },
        )
    } else if i >= v.in_flight.len() {
        (FillOutcome::NotRequested, v)
    } else if v.buffer_position(p as int, offset as int) + data.len() > v.buffer.len() {
        (FillOutcome::Oversized, v)
    } else {
        (
            FillOutcome::Filled,
            TorrentView {
                buffer: written(v.buffer, v.buffer_position(p as int, offset as int), data),
                done: v.done.update(g, true),
                arrivals: v.arrivals.update(g, 1),
                in_flight: swap_removed(v.in_flight, i),
                completed: v.completed + 1,
                ..v
            },
        )
    }
}

/// `s` after `Vec::swap_remove(i)`.
pub open spec fn swap_removed<T>(s: Seq<T>, i: int) -> Seq<T> {
    s.update(i, s.last()).drop_last()
}

/// `buffer` with `data` written at `pos`.
pub open spec fn written(buffer: Seq<u8>, pos: int, data: Seq<u8>) -> Seq<u8> {
    buffer.subrange(0, pos) + data + buffer.subrange(pos + data.len(), buffer.len() as int)
}

pub open spec fn count_true(s: Seq<bool>) -> int
    decreases s.len(),
{
    if s.len() == 0 {
        0
    } else {
        count_true(s.drop_last()) + if s.last() {
            1int
        } else {
            0int
        }
    }
}

/// The sum of the files' lengths.
pub open spec fn total_file_length(files: Seq<File>) -> int
    decreases files.len(),
{
    if files.len() == 0 {
        0
    } else {
        total_file_length(files.drop_last()) + files.last().length
    }
}

/// Where file `i` starts in the output buffer.
pub open spec fn file_start(files: Seq<File>, i: int) -> int {
    total_file_length(files.subrange(0, i))
}

/// The list position of the first in-flight block at (p, offset), or the
/// list's length.
pub open spec fn first_in_flight(s: Seq<Block>, p: u32, offset: u32) -> int
    decreases s.len(),
{
    if s.len() == 0 {
        0
    } else if s[0].piece_index == p && s[0].offset == offset {
        0
    } else {
        1 + first_in_flight(s.drop_first(), p, offset)
    }
}

proof fn lemma_first_advertised(active: Seq<Piece>, bits: Seq<u8>, i: int)
    requires
        0 <= i <= active.len(),
        forall|j: int| 0 <= j < i ==> !advertises(bits, #[trigger] active[j].index as int),
        i == active.len() || advertises(bits, active[i].index as int),
    ensures
        first_advertised(active, bits) == i,
    decreases i,
{
    if i > 0 {
        let rest = active.drop_first();
        assert forall|j: int| 0 <= j < i - 1 implies !advertises(
            bits,
            #[trigger] rest[j].index as int,
        ) by {
            assert(rest[j] == active[j + 1]);
        }
        if i < active.len() {
            assert(rest[i - 1] == active[i]);
        }
        lemma_first_advertised(rest, bits, i - 1);
    }
}

proof fn lemma_first_in_flight(s: Seq<Block>, p: u32, offset: u32, i: int)
    requires
        0 <= i <= s.len(),
        forall|j: int|
            0 <= j < i ==> !(#[trigger] s[j].piece_index == p && s[j].offset == offset),
        i == s.len() || (s[i].piece_index == p && s[i].offset == offset),
    ensures
        first_in_flight(s, p, offset) == i,
    decreases i,
{
    if i > 0 {
        let rest = s.drop_first();
        assert forall|j: int| 0 <= j < i - 1 implies !(#[trigger] rest[j].piece_index == p
            && rest[j].offset == offset) by {
            assert(rest[j] == s[j + 1]);
        }
        if i < s.len() {
            assert(rest[i - 1] == s[i]);
        }
        lemma_first_in_flight(rest, p, offset, i - 1);
    }
}

proof fn lemma_count_true_bounds(s: Seq<bool>)
    ensures
        0 <= count_true(s) <= s.len(),
        count_true(s) == s.len() ==> forall|g: int| 0 <= g < s.len() ==> #[trigger] s[g],
    decreases s.len(),
{
    if s.len() > 0 {
        lemma_count_true_bounds(s.drop_last());
        if count_true(s) == s.len() {
            assert forall|g: int| 0 <= g < s.len() implies #[trigger] s[g] by {
                if g < s.len() - 1 {
                    assert(s.drop_last()[g] == s[g]);
                }
            }
        }
    }
}

proof fn lemma_count_true_all(s: Seq<bool>)
    requires
        forall|g: int| 0 <= g < s.len() ==> #[trigger] s[g],
    ensures
        count_true(s) == s.len(),
    decreases s.len(),
{
    if s.len() > 0 {
        assert forall|g: int| 0 <= g < s.len() - 1 implies #[trigger] s.drop_last()[g] by {
            assert(s.drop_last()[g] == s[g]);
        }
        lemma_count_true_all(s.drop_last());
    }
}

proof fn lemma_count_true_none(n: nat)
    ensures
        count_true(Seq::new(n, |g: int| false)) == 0,
    decreases n,
{
    if n > 0 {
        assert(Seq::new(n, |g: int| false).drop_last() =~= Seq::new((n - 1) as nat, |g: int| false));
        lemma_count_true_none((n - 1) as nat);
    }
}

proof fn lemma_count_true_set(s: Seq<bool>, g: int)
    requires
        0 <= g < s.len(),
        !s[g],
    ensures
        count_true(s.update(g, true)) == count_true(s) + 1,
    decreases s.len(),
{
    let t = s.update(g, true);
    if g < s.len() - 1 {
        assert(t.drop_last() =~= s.drop_last().update(g, true));
        lemma_count_true_set(s.drop_last(), g);
    } else {
        assert(t.drop_last() =~= s.drop_last());
    }
}

pub proof fn lemma_total_file_length_prefix(files: Seq<File>, i: int)
    requires
        0 <= i <= files.len(),
    ensures
        total_file_length(files.subrange(0, i)) <= total_file_length(files),
        i < files.len() ==> total_file_length(files.subrange(0, i + 1)) == total_file_length(
            files.subrange(0, i),
        ) + files[i].length,
    decreases files.len(),
{
    if i < files.len() {
        assert(files.subrange(0, i + 1).drop_last() =~= files.subrange(0, i));
        lemma_total_file_length_prefix(files.drop_last(), i);
        assert(files.drop_last().subrange(0, i) =~= files.subrange(0, i));
    } else {
        assert(files.subrange(0, i) =~= files);
    }
}

impl View for Torrent {
    type V = TorrentView;

    closed spec fn view(&self) -> TorrentView {
        TorrentView {
            total_pieces: self.total_pieces as int,
            piece_length: self.piece_length as int,
            total_length: self.total_length as int,
            total_blocks: self.total_blocks as int,
            active: self.pieces@,
            in_flight: self.in_progress_blocks@,
            done: self.completed@,
            repeats: self.repeated_blocks@,
            arrivals: self.arrivals@,
            buffer: self.data_buffer@,
            completed: self.completed_blocks as int,
        }
    }
}

/// The duplicate tally that `n` arrivals of one block leave.
pub open spec fn tally(n: nat) -> u64 {
    if n == 0 {
        0
    } else if n - 1 > u64::MAX {
        u64::MAX
    } else {
        (n - 1) as u64
    }
}

impl TorrentView {
    /// The scheduler's invariant.
    pub open spec fn wf(self) -> bool {
        &&& valid_layout(self.total_pieces, self.piece_length, self.total_length)
        &&& self.total_blocks == (self.total_pieces - 1) * self.blocks_per_piece()
            + self.block_count(self.total_pieces - 1)
        &&& self.done.len() == self.total_blocks
        &&& self.repeats.len() == self.total_blocks
        &&& self.arrivals.len() == self.total_blocks
        &&& self.buffer.len() == self.total_length
        &&& self.completed == count_true(self.done)
        &&& forall|i: int|
            0 <= i < self.active.len() ==> {
                let pc = #[trigger] self.active[i];
                &&& pc.index < self.total_pieces
                &&& pc.next_block < pc.block_count
                &&& pc.block_count == self.block_count(pc.index as int)
            }
        &&& forall|i: int, j: int|
            0 <= i < j < self.active.len() ==> #[trigger] self.active[i].index
                < #[trigger] self.active[j].index
        &&& forall|i: int|
            0 <= i < self.in_flight.len() ==> {
                let b = #[trigger] self.in_flight[i];
                &&& b.state == BlockState::Requested
                &&& b.offset % 16384 == 0
                &&& self.is_block(b.piece_index as int, b.offset as int / 16384)
                &&& b.block_length == self.block_size(b.piece_index as int, b.offset as int / 16384)
            }
        &&& forall|g: int|
            0 <= g < self.total_blocks ==> (#[trigger] self.done[g] <==> self.arrivals[g] >= 1)
        &&& forall|g: int|
            0 <= g < self.total_blocks ==> #[trigger] self.repeats[g] == tally(self.arrivals[g])
    }
}

/// Facts about the layout that the scheduler's arithmetic relies on.
proof fn lemma_layout(v: TorrentView, p: int, k: int)
    requires
        valid_layout(v.total_pieces, v.piece_length, v.total_length),
        v.total_length <= u32::MAX,
        v.total_blocks == (v.total_pieces - 1) * v.blocks_per_piece() + v.block_count(
            v.total_pieces - 1,
        ),
        v.is_block(p, k),
    ensures
        0 < v.piece_size(p) <= v.piece_length,
        v.block_count(p) <= v.blocks_per_piece(),
        0 <= v.block_number(p, k) < v.total_blocks,
        0 < v.block_size(p, k),
        k * 16384 + v.block_size(p, k) <= v.piece_size(p),
        v.buffer_position(p, 0) + v.piece_size(p) <= v.total_length,
        v.total_blocks <= v.total_length,
{
    let n = v.total_pieces;
    let pl = v.piece_length;
    let tl = v.total_length;
    let bpp = v.blocks_per_piece();
    assert((n - 1) * pl + pl == n * pl) by (nonlinear_arith);
    assert(v.piece_size(p) <= pl);
    assert(0 < v.piece_size(p));
    assert(v.block_count(p) <= bpp);
    assert(bpp <= pl);
    assert(k * 16384 < v.piece_size(p)) by (nonlinear_arith)
        requires
            k < (v.piece_size(p) + 16383) / 16384,
            0 <= k,
    ;
    if p < n - 1 {
        assert(p * bpp + bpp <= (n - 1) * bpp) by (nonlinear_arith)
            requires
                p < n - 1,
                0 <= bpp,
        ;
        assert(p * pl + pl <= (n - 1) * pl) by (nonlinear_arith)
            requires
                p < n - 1,
                0 <= pl,
        ;
    }
    assert(v.block_number(p, k) >= 0) by (nonlinear_arith)
        requires
            p >= 0,
            bpp >= 0,
            k >= 0,
            v.block_number(p, k) == p * bpp + k,
    ;
    assert(p * pl >= 0) by (nonlinear_arith)
        requires
            p >= 0,
            pl >= 0,
    ;
    assert((n - 1) * bpp <= (n - 1) * pl) by (nonlinear_arith)
        requires
            bpp <= pl,
            n >= 1,
    ;
    let last = v.piece_size(n - 1);
    assert(v.block_count(n - 1) <= last);
}

impl Torrent {
    /// The scheduler's invariant, and its cached block count per piece.
    pub closed spec fn wf(&self) -> bool {
        &&& self@.wf()
        &&& self.blocks_per_piece == blocks_for(self.piece_length as int)
    }

    /// Sets up the schedule for `number_of_pieces` pieces of `piece_length`
    /// bytes (the last one holding the rest of `total_length`): every block
    /// queued, nothing in flight, a zeroed buffer of `total_length` bytes.
    pub fn new(number_of_pieces: u32, piece_length: u32, total_length: u32) -> (t: Torrent)
        requires
            valid_layout(number_of_pieces as int, piece_length as int, total_length as int),
        ensures
            t.wf(),
            t@.wf(),
            t@.total_blocks == (number_of_pieces - 1) * blocks_for(piece_length as int)
                + t@.block_count(number_of_pieces - 1),
            t@.done.len() == t@.total_blocks,
            t@.repeats.len() == t@.total_blocks,
            t@.total_pieces == number_of_pieces,
            t@.piece_length == piece_length,
            t@.total_length == total_length,
            t@.active.len() == number_of_pieces,
            forall|i: int|
                0 <= i < number_of_pieces ==> #[trigger] t@.active[i] == (Piece {
                    index: i as u32,
                    next_block: 0,
                    block_count: t@.block_count(i) as u32,
                }),
            t@.in_flight.len() == 0,
            t@.completed == 0,
            forall|g: int| 0 <= g < t@.total_blocks ==> !#[trigger] t@.done[g],
            t@.buffer == Seq::new(total_length as nat, |i: int| 0u8),
    {
        let n = number_of_pieces;
        let pl = piece_length as u64;
        let tl = total_length as u64;
        let bpp = (piece_length as u64 + 16383) / 16384;
        let last_len = tl - (n as u64 - 1) * pl;
        let last_blocks = (last_len + 16383) / 16384;
        let ghost v = TorrentView {
            total_pieces: n as int,
            piece_length: piece_length as int,
            total_length: total_length as int,
            total_blocks: (n - 1) * bpp + last_blocks,
            active: Seq::empty(),
            in_flight: Seq::empty(),
            done: Seq::empty(),
            repeats: Seq::empty(),
            arrivals: Seq::empty(),
            buffer: Seq::empty(),
            completed: 0,
        };
        proof {
            assert((n - 1) * pl <= tl) by (nonlinear_arith)
                requires
                    (n - 1) * pl < tl,
            ;
            lemma_layout(v, 0, 0);
            lemma_layout(v, n - 1, 0);
        }
        let total_blocks = ((n as u64 - 1) * bpp + last_blocks) as u32;
        let mut pieces: Vec<Piece> = Vec::new();
        let mut p: u32 = 0;
        while p < n
            invariant
                p <= n,
                0 < n,
                pl == piece_length as u64,
                v.total_pieces == n as int,
                v.piece_length == piece_length as int,
                v.total_length == total_length as int,
                last_len as int == v.piece_size(n - 1),
                last_len <= pl,
                pieces@.len() == p,
                forall|i: int|
                    0 <= i < p ==> #[trigger] pieces@[i] == (Piece {
                        index: i as u32,
                        next_block: 0,
                        block_count: v.block_count(i) as u32,
                    }),
            decreases n - p,
        {
            let size = if p < n - 1 {
                pl
            } else {
                last_len
            };
            let count = ((size + 16383) / 16384) as u32;
            pieces.push(Piece { index: p, next_block: 0, block_count: count });
            p = p + 1;
        }
        let t = Torrent {
            total_blocks,
            pieces,
            piece_length,
            total_pieces: n,
            total_length,
            blocks_per_piece: bpp as u32,
            completed_blocks: 0,
            repeated_blocks: vec![0u64; total_blocks as usize],
            in_progress_blocks: Vec::new(),
            completed: vec![false; total_blocks as usize],
            data_buffer: vec![0u8; total_length as usize],
            arrivals: Ghost(Seq::new(total_blocks as nat, |g: int| 0nat)),
        };
        proof {
            lemma_count_true_none(total_blocks as nat);
            assert(t@.done =~= Seq::new(total_blocks as nat, |g: int| false));
        }
        t
    }
}

impl Torrent {
    /// A torrent for the given layout, or `None` when the three numbers do
    /// not describe one.
    pub fn try_new(number_of_pieces: u32, piece_length: u32, total_length: u32) -> (r: Option<
        Torrent,
    >)
        ensures
            r is Some <==> valid_layout(
                number_of_pieces as int,
                piece_length as int,
                total_length as int,
            ),
            r matches Some(t) ==> t.wf() && t@.wf() && t@.total_blocks == (number_of_pieces - 1)
                * blocks_for(piece_length as int) + t@.block_count(number_of_pieces - 1)
                && t@.in_flight.len() == 0 && t@.completed == 0 && t@.active.len()
                == number_of_pieces && t@.total_pieces == number_of_pieces && (forall|i: int|
                0 <= i < number_of_pieces ==> #[trigger] t@.active[i] == (Piece {
                    index: i as u32,
                    next_block: 0,
                    block_count: t@.block_count(i) as u32,
                })) && (forall|g: int| 0 <= g < t@.total_blocks ==> !#[trigger] t@.done[g])
                && t@.buffer == Seq::new(total_length as nat, |i: int| 0u8)
                && t@.piece_length == piece_length && t@.total_length == total_length,
    {
        if number_of_pieces == 0 || piece_length == 0 || total_length == 0 {
            return None;
        }
        let n = number_of_pieces as u64;
        let pl = piece_length as u64;
        let tl = total_length as u64;
        proof {
            assert(n * pl <= u32::MAX * u32::MAX) by (nonlinear_arith)
                requires
                    n <= u32::MAX,
                    pl <= u32::MAX,
            ;
            assert((n - 1) * pl <= n * pl) by (nonlinear_arith)
                requires
                    n >= 1,
                    pl >= 0,
            ;
        }
        if (n - 1) * pl < tl && tl <= n * pl {
            Some(Torrent::new(number_of_pieces, piece_length, total_length))
        } else {
            None
        }
    }

    pub fn total_blocks(&self) -> (r: u32)
        ensures
            r == self@.total_blocks,
    {
        self.total_blocks
    }

    pub fn total_pieces(&self) -> (r: u32)
        ensures
            r == self@.total_pieces,
    {
        self.total_pieces
    }

    pub fn completed_blocks(&self) -> (r: u32)
        ensures
            r == self@.completed,
    {
        self.completed_blocks
    }

    /// The active pieces, in scan order.
    pub fn pieces(&self) -> (r: &Vec<Piece>)
        ensures
            r@ == self@.active,
    {
        &self.pieces
    }

    /// The blocks handed out and not yet absorbed.
    pub fn in_progress_blocks(&self) -> (r: &Vec<Block>)
        ensures
            r@ == self@.in_flight,
    {
        &self.in_progress_blocks
    }

    /// Duplicate arrivals, per block, numbered piece by piece.
    pub fn repeated_blocks(&self) -> (r: &Vec<u64>)
        ensures
            r@ == self@.repeats,
    {
        &self.repeated_blocks
    }

    /// The output buffer.
    pub fn data(&self) -> (r: &Vec<u8>)
        ensures
            r@ == self@.buffer,
    {
        &self.data_buffer
    }

    fn piece_size(&self, p: u32) -> (r: u64)
        requires
            self.wf(),
            p < self@.total_pieces,
        ensures
            r == self@.piece_size(p as int),
            r <= self@.piece_length,
    {
        proof {
            lemma_layout(self@, p as int, 0);
        }
        if p < self.total_pieces - 1 {
            self.piece_length as u64
        } else {
            proof {
                assert((self.total_pieces - 1) * self.piece_length <= self.total_length)
                    by (nonlinear_arith)
                    requires
                        (self.total_pieces - 1) * self.piece_length < self.total_length,
                ;
            }
            self.total_length as u64 - (self.total_pieces as u64 - 1) * self.piece_length as u64
        }
    }

    /// Hands out the next block to request from a peer with `bitfield`:
    /// the head of the queue of the active piece with the least index that
    /// the peer has. A piece whose queue empties leaves the list. Nothing is
    /// handed out once the in-flight cap is reached.
    pub fn get_next_block(&mut self, bitfield: &BitField) -> (r: Option<PieceIndexOffsetLength>)
        requires
            old(self).wf(),
        ensures
            final(self).wf(),
            final(self)@.wf(),
            (r, final(self)@) == next_block_step(old(self)@, bitfield@),
            r matches Some(PieceIndexOffsetLength(p, offset, length)) ==> p < final(self)@.total_pieces
                && 0 < length && offset % 16384 == 0 && offset + length <= final(self)@.piece_size(
                p as int,
            ),
            r matches Some(PieceIndexOffsetLength(p, offset, length)) ==> forall|j: int|
                0 <= j < old(self)@.active.len() && advertises(
                    bitfield@,
                    #[trigger] old(self)@.active[j].index as int,
                ) ==> p <= old(self)@.active[j].index,
            r is None && old(self)@.in_flight.len() < MAX_IN_FLIGHT_BLOCKS ==> forall|j: int|
                0 <= j < old(self)@.active.len() ==> !advertises(
                    bitfield@,
                    #[trigger] old(self)@.active[j].index as int,
                ),
    {
        if self.in_progress_blocks.len() >= MAX_IN_FLIGHT_BLOCKS {
            return None;
        }
        let ghost v = self@;
        let mut i: usize = 0;
        while i < self.pieces.len() && !matches!(bitfield.is_set(self.pieces[i].index as usize), Ok(true))
            invariant
                i <= self.pieces@.len(),
                self@ == v,
                forall|j: int|
                    0 <= j < i ==> !advertises(bitfield@, #[trigger] self.pieces@[j].index as int),
            decreases self.pieces@.len() - i,
        {
            i = i + 1;
        }
        proof {
            lemma_first_advertised(v.active, bitfield@, i as int);
        }
        if i >= self.pieces.len() {
            return None;
        }
        let pc = self.pieces[i];
        let p = pc.index;
        let k = pc.next_block;
        proof {
            lemma_layout(self@, p as int, k as int);
        }
        let size = self.piece_size(p);
        let offset = k as u64 * 16384;
        let length = if size - offset < 16384 {
            size - offset
        } else {
            16384
        };
        let block = Block {
            state: BlockState::Requested,
            offset: offset as u32,
            piece_index: p,
            block_length: length as u32,
        };
        self.in_progress_blocks.push(block);
        if k + 1 == pc.block_count {
            self.pieces.remove(i);
        } else {
            self.pieces.set(i, Piece { index: p, next_block: k + 1, block_count: pc.block_count });
        }
        proof {
            let w = self@;
            assert forall|j: int| 0 <= j < w.in_flight.len() implies {
                let b = #[trigger] w.in_flight[j];
                &&& b.state == BlockState::Requested
                &&& b.offset % 16384 == 0
                &&& w.is_block(b.piece_index as int, b.offset as int / 16384)
                &&& b.block_length == w.block_size(b.piece_index as int, b.offset as int / 16384)
            } by {
                if j < v.in_flight.len() {
                    assert(w.in_flight[j] == v.in_flight[j]);
                }
            }
            assert forall|j: int| 0 <= j < w.active.len() implies {
                let q = #[trigger] w.active[j];
                &&& q.index < w.total_pieces
                &&& q.next_block < q.block_count
                &&& q.block_count == w.block_count(q.index as int)
            } by {
                if k + 1 == pc.block_count {
                    if j >= i {
                        assert(w.active[j] == v.active[j + 1]);
                    } else {
                        assert(w.active[j] == v.active[j]);
                    }
                } else if j != i {
                    assert(w.active[j] == v.active[j]);
                }
            }
            assert forall|a: int, b: int| 0 <= a < b < w.active.len() implies #[trigger] w.active[
                a].index < #[trigger] w.active[b].index by {
                if k + 1 == pc.block_count {
                    let a1 = if a >= i {
                        a + 1
                    } else {
                        a
                    };
                    let b1 = if b >= i {
                        b + 1
                    } else {
                        b
                    };
                    assert(w.active[a] == v.active[a1]);
                    assert(w.active[b] == v.active[b1]);
                    assert(v.active[a1].index < v.active[b1].index);
                } else {
                    assert(w.active[a].index == v.active[a].index);
                    assert(w.active[b].index == v.active[b].index);
                    assert(v.active[a].index < v.active[b].index);
                }
            }
            assert forall|j: int|
                0 <= j < v.active.len() && advertises(
                    bitfield@,
                    #[trigger] v.active[j].index as int,
                ) implies p <= v.active[j].index by {
                if j > i as int {
                    assert(v.active[i as int].index < v.active[j].index);
                }
            }
        }
        Some(PieceIndexOffsetLength(p, offset as u32, length as u32))
    }

    /// Whether every block has been absorbed.
    pub fn are_we_done_yet(&self) -> (r: bool)
        requires
            self.wf(),
        ensures
            r == self@.all_done(),
            r == (self@.completed == self@.total_blocks),
    {
        proof {
            lemma_count_true_bounds(self@.done);
            if self@.all_done() {
                lemma_count_true_all(self@.done);
            }
        }
        self.completed_blocks == self.total_blocks
    }
}

/// Copies `data` into `buffer` at `position`.
fn write_at(buffer: &mut Vec<u8>, position: usize, data: &[u8])
    requires
        position + data@.len() <= old(buffer)@.len(),
    ensures
        final(buffer)@ == written(old(buffer)@, position as int, data@),
{
    let n = buffer.len();
    let mut m: usize = 0;
    while m < data.len()
        invariant
            m <= data@.len(),
            n == old(buffer)@.len(),
            position + data@.len() <= old(buffer)@.len(),
            buffer@.len() == old(buffer)@.len(),
            buffer@ == written(old(buffer)@, position as int, data@.subrange(0, m as int)),
        decreases data@.len() - m,
    {
        buffer.set(position + m, data[m]);
        m = m + 1;
        assert(buffer@ =~= written(old(buffer)@, position as int, data@.subrange(0, m as int)));
    }
    assert(data@.subrange(0, m as int) =~= data@);
}

impl Torrent {
    /// Absorbs an arriving block `(piece, offset, data)`. A block already
    /// done is tallied as a duplicate and its bytes discarded; a block in
    /// flight has its bytes written at `piece * piece_length + offset`, is
    /// marked done and leaves the in-flight list. A payload that would run
    /// past the end of the buffer is refused and changes nothing.
    pub fn fill_block(&mut self, block: (u32, u32, &[u8])) -> (r: FillOutcome)
        requires
            old(self).wf(),
        ensures
            final(self).wf(),
            final(self)@.wf(),
            (r, final(self)@) == fill_step(old(self)@, block.0, block.1, block.2@),
            r == FillOutcome::Duplicate ==> ({
                let g = old(self)@.block_number(block.0 as int, block.1 as int / 16384);
                final(self)@.repeats[g] == if old(self)@.repeats[g] == u64::MAX {
                    u64::MAX
                } else {
                    (old(self)@.repeats[g] + 1) as u64
                }
            }),
    {
        let (p, offset, data) = block;
        let ghost v = self@;
        if offset % 16384 != 0 || p >= self.total_pieces {
            return FillOutcome::Unknown;
        }
        let k = offset / 16384;
        let size = self.piece_size(p);
        if k as u64 >= (size + 16383) / 16384 {
            return FillOutcome::Unknown;
        }
        proof {
            lemma_layout(v, p as int, k as int);
        }
        let g = (p as u64 * self.blocks_per_piece as u64 + k as u64) as usize;
        if self.completed[g] {
            let count = self.repeated_blocks[g];
            let bumped = if count < u64::MAX {
                count + 1
            } else {
                count
            };
            self.repeated_blocks.set(g, bumped);
            proof {
                self.arrivals@ = self.arrivals@.update(g as int, self.arrivals@[g as int] + 1);
            }
            return FillOutcome::Duplicate;
        }
        let mut i: usize = 0;
        while i < self.in_progress_blocks.len() && !(self.in_progress_blocks[i].piece_index == p
            && self.in_progress_blocks[i].offset == offset)
            invariant
                i <= self.in_progress_blocks@.len(),
                self@ == v,
                forall|j: int|
                    0 <= j < i ==> !(#[trigger] self.in_progress_blocks@[j].piece_index == p
                        && self.in_progress_blocks@[j].offset == offset),
            decreases self.in_progress_blocks@.len() - i,
        {
            i = i + 1;
        }
        proof {
            lemma_first_in_flight(v.in_flight, p, offset, i as int);
        }
        if i >= self.in_progress_blocks.len() {
            return FillOutcome::NotRequested;
        }
        let position = (p as u64 * self.piece_length as u64 + offset as u64) as usize;
        proof {
            assert(p * self.piece_length >= 0) by (nonlinear_arith)
                requires
                    p >= 0,
                    self.piece_length >= 0,
            ;
            assert(v.buffer_position(p as int, 0) == p * self.piece_length);
        }
        if data.len() > self.data_buffer.len() - position {
            return FillOutcome::Oversized;
        }
        write_at(&mut self.data_buffer, position, data);
        proof {
            lemma_count_true_set(v.done, g as int);
            lemma_count_true_bounds(v.done.update(g as int, true));
        }
        self.completed.set(g, true);
        self.completed_blocks = self.completed_blocks + 1;
        self.in_progress_blocks.swap_remove(i);
        proof {
            lemma_count_true_set(v.done, g as int);
            lemma_count_true_bounds(self@.done);
            self.arrivals@ = self.arrivals@.update(g as int, 1);
            let w = self@;
            assert forall|j: int| 0 <= j < w.in_flight.len() implies {
                let b = #[trigger] w.in_flight[j];
                &&& b.state == BlockState::Requested
                &&& b.offset % 16384 == 0
                &&& w.is_block(b.piece_index as int, b.offset as int / 16384)
                &&& b.block_length == w.block_size(b.piece_index as int, b.offset as int / 16384)
            } by {
                if j == i {
                    assert(w.in_flight[j] == v.in_flight[v.in_flight.len() - 1]);
                } else {
                    assert(w.in_flight[j] == v.in_flight[j]);
                }
            }
            assert forall|h: int| 0 <= h < w.total_blocks implies (#[trigger] w.done[h]
                <==> w.arrivals[h] >= 1) && w.repeats[h] == tally(w.arrivals[h]) by {
                if h != g {
                    assert(w.done[h] == v.done[h]);
                    assert(w.arrivals[h] == v.arrivals[h]);
                }
            }
            assert(w.completed == count_true(w.done));
            assert(w.active == v.active);
            assert(w.done.len() == w.total_blocks);
            assert(w.repeats.len() == w.total_blocks);
            assert(w.arrivals.len() == w.total_blocks);
            assert(w.buffer.len() == w.total_length);
            assert(w.wf());
        }
        FillOutcome::Filled
    }

    /// Splits the buffer into the files' contents, in declaration order,
    /// each file taking its declared length from where the previous one
    /// ended. The lengths must add up to the torrent's total length.
    pub fn file_contents(&self, files: &[File]) -> (r: Option<Vec<Vec<u8>>>)
        requires
            self.wf(),
        ensures
            r is Some <==> total_file_length(files@) == self@.total_length,
            r matches Some(chunks) ==> {
                &&& chunks@.len() == files@.len()
                &&& forall|i: int|
                    0 <= i < files@.len() ==> (#[trigger] chunks@[i])@ == self@.buffer.subrange(
                        file_start(files@, i),
                        file_start(files@, i) + files@[i].length,
                    )
                &&& joined(chunks@.map_values(|c: Vec<u8>| c@)) == self@.buffer
                &&& self@.buffer.len() == total_file_length(files@)
            },
    {
        let total = self.data_buffer.len();
        let mut chunks: Vec<Vec<u8>> = Vec::new();
        let mut pos: usize = 0;
        let mut i: usize = 0;
        assert(files@.subrange(0, 0) =~= Seq::<File>::empty());
        while i < files.len()
            invariant
                self.wf(),
                total == self@.buffer.len(),
                i <= files@.len(),
                pos == file_start(files@, i as int),
                pos <= total,
                chunks@.len() == i,
                forall|j: int|
                    0 <= j < i ==> (#[trigger] chunks@[j])@ == self@.buffer.subrange(
                        file_start(files@, j),
                        file_start(files@, j) + files@[j].length,
                    ),
                joined(chunks@.map_values(|c: Vec<u8>| c@)) == self@.buffer.subrange(0, pos as int),
            decreases files@.len() - i,
        {
            let length = files[i].length as usize;
            proof {
                lemma_total_file_length_prefix(files@, i as int);
                lemma_total_file_length_prefix(files@, i + 1);
            }
            if length > total - pos {
                return None;
            }
            let chunk = vstd::slice::slice_to_vec(
                vstd::slice::slice_subrange(self.data_buffer.as_slice(), pos, pos + length),
            );
            let ghost before = chunks@;
            chunks.push(chunk);
            proof {
                let views = chunks@.map_values(|c: Vec<u8>| c@);
                assert(views.drop_last() =~= before.map_values(|c: Vec<u8>| c@));
                assert(self@.buffer.subrange(0, pos + length) =~= self@.buffer.subrange(
                    0,
                    pos as int,
                ) + chunk@);
                assert forall|j: int| 0 <= j < i + 1 implies (#[trigger] chunks@[j])@
                    == self@.buffer.subrange(
                    file_start(files@, j),
                    file_start(files@, j) + files@[j].length,
                ) by {
                    if j < i {
                        assert(chunks@[j] == before[j]);
                    }
                }
            }
            pos = pos + length;
            i = i + 1;
        }
        assert(files@.subrange(0, i as int) =~= files@);
        if pos != total {
            return None;
        }
        assert(self@.buffer.subrange(0, pos as int) =~= self@.buffer);
        Some(chunks)
    }
}

/// The output buffer always holds exactly the content length: `new` makes
/// it so and every operation keeps the invariant.
pub proof fn lemma_buffer_holds_the_content(t: &Torrent)
    requires
        t.wf(),
    ensures
        t@.buffer.len() == t@.total_length,
        t@.done.len() == t@.total_blocks,
{
}

/// When every block is done, every block arrived through `fill_block` at
/// least once (`arrivals` counts the arrivals that `fill_block` absorbed for
/// each block, and only `fill_block` changes it), and the duplicate tally of
/// each block records all arrivals but the first.
pub proof fn lemma_completion_accounts_for_every_block(t: &Torrent)
    requires
        t.wf(),
        t@.all_done(),
    ensures
        forall|g: int|
            0 <= g < t@.total_blocks ==> #[trigger] t@.arrivals[g] >= 1 && t@.repeats[g] == tally(
                t@.arrivals[g],
            ),
{
    let v = t@;
    assert forall|g: int| 0 <= g < v.total_blocks implies #[trigger] v.arrivals[g] >= 1
        && v.repeats[g] == tally(v.arrivals[g]) by {
        assert(v.done[g]);
    }
}

} // verus!
