//! Block bookkeeping of a small allocator. Free blocks of `16 << level` bytes
//! are kept on one stack per level; an allocation takes the smallest free
//! block that fits and hands the surplus back as smaller blocks, and draining
//! coalesces neighbouring blocks back into pages.

use vstd::arithmetic::power2::{
    lemma2_to64, lemma2_to64_rest, lemma_pow2_adds, lemma_pow2_strictly_increases,
    lemma_pow2_unfold, pow2,
};
use vstd::arithmetic::div_mod::{
    lemma_fundamental_div_mod_converse, lemma_mod_add_multiples_vanish, lemma_mod_mod,
};
use crate::collection::sort_indices;
use vstd::multiset::Multiset;
use vstd::prelude::*;
use vstd::wrapping::usize_specs::{wrapping_add, wrapping_sub};

verus! {

broadcast use {vstd::seq_lib::group_to_multiset_ensures, vstd::multiset::group_multiset_axioms};

/// Size in bytes of a page, the largest block.
pub const BLOCK_SIZE: u64 = 4096;

/// Number of block levels below a page, each with a free list.
pub const LEVELS: usize = 8;

/// Size below which the first blocks taken are kept small.
pub const START_SIZE: u64 = 512;

/// Size in bytes of a block of `level`.
pub open spec fn level_size(level: nat) -> nat {
    16 * pow2(level)
}

/// `level` is the least level whose blocks hold `size` bytes.
pub open spec fn fits_level(size: nat, level: nat) -> bool {
    &&& size <= level_size(level)
    &&& (level == 0 || level_size((level - 1) as nat) < size)
}

/// Bytes a layout of `size` and `align` occupies in a block.
pub open spec fn layout_span(size: nat, align: nat) -> nat {
    if size <= align {
        align
    } else {
        size
    }
}

/// Level of the blocks that serve a layout of `size` bytes aligned to
/// `align`: the least level whose blocks hold the larger of the two.
pub fn index(size: usize, align: usize) -> (r: usize)
    requires
        size <= isize::MAX,
        align <= isize::MAX,
    ensures
        fits_level(layout_span(size as nat, align as nat), r as nat),
{
    let s: u64 = if size <= align {
        align as u64
    } else {
        size as u64
    };
    let mut level: usize = 0;
    let mut cap: u64 = 16;
    proof {
        lemma2_to64();
        lemma2_to64_rest();
    }
    while cap < s
        invariant
            cap == level_size(level as nat),
            cap >= 16,
            level == 0 || level_size((level - 1) as nat) < s,
            s <= isize::MAX,
            s == layout_span(size as nat, align as nat),
            level < 60,
            pow2(59) == 0x800000000000000,
        decreases 60 - level,
    {
        proof {
            lemma_pow2_unfold((level + 1) as nat);
            if level + 1 >= 59 {
                if level + 1 > 59 {
                    lemma_pow2_strictly_increases(59, level as nat);
                }
            }
        }
        cap = cap * 2;
        level = level + 1;
    }
    level
}

/// The least level whose blocks hold a layout of `size` bytes aligned to
/// `align`.
pub open spec fn layout_level(size: nat, align: nat) -> nat {
    choose|l: nat| fits_level(layout_span(size, align), l)
}

/// Block sizes grow with the level.
pub proof fn lemma_level_size_increases(a: nat, b: nat)
    requires
        a < b,
    ensures
        level_size(a) < level_size(b),
{
    lemma_pow2_strictly_increases(a, b);
}

/// Each level's blocks are twice the size of the level below.
pub proof fn lemma_level_size_double(l: nat)
    ensures
        level_size(l + 1) == 2 * level_size(l),
{
    lemma_pow2_unfold(l + 1);
}

/// Only one level is the least that holds a size.
pub proof fn lemma_fits_level_unique(s: nat, a: nat, b: nat)
    requires
        fits_level(s, a),
        fits_level(s, b),
    ensures
        a == b,
{
    if a < b {
        if a <= (b - 1) as nat {
            if a < (b - 1) as nat {
                lemma_level_size_increases(a, (b - 1) as nat);
            }
        }
    } else if b < a {
        if b < (a - 1) as nat {
            lemma_level_size_increases(b, (a - 1) as nat);
        }
    }
}

/// The level `index` computes is the least level that holds the layout.
pub proof fn lemma_layout_level(size: nat, align: nat, l: nat)
    requires
        fits_level(layout_span(size, align), l),
    ensures
        layout_level(size, align) == l,
{
    let c = layout_level(size, align);
    assert(fits_level(layout_span(size, align), c));
    lemma_fits_level_unique(layout_span(size, align), c, l);
}

/// Level sizes of the free lists and of a page.
pub proof fn lemma_level_sizes()
    ensures
        level_size(0) == 16,
        level_size(1) == 32,
        level_size(2) == 64,
        level_size(3) == 128,
        level_size(4) == 256,
        level_size(5) == 512,
        level_size(6) == 1024,
        level_size(7) == 2048,
        level_size(8) == 4096,
{
    lemma2_to64();
}

/// A block aligned to its level is aligned to every lower level.
pub proof fn lemma_align_down(b: nat, l: nat, j: nat)
    requires
        l <= j,
        b % level_size(j) == 0,
    ensures
        b % level_size(l) == 0,
{
    let d = (j - l) as nat;
    lemma_pow2_adds(l, d);
    assert(level_size(j) == level_size(l) * pow2(d)) by (nonlinear_arith)
        requires
            level_size(j) == 16 * pow2(j),
            level_size(l) == 16 * pow2(l),
            pow2(l + d) == pow2(l) * pow2(d),
            j == l + d,
    ;
    vstd::arithmetic::power2::lemma_pow2_pos(l);
    vstd::arithmetic::power2::lemma_pow2_pos(d);
    lemma_mod_mod(b as int, level_size(l) as int, pow2(d) as int);
}

/// Size in bytes of a block of `level`, up to a page.
fn level_bytes(level: usize) -> (r: u64)
    requires
        level <= LEVELS,
    ensures
        r == level_size(level as nat),
{
    proof {
        lemma_level_sizes();
    }
    let r: u64 = 16u64 << level;
    assert(r == level_size(level as nat)) by {
        assert(16u64 << 0usize == 16u64 && 16u64 << 1usize == 32u64 && 16u64 << 2usize == 64u64
            && 16u64 << 3usize == 128u64 && 16u64 << 4usize == 256u64 && 16u64 << 5usize == 512u64
            && 16u64 << 6usize == 1024u64 && 16u64 << 7usize == 2048u64 && 16u64 << 8usize == 4096u64)
            by (bit_vector);
    }
    r
}

/// `b` can be a free block of `level`: not null, aligned to its size, and
/// ending within the address space.
pub open spec fn block_fits(b: u64, level: nat) -> bool {
    &&& 0 < b
    &&& (b as nat) % level_size(level) == 0
    &&& b + level_size(level) <= u64::MAX
}

/// `free` after `block`, of `block_level`, was sliced for a layout of
/// `layout_level`: a block of each level `l` from `layout_level` up to
/// `block_level`, at `block` plus `16 << l`, pushed on its list.
pub open spec fn sliced(free: Seq<Seq<u64>>, layout_level: nat, block: u64, block_level: nat) -> Seq<
    Seq<u64>,
> {
    Seq::new(
        free.len(),
        |l: int|
            if layout_level <= l < block_level {
                free[l].push((block + level_size(l as nat)) as u64)
            } else {
                free[l]
            },
    )
}

/// `x` counted modulo the word size.
pub open spec fn word(x: int) -> int {
    x % (usize::MAX as int + 1)
}

/// A count that fits a word is its own count modulo the word size.
proof fn lemma_word_small(x: int)
    requires
        0 <= x <= usize::MAX,
    ensures
        word(x) == x,
{
    lemma_fundamental_div_mod_converse(x, usize::MAX as int + 1, 0, x);
}

/// Adding to a count modulo the word size.
proof fn lemma_word_shift(x: int, d: int)
    ensures
        word(word(x) + d) == word(x + d),
{
    let m = usize::MAX as int + 1;
    vstd::arithmetic::div_mod::lemma_add_mod_noop(x, d, m);
    vstd::arithmetic::div_mod::lemma_add_mod_noop(x % m, d, m);
    vstd::arithmetic::div_mod::lemma_mod_twice(x, m);
}

/// Wrapping arithmetic on words is arithmetic modulo the word size.
proof fn lemma_wrapping_word(a: usize, s: usize)
    ensures
        wrapping_add(a, s) as int == word(a + s),
        wrapping_sub(a, s) as int == word(a - s),
        a as int == word(a as int),
{
    let m = usize::MAX as int + 1;
    lemma_word_small(a as int);
    if a + s > usize::MAX {
        lemma_fundamental_div_mod_converse(a + s, m, 1, a + s - m);
    } else {
        lemma_fundamental_div_mod_converse(a + s, m, 0, a + s);
    }
    if a - s < 0 {
        lemma_fundamental_div_mod_converse(a - s, m, -1, a - s + m);
    } else {
        lemma_fundamental_div_mod_converse(a - s, m, 0, a - s);
    }
}

/// What an allocation asks of the system allocator, or where it was served.
pub enum AllocStep {
    /// Too large for the free lists: serve it from the system allocator.
    Global,
    /// Served at `addr`, sliced from a free block of level `from`.
    Served { addr: u64, from: usize },
    /// No free block fits: take a block of `16 << level` bytes, aligned to its
    /// size, from the system allocator and hand it to `fill` with
    /// `layout_level`; `sub` tells whether it is smaller than a page.
    Refill { layout_level: usize, level: usize, sub: bool },
}

/// Bytes in the free blocks of the first `n` levels of `lists`.
pub open spec fn free_bytes(lists: Seq<Seq<u64>>, n: nat) -> nat
    decreases n,
{
    if n == 0 {
        0
    } else {
        free_bytes(lists, (n - 1) as nat) + lists[n - 1].len() * level_size((n - 1) as nat)
    }
}

/// Bytes in the blocks listed in `s`, each an address and a level.
pub open spec fn entry_bytes(s: Seq<(u64, usize)>) -> nat
    decreases s.len(),
{
    if s.len() == 0 {
        0
    } else {
        entry_bytes(s.drop_last()) + level_size(s.last().1 as nat)
    }
}

/// The records, address plus level, of the blocks smaller than a page
/// listed in `s`.
pub open spec fn sub_tags(s: Seq<(u64, usize)>) -> Seq<u64>
    decreases s.len(),
{
    if s.len() == 0 {
        Seq::empty()
    } else if s.last().1 < LEVELS {
        sub_tags(s.drop_last()).push((s.last().0 + s.last().1) as u64)
    } else {
        sub_tags(s.drop_last())
    }
}

/// Every block listed in `s` fits its level, at most `max_level`.
pub open spec fn entries_fit(s: Seq<(u64, usize)>, max_level: nat) -> bool {
    forall|t: int|
        0 <= t < s.len() ==> (#[trigger] s[t]).1 <= max_level && block_fits(s[t].0, s[t].1 as nat)
}

/// Listing one more block.
proof fn lemma_entries_push(s: Seq<(u64, usize)>, e: (u64, usize), max_level: nat)
    requires
        entries_fit(s, max_level),
        e.1 <= max_level,
        block_fits(e.0, e.1 as nat),
    ensures
        entry_bytes(s.push(e)) == entry_bytes(s) + level_size(e.1 as nat),
        sub_tags(s.push(e)) == if e.1 < LEVELS {
            sub_tags(s).push((e.0 + e.1) as u64)
        } else {
            sub_tags(s)
        },
        entries_fit(s.push(e), max_level),
{
    assert(s.push(e).drop_last() =~= s);
    assert forall|t: int| 0 <= t < s.push(e).len() implies (#[trigger] s.push(e)[t]).1 <= max_level && block_fits(s.push(e)[t].0, s.push(e)[t].1 as nat) by {
        if t < s.len() {
            assert(s.push(e)[t] == s[t]);
        }
    }
}

/// What draining the free lists leaves to give back to the system allocator.
pub struct Drained {
    /// Blocks to give back, each an address and a level; a page has level
    /// `LEVELS`.
    pub release: Vec<(u64, usize)>,
    /// Blocks smaller than a page that were not taken as such, so cannot be
    /// given back.
    pub leaked: Vec<(u64, usize)>,
}

/// Free blocks of a small allocator, one stack per level, the blocks smaller
/// than a page that it took from the system allocator, and a running count
/// of the bytes it took.
pub struct MiniAllocator {
    lists: Vec<Vec<u64>>,
    sub_blocks: Vec<u64>,
    allocated: usize,
    lent: Ghost<int>,
    lent_blocks: Ghost<Multiset<(u64, nat)>>,
}

impl MiniAllocator {
    /// The free blocks, per level, the last one on top.
    pub closed spec fn free(&self) -> Seq<Seq<u64>> {
        Seq::new(self.lists@.len(), |l: int| self.lists@[l]@)
    }

    /// Address plus level of each block smaller than a page taken from the
    /// system allocator.
    pub closed spec fn sub(&self) -> Seq<u64> {
        self.sub_blocks@
    }

    /// The running count of bytes taken from the system allocator.
    pub closed spec fn allocated_bytes(&self) -> usize {
        self.allocated
    }

    /// Bytes handed out and not given back: the blocks of the layouts
    /// served, the layouts left to the system allocator, and what draining
    /// listed.
    pub closed spec fn lent(&self) -> int {
        self.lent@
    }

    /// The blocks served from the free lists and not given back yet, each an
    /// address and a level.
    pub closed spec fn lent_blocks(&self) -> Multiset<(u64, nat)> {
        self.lent_blocks@
    }

    /// Block `b` of `level` shares no byte with a free block nor with a block
    /// lent out.
    pub open spec fn apart_from_blocks(&self, b: u64, level: nat) -> bool {
        &&& apart_from_free(self.free(), b, level)
        &&& forall|x: (u64, nat)| #[trigger] self.lent_blocks().count(x) > 0 ==> apart(x.0, x.1, b, level)
    }

    /// No two blocks, free or lent out, share a byte, and no block is lent
    /// out twice.
    pub open spec fn blocks_apart(&self) -> bool {
        &&& free_apart(self.free())
        &&& ms_apart(self.lent_blocks())
        &&& forall|x: (u64, nat)| #[trigger] self.lent_blocks().count(x) > 0 ==> apart_from_free(self.free(), x.0, x.1)
    }

    /// The count of bytes taken is the free bytes plus the bytes lent out,
    /// modulo the word size.
    pub open spec fn balanced(&self) -> bool {
        self.allocated_bytes() as int == word(free_bytes(self.free(), LEVELS as nat) + self.lent())
    }

    /// One free list per level, each block fitting its level.
    pub closed spec fn wf(&self) -> bool {
        &&& self.lists@.len() == LEVELS
        &&& forall|l: int, t: int|
            0 <= l < LEVELS && 0 <= t < self.lists@[l]@.len() ==> block_fits(
                #[trigger] self.lists@[l]@[t],
                l as nat,
            )
    }

    /// An allocator with no free blocks that took nothing.
    pub fn new() -> (r: Self)
        ensures
            r.wf(),
            r.free().len() == LEVELS,
            forall|l: int| 0 <= l < LEVELS ==> #[trigger] r.free()[l].len() == 0,
            r.sub().len() == 0,
            r.allocated_bytes() == 0,
            r.lent() == 0,
            r.balanced(),
            free_apart(r.free()),
            r.lent_blocks() == Multiset::<(u64, nat)>::empty(),
            r.blocks_apart(),
    {
        let mut lists: Vec<Vec<u64>> = Vec::new();
        let mut l: usize = 0;
        while l < LEVELS
            invariant
                l <= LEVELS,
                lists@.len() == l,
                forall|t: int| 0 <= t < l ==> #[trigger] lists@[t]@.len() == 0,
            decreases LEVELS - l,
        {
            lists.push(Vec::new());
            l = l + 1;
        }
        let r = MiniAllocator { lists, sub_blocks: Vec::new(), allocated: 0, lent: Ghost(0), lent_blocks: Ghost(Multiset::empty()) };
        proof {
            assert(free_bytes(r.free(), LEVELS as nat) == 0) by {
                lemma_free_bytes_empty(r.free(), LEVELS as nat);
            }
            lemma_word_small(0);
        }
        r
    }

    /// Bytes in the free blocks.
    pub fn capacity(&self) -> (r: usize)
        requires
            self.wf(),
            free_bytes(self.free(), LEVELS as nat) <= usize::MAX,
        ensures
            r == free_bytes(self.free(), LEVELS as nat),
    {
        let mut capacity: usize = 0;
        let mut l: usize = 0;
        proof {
            lemma_level_sizes();
        }
        while l < LEVELS
            invariant
                self.wf(),
                l <= LEVELS,
                capacity == free_bytes(self.free(), l as nat),
                free_bytes(self.free(), LEVELS as nat) <= usize::MAX,
                level_size(0) == 16,
                level_size(1) == 32,
                level_size(2) == 64,
                level_size(3) == 128,
                level_size(4) == 256,
                level_size(5) == 512,
                level_size(6) == 1024,
                level_size(7) == 2048,
            decreases LEVELS - l,
        {
            proof {
                lemma_free_bytes_mono(self.free(), (l + 1) as nat, LEVELS as nat);
            }
            let size: usize = 16usize << l;
            assert(size == level_size(l as nat)) by {
                assert(16usize << 0usize == 16usize) by (bit_vector);
                assert(16usize << 1usize == 32usize) by (bit_vector);
                assert(16usize << 2usize == 64usize) by (bit_vector);
                assert(16usize << 3usize == 128usize) by (bit_vector);
                assert(16usize << 4usize == 256usize) by (bit_vector);
                assert(16usize << 5usize == 512usize) by (bit_vector);
                assert(16usize << 6usize == 1024usize) by (bit_vector);
                assert(16usize << 7usize == 2048usize) by (bit_vector);
            }
            let n = self.lists[l].len();
            proof {
                assert(self.free()[l as int].len() == n);
                assert(free_bytes(self.free(), (l + 1) as nat) == capacity + n * size);
                assert(0 <= n * size) by (nonlinear_arith)
                    requires
                        0 <= n,
                        0 <= size,
                ;
            }
            capacity = capacity + n * size;
            l = l + 1;
        }
        capacity
    }

    /// The running count of bytes taken from the system allocator.
    pub fn allocated(&self) -> (r: usize)
        ensures
            r == self.allocated_bytes(),
    {
        self.allocated
    }

    /// Takes the top block of the lowest nonempty free list at or above
    /// `level`, with the level it was on.
    fn select(&mut self, level: usize) -> (r: Option<(u64, usize)>)
        requires
            old(self).wf(),
            level <= LEVELS,
        ensures
            final(self).wf(),
            final(self).sub() == old(self).sub(),
            final(self).allocated_bytes() == old(self).allocated_bytes(),
            r matches Some((b, at)) ==> {
                &&& level <= at < LEVELS
                &&& old(self).free()[at as int].len() > 0
                &&& b == old(self).free()[at as int].last()
                &&& block_fits(b, at as nat)
                &&& forall|l: int| level <= l < at ==> #[trigger] old(self).free()[l].len() == 0
                &&& final(self).free() == old(self).free().update(
                    at as int,
                    old(self).free()[at as int].drop_last(),
                )
            },
            r is None ==> {
                &&& forall|l: int| level <= l < LEVELS ==> #[trigger] old(self).free()[l].len() == 0
                &&& final(self).free() == old(self).free()
            },
            final(self).lent() == old(self).lent(),
            final(self).lent_blocks() == old(self).lent_blocks(),
    {
        let mut at = level;
        while at < LEVELS
            invariant
                self == old(self),
                self.wf(),
                level <= at <= LEVELS,
                forall|l: int| level <= l < at ==> #[trigger] self.free()[l].len() == 0,
            decreases LEVELS - at,
        {
            if self.lists[at].len() > 0 {
                let ghost before = self.lists@;
                let mut list: Vec<u64> = Vec::new();
                self.lists.set_and_swap(at, &mut list);
                let b = match list.pop() {
                    Some(b) => b,
                    None => 0,
                };
                self.lists.set_and_swap(at, &mut list);
                proof {
                    assert(before[at as int]@.len() > 0);
                    assert(b == before[at as int]@.last());
                    assert(block_fits(before[at as int]@[before[at as int]@.len() - 1], at as nat));
                    assert(self.lists@[at as int]@ == before[at as int]@.drop_last());
                    assert forall|l: int| 0 <= l < LEVELS && l != at implies self.lists@[l] == before[l] by {}
                    assert(self.free() =~= old(self).free().update(at as int, old(self).free()[at as int].drop_last()));
                    assert forall|l: int, t: int| 0 <= l < LEVELS && 0 <= t < self.lists@[l]@.len() implies block_fits(#[trigger] self.lists@[l]@[t], l as nat) by {
                        if l != at {
                            assert(self.lists@[l] == before[l]);
                        } else {
                            assert(self.lists@[l]@[t] == before[l]@[t]);
                        }
                    }
                }
                return Some((b, at));
            }
            proof {
                assert(self.free()[at as int].len() == self.lists@[at as int]@.len());
            }
            at = at + 1;
        }
        None
    }

    /// Hands out the first `16 << layout_level` bytes of `block`, a block of
    /// `block_level`, and frees the rest as one block of each level from
    /// `layout_level` up to `block_level`, the block of level `l` at `block`
    /// plus `16 << l`.
    fn allocate_in(&mut self, layout_level: usize, block: u64, block_level: usize) -> (r: u64)
        requires
            old(self).wf(),
            layout_level <= block_level <= LEVELS,
            block_fits(block, block_level as nat),
        ensures
            final(self).wf(),
            final(self).sub() == old(self).sub(),
            final(self).allocated_bytes() == old(self).allocated_bytes(),
            r == block,
            final(self).free() == sliced(old(self).free(), layout_level as nat, block, block_level as nat),
            final(self).lent() == old(self).lent(),
            final(self).lent_blocks() == old(self).lent_blocks(),
    {
        proof {
            if layout_level < block_level {
                lemma_level_size_increases(layout_level as nat, block_level as nat);
            }
        }
        let mut piece: u64 = block + level_bytes(layout_level);
        let mut j = layout_level;
        while j < block_level
            invariant
                self.wf(),
                self.sub() == old(self).sub(),
                self.allocated_bytes() == old(self).allocated_bytes(),
                self.lent == old(self).lent,
                self.lent_blocks == old(self).lent_blocks,
                layout_level <= j <= block_level <= LEVELS,
                block_fits(block, block_level as nat),
                piece == block + level_size(j as nat),
                self.free().len() == LEVELS,
                forall|l: int|
                    0 <= l < LEVELS ==> #[trigger] self.free()[l] == if layout_level <= l < j {
                        old(self).free()[l].push((block + level_size(l as nat)) as u64)
                    } else {
                        old(self).free()[l]
                    },
            decreases block_level - j,
        {
            proof {
                lemma_level_size_double(j as nat);
                if j + 1 < block_level {
                    lemma_level_size_increases((j + 1) as nat, block_level as nat);
                }
                lemma_align_down(block as nat, j as nat, block_level as nat);
                vstd::arithmetic::power2::lemma_pow2_pos(j as nat);
                lemma_mod_add_multiples_vanish(block as int, level_size(j as nat) as int);
                assert(block_fits(piece, j as nat));
            }
            let ghost before = self.free();
            self.add(j, piece);
            proof {
                assert forall|l: int| 0 <= l < LEVELS implies #[trigger] self.free()[l] == if layout_level <= l < j + 1 {
                    old(self).free()[l].push((block + level_size(l as nat)) as u64)
                } else {
                    old(self).free()[l]
                } by {
                    if l == j {
                        assert(before[l] == old(self).free()[l]);
                    }
                }
            }
            piece = piece + level_bytes(j);
            j = j + 1;
        }
        assert(self.free() =~= sliced(old(self).free(), layout_level as nat, block, block_level as nat));
        block
    }

    /// Plans an allocation of `size` bytes aligned to `align`: too large ones
    /// go to the system allocator, counted as taken; others are sliced from
    /// the smallest free block that fits; where none fits, a new block is to
    /// be taken, smaller than a page while less than a page was taken.
    pub fn allocate(&mut self, size: usize, align: usize) -> (r: AllocStep)
        requires
            old(self).wf(),
            size <= isize::MAX,
            align <= isize::MAX,
        ensures
            final(self).wf(),
            final(self).sub() == old(self).sub(),
            old(self).balanced() ==> final(self).balanced(),
            free_apart(old(self).free()) ==> free_apart(final(self).free()),
            final(self).lent_blocks() == match r {
                AllocStep::Served { addr, .. } => old(self).lent_blocks().insert(
                    (addr, layout_level(size as nat, align as nat)),
                ),
                _ => old(self).lent_blocks(),
            },
            old(self).blocks_apart() ==> final(self).blocks_apart(),
            r matches AllocStep::Served { addr, .. } ==> (old(self).blocks_apart() ==> forall|x: (u64, nat)|
                #[trigger] old(self).lent_blocks().count(x) > 0 ==> apart(
                    x.0,
                    x.1,
                    addr,
                    layout_level(size as nat, align as nat),
                )),
            final(self).lent() == old(self).lent() + match r {
                AllocStep::Global => size as int,
                AllocStep::Served { .. } => level_size(layout_level(size as nat, align as nat)) as int,
                AllocStep::Refill { .. } => 0,
            },
            layout_level(size as nat, align as nat) >= LEVELS ==> {
                &&& r is Global
                &&& final(self).free() == old(self).free()
                &&& final(self).allocated_bytes() == wrapping_add(old(self).allocated_bytes(), size)
            },
            layout_level(size as nat, align as nat) < LEVELS ==> {
                &&& final(self).allocated_bytes() == old(self).allocated_bytes()
                &&& !(r is Global)
            },
            r matches AllocStep::Served { addr, from } ==> {
                let i = layout_level(size as nat, align as nat);
                &&& i <= from < LEVELS
                &&& old(self).free()[from as int].len() > 0
                &&& addr == old(self).free()[from as int].last()
                &&& forall|l: int| i <= l < from ==> #[trigger] old(self).free()[l].len() == 0
                &&& final(self).free() == sliced(
                    old(self).free().update(from as int, old(self).free()[from as int].drop_last()),
                    i,
                    addr,
                    from as nat,
                )
                &&& free_bytes(final(self).free(), LEVELS as nat) + level_size(i) == free_bytes(
                    old(self).free(),
                    LEVELS as nat,
                )
                &&& free_apart(old(self).free()) ==> apart_from_free(final(self).free(), addr, i)
            },
            r matches AllocStep::Refill { layout_level: ll, level, sub } ==> {
                &&& ll == layout_level(size as nat, align as nat)
                &&& forall|l: int| ll <= l < LEVELS ==> #[trigger] old(self).free()[l].len() == 0
                &&& final(self).free() == old(self).free()
                &&& if old(self).allocated_bytes() < BLOCK_SIZE {
                    let small = if old(self).allocated_bytes() <= START_SIZE {
                        old(self).allocated_bytes() as nat
                    } else {
                        START_SIZE as nat
                    };
                    &&& sub
                    &&& level == if layout_level(small, 1) <= ll {
                        ll as nat
                    } else {
                        layout_level(small, 1)
                    }
                } else {
                    &&& !sub
                    &&& level == LEVELS
                }
            },
    {
        let i = index(size, align);
        proof {
            lemma_layout_level(size as nat, align as nat, i as nat);
        }
        if i >= LEVELS {
            let ghost x = free_bytes(self.free(), LEVELS as nat) + self.lent@;
            self.allocated = self.allocated.wrapping_add(size);
            let ghost f_before = self.free();
            self.lent = Ghost(self.lent@ + size as int);
            proof {
                assert(self.free() =~= f_before);
            }
            proof {
                lemma_wrapping_word(old(self).allocated, size);
                lemma_word_shift(x, size as int);
            }
            return AllocStep::Global;
        }
        match self.select(i) {
            Some((block, block_level)) => {
                let ghost g = self.free();
                let addr = self.allocate_in(i, block, block_level);
                proof {
                    lemma_free_bytes_pop(old(self).free(), block_level as int, LEVELS as nat);
                    lemma_sliced_bytes(g, i as nat, block, block_level as nat, LEVELS as nat);
                    lemma_piece_bytes(i as nat, block_level as nat, LEVELS as nat);
                    if free_apart(old(self).free()) {
                        lemma_pop_apart(old(self).free(), block_level as int);
                        lemma_sliced_apart(g, i as nat, block, block_level as nat);
                    }
                }
                proof {
                    if old(self).blocks_apart() {
                        let lent = old(self).lent_blocks();
                        let f = old(self).free();
                        lemma_pop_apart(f, block_level as int);
                        assert forall|x: (u64, nat)| #[trigger] lent.count(x) > 0 implies apart_from_free(g, x.0, x.1)
                            && apart(x.0, x.1, block, block_level as nat) by {
                            lemma_pop_keeps_apart(f, block_level as int, x.0, x.1);
                            lemma_served_apart(f, x.0, x.1, block_level as int, block_level as nat);
                        }
                        lemma_lend_apart(g, lent, i as nat, block, block_level as nat);
                    }
                }
                let ghost f_before = self.free();
                self.lent = Ghost(self.lent@ + level_size(i as nat));
                self.lent_blocks = Ghost(self.lent_blocks@.insert((addr, i as nat)));
                proof {
                    assert(self.free() =~= f_before);
                }
                AllocStep::Served { addr, from: block_level }
            },
            None => {
                let allocated = self.allocated;
                if (allocated as u64) < BLOCK_SIZE {
                    let small: usize = if allocated <= START_SIZE as usize {
                        allocated
                    } else {
                        START_SIZE as usize
                    };
                    let j0 = index(small, 1);
                    proof {
                        lemma_layout_level(small as nat, 1, j0 as nat);
                    }
                    let j = if j0 <= i {
                        i
                    } else {
                        j0
                    };
                    AllocStep::Refill { layout_level: i, level: j, sub: true }
                } else {
                    AllocStep::Refill { layout_level: i, level: LEVELS, sub: false }
                }
            },
        }
    }

    /// Takes `block`, of `level`, from the system allocator: counts it as
    /// taken, records it where it is smaller than a page, and hands out its
    /// first `16 << layout_level` bytes, freeing the rest.
    pub fn fill(&mut self, layout_level: usize, block: u64, level: usize, sub: bool) -> (r: u64)
        requires
            old(self).wf(),
            layout_level <= level <= LEVELS,
            block_fits(block, level as nat),
        ensures
            final(self).wf(),
            r == block,
            final(self).allocated_bytes() == wrapping_add(
                old(self).allocated_bytes(),
                level_size(level as nat) as usize,
            ),
            final(self).sub() == if sub {
                old(self).sub().push((block + level) as u64)
            } else {
                old(self).sub()
            },
            final(self).free() == sliced(old(self).free(), layout_level as nat, block, level as nat),
            free_bytes(final(self).free(), LEVELS as nat) + level_size(layout_level as nat) == free_bytes(
                old(self).free(),
                LEVELS as nat,
            ) + level_size(level as nat),
            final(self).lent() == old(self).lent() + level_size(layout_level as nat),
            final(self).lent_blocks() == old(self).lent_blocks().insert((block, layout_level as nat)),
            old(self).blocks_apart() && old(self).apart_from_blocks(block, level as nat)
                ==> final(self).blocks_apart(),
            old(self).blocks_apart() && old(self).apart_from_blocks(block, level as nat) ==> forall|
                x: (u64, nat),
            | #[trigger] old(self).lent_blocks().count(x) > 0 ==> apart(x.0, x.1, r, layout_level as nat),
            old(self).balanced() ==> final(self).balanced(),
            free_apart(old(self).free()) && apart_from_free(old(self).free(), block, level as nat)
                ==> free_apart(final(self).free()) && apart_from_free(
                final(self).free(),
                r,
                layout_level as nat,
            ),
    {
        proof {
            lemma_sliced_bytes(old(self).free(), layout_level as nat, block, level as nat, LEVELS as nat);
            lemma_piece_bytes(layout_level as nat, level as nat, LEVELS as nat);
            if free_apart(old(self).free()) && apart_from_free(old(self).free(), block, level as nat) {
                lemma_sliced_apart(old(self).free(), layout_level as nat, block, level as nat);
            }
            if old(self).blocks_apart() && old(self).apart_from_blocks(block, level as nat) {
                lemma_lend_apart(old(self).free(), old(self).lent_blocks(), layout_level as nat, block, level as nat);
            }
        }
        let size = level_bytes(level);
        proof {
            lemma_level_sizes();
            if level < LEVELS {
                lemma_level_size_increases(level as nat, LEVELS as nat);
            }
        }
        self.allocated = self.allocated.wrapping_add(size as usize);
        if sub {
            proof {
                vstd::arithmetic::power2::lemma_pow2_pos(level as nat);
            }
            self.sub_blocks.push(block + level as u64);
        }
        let r = self.allocate_in(layout_level, block, level);
        let ghost x = free_bytes(old(self).free(), LEVELS as nat) + old(self).lent@;
        let ghost f_before = self.free();
        self.lent = Ghost(self.lent@ + level_size(layout_level as nat));
        self.lent_blocks = Ghost(self.lent_blocks@.insert((block, layout_level as nat)));
        proof {
            assert(self.free() =~= f_before);
        }
        proof {
            lemma_wrapping_word(old(self).allocated, size as usize);
            lemma_word_shift(x, size as int);
        }
        r
    }

    /// Frees `addr`, given out for a layout of `size` bytes aligned to
    /// `align`: pushed on its level's free list, or, where the layout was too
    /// large for the lists, uncounted and left to the system allocator
    /// (false).
    pub fn deallocate(&mut self, addr: u64, size: usize, align: usize) -> (r: bool)
        requires
            old(self).wf(),
            size <= isize::MAX,
            align <= isize::MAX,
            layout_level(size as nat, align as nat) < LEVELS ==> block_fits(
                addr,
                layout_level(size as nat, align as nat),
            ),
        ensures
            final(self).wf(),
            final(self).sub() == old(self).sub(),
            r == (layout_level(size as nat, align as nat) < LEVELS),
            r ==> final(self).allocated_bytes() == old(self).allocated_bytes() && final(self).free()
                == old(self).free().update(
                layout_level(size as nat, align as nat) as int,
                old(self).free()[layout_level(size as nat, align as nat) as int].push(addr),
            ),
            !r ==> final(self).allocated_bytes() == wrapping_sub(old(self).allocated_bytes(), size)
                && final(self).free() == old(self).free(),
            r ==> free_bytes(final(self).free(), LEVELS as nat) == free_bytes(old(self).free(), LEVELS as nat)
                + level_size(layout_level(size as nat, align as nat)),
            final(self).lent() == old(self).lent() - if r {
                level_size(layout_level(size as nat, align as nat)) as int
            } else {
                size as int
            },
            final(self).lent_blocks() == if r {
                old(self).lent_blocks().remove((addr, layout_level(size as nat, align as nat)))
            } else {
                old(self).lent_blocks()
            },
            old(self).blocks_apart() && (r ==> old(self).lent_blocks().count(
                (addr, layout_level(size as nat, align as nat)),
            ) > 0) ==> final(self).blocks_apart(),
            old(self).balanced() ==> final(self).balanced(),
            free_apart(old(self).free()) && (layout_level(size as nat, align as nat) < LEVELS
                ==> apart_from_free(old(self).free(), addr, layout_level(size as nat, align as nat)))
                ==> free_apart(final(self).free()),
    {
        let i = index(size, align);
        proof {
            lemma_layout_level(size as nat, align as nat, i as nat);
        }
        if i < LEVELS {
            let ghost f0 = self.free();
            self.add(i, addr);
            proof {
                let g = self.free();
                assert(g[i as int].drop_last() =~= f0[i as int]);
                assert(g.update(i as int, g[i as int].drop_last()) =~= f0);
                lemma_free_bytes_pop(g, i as int, LEVELS as nat);
                if free_apart(f0) && apart_from_free(f0, addr, i as nat) {
                    lemma_push_apart(f0, i as int, addr);
                }
                let lent = old(self).lent_blocks();
                let e = (addr, i as nat);
                if old(self).blocks_apart() && lent.count(e) > 0 {
                    lemma_push_apart(f0, i as int, addr);
                    lemma_ms_apart_remove(lent, e);
                    assert forall|x: (u64, nat)| #[trigger] lent.remove(e).count(x) > 0 implies apart_from_free(g, x.0, x.1) by {
                        assert(lent.count(x) > 0);
                        assert(x != e);
                        lemma_push_keeps_apart(f0, i as int, addr, x.0, x.1);
                    }
                }
            }
            let ghost f_before = self.free();
            self.lent = Ghost(self.lent@ - level_size(i as nat));
            self.lent_blocks = Ghost(self.lent_blocks@.remove((addr, i as nat)));
            proof {
                assert(self.free() =~= f_before);
            }
            true
        } else {
            let ghost x = free_bytes(self.free(), LEVELS as nat) + self.lent@;
            self.allocated = self.allocated.wrapping_sub(size);
            let ghost f_before = self.free();
            self.lent = Ghost(self.lent@ - size as int);
            proof {
                assert(self.free() =~= f_before);
            }
            proof {
                lemma_wrapping_word(old(self).allocated, size);
                lemma_word_shift(x, -(size as int));
            }
            false
        }
    }

    /// Gives back `later`, a block of `level` that cannot be coalesced: listed
    /// for release where it was taken as a block smaller than a page (its
    /// record is then dropped), else listed as leaked.
    fn release_block(
        &mut self,
        later: u64,
        level: usize,
        release: &mut Vec<(u64, usize)>,
        leaked: &mut Vec<(u64, usize)>,
    )
        requires
            level < LEVELS,
            block_fits(later, level as nat),
            entries_fit(old(release)@, LEVELS as nat),
            entries_fit(old(leaked)@, LEVELS as nat),
        ensures
            final(self).free() == old(self).free(),
            final(self).allocated_bytes() == old(self).allocated_bytes(),
            final(self).lists@ == old(self).lists@,
            entries_fit(final(release)@, LEVELS as nat),
            entries_fit(final(leaked)@, LEVELS as nat),
            entry_bytes(final(release)@) + entry_bytes(final(leaked)@) == entry_bytes(old(release)@)
                + entry_bytes(old(leaked)@) + level_size(level as nat),
            entries_ms(final(release)@).add(entries_ms(final(leaked)@)) == entries_ms(old(release)@).add(
                entries_ms(old(leaked)@),
            ).insert((later, level as nat)),
            old(self).sub().to_multiset().add(sub_tags(old(release)@).to_multiset())
                == final(self).sub().to_multiset().add(sub_tags(final(release)@).to_multiset()),
            final(self).lent() == old(self).lent(),
            final(self).lent_blocks() == old(self).lent_blocks(),
            leaked_unrecorded(old(leaked)@, old(self).sub()) ==> leaked_unrecorded(final(leaked)@, final(self).sub()),
    {
        proof {
            lemma_level_sizes();
            if level + 1 < LEVELS {
                lemma_level_size_increases(level as nat, LEVELS as nat);
            }
        }
        let tag = later + level as u64;
        let mut t: usize = 0;
        while t < self.sub_blocks.len()
            invariant
                self == old(self),
                t <= self.sub_blocks@.len(),
                release@ == old(release)@,
                leaked@ == old(leaked)@,
                level < LEVELS,
                block_fits(later, level as nat),
                entries_fit(old(release)@, LEVELS as nat),
                entries_fit(old(leaked)@, LEVELS as nat),
                tag == later + level,
                forall|j: int| 0 <= j < t ==> self.sub_blocks@[j] != tag,
            decreases self.sub_blocks@.len() - t,
        {
            if self.sub_blocks[t] == tag {
                let ghost before = self.sub_blocks@;
                self.sub_blocks.remove(t);
                let ghost r0 = release@;
                release.push((later, level));
                proof {
                    lemma_entries_push(r0, (later, level), LEVELS as nat);
                    lemma_entries_ms_push(r0, (later, level));
                    assert(entries_ms(release@).add(entries_ms(leaked@)) =~= entries_ms(old(release)@).add(
                        entries_ms(old(leaked)@),
                    ).insert((later, level as nat)));
                    assert(before.remove(t as int).to_multiset() =~= before.to_multiset().remove(tag));
                    assert(before.to_multiset().count(tag) > 0);
                    assert(self.sub().to_multiset().add(sub_tags(release@).to_multiset()) =~= old(self).sub().to_multiset().add(sub_tags(old(release)@).to_multiset()));
                }
                return;
            }
            t = t + 1;
        }
        let ghost l0 = leaked@;
        leaked.push((later, level));
        proof {
            lemma_entries_push(l0, (later, level), LEVELS as nat);
            lemma_entries_ms_push(l0, (later, level));
            assert(!self.sub().contains(tag));
            assert forall|u: int| 0 <= u < leaked@.len() && leaked_unrecorded(old(leaked)@, old(self).sub()) implies (#[trigger] leaked@[u]).1 < LEVELS && !self.sub().contains(
                (leaked@[u].0 + leaked@[u].1) as u64,
            ) by {
                if u < l0.len() {
                    assert(leaked@[u] == l0[u]);
                }
            }
            assert(entries_ms(release@).add(entries_ms(leaked@)) =~= entries_ms(old(release)@).add(
                entries_ms(old(leaked)@),
            ).insert((later, level as nat)));
        }
    }

    /// Coalesces the blocks of `level` in `blocks` pairwise, an aligned block
    /// with the one right after it, into blocks of the next level, which it
    /// returns; gives back the others with `release_block`.
    fn coalesce_level(
        &mut self,
        blocks: Vec<u64>,
        level: usize,
        release: &mut Vec<(u64, usize)>,
        leaked: &mut Vec<(u64, usize)>,
        Ghost(rest): Ghost<Multiset<(u64, nat)>>,
        Ghost(lists): Ghost<Seq<Seq<u64>>>,
    ) -> (next: Vec<u64>)
        requires
            level < LEVELS,
            forall|t: int| 0 <= t < blocks@.len() ==> block_fits(#[trigger] blocks@[t], level as nat),
            entries_fit(old(release)@, LEVELS as nat),
            entries_fit(old(leaked)@, LEVELS as nat),
        ensures
            final(self).free() == old(self).free(),
            final(self).allocated_bytes() == old(self).allocated_bytes(),
            final(self).lists@ == old(self).lists@,
            forall|t: int| 0 <= t < next@.len() ==> block_fits(#[trigger] next@[t], (level + 1) as nat),
            entries_fit(final(release)@, LEVELS as nat),
            entries_fit(final(leaked)@, LEVELS as nat),
            next@.len() * level_size((level + 1) as nat) + entry_bytes(final(release)@) + entry_bytes(
                final(leaked)@,
            ) == blocks@.len() * level_size(level as nat) + entry_bytes(old(release)@) + entry_bytes(
                old(leaked)@,
            ),
            old(self).sub().to_multiset().add(sub_tags(old(release)@).to_multiset())
                == final(self).sub().to_multiset().add(sub_tags(final(release)@).to_multiset()),
            final(self).lent() == old(self).lent(),
            final(self).lent_blocks() == old(self).lent_blocks(),
            ms_apart(
                rest.add(tagged(blocks@, level as nat)).add(entries_ms(old(release)@)).add(
                    entries_ms(old(leaked)@),
                ),
            ) ==> ms_apart(
                rest.add(tagged(next@, (level + 1) as nat)).add(entries_ms(final(release)@)).add(
                    entries_ms(final(leaked)@),
                ),
            ),
            ms_covered(
                rest.add(tagged(blocks@, level as nat)).add(entries_ms(old(release)@)).add(
                    entries_ms(old(leaked)@),
                ),
                lists,
            ) ==> ms_covered(
                rest.add(tagged(next@, (level + 1) as nat)).add(entries_ms(final(release)@)).add(
                    entries_ms(final(leaked)@),
                ),
                lists,
            ),
            ms_covers(
                lists,
                rest.add(tagged(blocks@, level as nat)).add(entries_ms(old(release)@)).add(
                    entries_ms(old(leaked)@),
                ),
            ) ==> ms_covers(
                lists,
                rest.add(tagged(next@, (level + 1) as nat)).add(entries_ms(final(release)@)).add(
                    entries_ms(final(leaked)@),
                ),
            ),
            ms_apart(
                rest.add(tagged(blocks@, level as nat)).add(entries_ms(old(release)@)).add(
                    entries_ms(old(leaked)@),
                ),
            ) && no_buddies(entries_ms(old(release)@).add(entries_ms(old(leaked)@))) && levels_below(
                entries_ms(old(release)@).add(entries_ms(old(leaked)@)),
                level as nat,
            ) ==> no_buddies(entries_ms(final(release)@).add(entries_ms(final(leaked)@))) && levels_below(
                entries_ms(final(release)@).add(entries_ms(final(leaked)@)),
                (level + 1) as nat,
            ),
            leaked_unrecorded(old(leaked)@, old(self).sub()) ==> leaked_unrecorded(final(leaked)@, final(self).sub()),
    {
        let ghost outs0 = entries_ms(release@).add(entries_ms(leaked@));
        let ghost start = ms_apart(
            rest.add(tagged(blocks@, level as nat)).add(entries_ms(release@)).add(entries_ms(leaked@)),
        );
        let ghost start_covered = ms_covered(
            rest.add(tagged(blocks@, level as nat)).add(entries_ms(release@)).add(entries_ms(leaked@)),
            lists,
        );
        let ghost start_covers = ms_covers(
            lists,
            rest.add(tagged(blocks@, level as nat)).add(entries_ms(release@)).add(entries_ms(leaked@)),
        );
        let mut blocks = blocks;
        let ghost b0 = blocks@;
        sort_indices(&mut blocks);
        proof {
            assert forall|t: int| 0 <= t < blocks@.len() implies block_fits(#[trigger] blocks@[t], level as nat) by {
                assert(blocks@.to_multiset().count(blocks@[t]) > 0);
                assert(b0.to_multiset().count(blocks@[t]) > 0);
                assert(b0.contains(blocks@[t]));
            }
            lemma_level_size_double(level as nat);
            if level + 1 < LEVELS {
                lemma_level_size_increases((level + 1) as nat, LEVELS as nat);
            }
            lemma_level_sizes();
        }
        let size = level_bytes(level);
        let double = level_bytes(level + 1);
        let mut next: Vec<u64> = Vec::new();
        let mut maybe_later: Option<u64> = None;
        let ghost total = b0.len() * level_size(level as nat) + entry_bytes(old(release)@) + entry_bytes(old(leaked)@);
        let ghost go = start && no_buddies(outs0) && levels_below(outs0, level as nat);
        let ghost mut rl: Seq<u64> = Seq::empty();
        proof {
            assert(outs0.add(tagged(rl, level as nat)) =~= outs0);
        }
        proof {
            assert(blocks@.len() == b0.len()) by {
                assert(blocks@.to_multiset().len() == b0.to_multiset().len());
            }
            lemma_tagged_perm(blocks@, b0, level as nat);
            assert(tagged(next@, (level + 1) as nat) =~= Multiset::empty());
            assert(coalesce_pool(rest, blocks@, level as nat, next@, maybe_later, release@, leaked@)
                =~= rest.add(tagged(b0, level as nat)).add(entries_ms(release@)).add(entries_ms(leaked@)));
            assert(next@.len() * double == 0) by (nonlinear_arith)
                requires
                    next@.len() == 0,
            ;
        }
        while blocks.len() > 0
            invariant
                level < LEVELS,
                size == level_size(level as nat),
                double == level_size((level + 1) as nat),
                double == 2 * size,
                size >= 16,
                level_size((level + 1) as nat) <= 4096,
                self.free() == old(self).free(),
                self.allocated_bytes() == old(self).allocated_bytes(),
                self.lent == old(self).lent,
                self.lent_blocks == old(self).lent_blocks,
                self.lists@ == old(self).lists@,
                forall|t: int| 0 <= t < blocks@.len() ==> block_fits(#[trigger] blocks@[t], level as nat),
                forall|t: int| 0 <= t < next@.len() ==> block_fits(#[trigger] next@[t], (level + 1) as nat),
                maybe_later matches Some(later) ==> block_fits(later, level as nat),
                entries_fit(release@, LEVELS as nat),
                entries_fit(leaked@, LEVELS as nat),
                blocks@.len() * size + next@.len() * double + (if maybe_later is Some { size as nat } else { 0nat })
                    + entry_bytes(release@) + entry_bytes(leaked@) == total,
                old(self).sub().to_multiset().add(sub_tags(old(release)@).to_multiset())
                    == self.sub().to_multiset().add(sub_tags(release@).to_multiset()),
                start ==> ms_apart(coalesce_pool(rest, blocks@, level as nat, next@, maybe_later, release@, leaked@)),
                start_covered ==> ms_covered(
                    coalesce_pool(rest, blocks@, level as nat, next@, maybe_later, release@, leaked@),
                    lists,
                ),
                start_covers ==> ms_covers(
                    lists,
                    coalesce_pool(rest, blocks@, level as nat, next@, maybe_later, release@, leaked@),
                ),
                go ==> start && levels_below(outs0, level as nat),
                leaked_unrecorded(old(leaked)@, old(self).sub()) ==> leaked_unrecorded(leaked@, self.sub()),
                entries_ms(release@).add(entries_ms(leaked@)) == outs0.add(tagged(rl, level as nat)),
                go ==> no_buddies(entries_ms(release@).add(entries_ms(leaked@))),
                forall|a: int, c: int| 0 <= a <= c < blocks@.len() ==> blocks@[a] <= blocks@[c],
                maybe_later matches Some(y) ==> forall|t: int| 0 <= t < blocks@.len() ==> #[trigger] blocks@[t] <= y,
                go ==> forall|u: int, t: int|
                    0 <= u < rl.len() && 0 <= t < blocks@.len() ==> #[trigger] blocks@[t] < #[trigger] rl[u],
                go ==> forall|u: int| 0 <= u < rl.len() ==> (maybe_later matches Some(y) ==> y < #[trigger] rl[u]),
                go ==> forall|u: int, t: int|
                    0 <= u < rl.len() && 0 <= t < blocks@.len() ==> !(#[trigger] blocks@[t] + size == #[trigger] rl[u]
                        && (blocks@[t] as nat) % level_size((level + 1) as nat) == 0),
                go ==> forall|u: int|
                    0 <= u < rl.len() ==> (maybe_later matches Some(y) ==> !(y + size == #[trigger] rl[u]
                        && (y as nat) % level_size((level + 1) as nat) == 0)),
            decreases blocks@.len(),
        {
            let ghost bl = blocks@;
            let before = match blocks.pop() {
                Some(b) => b,
                None => 0,
            };
            proof {
                assert(before == bl[bl.len() - 1]);
                assert(blocks@ =~= bl.drop_last());
                assert forall|t: int| 0 <= t < blocks@.len() implies block_fits(#[trigger] blocks@[t], level as nat) by {
                    assert(blocks@[t] == bl[t]);
                }
                assert(block_fits(before, level as nat));
                assert(bl.len() * size == blocks@.len() * size + size) by (nonlinear_arith)
                    requires
                        bl.len() == blocks@.len() + 1,
                ;
            }
            match maybe_later {
                Some(later) => {
                    if before + size == later && before % double == 0 {
                        let ghost n0 = next@;
                        let ghost p0 = coalesce_pool(rest, bl, level as nat, n0, maybe_later, release@, leaked@);
                        next.push(before);
                        proof {
                            lemma_tagged_push(n0, before, (level + 1) as nat);
                            assert(coalesce_pool(rest, blocks@, level as nat, next@, None, release@, leaked@)
                                =~= p0.remove((before, level as nat)).remove(((before + level_size(level as nat)) as u64, level as nat)).insert((before, (level + 1) as nat)));
                            if start {
                                lemma_ms_apart_merge(p0, before, level as nat);
                            }
                            if start_covered {
                                lemma_ms_covered_merge(p0, before, level as nat, lists);
                            }
                            if start_covers {
                                lemma_ms_covers_merge(lists, p0, before, level as nat);
                            }
                            assert(block_fits(before, (level + 1) as nat));
                            assert forall|t: int| 0 <= t < next@.len() implies block_fits(#[trigger] next@[t], (level + 1) as nat) by {
                                if t < n0.len() {
                                    assert(next@[t] == n0[t]);
                                }
                            }
                            assert(next@.len() * double == n0.len() * double + double) by (nonlinear_arith)
                                requires
                                    next@.len() == n0.len() + 1,
                            ;
                        }
                        maybe_later = None;
                    } else {
                        let ghost p0 = coalesce_pool(rest, bl, level as nat, next@, maybe_later, release@, leaked@);
                        let ghost r0 = release@;
                        let ghost l0 = leaked@;
                        let ghost rl0 = rl;
                        proof {
                            if go {
                                assert(tagged(bl, level as nat) == tagged(blocks@, level as nat).insert((before, level as nat)));
                                assert(p0.count((before, level as nat)) > 0);
                                assert(p0.count((later, level as nat)) > 0);
                                if before == later {
                                    assert(p0.count((later, level as nat)) >= 2);
                                }
                                assert(before < later);
                                assert(apart(before, level as nat, later, level as nat));
                                assert(before + size <= later);
                                assert forall|u: int| 0 <= u < rl0.len() implies later < #[trigger] rl0[u] by {}
                                assert forall|u: int| 0 <= u < rl0.len() implies !(later + level_size(level as nat) == #[trigger] rl0[u]
                                    && (later as nat) % level_size(level as nat + 1) == 0) by {}
                                lemma_no_buddies_push(outs0, rl0, level as nat, later);
                            }
                            rl = rl.push(later);
                            lemma_tagged_push(rl0, later, level as nat);
                        }
                        self.release_block(later, level, release, leaked);
                        maybe_later = Some(before);
                        proof {
                            assert(entries_ms(release@).add(entries_ms(leaked@)) =~= outs0.add(tagged(rl, level as nat)));
                            if go {
                                assert forall|u: int, t: int|
                                    0 <= u < rl.len() && 0 <= t < blocks@.len() implies #[trigger] blocks@[t] < #[trigger] rl[u] by {
                                    assert(blocks@[t] == bl[t]);
                                    if u < rl0.len() {
                                        assert(rl[u] == rl0[u]);
                                    }
                                }
                                assert forall|u: int, t: int|
                                    0 <= u < rl.len() && 0 <= t < blocks@.len() implies !(#[trigger] blocks@[t] + size == #[trigger] rl[u]
                                        && (blocks@[t] as nat) % level_size((level + 1) as nat) == 0) by {
                                    assert(blocks@[t] == bl[t]);
                                    assert(bl[t] <= bl[bl.len() - 1]);
                                    if u < rl0.len() {
                                        assert(rl[u] == rl0[u]);
                                    }
                                }
                                assert forall|u: int| 0 <= u < rl.len() implies (maybe_later matches Some(y) ==> !(y + size == #[trigger] rl[u]
                                    && (y as nat) % level_size((level + 1) as nat) == 0)) by {
                                    if u < rl0.len() {
                                        assert(rl[u] == rl0[u]);
                                        assert(bl[bl.len() - 1] == before);
                                    }
                                }
                                assert forall|u: int| 0 <= u < rl.len() implies (maybe_later matches Some(y) ==> y < #[trigger] rl[u]) by {
                                    if u < rl0.len() {
                                        assert(rl[u] == rl0[u]);
                                    }
                                }
                            }
                            assert forall|t: int| 0 <= t < blocks@.len() implies #[trigger] blocks@[t] <= before by {
                                assert(blocks@[t] == bl[t]);
                                assert(bl[t] <= bl[bl.len() - 1]);
                            }
                            let np = coalesce_pool(rest, blocks@, level as nat, next@, maybe_later, release@, leaked@);
                            assert(tagged(bl, level as nat) == tagged(blocks@, level as nat).insert((before, level as nat)));
                            assert forall|x: (u64, nat)| np.count(x) == p0.count(x) by {
                                assert(entries_ms(release@).add(entries_ms(leaked@)).count(x) == entries_ms(r0).add(
                                    entries_ms(l0),
                                ).insert((later, level as nat)).count(x));
                            }
                            assert(np =~= p0);
                        }
                    }
                },
                None => {
                    let ghost p0 = coalesce_pool(rest, bl, level as nat, next@, maybe_later, release@, leaked@);
                    maybe_later = Some(before);
                    proof {
                        assert(coalesce_pool(rest, blocks@, level as nat, next@, maybe_later, release@, leaked@) =~= p0);
                    }
                },
            }
        }
        let ghost p1 = coalesce_pool(rest, blocks@, level as nat, next@, maybe_later, release@, leaked@);
        let ghost r1 = release@;
        let ghost l1 = leaked@;
        let ghost rl1 = rl;
        match maybe_later {
            Some(later) => {
                proof {
                    if go {
                        assert forall|u: int| 0 <= u < rl1.len() implies later < #[trigger] rl1[u] by {}
                        assert forall|u: int| 0 <= u < rl1.len() implies !(later + level_size(level as nat) == #[trigger] rl1[u]
                            && (later as nat) % level_size(level as nat + 1) == 0) by {}
                        lemma_no_buddies_push(outs0, rl1, level as nat, later);
                    }
                    rl = rl.push(later);
                    lemma_tagged_push(rl1, later, level as nat);
                }
                self.release_block(later, level, release, leaked);
                proof {
                    assert(entries_ms(release@).add(entries_ms(leaked@)) =~= outs0.add(tagged(rl, level as nat)));
                }
            },
            None => {},
        }
        proof {
            if go {
                let m = entries_ms(release@).add(entries_ms(leaked@));
                assert forall|x: (u64, nat)| #[trigger] m.count(x) > 0 implies x.1 < level + 1 by {
                    assert(m.count(x) == outs0.count(x) + tagged(rl, level as nat).count(x));
                    lemma_tagged_count(rl, level as nat, x);
                }
            }
        }
        proof {
            assert(tagged(blocks@, level as nat) =~= Multiset::empty());
            let np = rest.add(tagged(next@, (level + 1) as nat)).add(entries_ms(release@)).add(entries_ms(leaked@));
            assert forall|x: (u64, nat)| np.count(x) == p1.count(x) by {
                if maybe_later is Some {
                    assert(entries_ms(release@).add(entries_ms(leaked@)).count(x) == entries_ms(r1).add(
                        entries_ms(l1),
                    ).insert((maybe_later->Some_0, level as nat)).count(x));
                }
            }
            assert(np =~= p1);
        }
        proof {
            assert(blocks@.len() * size == 0) by (nonlinear_arith)
                requires
                    blocks@.len() == 0,
            ;
        }
        next
    }

    /// Empties the free lists for giving their memory back: blocks are taken
    /// level by level from the lowest, neighbouring blocks coalesced into
    /// blocks of the next level, and what cannot be coalesced is listed for
    /// release, or as leaked where it was not taken from the system allocator
    /// as such; the pages left at the end are listed for release. What is
    /// listed is the free memory: every listed byte was free, every free byte
    /// is listed, and, where no two free blocks shared a byte, none is listed
    /// twice.
    pub fn drain(&mut self) -> (r: Drained)
        requires
            old(self).wf(),
        ensures
            final(self).wf(),
            forall|l: int| 0 <= l < LEVELS ==> #[trigger] final(self).free()[l].len() == 0,
            free_apart(final(self).free()),
            final(self).allocated_bytes() == old(self).allocated_bytes(),
            final(self).lent() == old(self).lent() + free_bytes(old(self).free(), LEVELS as nat),
            final(self).lent_blocks() == old(self).lent_blocks(),
            old(self).blocks_apart() ==> final(self).blocks_apart(),
            old(self).blocks_apart() ==> forall|x: (u64, nat), y: (u64, nat)|
                #[trigger] old(self).lent_blocks().count(x) > 0 && #[trigger] entries_ms(r.release@).add(
                    entries_ms(r.leaked@),
                ).count(y) > 0 ==> apart(x.0, x.1, y.0, y.1),
            old(self).balanced() ==> final(self).balanced(),
            entries_fit(r.release@, LEVELS as nat),
            entries_fit(r.leaked@, LEVELS as nat),
            entry_bytes(r.release@) + entry_bytes(r.leaked@) == free_bytes(old(self).free(), LEVELS as nat),
            old(self).sub().to_multiset() == final(self).sub().to_multiset().add(
                sub_tags(r.release@).to_multiset(),
            ),
            free_apart(old(self).free()) ==> ms_apart(entries_ms(r.release@).add(entries_ms(r.leaked@))),
            ms_covered(entries_ms(r.release@).add(entries_ms(r.leaked@)), old(self).free()),
            ms_covers(old(self).free(), entries_ms(r.release@).add(entries_ms(r.leaked@))),
            free_apart(old(self).free()) ==> no_buddies(entries_ms(r.release@).add(entries_ms(r.leaked@))),
            leaked_unrecorded(r.leaked@, final(self).sub()),
    {
        let mut release: Vec<(u64, usize)> = Vec::new();
        let mut leaked: Vec<(u64, usize)> = Vec::new();
        let mut level: usize = 0;
        let mut blocks: Vec<u64> = Vec::new();
        let ghost total = free_bytes(old(self).free(), LEVELS as nat);
        proof {
            lemma_level_sizes();
            assert(sub_tags(release@) =~= Seq::<u64>::empty());
            assert(old(self).sub().to_multiset() =~= self.sub().to_multiset().add(sub_tags(release@).to_multiset()));
            assert(blocks@.len() * level_size(0) == 0);
            if free_apart(old(self).free()) {
                lemma_free_ms_apart(old(self).free());
            }
            lemma_free_ms_covered(old(self).free());
            assert(entries_ms(release@).add(entries_ms(leaked@)) =~= Multiset::empty());
            lemma_free_ms_covers(old(self).free());
            assert(tagged(blocks@, 0) =~= Multiset::empty());
            assert(free_ms(self.free(), LEVELS as nat).add(tagged(blocks@, 0)).add(entries_ms(release@)).add(
                entries_ms(leaked@),
            ) =~= free_ms(old(self).free(), LEVELS as nat));
        }
        loop
            invariant
                self.wf(),
                self.allocated_bytes() == old(self).allocated_bytes(),
                self.lent() == old(self).lent(),
                self.lent_blocks() == old(self).lent_blocks(),
                level <= LEVELS,
                total == free_bytes(old(self).free(), LEVELS as nat),
                forall|l: int| 0 <= l < level ==> #[trigger] self.free()[l].len() == 0,
                forall|t: int| 0 <= t < blocks@.len() ==> block_fits(#[trigger] blocks@[t], level as nat),
                entries_fit(release@, LEVELS as nat),
                entries_fit(leaked@, LEVELS as nat),
                free_bytes(self.free(), LEVELS as nat) + blocks@.len() * level_size(level as nat)
                    + entry_bytes(release@) + entry_bytes(leaked@) == total,
                old(self).sub().to_multiset() == self.sub().to_multiset().add(sub_tags(release@).to_multiset()),
                free_apart(old(self).free()) ==> ms_apart(
                    free_ms(self.free(), LEVELS as nat).add(tagged(blocks@, level as nat)).add(
                        entries_ms(release@),
                    ).add(entries_ms(leaked@)),
                ),
                ms_covered(
                    free_ms(self.free(), LEVELS as nat).add(tagged(blocks@, level as nat)).add(
                        entries_ms(release@),
                    ).add(entries_ms(leaked@)),
                    old(self).free(),
                ),
                ms_covers(
                    old(self).free(),
                    free_ms(self.free(), LEVELS as nat).add(tagged(blocks@, level as nat)).add(
                        entries_ms(release@),
                    ).add(entries_ms(leaked@)),
                ),
                leaked_unrecorded(leaked@, self.sub()),
                free_apart(old(self).free()) ==> no_buddies(entries_ms(release@).add(entries_ms(leaked@)))
                    && levels_below(entries_ms(release@).add(entries_ms(leaked@)), level as nat),
            ensures
                forall|l: int| 0 <= l < LEVELS ==> #[trigger] self.free()[l].len() == 0,
            decreases free_bytes(self.free(), LEVELS as nat),
        {
            let ghost f0 = self.free();
            match self.select(0) {
                Some((block, block_level)) => {
                    proof {
                        assert(self.free().len() == LEVELS);
                        lemma_free_bytes_pop(f0, block_level as int, LEVELS as nat);
                        lemma_free_ms_pop(f0, block_level as int, LEVELS as nat);
                        assert forall|l: int| 0 <= l < block_level implies #[trigger] self.free()[l].len() == 0 by {
                            assert(f0[l].len() == 0);
                        }
                        vstd::arithmetic::power2::lemma_pow2_pos(block_level as nat);
                    }
                    let ghost f1 = self.free();
                    while level < block_level
                        invariant
                            self.free() == f1,
                            self.wf(),
                            self.allocated_bytes() == old(self).allocated_bytes(),
                            self.lent() == old(self).lent(),
                            self.lent_blocks() == old(self).lent_blocks(),
                            level <= block_level < LEVELS,
                            block_fits(block, block_level as nat),
                            total == free_bytes(old(self).free(), LEVELS as nat),
                            forall|l: int| 0 <= l < block_level ==> #[trigger] self.free()[l].len() == 0,
                            forall|t: int| 0 <= t < blocks@.len() ==> block_fits(#[trigger] blocks@[t], level as nat),
                            entries_fit(release@, LEVELS as nat),
                            entries_fit(leaked@, LEVELS as nat),
                            free_bytes(self.free(), LEVELS as nat) + level_size(block_level as nat)
                                + blocks@.len() * level_size(level as nat) + entry_bytes(release@)
                                + entry_bytes(leaked@) == total,
                            old(self).sub().to_multiset() == self.sub().to_multiset().add(
                                sub_tags(release@).to_multiset(),
                            ),
                            free_apart(old(self).free()) ==> ms_apart(
                                free_ms(f1, LEVELS as nat).insert((block, block_level as nat)).add(
                                    tagged(blocks@, level as nat),
                                ).add(entries_ms(release@)).add(entries_ms(leaked@)),
                            ),
                            ms_covered(
                                free_ms(f1, LEVELS as nat).insert((block, block_level as nat)).add(
                                    tagged(blocks@, level as nat),
                                ).add(entries_ms(release@)).add(entries_ms(leaked@)),
                                old(self).free(),
                            ),
                            ms_covers(
                                old(self).free(),
                                free_ms(f1, LEVELS as nat).insert((block, block_level as nat)).add(
                                    tagged(blocks@, level as nat),
                                ).add(entries_ms(release@)).add(entries_ms(leaked@)),
                            ),
                            leaked_unrecorded(leaked@, self.sub()),
                free_apart(old(self).free()) ==> no_buddies(entries_ms(release@).add(entries_ms(leaked@)))
                                && levels_below(entries_ms(release@).add(entries_ms(leaked@)), level as nat),
                        decreases block_level - level,
                    {
                        let ghost fl = self.free();
                        blocks = self.coalesce_level(
                            blocks,
                            level,
                            &mut release,
                            &mut leaked,
                            Ghost(free_ms(f1, LEVELS as nat).insert((block, block_level as nat))),
                            Ghost(old(self).free()),
                        );
                        level = level + 1;
                        proof {
                            assert(self.wf()) by {
                                assert(self.lists@.len() == LEVELS);
                            }
                        }
                    }
                    let ghost bl = blocks@;
                    blocks.push(block);
                    proof {
                        assert forall|t: int| 0 <= t < blocks@.len() implies block_fits(#[trigger] blocks@[t], level as nat) by {
                            if t < bl.len() {
                                assert(blocks@[t] == bl[t]);
                            }
                        }
                        let ls = level_size(level as nat);
                        assert(blocks@.len() * ls == bl.len() * ls + ls) by (nonlinear_arith)
                            requires
                                blocks@.len() == bl.len() + 1,
                        ;
                        lemma_tagged_push(bl, block, level as nat);
                        assert(free_ms(self.free(), LEVELS as nat).add(tagged(blocks@, level as nat)).add(
                            entries_ms(release@),
                        ).add(entries_ms(leaked@)) =~= free_ms(f1, LEVELS as nat).insert(
                            (block, block_level as nat),
                        ).add(tagged(bl, level as nat)).add(entries_ms(release@)).add(entries_ms(leaked@)));
                    }
                },
                None => {
                    break;
                },
            }
        }
        proof {
            lemma_free_bytes_empty(self.free(), LEVELS as nat);
            lemma_free_ms_empty(self.free(), LEVELS as nat);
            assert(Multiset::<(u64, nat)>::empty().add(tagged(blocks@, level as nat)).add(entries_ms(release@)).add(
                entries_ms(leaked@),
            ) =~= free_ms(self.free(), LEVELS as nat).add(tagged(blocks@, level as nat)).add(
                entries_ms(release@),
            ).add(entries_ms(leaked@)));
        }
        while level < LEVELS
            invariant
                self.wf(),
                self.allocated_bytes() == old(self).allocated_bytes(),
                self.lent() == old(self).lent(),
                self.lent_blocks() == old(self).lent_blocks(),
                level <= LEVELS,
                forall|l: int| 0 <= l < LEVELS ==> #[trigger] self.free()[l].len() == 0,
                forall|t: int| 0 <= t < blocks@.len() ==> block_fits(#[trigger] blocks@[t], level as nat),
                entries_fit(release@, LEVELS as nat),
                entries_fit(leaked@, LEVELS as nat),
                blocks@.len() * level_size(level as nat) + entry_bytes(release@) + entry_bytes(leaked@) == total,
                old(self).sub().to_multiset() == self.sub().to_multiset().add(sub_tags(release@).to_multiset()),
                free_apart(old(self).free()) ==> ms_apart(
                    Multiset::<(u64, nat)>::empty().add(tagged(blocks@, level as nat)).add(
                        entries_ms(release@),
                    ).add(entries_ms(leaked@)),
                ),
                ms_covered(
                    Multiset::<(u64, nat)>::empty().add(tagged(blocks@, level as nat)).add(
                        entries_ms(release@),
                    ).add(entries_ms(leaked@)),
                    old(self).free(),
                ),
                ms_covers(
                    old(self).free(),
                    Multiset::<(u64, nat)>::empty().add(tagged(blocks@, level as nat)).add(
                        entries_ms(release@),
                    ).add(entries_ms(leaked@)),
                ),
                leaked_unrecorded(leaked@, self.sub()),
                free_apart(old(self).free()) ==> no_buddies(entries_ms(release@).add(entries_ms(leaked@)))
                    && levels_below(entries_ms(release@).add(entries_ms(leaked@)), level as nat),
            decreases LEVELS - level,
        {
            blocks = self.coalesce_level(
                blocks,
                level,
                &mut release,
                &mut leaked,
                Ghost(Multiset::empty()),
                Ghost(old(self).free()),
            );
            level = level + 1;
            proof {
                assert(self.wf()) by {
                    assert(self.lists@.len() == LEVELS);
                }
            }
        }
        proof {
            assert(blocks@.subrange(0, blocks@.len() as int) =~= blocks@);
            assert(Multiset::<(u64, nat)>::empty().add(tagged(blocks@, level as nat)).add(entries_ms(release@)).add(
                entries_ms(leaked@),
            ) =~= tagged(blocks@, level as nat).add(entries_ms(release@)).add(entries_ms(leaked@)));
        }
        let mut t: usize = 0;
        while t < blocks.len()
            invariant
                level == LEVELS,
                t <= blocks@.len(),
                forall|u: int| 0 <= u < blocks@.len() ==> block_fits(#[trigger] blocks@[u], level as nat),
                entries_fit(release@, LEVELS as nat),
                entries_fit(leaked@, LEVELS as nat),
                (blocks@.len() - t) * level_size(level as nat) + entry_bytes(release@) + entry_bytes(leaked@)
                    == total,
                old(self).sub().to_multiset() == self.sub().to_multiset().add(sub_tags(release@).to_multiset()),
                free_apart(old(self).free()) ==> ms_apart(
                    tagged(blocks@.subrange(t as int, blocks@.len() as int), LEVELS as nat).add(
                        entries_ms(release@),
                    ).add(entries_ms(leaked@)),
                ),
                ms_covered(
                    tagged(blocks@.subrange(t as int, blocks@.len() as int), LEVELS as nat).add(
                        entries_ms(release@),
                    ).add(entries_ms(leaked@)),
                    old(self).free(),
                ),
                ms_covers(
                    old(self).free(),
                    tagged(blocks@.subrange(t as int, blocks@.len() as int), LEVELS as nat).add(
                        entries_ms(release@),
                    ).add(entries_ms(leaked@)),
                ),
                free_apart(old(self).free()) ==> no_buddies(entries_ms(release@).add(entries_ms(leaked@))),
            decreases blocks@.len() - t,
        {
            let ghost r0 = release@;
            release.push((blocks[t], LEVELS));
            proof {
                lemma_tagged_front(blocks@, t as int, LEVELS as nat);
                lemma_entries_ms_push(r0, (blocks@[t as int], LEVELS));
                if free_apart(old(self).free()) {
                    lemma_no_buddies_page(entries_ms(r0).add(entries_ms(leaked@)), blocks@[t as int]);
                    assert(entries_ms(release@).add(entries_ms(leaked@)) =~= entries_ms(r0).add(entries_ms(leaked@)).insert(
                        (blocks@[t as int], LEVELS as nat),
                    ));
                }
                assert(tagged(blocks@.subrange(t + 1, blocks@.len() as int), LEVELS as nat).add(
                    entries_ms(release@),
                ).add(entries_ms(leaked@)) =~= tagged(blocks@.subrange(t as int, blocks@.len() as int), LEVELS as nat).add(
                    entries_ms(r0),
                ).add(entries_ms(leaked@)));
                lemma_entries_push(r0, (blocks@[t as int], LEVELS), LEVELS as nat);
                let ls = level_size(level as nat);
                assert((blocks@.len() - t) * ls == (blocks@.len() - (t + 1)) * ls + ls) by (nonlinear_arith);
            }
            t = t + 1;
        }
        proof {
            assert((blocks@.len() - t) * level_size(level as nat) == 0) by (nonlinear_arith)
                requires
                    blocks@.len() == t,
            ;
            assert(blocks@.subrange(t as int, blocks@.len() as int) =~= Seq::<u64>::empty());
            assert(tagged(blocks@.subrange(t as int, blocks@.len() as int), LEVELS as nat) =~= Multiset::empty());
            assert(tagged(blocks@.subrange(t as int, blocks@.len() as int), LEVELS as nat).add(entries_ms(release@)).add(
                entries_ms(leaked@),
            ) =~= entries_ms(release@).add(entries_ms(leaked@)));
        }
        let ghost f_before = self.free();
        self.lent = Ghost(self.lent@ + total);
        proof {
            assert(self.free() =~= f_before);
        }
        proof {
            lemma_free_bytes_empty(self.free(), LEVELS as nat);
            let out = entries_ms(release@).add(entries_ms(leaked@));
            if old(self).blocks_apart() {
                assert forall|x: (u64, nat), y: (u64, nat)|
                    #[trigger] old(self).lent_blocks().count(x) > 0 && #[trigger] out.count(y) > 0 implies apart(
                    x.0,
                    x.1,
                    y.0,
                    y.1,
                ) by {
                    lemma_covered_apart(old(self).free(), x.0, x.1, y.0, y.1);
                }
            }
            assert forall|x: (u64, nat)| #[trigger] self.lent_blocks().count(x) > 0 implies apart_from_free(self.free(), x.0, x.1) by {
                assert forall|l: int, t: int| 0 <= l < self.free().len() && 0 <= t < self.free()[l].len() implies apart(
                    #[trigger] self.free()[l][t],
                    l as nat,
                    x.0,
                    x.1,
                ) by {
                    assert(self.free()[l].len() == 0);
                }
            }
        }
        Drained { release, leaked }
    }

    /// Pushes `block` on the free list of level `i`.
    fn add(&mut self, i: usize, block: u64)
        requires
            old(self).wf(),
            i < LEVELS,
            block_fits(block, i as nat),
        ensures
            final(self).wf(),
            final(self).free() == old(self).free().update(i as int, old(self).free()[i as int].push(block)),
            final(self).sub() == old(self).sub(),
            final(self).allocated_bytes() == old(self).allocated_bytes(),
            final(self).lent() == old(self).lent(),
            final(self).lent_blocks() == old(self).lent_blocks(),
    {
        let ghost before = self.lists@;
        let mut list: Vec<u64> = Vec::new();
        self.lists.set_and_swap(i, &mut list);
        list.push(block);
        self.lists.set_and_swap(i, &mut list);
        proof {
            assert(self.lists@[i as int]@ == before[i as int]@.push(block));
            assert forall|l: int| 0 <= l < LEVELS && l != i implies self.lists@[l] == before[l] by {}
            assert(self.free() =~= old(self).free().update(i as int, old(self).free()[i as int].push(block)));
            assert forall|l: int, t: int| 0 <= l < LEVELS && 0 <= t < self.lists@[l]@.len() implies block_fits(#[trigger] self.lists@[l]@[t], l as nat) by {
                if l != i {
                    assert(self.lists@[l] == before[l]);
                } else if t < before[l]@.len() {
                    assert(self.lists@[l]@[t] == before[l]@[t]);
                }
            }
        }
    }
}

/// Free lists of the same lengths hold the same bytes.
pub proof fn lemma_free_bytes_same(a: Seq<Seq<u64>>, b: Seq<Seq<u64>>, n: nat)
    requires
        forall|l: int| 0 <= l < n ==> #[trigger] a[l].len() == b[l].len(),
    ensures
        free_bytes(a, n) == free_bytes(b, n),
    decreases n,
{
    if n > 0 {
        lemma_free_bytes_same(a, b, (n - 1) as nat);
    }
}

/// Empty free lists hold no bytes.
pub proof fn lemma_free_bytes_empty(a: Seq<Seq<u64>>, n: nat)
    requires
        forall|l: int| 0 <= l < n ==> #[trigger] a[l].len() == 0,
    ensures
        free_bytes(a, n) == 0,
    decreases n,
{
    if n > 0 {
        lemma_free_bytes_empty(a, (n - 1) as nat);
    }
}

/// Taking the top block of level `at` takes its bytes from the free lists.
pub proof fn lemma_free_bytes_pop(free: Seq<Seq<u64>>, at: int, n: nat)
    requires
        0 <= at < n <= free.len(),
        free[at].len() > 0,
    ensures
        free_bytes(free.update(at, free[at].drop_last()), n) + level_size(at as nat) == free_bytes(
            free,
            n,
        ),
    decreases n,
{
    let g = free.update(at, free[at].drop_last());
    if n - 1 == at {
        lemma_free_bytes_same(g, free, at as nat);
        let len = free[at].len();
        let ls = level_size(at as nat);
        assert((len - 1) * ls + ls == len * ls) by (nonlinear_arith);
    } else {
        lemma_free_bytes_pop(free, at, (n - 1) as nat);
    }
}

/// Bytes of the pieces of levels `i` up to `j` among the first `n` levels.
pub open spec fn piece_bytes(i: nat, j: nat, n: nat) -> nat
    decreases n,
{
    if n == 0 {
        0
    } else {
        piece_bytes(i, j, (n - 1) as nat) + if i <= n - 1 < j {
            level_size((n - 1) as nat)
        } else {
            0
        }
    }
}

/// The pieces of levels `i` up to `j` add up to a block of `j` less one of
/// `i`.
pub proof fn lemma_piece_bytes(i: nat, j: nat, n: nat)
    requires
        i <= j <= n,
    ensures
        piece_bytes(i, j, n) + level_size(i) == level_size(j),
    decreases n,
{
    if n > j {
        lemma_piece_bytes(i, j, (n - 1) as nat);
    } else if n > i {
        lemma_piece_bytes(i, (j - 1) as nat, (n - 1) as nat);
        lemma_level_size_double((j - 1) as nat);
        lemma_piece_bytes_cut(i, (j - 1) as nat, j, (n - 1) as nat);
    } else {
        lemma_piece_bytes_none(i, j, n);
    }
}

/// Counting fewer levels than `j` counts the same as counting up to `j`.
proof fn lemma_piece_bytes_cut(i: nat, a: nat, b: nat, n: nat)
    requires
        n <= a <= b,
    ensures
        piece_bytes(i, a, n) == piece_bytes(i, b, n),
    decreases n,
{
    if n > 0 {
        lemma_piece_bytes_cut(i, a, b, (n - 1) as nat);
    }
}

/// No piece lies below level `i`.
proof fn lemma_piece_bytes_none(i: nat, j: nat, n: nat)
    requires
        n <= i,
    ensures
        piece_bytes(i, j, n) == 0,
    decreases n,
{
    if n > 0 {
        lemma_piece_bytes_none(i, j, (n - 1) as nat);
    }
}

/// Slicing adds the bytes of its pieces to the free lists.
pub proof fn lemma_sliced_bytes(g: Seq<Seq<u64>>, i: nat, b: u64, j: nat, n: nat)
    requires
        n <= g.len(),
    ensures
        free_bytes(sliced(g, i, b, j), n) == free_bytes(g, n) + piece_bytes(i, j, n),
    decreases n,
{
    if n > 0 {
        lemma_sliced_bytes(g, i, b, j, (n - 1) as nat);
        let k = (n - 1) as nat;
        let ls = level_size(k);
        let len = g[k as int].len();
        assert((len + 1) * ls == len * ls + ls) by (nonlinear_arith);
    }
}

/// Slicing a block of `block_level` for a layout of `layout_level` tiles it:
/// every byte of the block lies in the part handed out, below offset
/// `16 << layout_level`, or in the piece of some level `l`, which spans
/// offsets `16 << l` up to `32 << l`; the handed out part ends where the first
/// piece starts, each piece ends where the next starts, and the last ends
/// where the block does.
pub proof fn lemma_slicing_tiles(layout_level: nat, block_level: nat, offset: nat)
    requires
        layout_level <= block_level,
        offset < level_size(block_level),
    ensures
        offset < level_size(layout_level) || exists|l: nat|
            layout_level <= l < block_level && level_size(l) <= offset < #[trigger] level_size(l)
                + level_size(l),
        forall|l: nat|
            layout_level <= l < block_level ==> #[trigger] level_size(l) + level_size(l)
                == level_size(l + 1),
        forall|l: nat| layout_level <= l ==> level_size(layout_level) <= #[trigger] level_size(l),
    decreases block_level,
{
    assert forall|l: nat| layout_level <= l < block_level implies #[trigger] level_size(l) + level_size(l) == level_size(l + 1) by {
        lemma_level_size_double(l);
    }
    assert forall|l: nat| layout_level <= l implies level_size(layout_level) <= #[trigger] level_size(l) by {
        if layout_level < l {
            lemma_level_size_increases(layout_level, l);
        }
    }
    if block_level > layout_level {
        let k = (block_level - 1) as nat;
        lemma_level_size_double(k);
        if offset < level_size(k) {
            lemma_slicing_tiles(layout_level, k, offset);
        } else {
            assert(level_size(k) <= offset < level_size(k) + level_size(k));
        }
    }
}

/// Bytes in free lists only grow with the number of levels counted.
pub proof fn lemma_free_bytes_mono(lists: Seq<Seq<u64>>, a: nat, b: nat)
    requires
        a <= b,
    ensures
        free_bytes(lists, a) <= free_bytes(lists, b),
    decreases b - a,
{
    if a < b {
        lemma_free_bytes_mono(lists, a, (b - 1) as nat);
        assert(lists[b - 1].len() * level_size((b - 1) as nat) >= 0) by (nonlinear_arith);
    }
}


/// Once everything lent out has been given back, the count of bytes taken
/// from the system allocator is the free capacity: nothing leaked.
pub proof fn lemma_no_leak(a: &MiniAllocator)
    requires
        a.balanced(),
        a.lent() == 0,
        free_bytes(a.free(), LEVELS as nat) <= usize::MAX,
    ensures
        a.allocated_bytes() == free_bytes(a.free(), LEVELS as nat),
{
    lemma_word_small(free_bytes(a.free(), LEVELS as nat) as int);
}

/// Memory lent out is never shared: two blocks served from the free lists and
/// not given back share no byte, and neither shares a byte with a free block.
pub proof fn lemma_lent_apart(a: &MiniAllocator, x: (u64, nat), y: (u64, nat))
    requires
        a.blocks_apart(),
        a.lent_blocks().count(x) > 0,
        a.lent_blocks().count(y) > 0,
        x != y,
    ensures
        apart(x.0, x.1, y.0, y.1),
        apart_from_free(a.free(), x.0, x.1),
        apart_from_free(a.free(), y.0, y.1),
{
}

/// Block `a`, of level `la`, and block `b`, of level `lb`, share no byte.
pub open spec fn apart(a: u64, la: nat, b: u64, lb: nat) -> bool {
    a + level_size(la) <= b || b + level_size(lb) <= a
}

/// No two free blocks share a byte.
pub open spec fn free_apart(free: Seq<Seq<u64>>) -> bool {
    forall|l1: int, t1: int, l2: int, t2: int|
        #![trigger free[l1][t1], free[l2][t2]]
        0 <= l1 < free.len() && 0 <= t1 < free[l1].len() && 0 <= l2 < free.len() && 0 <= t2
            < free[l2].len() && (l1 != l2 || t1 != t2) ==> apart(
            free[l1][t1],
            l1 as nat,
            free[l2][t2],
            l2 as nat,
        )
}

/// Block `b`, of level `lb`, shares no byte with any free block.
pub open spec fn apart_from_free(free: Seq<Seq<u64>>, b: u64, lb: nat) -> bool {
    forall|l: int, t: int|
        0 <= l < free.len() && 0 <= t < free[l].len() ==> apart(#[trigger] free[l][t], l as nat, b, lb)
}

/// Taking the top block of level `at` off the free lists leaves them apart,
/// and apart from it.
pub proof fn lemma_pop_apart(free: Seq<Seq<u64>>, at: int)
    requires
        free_apart(free),
        0 <= at < free.len(),
        free[at].len() > 0,
    ensures
        free_apart(free.update(at, free[at].drop_last())),
        apart_from_free(free.update(at, free[at].drop_last()), free[at].last(), at as nat),
{
    let g = free.update(at, free[at].drop_last());
    let top = free[at].len() - 1;
    assert forall|l1: int, t1: int, l2: int, t2: int|
        0 <= l1 < g.len() && 0 <= t1 < g[l1].len() && 0 <= l2 < g.len() && 0 <= t2 < g[l2].len() && (
        l1 != l2 || t1 != t2) implies apart(#[trigger] g[l1][t1], l1 as nat, #[trigger] g[l2][t2], l2 as nat) by {
        assert(g[l1][t1] == free[l1][t1]);
        assert(g[l2][t2] == free[l2][t2]);
    }
    assert forall|l: int, t: int| 0 <= l < g.len() && 0 <= t < g[l].len() implies apart(
        #[trigger] g[l][t],
        l as nat,
        free[at].last(),
        at as nat,
    ) by {
        assert(g[l][t] == free[l][t]);
        assert(free[at].last() == free[at][top]);
        assert(l != at || t != top);
    }
}

/// Pushing a block that shares no byte with the free blocks keeps them apart.
pub proof fn lemma_push_apart(free: Seq<Seq<u64>>, l: int, b: u64)
    requires
        free_apart(free),
        apart_from_free(free, b, l as nat),
        0 <= l < free.len(),
    ensures
        free_apart(free.update(l, free[l].push(b))),
{
    let g = free.update(l, free[l].push(b));
    let n = free[l].len();
    assert forall|l1: int, t1: int, l2: int, t2: int|
        0 <= l1 < g.len() && 0 <= t1 < g[l1].len() && 0 <= l2 < g.len() && 0 <= t2 < g[l2].len() && (
        l1 != l2 || t1 != t2) implies apart(#[trigger] g[l1][t1], l1 as nat, #[trigger] g[l2][t2], l2 as nat) by {
        let new1 = l1 == l && t1 == n;
        let new2 = l2 == l && t2 == n;
        if !new1 {
            assert(g[l1][t1] == free[l1][t1]);
        }
        if !new2 {
            assert(g[l2][t2] == free[l2][t2]);
        }
        if new1 && !new2 {
            assert(apart(free[l2][t2], l2 as nat, b, l as nat));
        } else if new2 && !new1 {
            assert(apart(free[l1][t1], l1 as nat, b, l as nat));
        }
    }
}

/// Slicing a block that shares no byte with the free blocks keeps them
/// apart, and the part handed out shares no byte with any of them.
pub proof fn lemma_sliced_apart(free: Seq<Seq<u64>>, i: nat, b: u64, at: nat)
    requires
        free_apart(free),
        apart_from_free(free, b, at),
        free.len() == LEVELS,
        i <= at <= LEVELS,
        block_fits(b, at),
    ensures
        free_apart(sliced(free, i, b, at)),
        apart_from_free(sliced(free, i, b, at), b, i),
{
    let g = sliced(free, i, b, at);
    assert forall|l: nat| i <= l < at implies #[trigger] level_size(l) + level_size(l) <= level_size(at)
        && level_size(i) <= level_size(l) by {
        lemma_level_size_double(l);
        if l + 1 < at {
            lemma_level_size_increases(l + 1, at);
        }
        if i < l {
            lemma_level_size_increases(i, l);
        }
    }
    assert forall|l1: nat, l2: nat| i <= l1 < l2 < at implies #[trigger] level_size(l1) + level_size(l1)
        <= #[trigger] level_size(l2) by {
        lemma_level_size_double(l1);
        if l1 + 1 < l2 {
            lemma_level_size_increases(l1 + 1, l2);
        }
    }
    assert(level_size(i) <= level_size(at)) by {
        if i < at {
            lemma_level_size_increases(i, at);
        }
    }
    assert forall|l1: int, t1: int, l2: int, t2: int|
        0 <= l1 < g.len() && 0 <= t1 < g[l1].len() && 0 <= l2 < g.len() && 0 <= t2 < g[l2].len() && (
        l1 != l2 || t1 != t2) implies apart(#[trigger] g[l1][t1], l1 as nat, #[trigger] g[l2][t2], l2 as nat) by {
        let new1 = i <= l1 < at && t1 == free[l1].len();
        let new2 = i <= l2 < at && t2 == free[l2].len();
        if !new1 {
            assert(g[l1][t1] == free[l1][t1]);
        } else {
            assert(g[l1][t1] == b + level_size(l1 as nat));
        }
        if !new2 {
            assert(g[l2][t2] == free[l2][t2]);
        } else {
            assert(g[l2][t2] == b + level_size(l2 as nat));
        }
        if new1 && !new2 {
            assert(apart(free[l2][t2], l2 as nat, b, at));
            assert(level_size(l1 as nat) + level_size(l1 as nat) <= level_size(at));
        } else if new2 && !new1 {
            assert(apart(free[l1][t1], l1 as nat, b, at));
            assert(level_size(l2 as nat) + level_size(l2 as nat) <= level_size(at));
        } else if new1 && new2 {
            if l1 < l2 {
                assert(level_size(l1 as nat) + level_size(l1 as nat) <= level_size(l2 as nat));
            } else {
                assert(level_size(l2 as nat) + level_size(l2 as nat) <= level_size(l1 as nat));
            }
        }
    }
    assert forall|l: int, t: int| 0 <= l < g.len() && 0 <= t < g[l].len() implies apart(
        #[trigger] g[l][t],
        l as nat,
        b,
        i,
    ) by {
        if i <= l < at && t == free[l].len() {
            assert(g[l][t] == b + level_size(l as nat));
            assert(level_size(i) <= level_size(l as nat));
        } else {
            assert(g[l][t] == free[l][t]);
            assert(apart(free[l][t], l as nat, b, at));
        }
    }
}

/// A block that shares no byte with the free blocks shares none with what a
/// later allocation is served from them: that part of the top block of level
/// `at`, of a level `j` no higher.
pub proof fn lemma_served_apart(free: Seq<Seq<u64>>, x: u64, lx: nat, at: int, j: nat)
    requires
        apart_from_free(free, x, lx),
        0 <= at < free.len(),
        free[at].len() > 0,
        j <= at,
    ensures
        apart(x, lx, free[at].last(), j),
{
    let t = free[at].len() - 1;
    assert(apart(free[at][t], at as nat, x, lx));
    if j < at {
        lemma_level_size_increases(j, at as nat);
    }
}

/// A block that shares no byte with the free blocks nor with the block of
/// `at` that is sliced shares none with the free blocks after slicing.
pub proof fn lemma_sliced_keeps_apart(g: Seq<Seq<u64>>, i: nat, b: u64, at: nat, x: u64, lx: nat)
    requires
        apart_from_free(g, x, lx),
        apart(x, lx, b, at),
        i <= at,
        block_fits(b, at),
    ensures
        apart_from_free(sliced(g, i, b, at), x, lx),
{
    let f = sliced(g, i, b, at);
    assert forall|l: int, t: int| 0 <= l < f.len() && 0 <= t < f[l].len() implies apart(#[trigger] f[l][t], l as nat, x, lx) by {
        if i <= l < at && t == g[l].len() {
            lemma_level_size_double(l as nat);
            if l + 1 < at {
                lemma_level_size_increases((l + 1) as nat, at);
            }
            assert(f[l][t] == b + level_size(l as nat));
        } else {
            assert(f[l][t] == g[l][t]);
        }
    }
}

/// A block apart from every block of a pool can join it, which stays apart.
pub proof fn lemma_ms_apart_insert(m: Multiset<(u64, nat)>, e: (u64, nat))
    requires
        ms_apart(m),
        forall|x: (u64, nat)| #[trigger] m.count(x) > 0 ==> apart(x.0, x.1, e.0, e.1),
    ensures
        ms_apart(m.insert(e)),
{
    vstd::arithmetic::power2::lemma_pow2_pos(e.1);
    assert(m.count(e) == 0) by {
        if m.count(e) > 0 {
            assert(apart(e.0, e.1, e.0, e.1));
        }
    }
    let n = m.insert(e);
    assert forall|x: (u64, nat)| #[trigger] n.count(x) <= 1 by {
        if x != e {
            assert(m.count(x) <= 1);
        }
    }
    assert forall|x: (u64, nat), y: (u64, nat)|
        #[trigger] n.count(x) > 0 && #[trigger] n.count(y) > 0 && x != y implies apart(x.0, x.1, y.0, y.1) by {
        if x == e {
            assert(m.count(y) > 0);
        } else if y == e {
            assert(m.count(x) > 0);
        } else {
            assert(m.count(x) > 0 && m.count(y) > 0);
        }
    }
}

/// Taking a block out of a pool keeps it apart.
pub proof fn lemma_ms_apart_remove(m: Multiset<(u64, nat)>, e: (u64, nat))
    requires
        ms_apart(m),
    ensures
        ms_apart(m.remove(e)),
{
    let n = m.remove(e);
    assert forall|x: (u64, nat)| #[trigger] n.count(x) <= 1 by {
        assert(m.count(x) <= 1);
    }
    assert forall|x: (u64, nat), y: (u64, nat)|
        #[trigger] n.count(x) > 0 && #[trigger] n.count(y) > 0 && x != y implies apart(x.0, x.1, y.0, y.1) by {
        assert(m.count(x) > 0 && m.count(y) > 0);
    }
}

/// Slicing block `b` of `at` for level `i`, where `b` shares no byte with
/// the free blocks nor with the blocks of `lent`, keeps the free and the lent
/// blocks apart once the part handed out joins those lent out.
pub proof fn lemma_lend_apart(g: Seq<Seq<u64>>, lent: Multiset<(u64, nat)>, i: nat, b: u64, at: nat)
    requires
        free_apart(g),
        ms_apart(lent),
        forall|x: (u64, nat)| #[trigger] lent.count(x) > 0 ==> apart_from_free(g, x.0, x.1),
        forall|x: (u64, nat)| #[trigger] lent.count(x) > 0 ==> apart(x.0, x.1, b, at),
        apart_from_free(g, b, at),
        g.len() == LEVELS,
        i <= at <= LEVELS,
        block_fits(b, at),
    ensures
        free_apart(sliced(g, i, b, at)),
        ms_apart(lent.insert((b, i))),
        forall|x: (u64, nat)| #[trigger] lent.insert((b, i)).count(x) > 0 ==> apart_from_free(sliced(g, i, b, at), x.0, x.1),
        forall|x: (u64, nat)| #[trigger] lent.count(x) > 0 ==> apart(x.0, x.1, b, i),
{
    lemma_sliced_apart(g, i, b, at);
    assert forall|x: (u64, nat)| #[trigger] lent.count(x) > 0 implies apart(x.0, x.1, b, i) by {
        if i < at {
            lemma_level_size_increases(i, at);
        }
    }
    lemma_ms_apart_insert(lent, (b, i));
    assert forall|x: (u64, nat)| #[trigger] lent.insert((b, i)).count(x) > 0 implies apart_from_free(sliced(g, i, b, at), x.0, x.1) by {
        if x != (b, i) {
            assert(lent.count(x) > 0);
            lemma_sliced_keeps_apart(g, i, b, at, x.0, x.1);
        }
    }
}

/// A block that shares no byte with the free blocks shares none with them
/// once the top block of level `at` is taken off.
pub proof fn lemma_pop_keeps_apart(free: Seq<Seq<u64>>, at: int, x: u64, lx: nat)
    requires
        apart_from_free(free, x, lx),
        0 <= at < free.len(),
        free[at].len() > 0,
    ensures
        apart_from_free(free.update(at, free[at].drop_last()), x, lx),
{
    let g = free.update(at, free[at].drop_last());
    assert forall|l: int, t: int| 0 <= l < g.len() && 0 <= t < g[l].len() implies apart(#[trigger] g[l][t], l as nat, x, lx) by {
        assert(g[l][t] == free[l][t]);
    }
}

/// A block that shares no byte with the free blocks nor with `b` shares none
/// with them once `b` is pushed on the list of level `l`.
pub proof fn lemma_push_keeps_apart(free: Seq<Seq<u64>>, l: int, b: u64, x: u64, lx: nat)
    requires
        apart_from_free(free, x, lx),
        apart(x, lx, b, l as nat),
        0 <= l < free.len(),
    ensures
        apart_from_free(free.update(l, free[l].push(b)), x, lx),
{
    let g = free.update(l, free[l].push(b));
    assert forall|k: int, t: int| 0 <= k < g.len() && 0 <= t < g[k].len() implies apart(#[trigger] g[k][t], k as nat, x, lx) by {
        if k == l && t == free[l].len() {
            assert(g[k][t] == b);
        } else {
            assert(g[k][t] == free[k][t]);
        }
    }
}

/// No block of `m`, each an address and a level, is in it twice, and no two
/// of its blocks share a byte.
pub open spec fn ms_apart(m: Multiset<(u64, nat)>) -> bool {
    &&& forall|x: (u64, nat)| #[trigger] m.count(x) <= 1
    &&& forall|x: (u64, nat), y: (u64, nat)|
        #[trigger] m.count(x) > 0 && #[trigger] m.count(y) > 0 && x != y ==> apart(x.0, x.1, y.0, y.1)
}

/// The blocks of `s`, all of `level`.
pub open spec fn tagged(s: Seq<u64>, level: nat) -> Multiset<(u64, nat)>
    decreases s.len(),
{
    if s.len() == 0 {
        Multiset::empty()
    } else {
        tagged(s.drop_last(), level).insert((s.last(), level))
    }
}

/// The blocks listed in `s`, each an address and a level.
pub open spec fn entries_ms(s: Seq<(u64, usize)>) -> Multiset<(u64, nat)>
    decreases s.len(),
{
    if s.len() == 0 {
        Multiset::empty()
    } else {
        entries_ms(s.drop_last()).insert((s.last().0, s.last().1 as nat))
    }
}

/// The free blocks of the first `n` levels of `lists`.
pub open spec fn free_ms(lists: Seq<Seq<u64>>, n: nat) -> Multiset<(u64, nat)>
    decreases n,
{
    if n == 0 {
        Multiset::empty()
    } else {
        free_ms(lists, (n - 1) as nat).add(tagged(lists[n - 1], (n - 1) as nat))
    }
}

/// How often a block is among those of `s` of `level`.
proof fn lemma_tagged_count(s: Seq<u64>, level: nat, x: (u64, nat))
    ensures
        tagged(s, level).count(x) == if x.1 == level {
            s.to_multiset().count(x.0)
        } else {
            0
        },
    decreases s.len(),
{
    if s.len() > 0 {
        lemma_tagged_count(s.drop_last(), level, x);
        assert(s.drop_last().push(s.last()) =~= s);
    }
}

/// Blocks of the same addresses, in any order, are the same blocks.
proof fn lemma_tagged_perm(a: Seq<u64>, b: Seq<u64>, level: nat)
    requires
        a.to_multiset() == b.to_multiset(),
    ensures
        tagged(a, level) == tagged(b, level),
{
    assert forall|x: (u64, nat)| tagged(a, level).count(x) == tagged(b, level).count(x) by {
        lemma_tagged_count(a, level, x);
        lemma_tagged_count(b, level, x);
    }
    assert(tagged(a, level) =~= tagged(b, level));
}

/// One more block of `level`.
proof fn lemma_tagged_push(s: Seq<u64>, b: u64, level: nat)
    ensures
        tagged(s.push(b), level) == tagged(s, level).insert((b, level)),
{
    assert(s.push(b).drop_last() =~= s);
}

/// One more listed block.
proof fn lemma_entries_ms_push(s: Seq<(u64, usize)>, e: (u64, usize))
    ensures
        entries_ms(s.push(e)) == entries_ms(s).insert((e.0, e.1 as nat)),
{
    assert(s.push(e).drop_last() =~= s);
}

/// How often a block is among the free blocks of the first `n` levels.
proof fn lemma_free_ms_count(lists: Seq<Seq<u64>>, n: nat, x: (u64, nat))
    ensures
        free_ms(lists, n).count(x) == if x.1 < n {
            lists[x.1 as int].to_multiset().count(x.0)
        } else {
            0
        },
    decreases n,
{
    if n > 0 {
        lemma_free_ms_count(lists, (n - 1) as nat, x);
        lemma_tagged_count(lists[n - 1], (n - 1) as nat, x);
    }
}

/// Free blocks that share no byte form a pool whose blocks share none.
proof fn lemma_free_ms_apart(lists: Seq<Seq<u64>>)
    requires
        free_apart(lists),
        lists.len() == LEVELS,
    ensures
        ms_apart(free_ms(lists, LEVELS as nat)),
{
    let m = free_ms(lists, LEVELS as nat);
    assert forall|x: (u64, nat)| #[trigger] m.count(x) <= 1 by {
        lemma_free_ms_count(lists, LEVELS as nat, x);
        if x.1 < LEVELS {
            let s = lists[x.1 as int];
            if s.to_multiset().count(x.0) > 1 {
                assert(s.contains(x.0));
                let t1 = choose|t: int| 0 <= t < s.len() && s[t] == x.0;
                assert(s.remove(t1).to_multiset() =~= s.to_multiset().remove(x.0));
                assert(s.to_multiset().remove(x.0).count(x.0) > 0);
                assert(s.remove(t1).to_multiset().count(x.0) > 0);
                assert(s.remove(t1).contains(x.0));
                let t2 = choose|t: int| 0 <= t < s.remove(t1).len() && s.remove(t1)[t] == x.0;
                let t3 = if t2 < t1 { t2 } else { t2 + 1 };
                assert(s[t3] == x.0);
                assert(apart(lists[x.1 as int][t1], x.1, lists[x.1 as int][t3], x.1));
                vstd::arithmetic::power2::lemma_pow2_pos(x.1);
            }
        }
    }
    assert forall|x: (u64, nat), y: (u64, nat)|
        #[trigger] m.count(x) > 0 && #[trigger] m.count(y) > 0 && x != y implies apart(x.0, x.1, y.0, y.1) by {
        lemma_free_ms_count(lists, LEVELS as nat, x);
        lemma_free_ms_count(lists, LEVELS as nat, y);
        let sx = lists[x.1 as int];
        let sy = lists[y.1 as int];
        assert(sx.contains(x.0));
        assert(sy.contains(y.0));
        let tx = choose|t: int| 0 <= t < sx.len() && sx[t] == x.0;
        let ty = choose|t: int| 0 <= t < sy.len() && sy[t] == y.0;
        assert(apart(lists[x.1 as int][tx], x.1, lists[y.1 as int][ty], y.1));
    }
}

/// Taking the top block of level `at` takes it out of the pool.
proof fn lemma_free_ms_pop(lists: Seq<Seq<u64>>, at: int, n: nat)
    requires
        0 <= at < lists.len(),
        n <= lists.len(),
        lists[at].len() > 0,
    ensures
        free_ms(lists, n) == if at < n {
            free_ms(lists.update(at, lists[at].drop_last()), n).insert((lists[at].last(), at as nat))
        } else {
            free_ms(lists.update(at, lists[at].drop_last()), n)
        },
{
    let g = lists.update(at, lists[at].drop_last());
    assert forall|x: (u64, nat)| #[trigger] free_ms(lists, n).count(x) == (if at < n {
        free_ms(g, n).insert((lists[at].last(), at as nat))
    } else {
        free_ms(g, n)
    }).count(x) by {
        lemma_free_ms_count(lists, n, x);
        lemma_free_ms_count(g, n, x);
        assert(lists[at].drop_last().push(lists[at].last()) =~= lists[at]);
    }
    if at < n {
        assert(free_ms(lists, n) =~= free_ms(g, n).insert((lists[at].last(), at as nat)));
    } else {
        assert(free_ms(lists, n) =~= free_ms(g, n));
    }
}

/// Empty free lists hold no block.
proof fn lemma_free_ms_empty(lists: Seq<Seq<u64>>, n: nat)
    requires
        forall|l: int| 0 <= l < n ==> #[trigger] lists[l].len() == 0,
    ensures
        free_ms(lists, n) == Multiset::<(u64, nat)>::empty(),
{
    assert forall|x: (u64, nat)| #[trigger] free_ms(lists, n).count(x) == 0 by {
        lemma_free_ms_count(lists, n, x);
        if x.1 < n {
            assert(lists[x.1 as int] =~= Seq::<u64>::empty());
        }
    }
    assert(free_ms(lists, n) =~= Multiset::empty());
}

/// Coalescing two neighbouring blocks of a level into the block of the next
/// level that covers both keeps the pool's blocks apart.
proof fn lemma_ms_apart_merge(m: Multiset<(u64, nat)>, b: u64, l: nat)
    requires
        ms_apart(m),
        m.count((b, l)) > 0,
        m.count(((b + level_size(l)) as u64, l)) > 0,
        b + level_size(l) + level_size(l) <= u64::MAX,
    ensures
        ms_apart(m.remove((b, l)).remove(((b + level_size(l)) as u64, l)).insert((b, l + 1))),
{
    let c = ((b + level_size(l)) as u64, l);
    let rest = m.remove((b, l)).remove(c);
    let n = rest.insert((b, l + 1));
    lemma_level_size_double(l);
    vstd::arithmetic::power2::lemma_pow2_pos(l);
    assert((b, l) != c);
    assert forall|y: (u64, nat)| #[trigger] rest.count(y) > 0 implies apart(y.0, y.1, b, l + 1) && y != (b, l + 1) by {
        assert(m.count(y) > 0);
        assert(y != (b, l) && y != c);
        assert(apart(y.0, y.1, b, l));
        assert(apart(y.0, y.1, c.0, c.1));
        vstd::arithmetic::power2::lemma_pow2_pos(y.1);
    }
    assert forall|x: (u64, nat)| #[trigger] n.count(x) <= 1 by {
        if x == (b, l + 1) {
            if rest.count(x) > 0 {
                assert(apart(x.0, x.1, b, l + 1));
            }
        } else {
            assert(m.count(x) <= 1);
        }
    }
    assert forall|x: (u64, nat), y: (u64, nat)|
        #[trigger] n.count(x) > 0 && #[trigger] n.count(y) > 0 && x != y implies apart(x.0, x.1, y.0, y.1) by {
        if x == (b, l + 1) {
            assert(rest.count(y) > 0);
        } else if y == (b, l + 1) {
            assert(rest.count(x) > 0);
        } else {
            assert(m.count(x) > 0 && m.count(y) > 0);
        }
    }
}

/// The blocks in play while coalescing `level`: those of `rest`, those left
/// to pair, those coalesced into the next level, the one held for pairing,
/// and those listed for release or as leaked.
spec fn coalesce_pool(
    rest: Multiset<(u64, nat)>,
    blocks: Seq<u64>,
    level: nat,
    next: Seq<u64>,
    later: Option<u64>,
    release: Seq<(u64, usize)>,
    leaked: Seq<(u64, usize)>,
) -> Multiset<(u64, nat)> {
    rest.add(tagged(blocks, level)).add(tagged(next, level + 1)).add(
        match later {
            Some(x) => Multiset::singleton((x, level)),
            None => Multiset::empty(),
        },
    ).add(entries_ms(release)).add(entries_ms(leaked))
}

/// The blocks of `s` from `t` on are that at `t` and those after it.
proof fn lemma_tagged_front(s: Seq<u64>, t: int, level: nat)
    requires
        0 <= t < s.len(),
    ensures
        tagged(s.subrange(t, s.len() as int), level) == tagged(s.subrange(t + 1, s.len() as int), level).insert(
            (s[t], level),
        ),
{
    let a = s.subrange(t, s.len() as int);
    let b = s.subrange(t + 1, s.len() as int);
    assert(b =~= a.remove(0));
    vstd::seq_lib::to_multiset_remove(a, 0);
    assert forall|x: (u64, nat)| tagged(a, level).count(x) == tagged(b, level).insert((s[t], level)).count(x) by {
        lemma_tagged_count(a, level, x);
        lemma_tagged_count(b, level, x);
        assert(a[0] == s[t]);
    }
    assert(tagged(a, level) =~= tagged(b, level).insert((s[t], level)));
}

/// Byte `p` lies in block `b` of `level`.
pub open spec fn in_block(p: int, b: u64, level: nat) -> bool {
    b <= p < b + level_size(level)
}

/// Byte `p` lies in one of the blocks of `lists`.
pub open spec fn in_lists(p: int, lists: Seq<Seq<u64>>) -> bool {
    exists|l: int, t: int|
        0 <= l < lists.len() && 0 <= t < lists[l].len() && #[trigger] in_block(p, lists[l][t], l as nat)
}

/// Every byte of block `b` of `level` lies in one of the blocks of `lists`.
pub open spec fn covered_by(b: u64, level: nat, lists: Seq<Seq<u64>>) -> bool {
    forall|p: int| #[trigger] in_block(p, b, level) ==> in_lists(p, lists)
}

/// Every block of `m`, each an address and a level, lies within the blocks
/// of `lists`.
pub open spec fn ms_covered(m: Multiset<(u64, nat)>, lists: Seq<Seq<u64>>) -> bool {
    forall|x: (u64, nat)| #[trigger] m.count(x) > 0 ==> covered_by(x.0, x.1, lists)
}

/// The free blocks lie within themselves.
proof fn lemma_free_ms_covered(lists: Seq<Seq<u64>>)
    requires
        lists.len() == LEVELS,
    ensures
        ms_covered(free_ms(lists, LEVELS as nat), lists),
{
    assert forall|x: (u64, nat)| #[trigger] free_ms(lists, LEVELS as nat).count(x) > 0 implies covered_by(
        x.0,
        x.1,
        lists,
    ) by {
        lemma_free_ms_count(lists, LEVELS as nat, x);
        let l = x.1 as int;
        let s = lists[l];
        assert(s.contains(x.0));
        let t = choose|t: int| 0 <= t < s.len() && s[t] == x.0;
        assert forall|p: int| #[trigger] in_block(p, x.0, x.1) implies in_lists(p, lists) by {
            assert(0 <= l < lists.len() && 0 <= t < lists[l].len() && in_block(p, lists[l][t], l as nat));
        }
    }
}

/// A block that shares no byte with the blocks of `lists` shares none with a
/// block whose every byte lies in them.
pub proof fn lemma_covered_apart(lists: Seq<Seq<u64>>, x: u64, lx: nat, y: u64, ly: nat)
    requires
        apart_from_free(lists, x, lx),
        covered_by(y, ly, lists),
    ensures
        apart(x, lx, y, ly),
{
    if !apart(x, lx, y, ly) {
        vstd::arithmetic::power2::lemma_pow2_pos(lx);
        vstd::arithmetic::power2::lemma_pow2_pos(ly);
        let p: int = if x <= y {
            y as int
        } else {
            x as int
        };
        assert(in_block(p, y, ly));
        assert(in_lists(p, lists));
        let (l, t) = choose|l: int, t: int|
            0 <= l < lists.len() && 0 <= t < lists[l].len() && #[trigger] in_block(p, lists[l][t], l as nat);
        assert(apart(lists[l][t], l as nat, x, lx));
        assert(in_block(p, x, lx));
    }
}

/// Coalescing two neighbouring blocks of a level keeps the pool within
/// `lists`.
proof fn lemma_ms_covered_merge(m: Multiset<(u64, nat)>, b: u64, l: nat, lists: Seq<Seq<u64>>)
    requires
        ms_covered(m, lists),
        m.count((b, l)) > 0,
        m.count(((b + level_size(l)) as u64, l)) > 0,
        b + level_size(l) + level_size(l) <= u64::MAX,
    ensures
        ms_covered(m.remove((b, l)).remove(((b + level_size(l)) as u64, l)).insert((b, l + 1)), lists),
{
    let c = ((b + level_size(l)) as u64, l);
    let n = m.remove((b, l)).remove(c).insert((b, l + 1));
    lemma_level_size_double(l);
    assert(covered_by(b, l, lists));
    assert(covered_by(c.0, c.1, lists));
    assert(covered_by(b, l + 1, lists)) by {
        assert forall|p: int| #[trigger] in_block(p, b, l + 1) implies in_lists(p, lists) by {
            if p < b + level_size(l) {
                assert(in_block(p, b, l));
            } else {
                assert(in_block(p, c.0, c.1));
            }
        }
    }
    assert forall|x: (u64, nat)| #[trigger] n.count(x) > 0 implies covered_by(x.0, x.1, lists) by {
        if x != (b, l + 1) {
            assert(m.count(x) > 0);
        }
    }
}

/// Byte `p` lies in one of the blocks of `m`, each an address and a level.
pub open spec fn in_ms(p: int, m: Multiset<(u64, nat)>) -> bool {
    exists|x: (u64, nat)| #[trigger] m.count(x) > 0 && in_block(p, x.0, x.1)
}

/// Every byte of every block of `lists` lies in one of the blocks of `m`.
pub open spec fn ms_covers(lists: Seq<Seq<u64>>, m: Multiset<(u64, nat)>) -> bool {
    forall|p: int| #[trigger] in_lists(p, lists) ==> in_ms(p, m)
}

/// The free blocks cover themselves.
proof fn lemma_free_ms_covers(lists: Seq<Seq<u64>>)
    requires
        lists.len() == LEVELS,
    ensures
        ms_covers(lists, free_ms(lists, LEVELS as nat)),
{
    let m = free_ms(lists, LEVELS as nat);
    assert forall|p: int| #[trigger] in_lists(p, lists) implies in_ms(p, m) by {
        let (l, t) = choose|l: int, t: int|
            0 <= l < lists.len() && 0 <= t < lists[l].len() && #[trigger] in_block(p, lists[l][t], l as nat);
        let x = (lists[l][t], l as nat);
        lemma_free_ms_count(lists, LEVELS as nat, x);
        assert(lists[l].contains(lists[l][t]));
        assert(m.count(x) > 0 && in_block(p, x.0, x.1));
    }
}

/// Coalescing two neighbouring blocks of a level keeps every byte of `lists`
/// in the pool.
proof fn lemma_ms_covers_merge(lists: Seq<Seq<u64>>, m: Multiset<(u64, nat)>, b: u64, l: nat)
    requires
        ms_covers(lists, m),
        m.count((b, l)) > 0,
        m.count(((b + level_size(l)) as u64, l)) > 0,
        b + level_size(l) + level_size(l) <= u64::MAX,
    ensures
        ms_covers(lists, m.remove((b, l)).remove(((b + level_size(l)) as u64, l)).insert((b, l + 1))),
{
    let c = ((b + level_size(l)) as u64, l);
    let n = m.remove((b, l)).remove(c).insert((b, l + 1));
    lemma_level_size_double(l);
    assert forall|p: int| #[trigger] in_lists(p, lists) implies in_ms(p, n) by {
        let x = choose|x: (u64, nat)| #[trigger] m.count(x) > 0 && in_block(p, x.0, x.1);
        if x == (b, l) || x == c {
            assert(n.count((b, l + 1)) > 0 && in_block(p, b, l + 1));
        } else {
            assert(n.count(x) > 0 && in_block(p, x.0, x.1));
        }
    }
}

/// The block freed last is served first: right after `addr` is pushed on
/// the free list of level `i`, an allocation of that level, which is served
/// from the lowest nonempty list at or above it, gets `addr`.
pub proof fn lemma_freed_served_first(free: Seq<Seq<u64>>, i: int, addr: u64, from: int)
    requires
        0 <= i <= from < free.len(),
        free.update(i, free[i].push(addr))[from].len() > 0,
        forall|l: int| i <= l < from ==> #[trigger] free.update(i, free[i].push(addr))[l].len() == 0,
    ensures
        from == i,
        free.update(i, free[i].push(addr))[from].last() == addr,
{
    let g = free.update(i, free[i].push(addr));
    if i < from {
        assert(g[i].len() == 0);
    }
}

/// Freeing a layout served from a block of its own level puts the free
/// lists back as they were before it was served.
pub proof fn lemma_free_undoes_serve(free: Seq<Seq<u64>>, i: int)
    requires
        0 <= i < free.len(),
        free[i].len() > 0,
    ensures
        ({
            let taken = sliced(free.update(i, free[i].drop_last()), i as nat, free[i].last(), i as nat);
            taken.update(i, taken[i].push(free[i].last())) == free
        }),
{
    let g = free.update(i, free[i].drop_last());
    let taken = sliced(g, i as nat, free[i].last(), i as nat);
    assert(taken =~= g);
    assert(g[i].push(free[i].last()) =~= free[i]);
    assert(taken.update(i, taken[i].push(free[i].last())) =~= free);
}

/// `x` and `y`, each an address and a level below a page, are the two halves
/// of one block of the next level: `x` the aligned lower half, `y` right
/// after it.
pub open spec fn buddies(x: (u64, nat), y: (u64, nat)) -> bool {
    &&& x.1 == y.1
    &&& x.1 < LEVELS
    &&& y.0 == x.0 + level_size(x.1)
    &&& (x.0 as nat) % level_size(x.1 + 1) == 0
}

/// No two blocks of `m` are halves of one block of the next level.
pub open spec fn no_buddies(m: Multiset<(u64, nat)>) -> bool {
    forall|x: (u64, nat), y: (u64, nat)|
        #[trigger] m.count(x) > 0 && #[trigger] m.count(y) > 0 ==> !buddies(x, y)
}

/// Every block of `m` is of a level below `level`.
pub open spec fn levels_below(m: Multiset<(u64, nat)>, level: nat) -> bool {
    forall|x: (u64, nat)| #[trigger] m.count(x) > 0 ==> x.1 < level
}

/// Listing one more block of `level`, below every block of that level
/// listed so far and not the lower half of any of them, keeps the listed
/// blocks free of halves of one block.
proof fn lemma_no_buddies_push(outs: Multiset<(u64, nat)>, rl: Seq<u64>, level: nat, y: u64)
    requires
        no_buddies(outs.add(tagged(rl, level))),
        levels_below(outs, level),
        forall|u: int| 0 <= u < rl.len() ==> y < #[trigger] rl[u],
        forall|u: int|
            0 <= u < rl.len() ==> !(y + level_size(level) == #[trigger] rl[u] && (y as nat) % level_size(level + 1) == 0),
    ensures
        no_buddies(outs.add(tagged(rl.push(y), level))),
{
    let m0 = outs.add(tagged(rl, level));
    let m = outs.add(tagged(rl.push(y), level));
    lemma_tagged_push(rl, y, level);
    vstd::arithmetic::power2::lemma_pow2_pos(level);
    assert forall|x: (u64, nat), z: (u64, nat)| #[trigger] m.count(x) > 0 && #[trigger] m.count(z) > 0 implies !buddies(x, z) by {
        if x == (y, level) || z == (y, level) {
            let other = if x == (y, level) { z } else { x };
            if other != (y, level) && other.1 == level {
                assert(outs.count(other) == 0);
                assert(tagged(rl, level).count(other) > 0);
                lemma_tagged_count(rl, level, other);
                assert(rl.contains(other.0));
                let u = choose|u: int| 0 <= u < rl.len() && rl[u] == other.0;
                assert(y < rl[u]);
                assert(!(y + level_size(level) == rl[u] && (y as nat) % level_size(level + 1) == 0));
            }
        } else {
            assert(m0.count(x) > 0 && m0.count(z) > 0);
        }
    }
}

/// Listing a page keeps the listed blocks free of halves of one block.
proof fn lemma_no_buddies_page(m: Multiset<(u64, nat)>, a: u64)
    requires
        no_buddies(m),
    ensures
        no_buddies(m.insert((a, LEVELS as nat))),
{
    let n = m.insert((a, LEVELS as nat));
    assert forall|x: (u64, nat), z: (u64, nat)| #[trigger] n.count(x) > 0 && #[trigger] n.count(z) > 0 implies !buddies(x, z) by {
        if x != (a, LEVELS as nat) && z != (a, LEVELS as nat) {
            assert(m.count(x) > 0 && m.count(z) > 0);
        }
    }
}

/// Every block listed in `leaked` is smaller than a page, and its record,
/// address plus level, is not among `sub`.
pub open spec fn leaked_unrecorded(leaked: Seq<(u64, usize)>, sub: Seq<u64>) -> bool {
    forall|t: int|
        0 <= t < leaked.len() ==> (#[trigger] leaked[t]).1 < LEVELS && !sub.contains(
            (leaked[t].0 + leaked[t].1) as u64,
        )
}

} // verus!
