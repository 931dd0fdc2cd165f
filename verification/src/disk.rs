//! Disk compaction: a dense digit map describes alternating file and free
//! spans; files are decompressed into unit blocks, compacted from the back
//! into the leftmost free slots, and summed into a position checksum.

use vstd::prelude::*;
use crate::text::{is_digit, to_chars};

verus! {

/// One span of the disk: a file with its id, or free space.
#[derive(Clone, Copy, PartialEq, Eq, Structural, Debug)]
pub enum Block {
    File { id: usize, size: usize },
    Free { size: usize },
}

/// The block a digit at character position `i` denotes: even positions are
/// files (id half the position), odd positions free spans.
pub open spec fn block_at(i: int, d: int) -> Block {
    if i % 2 == 0 {
        Block::File { id: (i / 2) as usize, size: d as usize }
    } else {
        Block::Free { size: d as usize }
    }
}

/// The blocks of the digit map; non-digit characters are skipped but still
/// advance the position parity.
pub open spec fn parse_disk(t: Seq<char>, i: int) -> Seq<Block>
    decreases t.len() - i,
{
    if i < 0 || i >= t.len() {
        Seq::empty()
    } else if is_digit(t[i]) {
        seq![block_at(i, crate::text::digit_val(t[i]))] + parse_disk(t, i + 1)
    } else {
        parse_disk(t, i + 1)
    }
}

/// A span as unit blocks: `size` copies of a one-unit block.
pub open spec fn unit_copies(b: Block) -> Seq<Block> {
    match b {
        Block::File { id, size } => Seq::new(
            size as nat,
            |k: int| Block::File { id, size: 1 },
        ),
        Block::Free { size } => Seq::new(size as nat, |k: int| Block::Free { size: 1 }),
    }
}

/// Every span expanded into unit blocks.
pub open spec fn expand(s: Seq<Block>) -> Seq<Block>
    decreases s.len(),
{
    if s.len() == 0 {
        Seq::empty()
    } else {
        unit_copies(s[0]) + expand(s.drop_first())
    }
}

/// Index of the last file block, or `-1` if there is none.
pub open spec fn last_file(s: Seq<Block>) -> int
    decreases s.len(),
{
    if s.len() == 0 {
        -1
    } else if s.last() is File {
        s.len() - 1
    } else {
        last_file(s.drop_last())
    }
}

pub proof fn lemma_last_file(s: Seq<Block>)
    ensures
        -1 <= last_file(s) < s.len(),
        last_file(s) >= 0 ==> s[last_file(s)] is File,
        forall|m: int| last_file(s) < m < s.len() ==> !(#[trigger] s[m] is File),
    decreases s.len(),
{
    if s.len() > 0 && !(s.last() is File) {
        lemma_last_file(s.drop_last());
        assert forall|m: int| last_file(s) < m < s.len() implies !(#[trigger] s[m]
            is File) by {
            if m < s.len() - 1 {
                assert(s.drop_last()[m] == s[m]);
            }
        }
    }
}

/// Compaction: keep file blocks from the front; fill each free slot with
/// the last remaining file block, discarding trailing free space.
pub open spec fn defrag(s: Seq<Block>) -> Seq<Block>
    decreases s.len(),
{
    if s.len() == 0 {
        Seq::empty()
    } else if s[0] is File {
        seq![s[0]] + defrag(s.drop_first())
    } else {
        let rest = s.drop_first();
        let j = last_file(rest);
        if j < 0 || j >= rest.len() {
            Seq::empty()
        } else {
            seq![rest[j]] + defrag(rest.subrange(0, j))
        }
    }
}

/// Position-weighted checksum from index `i` on: the sum of
/// `index * file id` over file blocks.
pub open spec fn cksum(s: Seq<Block>, i: int) -> int
    decreases s.len() - i,
{
    if i < 0 || i >= s.len() {
        0
    } else {
        (match s[i] {
            Block::File { id, size } => i * id,
            Block::Free { .. } => 0,
        }) + cksum(s, i + 1)
    }
}

pub proof fn lemma_cksum_nonneg(s: Seq<Block>, i: int)
    requires
        i >= 0,
    ensures
        cksum(s, i) >= 0,
    decreases s.len() - i,
{
    if i < s.len() {
        lemma_cksum_nonneg(s, i + 1);
        match s[i] {
            Block::File { id, size } => {
                assert(i * id >= 0) by (nonlinear_arith)
                    requires i >= 0, id >= 0,
                ;
            },
            Block::Free { .. } => {},
        }
    }
}

/// Executable check that a block is a file.
fn is_file(b: Block) -> (r: bool)
    ensures
        r == (b is File),
{
    matches!(b, Block::File { .. })
}

/// Executable check that the block at `i` is free space.
fn is_free_at(disk: &Vec<Block>, i: usize) -> (r: bool)
    requires
        i < disk@.len(),
    ensures
        r == (disk@[i as int] is Free),
{
    matches!(disk[i], Block::Free { .. })
}

/// The disk as a sequence of spans.
pub struct DiskMap {
    pub disk: Vec<Block>,
}

impl DiskMap {
    /// Parse the dense digit map, mirroring [`parse_disk`].
    #[verifier::loop_isolation(false)]
    pub fn from(puzzle: &str) -> (r: DiskMap)
        ensures
            r.disk@ == parse_disk(puzzle@, 0),
    {
        let chars = to_chars(puzzle);
        let mut disk: Vec<Block> = Vec::new();
        let mut i: usize = 0;
        while i < chars.len()
            invariant
                i <= chars@.len(),
                parse_disk(chars@, 0) =~= disk@ + parse_disk(chars@, i as int),
            decreases chars@.len() - i,
        {
            let c = chars[i];
            if c >= '0' && c <= '9' {
                let d = (c as u32 as usize) - ('0' as u32 as usize);
                proof {
                    assert(is_digit(chars@[i as int]));
                    assert(d == crate::text::digit_val(chars@[i as int]));
                }
                let b = if i % 2 == 0 {
                    Block::File { id: i / 2, size: d }
                } else {
                    Block::Free { size: d }
                };
                proof {
                    assert(b == block_at(i as int, d as int));
                }
                disk.push(b);
            } else {
                proof {
                    assert(!is_digit(chars@[i as int]));
                }
            }
            i = i + 1;
        }
        DiskMap { disk }
    }

    /// Expand every span into unit blocks, mirroring [`expand`].
    #[verifier::loop_isolation(false)]
    pub fn decompress(self) -> (r: DiskMap)
        ensures
            r.disk@ == expand(self.disk@),
    {
        let src = self.disk;
        let mut disk: Vec<Block> = Vec::new();
        let mut i: usize = 0;
        let ghost full = src@;
        proof {
            assert(full.subrange(0, full.len() as int) =~= full);
        }
        while i < src.len()
            invariant
                i <= full.len(),
                src@ == full,
                expand(full) =~= disk@ + expand(full.subrange(i as int, full.len() as int)),
            decreases full.len() - i,
        {
            let ghost rest = full.subrange(i as int, full.len() as int);
            proof {
                assert(rest[0] == full[i as int]);
                assert(rest.drop_first() =~= full.subrange(i + 1, full.len() as int));
            }
            let b = src[i];
            let (unit, count) = match b {
                Block::File { id, size } => (Block::File { id, size: 1 }, size),
                Block::Free { size } => (Block::Free { size: 1 }, size),
            };
            let mut k: usize = 0;
            let ghost pre = disk@;
            while k < count
                invariant
                    k <= count,
                    disk@ =~= pre + unit_copies(full[i as int]).subrange(0, k as int),
                    unit_copies(full[i as int]).len() == count,
                    forall|m: int|
                        0 <= m < count ==> unit_copies(full[i as int])[m] == unit,
                decreases count - k,
            {
                disk.push(unit);
                k = k + 1;
                proof {
                    assert(disk@ =~= pre + unit_copies(full[i as int]).subrange(
                        0, k as int));
                }
            }
            proof {
                assert(unit_copies(full[i as int]).subrange(0, count as int)
                    =~= unit_copies(full[i as int]));
            }
            i = i + 1;
        }
        DiskMap { disk }
    }

    /// Compact file blocks from the back into the leftmost free slots,
    /// mirroring [`defrag`]; the receiver is left drained.
    pub fn defragment(&mut self) -> (r: DiskMap)
        ensures
            r.disk@ == defrag(old(self).disk@),
            final(self).disk@.len() == 0,
    {
        let ghost full = old(self).disk@;
        let mut out: Vec<Block> = Vec::new();
        let mut lo: usize = 0;
        let mut hi: usize = self.disk.len();
        proof {
            assert(full.subrange(0, full.len() as int) =~= full);
        }
        while lo < hi
            invariant_except_break
                0 <= lo <= hi <= full.len(),
                self.disk@ == full,
                defrag(full) =~= out@ + defrag(full.subrange(lo as int, hi as int)),
            ensures
                self.disk@ == full,
                defrag(full) =~= out@,
            decreases hi - lo,
        {
            let ghost window = full.subrange(lo as int, hi as int);
            let b = self.disk[lo];
            proof {
                assert(window[0] == full[lo as int]);
                assert(window.drop_first() =~= full.subrange(lo + 1, hi as int));
            }
            if is_file(b) {
                out.push(b);
                lo = lo + 1;
                proof {
                    assert(out@ =~= out@.drop_last().push(full[(lo - 1) as int]));
                }
            } else {
                lo = lo + 1;
                let mut h = hi;
                while h > lo && is_free_at(&self.disk, h - 1)
                    invariant
                        lo <= h <= hi <= full.len(),
                        self.disk@ == full,
                        forall|m: int| h <= m < hi ==> !(#[trigger] full[m] is File),
                    decreases h,
                {
                    h = h - 1;
                }
                let ghost rest = full.subrange(lo as int, hi as int);
                proof {
                    lemma_last_file(rest);
                    assert(window.drop_first() =~= rest);
                }
                if h == lo {
                    proof {
                        assert(last_file(rest) == -1) by {
                            assert forall|m: int|
                                0 <= m < rest.len() implies !(#[trigger] rest[m]
                                is File) by {
                                assert(rest[m] == full[m + lo]);
                            }
                            if last_file(rest) >= 0 {
                                assert(rest[last_file(rest)] is File);
                            }
                        }
                        assert(defrag(window) =~= Seq::empty());
                    }
                    break ;
                }
                let f = self.disk[h - 1];
                out.push(f);
                proof {
                    let jabs = h - 1;
                    assert(full[jabs] is File);
                    assert(rest[jabs - lo] == full[jabs]);
                    assert(last_file(rest) == jabs - lo) by {
                        assert forall|m: int|
                            jabs - lo < m < rest.len() implies !(#[trigger] rest[m]
                            is File) by {
                            assert(rest[m] == full[m + lo]);
                        }
                        if last_file(rest) > jabs - lo {
                            assert(rest[last_file(rest)] is File);
                        }
                        if last_file(rest) < jabs - lo {
                            assert(!(rest[jabs - lo] is File));
                        }
                    }
                    assert(defrag(window) =~= seq![full[jabs]] + defrag(
                        rest.subrange(0, jabs - lo)));
                    assert(rest.subrange(0, jabs - lo) =~= full.subrange(
                        lo as int, jabs));
                    assert(out@ =~= out@.drop_last().push(full[jabs]));
                }
                hi = h - 1;
            }
        }
        self.disk = Vec::new();
        DiskMap { disk: out }
    }

    /// The position checksum, `None` if it exceeds `usize::MAX`.
    #[verifier::loop_isolation(false)]
    pub fn checksum(&self) -> (r: Option<usize>)
        ensures
            match r {
                Some(c) => c as int == cksum(self.disk@, 0),
                None => cksum(self.disk@, 0) > usize::MAX,
            },
    {
        let mut sum: usize = 0;
        let mut i: usize = 0;
        proof {
            assert(cksum(self.disk@, 0) == 0 + cksum(self.disk@, 0));
        }
        while i < self.disk.len()
            invariant
                i <= self.disk@.len(),
                cksum(self.disk@, 0) == sum + cksum(self.disk@, i as int),
            decreases self.disk@.len() - i,
        {
            let here = match self.disk[i] {
                Block::File { id, size } => {
                    match i.checked_mul(id) {
                        Some(p) => p,
                        None => {
                            proof {
                                lemma_cksum_nonneg(self.disk@, i + 1);
                            }
                            return None;
                        },
                    }
                },
                Block::Free { .. } => 0,
            };
            match sum.checked_add(here) {
                Some(s) => {
                    sum = s;
                },
                None => {
                    proof {
                        lemma_cksum_nonneg(self.disk@, i + 1);
                    }
                    return None;
                },
            }
            i = i + 1;
        }
        Some(sum)
    }
}

/// End-to-end result of compacting the parsed disk.
pub open spec fn compact_checksum(t: Seq<char>) -> int {
    cksum(defrag(expand(parse_disk(t, 0))), 0)
}

/// Checksum after decompressing and compacting the parsed disk; `None`
/// exactly when the checksum exceeds `usize::MAX`.
pub fn part_one(input: &str) -> (r: Option<usize>)
    ensures
        match r {
            Some(c) => c as int == compact_checksum(input@),
            None => compact_checksum(input@) > usize::MAX,
        },
{
    let mut expanded = DiskMap::from(input).decompress();
    let compacted = expanded.defragment();
    compacted.checksum()
}

/// The second half of this puzzle is not solved here.
pub fn part_two(input: &str) -> (r: Option<usize>)
    ensures
        r is None,
{
    let _ = input;
    None
}

} // verus!
