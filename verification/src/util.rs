//! Byte ranges cut into blocks.

use vstd::prelude::*;

use crate::structs::BLKSIZE;

verus! {

/// The rest of a byte range that is visited block by block.
pub struct BlockIter {
    pub begin: usize,
    pub end: usize,
}

/// The part of a byte range that lies in one block.
pub struct BlockRange {
    pub block: usize,
    pub begin: usize,
    pub end: usize,
}

impl BlockRange {
    /// The number of bytes.
    pub fn len(&self) -> (n: usize)
        requires
            self.begin <= self.end,
        ensures
            n == self.end - self.begin,
    {
        self.end - self.begin
    }
}

impl BlockIter {
    /// Takes off the part that lies in the first block.
    pub fn next(&mut self) -> (r: Option<BlockRange>)
        ensures
            final(self).end == old(self).end,
            match r {
                None => old(self).begin >= old(self).end && *final(self) == *old(self),
                Some(range) => {
                    &&& old(self).begin < old(self).end
                    &&& range.block == old(self).begin / BLKSIZE
                    &&& range.begin == old(self).begin % BLKSIZE
                    &&& range.begin < range.end <= BLKSIZE
                    &&& range.end == if old(self).end - range.block * 4096 < 4096 {
                        old(self).end - range.block * 4096
                    } else {
                        4096
                    }
                    &&& final(self).begin == range.block * 4096 + range.end
                    &&& final(self).begin <= final(self).end
                },
            },
    {
        if self.begin >= self.end {
            return None;
        }
        let block = self.begin / BLKSIZE;
        let begin = self.begin % BLKSIZE;
        let end = if block == self.end / BLKSIZE {
            self.end % BLKSIZE
        } else {
            BLKSIZE
        };
        self.begin = self.begin + (end - begin);
        Some(BlockRange { block, begin, end })
    }
}

/// The parts of a range follow one upon the other without a gap: a part starts where the range starts,
/// lies within one block, and ends at the end of the block or of the range, where what is left starts.
pub proof fn law_next(iter: &mut BlockIter, r: Option<BlockRange>, n: usize)
    requires
        call_ensures(BlockIter::next, (iter,), r),
        r matches Some(range) ==> call_ensures(BlockRange::len, (&range,), n),
    ensures
        r is Some <==> old(iter).begin < old(iter).end,
        final(iter).end == old(iter).end,
        r is None ==> final(iter).begin == old(iter).begin,
        r matches Some(range) ==> {
            &&& range.block * 4096 + range.begin == old(iter).begin
            &&& range.begin < 4096
            &&& range.block * 4096 + range.end == final(iter).begin
            &&& range.begin < range.end <= 4096
            &&& range.end == 4096 || final(iter).begin == old(iter).end
            &&& n == final(iter).begin - old(iter).begin
        },
{
}

} // verus!
