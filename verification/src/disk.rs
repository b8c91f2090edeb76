//! Disk compaction: a dense disc map expands into file and gap blocks,
//! blocks are compacted either block-by-block or file-by-file, and a
//! checksum summarizes the final layout.

use vstd::prelude::*;
use crate::text::{chars_of, digit_of};

verus! {

broadcast use vstd::seq_lib::group_seq_properties;

/// One block of the disk: free space or part of a numbered file.
#[derive(Clone, Copy, PartialEq, Eq, Structural, Debug)]
pub enum Block {
    Empty,
    File(usize),
}

/// The blocks a disc map expands to: alternating file and gap runs, with
/// file ids counted up; newlines are skipped.
pub open spec fn blocks_from(s: Seq<char>, is_file: bool, id: nat) -> Seq<Block>
    decreases s.len(),
{
    if s.len() == 0 {
        Seq::empty()
    } else if s[0] == '\n' {
        blocks_from(s.drop_first(), is_file, id)
    } else {
        let n = digit_of(s[0])->Some_0;
        let run: Seq<Block> = Seq::new(
            n as nat,
            |k: int|
                if is_file {
                    Block::File(id as usize)
                } else {
                    Block::Empty
                },
        );
        if is_file {
            run + blocks_from(s.drop_first(), false, id + 1)
        } else {
            run + blocks_from(s.drop_first(), true, id)
        }
    }
}

/// Expand a disc map into blocks.  The map may hold only digits and
/// newlines, and may name at most usize::MAX files.
#[verifier::rlimit(50)]
pub fn discmap_to_blocks(discmap: &str) -> (r: Vec<Block>)
    requires
        forall|i: int|
            0 <= i < discmap@.len() ==> (#[trigger] discmap@[i]) == '\n' || digit_of(
                discmap@[i],
            ) is Some,
        discmap@.len() < usize::MAX,
    ensures
        r@ == blocks_from(discmap@, true, 0),
{
    let cs = chars_of(discmap);
    let mut r: Vec<Block> = Vec::new();
    let mut is_file: bool = true;
    let mut file_id: usize = 0;
    let mut i: usize = 0;
    while i < cs.len()
        invariant
            cs@ == discmap@,
            forall|k: int|
                0 <= k < discmap@.len() ==> (#[trigger] discmap@[k]) == '\n' || digit_of(
                    discmap@[k],
                ) is Some,
            discmap@.len() < usize::MAX,
            0 <= i <= cs@.len(),
            file_id <= i,
            blocks_from(discmap@, true, 0) == r@ + blocks_from(
                discmap@.skip(i as int),
                is_file,
                file_id as nat,
            ),
        decreases cs@.len() - i,
    {
        let c = cs[i];
        let ghost rest = discmap@.skip(i as int);
        proof {
            assert(rest[0] == discmap@[i as int]);
            assert(rest.drop_first() =~= discmap@.skip(i + 1));
        }
        if c != '\n' {
            let d: usize = (c as u32 as usize) - ('0' as u32 as usize);
            proof {
                assert(digit_of(discmap@[i as int]) is Some);
                assert(d == digit_of(discmap@[i as int])->Some_0);
            }
            let fill: Block = if is_file {
                Block::File(file_id)
            } else {
                Block::Empty
            };
            let ghost run = Seq::new(
                d as nat,
                |k: int|
                    if is_file {
                        Block::File(file_id)
                    } else {
                        Block::Empty
                    },
            );
            let mut k: usize = 0;
            let ghost r0 = r@;
            while k < d
                invariant
                    0 <= k <= d,
                    fill == (if is_file {
                        Block::File(file_id)
                    } else {
                        Block::Empty
                    }),
                    run == Seq::new(
                        d as nat,
                        |k2: int|
                            if is_file {
                                Block::File(file_id)
                            } else {
                                Block::Empty
                            },
                    ),
                    r@ == r0 + run.take(k as int),
                decreases d - k,
            {
                r.push(fill);
                proof {
                    assert(run.take(k + 1) =~= run.take(k as int).push(fill));
                }
                k = k + 1;
            }
            proof {
                assert(run.take(d as int) =~= run);
                assert(r@ =~= r0 + run);
            }
            if is_file {
                is_file = false;
                file_id = file_id + 1;
            } else {
                is_file = true;
            }
        }
        i = i + 1;
        proof {
            assert(blocks_from(discmap@, true, 0) == r@ + blocks_from(
                discmap@.skip(i as int),
                is_file,
                file_id as nat,
            ));
        }
    }
    proof {
        assert(discmap@.skip(discmap@.len() as int) =~= Seq::<char>::empty());
        assert(r@ =~= blocks_from(discmap@, true, 0));
    }
    r
}

/// Number of file blocks.
pub open spec fn count_files(s: Seq<Block>) -> nat
    decreases s.len(),
{
    if s.len() == 0 {
        0
    } else {
        count_files(s.drop_last()) + (if s.last() is File {
            1nat
        } else {
            0nat
        })
    }
}

/// Number of gap blocks in the first i positions.
pub open spec fn empties_before(s: Seq<Block>, i: int) -> nat {
    (i - count_files(s.take(i))) as nat
}

/// The file blocks in order of appearance.
pub open spec fn files_of(s: Seq<Block>) -> Seq<Block>
    decreases s.len(),
{
    if s.len() == 0 {
        Seq::empty()
    } else if s.last() is File {
        files_of(s.drop_last()).push(s.last())
    } else {
        files_of(s.drop_last())
    }
}

/// Fragmenting compaction: every file block left of the cut keeps its
/// place, every gap left of the cut is filled with the unmoved file blocks
/// taken from the right end inward, and everything after the cut is empty.
pub open spec fn frag_compacted(s: Seq<Block>) -> Seq<Block> {
    let m = count_files(s) as int;
    Seq::new(
        s.len(),
        |i: int|
            if i >= m {
                Block::Empty
            } else if s[i] is File {
                s[i]
            } else {
                files_of(s).reverse()[empties_before(s, i) as int]
            },
    )
}

proof fn lemma_files_of_len(s: Seq<Block>)
    ensures
        files_of(s).len() == count_files(s),
    decreases s.len(),
{
    if s.len() > 0 {
        lemma_files_of_len(s.drop_last());
    }
}

/// Compact the blocks by repeatedly moving the rightmost file block into
/// the leftmost gap, until the used prefix is solid.
pub fn compact_blocks_fragmented(blocks: &Vec<Block>) -> (r: Vec<Block>)
    ensures
        r@ == frag_compacted(blocks@),
{
    let s = blocks;
    // the file blocks in order, then reversed
    let mut files: Vec<Block> = Vec::new();
    let mut i: usize = 0;
    while i < s.len()
        invariant
            0 <= i <= s@.len(),
            files@ == files_of(s@.take(i as int)),
        decreases s@.len() - i,
    {
        proof {
            assert(s@.take(i + 1).drop_last() =~= s@.take(i as int));
            assert(s@.take(i + 1).last() == s@[i as int]);
        }
        match s[i] {
            Block::File(_) => {
                files.push(s[i]);
            },
            Block::Empty => {},
        }
        i = i + 1;
    }
    proof {
        assert(s@.take(s@.len() as int) =~= s@);
    }
    let mut files_rev: Vec<Block> = Vec::new();
    let mut k: usize = files.len();
    while k > 0
        invariant
            0 <= k <= files@.len(),
            files@ == files_of(s@),
            files_rev@.len() == files@.len() - k,
            forall|j: int|
                0 <= j < files_rev@.len() ==> #[trigger] files_rev@[j] == files@.reverse()[j],
        decreases k,
    {
        k = k - 1;
        files_rev.push(files[k]);
    }
    // count the files and fill
    let m = files.len();
    proof {
        lemma_files_of_len(s@);
    }
    let mut r: Vec<Block> = Vec::new();
    let mut ef: usize = 0;
    let mut i2: usize = 0;
    while i2 < s.len()
        invariant
            0 <= i2 <= s@.len(),
            m == count_files(s@),
            files@ == files_of(s@),
            files_rev@.len() == m,
            forall|j: int|
                0 <= j < files_rev@.len() ==> #[trigger] files_rev@[j] == files@.reverse()[j],
            ef == empties_before(s@, i2 as int),
            ef <= i2,
            r@.len() == i2,
            forall|j: int| 0 <= j < i2 ==> #[trigger] r@[j] == frag_compacted(s@)[j],
        decreases s@.len() - i2,
    {
        proof {
            assert(s@.take(i2 + 1).drop_last() =~= s@.take(i2 as int));
            assert(s@.take(i2 + 1).last() == s@[i2 as int]);
            lemma_count_files_take_le(s@, i2 as int);
            lemma_count_files_take_le(s@, i2 + 1);
        }
        if i2 >= m {
            r.push(Block::Empty);
        } else {
            match s[i2] {
                Block::File(_) => {
                    r.push(s[i2]);
                },
                Block::Empty => {
                    proof {
                        lemma_count_files_rest(s@, i2 as int);
                    }
                    r.push(files_rev[ef]);
                },
            }
        }
        match s[i2] {
            Block::File(_) => {},
            Block::Empty => {
                ef = ef + 1;
            },
        }
        i2 = i2 + 1;
    }
    r
}

/// The file count of a prefix is at most the prefix length.
proof fn lemma_count_files_le_len(s: Seq<Block>, i: int)
    requires
        0 <= i <= s.len(),
    ensures
        count_files(s.take(i)) <= i,
    decreases i,
{
    if i > 0 {
        lemma_count_files_le_len(s, i - 1);
        assert(s.take(i).drop_last() =~= s.take(i - 1));
    } else {
        assert(s.take(0) =~= Seq::<Block>::empty());
    }
}

/// The file count of a prefix is at most the whole count.
proof fn lemma_count_files_le_total(s: Seq<Block>, i: int)
    requires
        0 <= i <= s.len(),
    ensures
        count_files(s.take(i)) <= count_files(s),
    decreases s.len() - i,
{
    if i < s.len() {
        lemma_count_files_le_total(s, i + 1);
        assert(s.take(i + 1).drop_last() =~= s.take(i));
    } else {
        assert(s.take(i) =~= s);
    }
}

/// Both prefix bounds at once.
proof fn lemma_count_files_take_le(s: Seq<Block>, i: int)
    requires
        0 <= i <= s.len(),
    ensures
        count_files(s.take(i)) <= i,
        count_files(s.take(i)) <= count_files(s),
{
    lemma_count_files_le_len(s, i);
    lemma_count_files_le_total(s, i);
}

/// Left of the file cut, a gap has strictly fewer preceding gaps than the
/// total number of files.
proof fn lemma_count_files_rest(s: Seq<Block>, i: int)
    requires
        0 <= i < s.len(),
        i < count_files(s),
        !(s[i] is File),
    ensures
        empties_before(s, i) < count_files(s),
    decreases s.len(),
{
    lemma_count_files_take_le(s, i);
}

/// The checksum: the sum of index times file id over all file blocks.
pub open spec fn spec_checksum(s: Seq<Block>) -> int
    decreases s.len(),
{
    if s.len() == 0 {
        0
    } else {
        spec_checksum(s.drop_last()) + (if s.last() is File {
            (s.len() - 1) * (s.last()->0 as int)
        } else {
            0
        })
    }
}

proof fn lemma_checksum_nonneg(s: Seq<Block>, i: int)
    requires
        0 <= i <= s.len(),
    ensures
        0 <= spec_checksum(s.take(i)),
    decreases i,
{
    if i > 0 {
        lemma_checksum_nonneg(s, i - 1);
        assert(s.take(i).drop_last() =~= s.take(i - 1));
        assert(s.take(i).last() == s[i - 1]);
        if s[i - 1] is File {
            assert((i - 1) * (s[i - 1]->0 as int) >= 0) by (nonlinear_arith)
                requires
                    i - 1 >= 0,
                    s[i - 1]->0 as int >= 0,
            ;
        }
    } else {
        assert(s.take(0) =~= Seq::<Block>::empty());
    }
}

proof fn lemma_checksum_le_total(s: Seq<Block>, i: int)
    requires
        0 <= i <= s.len(),
    ensures
        spec_checksum(s.take(i)) <= spec_checksum(s),
    decreases s.len() - i,
{
    if i < s.len() {
        lemma_checksum_le_total(s, i + 1);
        assert(s.take(i + 1).drop_last() =~= s.take(i));
        assert(s.take(i + 1).last() == s[i]);
        if s[i] is File {
            assert(i * (s[i]->0 as int) >= 0) by (nonlinear_arith)
                requires
                    i >= 0,
                    s[i]->0 as int >= 0,
            ;
        }
    } else {
        assert(s.take(i) =~= s);
    }
}

proof fn lemma_checksum_take_le(s: Seq<Block>, i: int)
    requires
        0 <= i <= s.len(),
    ensures
        0 <= spec_checksum(s.take(i)) <= spec_checksum(s),
{
    lemma_checksum_nonneg(s, i);
    lemma_checksum_le_total(s, i);
}

/// Sum index times file id over the compacted blocks.
pub fn checksum(compacted: &Vec<Block>) -> (r: usize)
    requires
        spec_checksum(compacted@) <= usize::MAX,
    ensures
        r == spec_checksum(compacted@),
{
    let mut r: usize = 0;
    let mut i: usize = 0;
    while i < compacted.len()
        invariant
            0 <= i <= compacted@.len(),
            spec_checksum(compacted@) <= usize::MAX,
            r == spec_checksum(compacted@.take(i as int)),
        decreases compacted@.len() - i,
    {
        proof {
            assert(compacted@.take(i + 1).drop_last() =~= compacted@.take(i as int));
            assert(compacted@.take(i + 1).last() == compacted@[i as int]);
            lemma_checksum_take_le(compacted@, i + 1);
            lemma_checksum_take_le(compacted@, i as int);
        }
        match compacted[i] {
            Block::Empty => {},
            Block::File(fid) => {
                proof {
                    assert(spec_checksum(compacted@.take(i + 1)) == spec_checksum(
                        compacted@.take(i as int),
                    ) + i * (fid as int));
                    assert(i * (fid as int) >= 0) by (nonlinear_arith)
                        requires
                            i >= 0,
                            fid >= 0,
                    ;
                }
                r = r + i * fid;
            },
        }
        i = i + 1;
    }
    proof {
        assert(compacted@.take(compacted@.len() as int) =~= compacted@);
    }
    r
}

} // verus!

verus! {

/// Index of the last file block at or below j; -1 when none.
pub open spec fn last_file_at(s: Seq<Block>, j: int) -> int
    decreases j + 1,
{
    if j < 0 {
        -1
    } else if 0 <= j < s.len() && s[j] is File {
        j
    } else {
        last_file_at(s, j - 1)
    }
}

/// Length of the run of File(fid) blocks ending at j, counted downwards.
pub open spec fn run_length(s: Seq<Block>, j: int, fid: usize) -> int
    decreases j + 1,
{
    if j < 0 || !(0 <= j < s.len() && s[j] == Block::File(fid)) {
        0
    } else {
        1 + run_length(s, j - 1, fid)
    }
}

/// Length of the gap run starting at i, counted upwards.
pub open spec fn gap_run(s: Seq<Block>, i: int) -> int
    decreases s.len() - i,
{
    if i < 0 || i >= s.len() || !(s[i] is Empty) {
        0
    } else {
        1 + gap_run(s, i + 1)
    }
}

/// First index in [i, j) whose gap run fits req blocks; j when none.
pub open spec fn first_fit(s: Seq<Block>, i: int, j: int, req: int) -> int
    decreases j - i,
{
    if i >= j {
        j
    } else if 0 <= i < s.len() && s[i] is Empty && gap_run(s, i) >= req {
        i
    } else {
        first_fit(s, i + 1, j, req)
    }
}

/// The layout after moving the file run ending at j2 into the gap at fi.
pub open spec fn moved(s: Seq<Block>, fi: int, j2: int, req: int, fid: usize) -> Seq<Block> {
    Seq::new(
        s.len(),
        |k: int|
            if fi <= k < fi + req {
                Block::File(fid)
            } else if j2 - req + 1 <= k <= j2 {
                Block::Empty
            } else {
                s[k]
            },
    )
}

/// One whole-file compaction pass working right to left from position j.
pub open spec fn whole_pass(s: Seq<Block>, j: int) -> Seq<Block>
    decreases (if j >= 0 {
        j
    } else {
        0
    }),
{
    if j <= 0 || j >= s.len() {
        s
    } else {
        let j2r = last_file_at(s, j);
        let j2 = if j2r > j {
            j
        } else {
            j2r
        };
        if j2 <= 0 {
            s
        } else {
            let fid = s[j2]->0;
            let reqr = run_length(s, j2, fid);
            let req = if reqr < 1 {
                1
            } else {
                reqr
            };
            if j2 + 1 - req == 0 {
                s
            } else {
                let nj = if j2 - req > 0 {
                    j2 - req
                } else {
                    0
                };
                let fi = first_fit(s, 0, j2, req);
                if fi == j2 {
                    whole_pass(s, nj)
                } else {
                    whole_pass(moved(s, fi, j2, req, fid), nj)
                }
            }
        }
    }
}

/// The fully compacted layout, moving whole files leftward at most once.
pub open spec fn whole_compacted(s: Seq<Block>) -> Seq<Block> {
    if s.len() == 0 {
        s
    } else {
        whole_pass(s, s.len() - 1)
    }
}

proof fn lemma_last_file_scan(s: Seq<Block>, j: int, j2: int)
    requires
        0 <= j2 <= j < s.len(),
        forall|t: int| j2 < t <= j ==> !(s[t] is File),
        s[j2] is File,
    ensures
        last_file_at(s, j) == j2,
    decreases j - j2,
{
    if j > j2 {
        lemma_last_file_scan(s, j - 1, j2);
    }
}

proof fn lemma_no_file_scan(s: Seq<Block>, j: int)
    requires
        j < s.len(),
        forall|t: int| 0 <= t <= j ==> !(s[t] is File),
    ensures
        last_file_at(s, j) <= 0,
    decreases j + 1,
{
    if j >= 0 {
        lemma_no_file_scan(s, j - 1);
    }
}

proof fn lemma_run_scan(s: Seq<Block>, j2: int, fid: usize, req: int)
    requires
        0 <= j2 < s.len(),
        1 <= req <= j2 + 1,
        forall|t: int| 0 <= t < req ==> #[trigger] s[j2 - t] == Block::File(fid),
        j2 - req >= 0 ==> s[j2 - req] != Block::File(fid),
    ensures
        run_length(s, j2, fid) == req,
    decreases req,
{
    if req == 1 {
        assert(s[j2 - 0] == Block::File(fid));
        assert(run_length(s, j2 - 1, fid) == 0);
        assert(run_length(s, j2, fid) == 1 + run_length(s, j2 - 1, fid));
    } else {
        assert forall|t: int| 0 <= t < req - 1 implies #[trigger] s[(j2 - 1) - t] == Block::File(
            fid,
        ) by {
            assert(s[j2 - (t + 1)] == Block::File(fid));
        }
        lemma_run_scan(s, j2 - 1, fid, req - 1);
        assert(s[j2 - 0] == Block::File(fid));
        assert(run_length(s, j2, fid) == 1 + run_length(s, j2 - 1, fid));
    }
}

proof fn lemma_gap_scan(s: Seq<Block>, i: int, avail: int)
    requires
        0 <= i,
        i + avail <= s.len(),
        0 <= avail,
        forall|t: int| 0 <= t < avail ==> (#[trigger] s[i + t]) is Empty,
        i + avail < s.len() ==> !(s[i + avail] is Empty),
    ensures
        gap_run(s, i) == avail,
    decreases avail,
{
    if avail == 0 {
    } else {
        assert(s[i + 0] is Empty);
        assert forall|t: int| 0 <= t < avail - 1 implies (#[trigger] s[(i + 1) + t]) is Empty by {
            assert(s[i + (t + 1)] is Empty);
        }
        lemma_gap_scan(s, i + 1, avail - 1);
    }
}

proof fn lemma_fit_scan(s: Seq<Block>, a: int, i: int, j: int, req: int)
    requires
        0 <= a <= i <= j,
        forall|t: int| a <= t < i ==> !(0 <= t < s.len() && s[t] is Empty && gap_run(s, t) >= req),
        i < j ==> 0 <= i < s.len() && s[i] is Empty && gap_run(s, i) >= req,
    ensures
        first_fit(s, a, j, req) == (if i < j {
            i
        } else {
            j
        }),
    decreases i - a,
{
    if a < i {
        lemma_fit_scan(s, a + 1, i, j, req);
    }
}

proof fn lemma_gap_covers(s: Seq<Block>, i: int, t: int)
    requires
        0 <= i,
        0 <= t < gap_run(s, i),
    ensures
        i + t < s.len() && s[i + t] is Empty,
    decreases t,
{
    if t > 0 {
        lemma_gap_covers(s, i + 1, t - 1);
        assert(s[(i + 1) + (t - 1)] is Empty);
    }
}

/// Compact the blocks file by file: each file, taken from the right, is
/// moved to the leftmost gap run that fits it, if one exists to its left.
pub fn compact_blocks_whole(blocks: &Vec<Block>) -> (r: Vec<Block>)
    ensures
        r@ == whole_compacted(blocks@),
{
    let mut result: Vec<Block> = Vec::new();
    let mut ci: usize = 0;
    while ci < blocks.len()
        invariant
            0 <= ci <= blocks@.len(),
            result@ == blocks@.take(ci as int),
        decreases blocks@.len() - ci,
    {
        result.push(blocks[ci]);
        proof {
            assert(blocks@.take(ci + 1) =~= blocks@.take(ci as int).push(blocks@[ci as int]));
        }
        ci = ci + 1;
    }
    proof {
        assert(blocks@.take(blocks@.len() as int) =~= blocks@);
    }
    if blocks.len() == 0 {
        return result;
    }
    let blen = blocks.len();
    let ghost target = whole_compacted(blocks@);
    let mut j: usize = blocks.len() - 1;
    proof {
        assert(whole_pass(result@, j as int) == target);
    }
    while j > 0
        invariant
            result@.len() == blocks@.len(),
            blocks@.len() > 0,
            0 <= j < result@.len(),
            whole_pass(result@, j as int) == target,
            target == whole_compacted(blocks@),
            blocks@.len() == blen,
        decreases j,
    {
        // find the rightmost file block at or below j
        let mut j2: usize = j;
        loop
            invariant
                0 <= j2 <= j < result@.len(),
                result@.len() == blocks@.len(),
                blocks@.len() > 0,
                whole_pass(result@, j as int) == target,
                forall|t: int| j2 < t <= j ==> !(#[trigger] result@[t] is File),
            ensures
                0 <= j2 <= j < result@.len(),
                result@.len() == blocks@.len(),
                forall|t: int| j2 < t <= j ==> !(#[trigger] result@[t] is File),
                result@[j2 as int] is File || (j2 == 0 && !(result@[0] is File)),
            decreases j2,
        {
            match result[j2] {
                Block::File(_) => {
                    break ;
                },
                Block::Empty => {},
            }
            if j2 == 0 {
                break ;
            }
            j2 = j2 - 1;
        }
        match result[j2] {
            Block::Empty => {
                // no file block at all below j: the pass changes nothing
                proof {
                    lemma_no_file_scan(result@, j as int);
                    assert(whole_pass(result@, j as int) == result@);
                }
                return result;
            },
            Block::File(_) => {},
        }
        proof {
            lemma_last_file_scan(result@, j as int, j2 as int);
        }
        if j2 == 0 {
            proof {
                assert(whole_pass(result@, j as int) == result@);
            }
            return result;
        }
        let fid: usize = match result[j2] {
            Block::File(f) => f,
            Block::Empty => 0,
        };
        // measure the file run ending at j2
        let mut req: usize = 1;
        while j2 >= req && result[j2 - req] == Block::File(fid)
            invariant
                0 < j2 < result@.len(),
                result@.len() == blocks@.len(),
                blocks@.len() == blen,
                whole_pass(result@, j as int) == target,
                0 < j < result@.len(),
                j2 <= j,
                last_file_at(result@, j as int) == j2,
                1 <= req <= j2 + 1,
                result@[j2 as int] == Block::File(fid),
                forall|t: int| 0 <= t < req ==> #[trigger] result@[j2 - t] == Block::File(fid),
            decreases j2 + 1 - req,
        {
            req = req + 1;
        }
        proof {
            lemma_run_scan(result@, j2 as int, fid, req as int);
        }
        if req > j2 {
            proof {
                assert(j2 + 1 - req == 0);
                assert(whole_pass(result@, j as int) == result@);
            }
            return result;
        }
        // search for the leftmost gap run that fits
        let mut i: usize = 0;
        let mut fit: usize = j2;
        let mut found: bool = false;
        while i < j2 && !found
            invariant
                0 < j2 < result@.len(),
                0 <= i <= j2,
                result@[j2 as int] == Block::File(fid),
                !found ==> fit == j2 && forall|t: int|
                    0 <= t < i ==> !(#[trigger] result@[t] is Empty && gap_run(result@, t)
                        >= req),
                found ==> fit < j2 && result@[fit as int] is Empty && gap_run(
                    result@,
                    fit as int,
                ) >= req && forall|t: int|
                    0 <= t < fit ==> !(#[trigger] result@[t] is Empty && gap_run(result@, t)
                        >= req),
            decreases (j2 - i) * 2 + (if found {
                0int
            } else {
                1int
            }),
        {
            match result[i] {
                Block::File(_) => {},
                Block::Empty => {
                    let mut avail: usize = 0;
                    while i + avail < j2 && result[i + avail] == Block::Empty
                        invariant
                            0 < j2 < result@.len(),
                            0 <= i < j2,
                            result@[j2 as int] == Block::File(fid),
                            result@[i as int] is Empty,
                            0 <= avail,
                            i + avail <= j2,
                            forall|t: int| 0 <= t < avail ==> #[trigger] result@[i + t] is Empty,
                        decreases j2 - i - avail,
                    {
                        avail = avail + 1;
                    }
                    proof {
                        if i + avail < j2 {
                            lemma_gap_scan(result@, i as int, avail as int);
                        } else {
                            assert(i + avail == j2);
                            assert(!(result@[i + avail] is Empty));
                            lemma_gap_scan(result@, i as int, avail as int);
                        }
                    }
                    if avail >= req {
                        fit = i;
                        found = true;
                    }
                },
            }
            if !found {
                i = i + 1;
            }
        }
        let nj: usize = j2 - req;
        if found {
            proof {
                lemma_fit_scan(result@, 0, fit as int, j2 as int, req as int);
                if fit > j2 - req + 1 {
                    assert(result@[j2 - (j2 - fit)] == Block::File(fid));
                    assert(result@[fit as int] is Empty);
                }
                assert(fit <= j2 - req + 1);
                if fit + req > j2 - req + 1 {
                    lemma_gap_covers(result@, fit as int, j2 - req + 1 - fit);
                    assert(result@[j2 - (req - 1)] == Block::File(fid));
                }
                assert(fit + req <= j2 - req + 1);
            }
            let ghost before = result@;
            // move the run into the gap
            let mut k: usize = 0;
            while k < req
                invariant
                    0 < j2 < before.len(),
                    result@.len() == before.len(),
                    fit + req <= j2 - req + 1,
                    1 <= req,
                    j2 + 1 - req > 0,
                    0 <= k <= req,
                    forall|t: int|
                        0 <= t < before.len() && !(fit <= t < fit + k) && !(j2 - k < t <= j2)
                            ==> #[trigger] result@[t] == before[t],
                    forall|t: int| fit <= t < fit + k ==> #[trigger] result@[t] == Block::File(fid),
                    forall|t: int| j2 - k < t <= j2 ==> #[trigger] result@[t] == Block::Empty,
                decreases req - k,
            {
                result.set(fit + k, Block::File(fid));
                result.set(j2 - k, Block::Empty);
                k = k + 1;
            }
            proof {
                assert(result@ =~= moved(before, fit as int, j2 as int, req as int, fid));
                assert(whole_pass(before, j as int) == whole_pass(result@, nj as int));
            }
        } else {
            proof {
                lemma_fit_scan(result@, 0, j2 as int, j2 as int, req as int);
                assert(first_fit(result@, 0, j2 as int, req as int) == j2);
                assert(whole_pass(result@, j as int) == whole_pass(result@, nj as int));
            }
        }
        j = nj;
        if j == 0 {
            proof {
                assert(whole_pass(result@, 0) == result@);
            }
            return result;
        }
    }
    proof {
        assert(whole_pass(result@, j as int) == result@);
    }
    result
}

} // verus!
