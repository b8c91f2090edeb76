//! Lock and key silhouettes: column heights parsed from hash grids, and
//! the count of key/lock pairs that fit without overlap.

use vstd::prelude::*;
use crate::text::{chars_of, line_seqs, trim, trimmed};

verus! {

broadcast use vstd::seq_lib::group_seq_properties;

/// Column heights of a lock silhouette.
#[derive(Debug, Clone, PartialEq, Eq)]
pub struct Lock(pub Vec<i64>);

/// Column heights of a key silhouette.
#[derive(Debug, Clone, PartialEq, Eq)]
pub struct Key(pub Vec<i64>);

/// A parsed silhouette of either kind.
#[derive(Debug, Clone, PartialEq, Eq)]
pub enum KeyOrLock {
    Lock(Lock),
    Key(Key),
}

/// Number of lines whose column i holds a hash.
pub open spec fn col_count(lines: Seq<Seq<char>>, i: int) -> int
    decreases lines.len(),
{
    if lines.len() == 0 {
        0
    } else {
        col_count(lines.drop_last(), i) + (if 0 <= i < lines.last().len() && lines.last()[i]
            == '#' {
            1int
        } else {
            0int
        })
    }
}

/// The widest line.
pub open spec fn max_width(lines: Seq<Seq<char>>) -> int
    decreases lines.len(),
{
    if lines.len() == 0 {
        0
    } else {
        let w = max_width(lines.drop_last());
        if lines.last().len() > w {
            lines.last().len() as int
        } else {
            w
        }
    }
}

/// A line made only of hashes.
pub open spec fn all_hashes(l: Seq<char>) -> bool {
    forall|i: int| 0 <= i < l.len() ==> l[i] == '#'
}

/// The column heights of a run of lines.
pub open spec fn heights_of(lines: Seq<Seq<char>>) -> Seq<int> {
    Seq::new(max_width(lines) as nat, |i: int| col_count(lines, i))
}

/// What parse yields: a silhouette whose first line decides the kind, the
/// heights counted over the remaining lines (for the hash-topped kind) or
/// over all but the last line (otherwise).
pub open spec fn spec_parse_silhouette(s: Seq<char>) -> Option<(bool, Seq<int>)> {
    let lines = line_seqs(trimmed(s));
    if lines.len() == 0 {
        None
    } else if all_hashes(lines[0]) {
        Some((true, heights_of(lines.drop_first())))
    } else {
        Some((false, heights_of(lines.take(lines.len() - 1))))
    }
}

impl KeyOrLock {
    /// Parse a silhouette.  A hash-topped grid is a Lock, anything else a
    /// Key; None when the text holds no lines at all.
    pub fn parse(input: &str) -> (r: Option<KeyOrLock>)
        requires
            input@.len() < 0x4000000000000000,
        ensures
            match r {
                Some(KeyOrLock::Lock(l)) => spec_parse_silhouette(input@) == Some(
                    (true, l.0@.map_values(|v: i64| v as int)),
                ),
                Some(KeyOrLock::Key(k)) => spec_parse_silhouette(input@) == Some(
                    (false, k.0@.map_values(|v: i64| v as int)),
                ),
                None => spec_parse_silhouette(input@) is None,
            },
    {
        let cs = chars_of(input);
        let t = trim(&cs);
        let lines = crate::text::split_lines(&t);
        if lines.len() == 0 {
            return None;
        }
        let ghost glines = line_seqs(trimmed(input@));
        proof {
            assert(glines.len() == lines@.len());
            assert(glines[0] == lines@.map_values(|l: Vec<char>| l@)[0]);
            crate::text::lemma_trimmed_len(input@);
            crate::text::lemma_line_count(trimmed(input@));
            assert(glines.len() < 0x4000000000000000);
        }
        // check the first line
        let first = &lines[0];
        let mut is_key_shape: bool = true;
        let mut ci: usize = 0;
        while ci < first.len()
            invariant
                first@ == glines[0],
                glines.len() > 0,
                0 <= ci <= first@.len(),
                is_key_shape == (forall|x: int| 0 <= x < ci ==> first@[x] == '#'),
            decreases first@.len() - ci,
        {
            if first[ci] != '#' {
                is_key_shape = false;
            }
            ci = ci + 1;
        }
        proof {
            assert(is_key_shape == all_hashes(glines[0]));
        }
        // count hashes per column over the relevant lines
        let (lo, hi): (usize, usize) = if is_key_shape {
            (1, lines.len())
        } else {
            (0, lines.len() - 1)
        };
        let ghost sel = if is_key_shape {
            glines.drop_first()
        } else {
            glines.take(glines.len() - 1)
        };
        proof {
            assert(sel.len() == hi - lo);
            assert forall|x: int| 0 <= x < sel.len() implies #[trigger] sel[x] == lines@.map_values(
                |l: Vec<char>| l@,
            )[lo + x] by {
            }
        }
        let mut values: Vec<i64> = Vec::new();
        let mut li: usize = lo;
        while li < hi
            invariant
                lo <= li <= hi <= lines@.len(),
                sel.len() == hi - lo,
                forall|x: int|
                    0 <= x < sel.len() ==> #[trigger] sel[x] == lines@.map_values(
                        |l: Vec<char>| l@,
                    )[lo + x],
                values@.len() == max_width(sel.take(li - lo)),
                forall|x: int|
                    0 <= x < values@.len() ==> #[trigger] values@[x] == col_count(
                        sel.take(li - lo),
                        x,
                    ),
                hi <= 0x4000000000000000,
                forall|x: int| 0 <= x < values@.len() ==> 0 <= #[trigger] values@[x] <= li - lo,
            decreases hi - li,
        {
            let line = &lines[li];
            let ghost pre = sel.take(li - lo);
            let ghost cur = line@;
            proof {
                assert(sel.take(li - lo + 1).drop_last() =~= pre);
                assert(sel.take(li - lo + 1).last() == sel[li - lo]);
                assert(sel[li - lo] == cur);
            }
            let ghost vals0 = values@;
            let mut x: usize = 0;
            while x < line.len()
                invariant
                    cur == line@,
                    vals0.len() == max_width(pre),
                    forall|y: int| 0 <= y < vals0.len() ==> #[trigger] vals0[y] == col_count(pre, y),
                    forall|y: int| 0 <= y < vals0.len() ==> 0 <= #[trigger] vals0[y] <= li - lo,
                    lo <= li < hi <= lines@.len(),
                    hi <= 0x4000000000000000,
                    0 <= x <= line@.len(),
                    values@.len() == (if x as int > vals0.len() as int {
                        x as int
                    } else {
                        vals0.len() as int
                    }),
                    forall|y: int|
                        0 <= y < values@.len() ==> #[trigger] values@[y] == (if y < vals0.len() {
                            vals0[y]
                        } else {
                            0
                        }) + (if y < x && 0 <= y < cur.len() && cur[y] == '#' {
                            1int
                        } else {
                            0int
                        }),
                    forall|y: int|
                        0 <= y < values@.len() ==> 0 <= #[trigger] values@[y] <= li - lo + 1,
                decreases line@.len() - x,
            {
                if x >= values.len() {
                    values.push(0);
                }
                if line[x] == '#' {
                    let v = values[x];
                    values.set(x, v + 1);
                }
                x = x + 1;
            }
            proof {
                let post = sel.take(li - lo + 1);
                assert(max_width(post) == (if cur.len() > max_width(pre) {
                    cur.len() as int
                } else {
                    max_width(pre)
                }));
                assert forall|y: int| 0 <= y < values@.len() implies #[trigger] values@[y]
                    == col_count(post, y) by {
                    assert(col_count(post, y) == col_count(pre, y) + (if 0 <= y < cur.len()
                        && cur[y] == '#' {
                        1int
                    } else {
                        0int
                    }));
                    if y >= vals0.len() {
                        lemma_col_count_beyond(pre, y);
                    }
                }
            }
            li = li + 1;
        }
        proof {
            assert(sel.take(hi - lo) =~= sel);
            assert(values@.map_values(|v: i64| v as int) =~= heights_of(sel));
        }
        if is_key_shape {
            Some(KeyOrLock::Lock(Lock(values)))
        } else {
            Some(KeyOrLock::Key(Key(values)))
        }
    }
}

/// Columns beyond every line are empty.
proof fn lemma_col_count_beyond(lines: Seq<Seq<char>>, i: int)
    requires
        i >= max_width(lines),
    ensures
        col_count(lines, i) == 0,
    decreases lines.len(),
{
    if lines.len() > 0 {
        lemma_col_count_beyond(lines.drop_last(), i);
    }
}

/// The keys among the parsed silhouettes, in order.
pub open spec fn keys_of(input: Seq<KeyOrLock>) -> Seq<Seq<i64>>
    decreases input.len(),
{
    if input.len() == 0 {
        Seq::empty()
    } else {
        let rest = keys_of(input.drop_last());
        match input.last() {
            KeyOrLock::Key(k) => rest.push(k.0@),
            KeyOrLock::Lock(_) => rest,
        }
    }
}

/// The locks among the parsed silhouettes, in order.
pub open spec fn locks_of(input: Seq<KeyOrLock>) -> Seq<Seq<i64>>
    decreases input.len(),
{
    if input.len() == 0 {
        Seq::empty()
    } else {
        let rest = locks_of(input.drop_last());
        match input.last() {
            KeyOrLock::Lock(l) => rest.push(l.0@),
            KeyOrLock::Key(_) => rest,
        }
    }
}

/// The tallest pin over all keys.
pub open spec fn max_pin(keys: Seq<Seq<i64>>) -> int
    decreases keys.len(),
{
    if keys.len() == 0 {
        -0x8000000000000000
    } else {
        let w = max_pin(keys.drop_last());
        let m = seq_max(keys.last());
        if m > w {
            m
        } else {
            w
        }
    }
}

pub open spec fn seq_max(s: Seq<i64>) -> int
    decreases s.len(),
{
    if s.len() == 0 {
        -0x8000000000000000
    } else {
        let w = seq_max(s.drop_last());
        if s.last() > w {
            s.last() as int
        } else {
            w
        }
    }
}

/// The larger of two values.
pub open spec fn imax(a: int, b: int) -> int {
    if a > b {
        a
    } else {
        b
    }
}

/// A key fits a lock when no column overlaps past the target height.
pub open spec fn fits(k: Seq<i64>, l: Seq<i64>, target: int) -> bool {
    forall|i: int| 0 <= i < k.len() ==> k[i] + #[trigger] l[i] <= target
}

/// Number of fitting key/lock pairs.
pub open spec fn count_fits(
    keys: Seq<Seq<i64>>,
    locks: Seq<Seq<i64>>,
    target: int,
) -> int
    decreases keys.len(),
{
    if keys.len() == 0 {
        0
    } else {
        count_fits(keys.drop_last(), locks, target) + count_fits_one(keys.last(), locks, target)
    }
}

pub open spec fn count_fits_one(k: Seq<i64>, locks: Seq<Seq<i64>>, target: int) -> int
    decreases locks.len(),
{
    if locks.len() == 0 {
        0
    } else {
        count_fits_one(k, locks.drop_last(), target) + (if fits(k, locks.last(), target) {
            1int
        } else {
            0int
        })
    }
}

} // verus!

verus! {

/// Count the key/lock pairs that fit: no column of a key plus the same
/// column of a lock may exceed the tallest key pin.
#[verifier::rlimit(100)]
pub fn count_combinations(input: &Vec<KeyOrLock>) -> (r: usize)
    requires
        exists|i: int|
            0 <= i < keys_of(input@).len() && (#[trigger] keys_of(input@)[i]).len() > 0,
        forall|i: int, j: int|
            0 <= i < keys_of(input@).len() && 0 <= j < locks_of(input@).len() ==> (
            #[trigger] keys_of(input@)[i]).len() <= (#[trigger] locks_of(input@)[j]).len(),
        input@.len() < 65536,
    ensures
        r == count_fits(keys_of(input@), locks_of(input@), max_pin(keys_of(input@))),
{
    let ghost gkeys = keys_of(input@);
    let ghost glocks = locks_of(input@);
    let mut keys: Vec<Vec<i64>> = Vec::new();
    let mut locks: Vec<Vec<i64>> = Vec::new();
    let mut i: usize = 0;
    while i < input.len()
        invariant
            0 <= i <= input@.len(),
            keys@.map_values(|k: Vec<i64>| k@) == keys_of(input@.take(i as int)),
            locks@.map_values(|k: Vec<i64>| k@) == locks_of(input@.take(i as int)),
        decreases input@.len() - i,
    {
        proof {
            assert(input@.take(i + 1).drop_last() =~= input@.take(i as int));
            assert(input@.take(i + 1).last() == input@[i as int]);
        }
        match &input[i] {
            KeyOrLock::Key(k) => {
                let kc = copy_heights(&k.0);
                keys.push(kc);
                proof {
                    assert(keys@.map_values(|k2: Vec<i64>| k2@) =~= keys_of(input@.take(i + 1)));
                }
            },
            KeyOrLock::Lock(l) => {
                let lc = copy_heights(&l.0);
                locks.push(lc);
                proof {
                    assert(locks@.map_values(|k2: Vec<i64>| k2@) =~= locks_of(
                        input@.take(i + 1),
                    ));
                }
            },
        }
        i = i + 1;
    }
    proof {
        assert(input@.take(input@.len() as int) =~= input@);
        assert(keys@.map_values(|k: Vec<i64>| k@) == gkeys);
        assert(locks@.map_values(|k: Vec<i64>| k@) == glocks);
        assert(keys@.len() == gkeys.len() && locks@.len() == glocks.len());
        lemma_filtered_counts(input@);
    }
    // the tallest pin over all keys
    let mut target: i64 = i64::MIN;
    let mut ki: usize = 0;
    while ki < keys.len()
        invariant
            0 <= ki <= keys@.len(),
            keys@.map_values(|k: Vec<i64>| k@) == gkeys,
            keys@.len() == gkeys.len(),
            target as int == max_pin(gkeys.take(ki as int)),
        decreases keys@.len() - ki,
    {
        proof {
            assert(gkeys.take(ki + 1).drop_last() =~= gkeys.take(ki as int));
            assert(gkeys.take(ki + 1).last() == gkeys[ki as int]);
            assert(keys@[ki as int]@ == gkeys[ki as int]);
        }
        let row = &keys[ki];
        let mut x: usize = 0;
        let ghost row_seq = keys@[ki as int]@;
        while x < row.len()
            invariant
                row@ == row_seq,
                0 <= x <= row@.len(),
                keys@.len() == gkeys.len(),
                keys@.map_values(|k: Vec<i64>| k@) == gkeys,
                0 <= ki < gkeys.len(),
                row_seq == gkeys[ki as int],
                target as int == imax(
                    max_pin(gkeys.take(ki as int)),
                    seq_max(row_seq.take(x as int)),
                ),
            decreases row@.len() - x,
        {
            proof {
                assert(row_seq.take(x + 1).drop_last() =~= row_seq.take(x as int));
                assert(row_seq.take(x + 1).last() == row_seq[x as int]);
            }
            if row[x] > target {
                target = row[x];
            }
            x = x + 1;
        }
        proof {
            assert(row_seq.take(row_seq.len() as int) =~= row_seq);
        }
        ki = ki + 1;
    }
    proof {
        assert(gkeys.take(gkeys.len() as int) =~= gkeys);
    }
    // count fitting pairs
    let mut count: usize = 0;
    let mut a: usize = 0;
    while a < keys.len()
        invariant
            0 <= a <= keys@.len(),
            keys@.map_values(|k: Vec<i64>| k@) == gkeys,
            locks@.map_values(|k: Vec<i64>| k@) == glocks,
            keys@.len() == gkeys.len(),
            locks@.len() == glocks.len(),
            gkeys.len() < 65536,
            glocks.len() < 65536,
            forall|i2: int, j2: int|
                0 <= i2 < gkeys.len() && 0 <= j2 < glocks.len() ==> (#[trigger] gkeys[i2]).len()
                    <= (#[trigger] glocks[j2]).len(),
            target as int == max_pin(gkeys),
            count == count_fits(gkeys.take(a as int), glocks, target as int),
            count <= a * 65536,
        decreases keys@.len() - a,
    {
        proof {
            assert(gkeys.take(a + 1).drop_last() =~= gkeys.take(a as int));
            assert(gkeys.take(a + 1).last() == gkeys[a as int]);
            assert(keys@[a as int]@ == gkeys[a as int]);
        }
        let mut b: usize = 0;
        let ghost krow = gkeys[a as int];
        let mut sub: usize = 0;
        while b < locks.len()
            invariant
                0 <= b <= locks@.len(),
                keys@.map_values(|k: Vec<i64>| k@) == gkeys,
                locks@.map_values(|k: Vec<i64>| k@) == glocks,
                keys@.len() == gkeys.len(),
                locks@.len() == glocks.len(),
                glocks.len() < 65536,
                0 <= a < gkeys.len(),
                krow == gkeys[a as int],
                krow == keys@[a as int]@,
                forall|j2: int|
                    0 <= j2 < glocks.len() ==> krow.len() <= (#[trigger] glocks[j2]).len(),
                sub == count_fits_one(krow, glocks.take(b as int), target as int),
                sub <= b,
            decreases locks@.len() - b,
        {
            proof {
                assert(glocks.take(b + 1).drop_last() =~= glocks.take(b as int));
                assert(glocks.take(b + 1).last() == glocks[b as int]);
                assert(locks@[b as int]@ == glocks[b as int]);
            }
            let lrow = &locks[b];
            let ghost lseq = glocks[b as int];
            let key_row = &keys[a];
            let mut ok: bool = true;
            let mut x: usize = 0;
            while x < key_row.len()
                invariant
                    krow == key_row@,
                    lseq == lrow@,
                    krow.len() <= lseq.len(),
                    0 <= x <= krow.len(),
                    ok == (forall|t: int|
                        0 <= t < x ==> krow[t] + #[trigger] lseq[t] <= target as int),
                decreases krow.len() - x,
            {
                if (key_row[x] as i128) + (lrow[x] as i128) > target as i128 {
                    ok = false;
                }
                x = x + 1;
            }
            proof {
                assert(ok == fits(krow, lseq, target as int));
            }
            if ok {
                sub = sub + 1;
            }
            b = b + 1;
        }
        proof {
            assert(glocks.take(glocks.len() as int) =~= glocks);
        }
        count = count + sub;
        a = a + 1;
        proof {
            assert(count <= a * 65536) by (nonlinear_arith)
                requires
                    count <= (a - 1) * 65536 + sub,
                    sub <= 65536,
                    a >= 1,
            ;
        }
    }
    proof {
        assert(gkeys.take(gkeys.len() as int) =~= gkeys);
    }
    count
}

/// Copy of one height row.
fn copy_heights(v: &Vec<i64>) -> (r: Vec<i64>)
    ensures
        r@ == v@,
{
    let mut r: Vec<i64> = Vec::new();
    let mut i: usize = 0;
    while i < v.len()
        invariant
            0 <= i <= v@.len(),
            r@ == v@.take(i as int),
        decreases v@.len() - i,
    {
        r.push(v[i]);
        proof {
            assert(v@.take(i + 1) =~= v@.take(i as int).push(v@[i as int]));
        }
        i = i + 1;
    }
    proof {
        assert(v@.take(v@.len() as int) =~= v@);
    }
    r
}

/// There are no more keys or locks than parsed silhouettes.
proof fn lemma_filtered_counts(input: Seq<KeyOrLock>)
    ensures
        keys_of(input).len() <= input.len(),
        locks_of(input).len() <= input.len(),
    decreases input.len(),
{
    if input.len() > 0 {
        lemma_filtered_counts(input.drop_last());
    }
}



proof fn lemma_seq_max_lb(s: Seq<i64>)
    ensures
        seq_max(s) >= -0x8000000000000000,
    decreases s.len(),
{
    if s.len() > 0 {
        lemma_seq_max_lb(s.drop_last());
    }
}


} // verus!
