//! Word search: counting a word (and its reverse) along the rows, columns
//! and diagonals of a letter grid, and crossed diagonal matches.

use vstd::prelude::*;
use crate::text::{chars_of, line_seqs};

verus! {

broadcast use vstd::seq_lib::group_seq_properties;

/// One scanning step of the incremental matcher: how far the forward and
/// backward matches reach after reading c, and how many full matches the
/// step completes.
pub open spec fn scan_step(w: Seq<char>, m: nat, mr: nat, c: char) -> (nat, nat, int) {
    let m1: nat = if m < w.len() && c == w[m as int] {
        m + 1
    } else if c == w[0] {
        1nat
    } else {
        0nat
    };
    let hit1: int = if m1 == w.len() {
        1
    } else {
        0
    };
    let m2: nat = if m1 == w.len() {
        0nat
    } else {
        m1
    };
    let mr1: nat = if c == w[w.len() - 1 - mr] {
        mr + 1
    } else if c == w[w.len() - 1] {
        1nat
    } else {
        0nat
    };
    let hit2: int = if mr1 == w.len() {
        1
    } else {
        0
    };
    let mr2: nat = if mr1 == w.len() {
        0nat
    } else {
        mr1
    };
    (m2, mr2, hit1 + hit2)
}

/// The matcher folded over a character run.
pub open spec fn scan_fold(w: Seq<char>, cs: Seq<char>, i: int, m: nat, mr: nat, acc: int) -> int
    decreases cs.len() - i,
{
    if i < 0 || i >= cs.len() {
        acc
    } else {
        let s = scan_step(w, m, mr, cs[i]);
        scan_fold(w, cs, i + 1, s.0, s.1, acc + s.2)
    }
}

/// Occurrences of the word, forwards or backwards, found by one
/// incremental scan of a character run.
pub open spec fn spec_scan_count(cs: Seq<char>, w: Seq<char>) -> int {
    scan_fold(w, cs, 0, 0, 0, 0)
}

/// Count occurrences of the word, forwards and backwards, in one run of
/// characters.
pub fn count_word_occurences_in_iter(chars: &Vec<char>, word: &Vec<char>) -> (r: usize)
    requires
        word@.len() > 0,
        chars@.len() < 0x40000000,
    ensures
        r == spec_scan_count(chars@, word@),
{
    let w = word.len();
    let mut m: usize = 0;
    let mut mr: usize = 0;
    let mut acc: usize = 0;
    let mut i: usize = 0;
    while i < chars.len()
        invariant
            w == word@.len(),
            w > 0,
            chars@.len() < 0x40000000,
            0 <= i <= chars@.len(),
            m < w,
            mr < w,
            acc <= 2 * i,
            spec_scan_count(chars@, word@) == scan_fold(
                word@,
                chars@,
                i as int,
                m as nat,
                mr as nat,
                acc as int,
            ),
        decreases chars@.len() - i,
    {
        let c = chars[i];
        let ghost s = scan_step(word@, m as nat, mr as nat, c);
        if m < w && c == word[m] {
            m = m + 1;
        } else if c == word[0] {
            m = 1;
        } else {
            m = 0;
        }
        if m == w {
            acc = acc + 1;
            m = 0;
        }
        if c == word[w - 1 - mr] {
            mr = mr + 1;
        } else if c == word[w - 1] {
            mr = 1;
        } else {
            mr = 0;
        }
        if mr == w {
            acc = acc + 1;
            mr = 0;
        }
        proof {
            assert(m as nat == s.0 && mr as nat == s.1);
        }
        i = i + 1;
    }
    acc
}

/// The four diagonal walking directions.
#[derive(Clone, Copy, PartialEq, Eq, Structural, Debug)]
pub enum DiagonalDirection {
    TopLeftToBottomRight,
    TopRightToBottomLeft,
    BottomLeftToTopRight,
    BottomRightToTopLeft,
}

/// A cursor walking one diagonal of a grid of characters stored row by
/// row.
pub struct DiagonalIter<'a> {
    pub chars: &'a Vec<char>,
    pub direction: DiagonalDirection,
    pub x: usize,
    pub y: usize,
    pub width: usize,
    pub height: usize,
    pub finished: bool,
}

/// The characters a diagonal cursor will still produce.
pub open spec fn diag_seq(
    cs: Seq<char>,
    d: DiagonalDirection,
    x: int,
    y: int,
    w: int,
    h: int,
    finished: bool,
) -> Seq<char>
    decreases (if x < 0 || y < 0 || x > w || y > h {
        0int
    } else {
        x + y + w - x + h - y + 1
    }), (if d is TopLeftToBottomRight {
        w - x + h - y
    } else if d is TopRightToBottomLeft {
        x + h - y + 1
    } else if d is BottomLeftToTopRight {
        w - x + y + 1
    } else {
        x + y + 2
    }),
{
    if finished || x < 0 || y < 0 || x >= w || y >= h {
        if finished {
            Seq::empty()
        } else {
            opt_char(cs, x, y, w)
        }
    } else {
        let cur = opt_char(cs, x, y, w);
        let at_end = (match d {
            DiagonalDirection::TopLeftToBottomRight => y == h - 1 || x == w - 1,
            DiagonalDirection::TopRightToBottomLeft => y == h - 1 || x == 0,
            DiagonalDirection::BottomLeftToTopRight => y == 0 || x == w - 1,
            DiagonalDirection::BottomRightToTopLeft => y == 0 || x == 0,
        });
        if at_end {
            cur
        } else if cur.len() == 0 {
            Seq::empty()
        } else {
            let nx = (match d {
                DiagonalDirection::TopLeftToBottomRight => x + 1,
                DiagonalDirection::BottomLeftToTopRight => x + 1,
                _ => x - 1,
            });
            let ny = (match d {
                DiagonalDirection::TopLeftToBottomRight => y + 1,
                DiagonalDirection::TopRightToBottomLeft => y + 1,
                _ => y - 1,
            });
            cur + diag_seq(cs, d, nx, ny, w, h, false)
        }
    }
}

/// The character at a grid position, when the backing run is long enough.
pub open spec fn opt_char(cs: Seq<char>, x: int, y: int, w: int) -> Seq<char> {
    if 0 <= x + y * w < cs.len() {
        seq![cs[x + y * w]]
    } else {
        Seq::empty()
    }
}

impl<'a> DiagonalIter<'a> {
    /// The sequence this cursor will still produce.
    pub open spec fn remaining(self) -> Seq<char> {
        diag_seq(
            self.chars@,
            self.direction,
            self.x as int,
            self.y as int,
            self.width as int,
            self.height as int,
            self.finished,
        )
    }

    /// Cursor coordinates stay small enough to index the run.
    pub open spec fn wf(self) -> bool {
        &&& self.width <= 32767
        &&& self.height <= 32767
        &&& self.x <= self.width
        &&& self.y <= self.height
    }

    pub fn new(
        chars: &'a Vec<char>,
        direction: DiagonalDirection,
        width: usize,
        height: usize,
        start_x: usize,
        start_y: usize,
    ) -> (r: DiagonalIter<'a>)
        requires
            width <= 32767,
            height <= 32767,
            start_x <= width,
            start_y <= height,
        ensures
            r.wf(),
            r.chars == chars,
            r.direction == direction,
            r.x == start_x,
            r.y == start_y,
            r.width == width,
            r.height == height,
            !r.finished,
    {
        DiagonalIter { chars, direction, x: start_x, y: start_y, width, height, finished: false }
    }

    /// Produce the next character on the diagonal, if any.
    pub fn next(&mut self) -> (r: Option<char>)
        requires
            old(self).wf(),
        ensures
            final(self).wf(),
            final(self).chars == old(self).chars,
            match r {
                Some(c) => old(self).remaining().len() > 0 && c == old(self).remaining()[0]
                    && final(self).remaining() == old(self).remaining().drop_first(),
                None => old(self).remaining().len() == 0,
            },
    {
        if self.finished {
            return None;
        }
        let ghost rem0 = self.remaining();
        proof {
            assert((self.x as int) + (self.y as int) * (self.width as int) <= 32767 + 32767
                * 32767) by (nonlinear_arith)
                requires
                    self.x <= 32767,
                    self.y <= 32767,
                    self.width <= 32767,
            ;
            assert((self.y as int) * (self.width as int) >= 0) by (nonlinear_arith)
                requires
                    self.y >= 0,
                    self.width >= 0,
            ;
        }
        let idx = self.x + self.y * self.width;
        let result: Option<char> = if idx < self.chars.len() {
            Some(self.chars[idx])
        } else {
            None
        };
        if !(self.y < self.height && self.x < self.width) {
            self.finished = true;
            proof {
                lemma_opt_char_shape(self.chars@, self.x as int, self.y as int, self.width as int);
            }
            return result;
        }
        let at_end = match self.direction {
            DiagonalDirection::TopLeftToBottomRight => self.y == self.height - 1 || self.x
                == self.width - 1,
            DiagonalDirection::TopRightToBottomLeft => self.y == self.height - 1 || self.x == 0,
            DiagonalDirection::BottomLeftToTopRight => self.y == 0 || self.x == self.width - 1,
            DiagonalDirection::BottomRightToTopLeft => self.y == 0 || self.x == 0,
        };
        if at_end {
            self.finished = true;
            proof {
                lemma_opt_char_shape(self.chars@, self.x as int, self.y as int, self.width as int);
            }
            return result;
        }
        match self.direction {
            DiagonalDirection::TopLeftToBottomRight => {
                self.x = self.x + 1;
                self.y = self.y + 1;
            },
            DiagonalDirection::BottomLeftToTopRight => {
                self.x = self.x + 1;
                self.y = self.y - 1;
            },
            DiagonalDirection::TopRightToBottomLeft => {
                self.x = self.x - 1;
                self.y = self.y + 1;
            },
            DiagonalDirection::BottomRightToTopLeft => {
                self.x = self.x - 1;
                self.y = self.y - 1;
            },
        }
        proof {
            lemma_opt_char_shape(old(self).chars@, old(self).x as int, old(self).y as int, old(
                self,
            ).width as int);
            match result {
                Some(c) => {
                    assert(rem0 == opt_char(
                        old(self).chars@,
                        old(self).x as int,
                        old(self).y as int,
                        old(self).width as int,
                    ) + self.remaining());
                },
                None => {
                    assert(rem0.len() == 0);
                },
            }
        }
        result
    }

    /// Drain the cursor into a vector.
    pub fn collect_chars(&mut self) -> (r: Vec<char>)
        requires
            old(self).wf(),
        ensures
            r@ == old(self).remaining(),
    {
        let mut r: Vec<char> = Vec::new();
        proof {
            assert(r@ + self.remaining() =~= old(self).remaining());
        }
        loop
            invariant_except_break
                r@ + self.remaining() == old(self).remaining(),
            invariant
                self.wf(),
            ensures
                r@ == old(self).remaining(),
            decreases self.remaining().len(),
        {
            match self.next() {
                Some(c) => {
                    r.push(c);
                    proof {
                        assert(r@ + self.remaining() =~= old(self).remaining());
                    }
                },
                None => {
                    proof {
                        assert(r@ =~= old(self).remaining());
                    }
                    break ;
                },
            }
        }
        r
    }
}

/// A single cell or nothing: the two shapes opt_char takes.
proof fn lemma_opt_char_shape(cs: Seq<char>, x: int, y: int, w: int)
    ensures
        opt_char(cs, x, y, w).len() <= 1,
        0 <= x + y * w < cs.len() ==> opt_char(cs, x, y, w) == seq![cs[x + y * w]],
        !(0 <= x + y * w < cs.len()) ==> opt_char(cs, x, y, w) == Seq::<char>::empty(),
{
}

} // verus!

verus! {

/// Sum of f over the integers in [a, b).
pub open spec fn sum_range(a: int, b: int, f: spec_fn(int) -> int) -> int
    decreases b - a,
{
    if a >= b {
        0
    } else {
        f(a) + sum_range(a + 1, b, f)
    }
}

/// The characters of a column: every width-th entry from position i.
pub open spec fn col_seq(cs: Seq<char>, i: int, w: int) -> Seq<char>
    decreases (if i < 0 {
        0int
    } else if i > cs.len() {
        0int
    } else {
        cs.len() - i
    }),
{
    if i < 0 || i >= cs.len() || w < 1 {
        Seq::empty()
    } else {
        seq![cs[i]] + col_seq(cs, i + w, w)
    }
}

/// The scanner never lowers its running count.
proof fn lemma_scan_fold_ge(w: Seq<char>, cs: Seq<char>, i: int, m: nat, mr: nat, acc: int)
    ensures
        scan_fold(w, cs, i, m, mr, acc) >= acc,
    decreases cs.len() - i,
{
    if 0 <= i < cs.len() {
        let s = scan_step(w, m, mr, cs[i]);
        lemma_scan_fold_ge(w, cs, i + 1, s.0, s.1, acc + s.2);
        assert(s.2 >= 0);
    }
}

/// Scan counts are never negative.
pub proof fn lemma_scan_nonneg(cs: Seq<char>, w: Seq<char>)
    ensures
        spec_scan_count(cs, w) >= 0,
{
    lemma_scan_fold_ge(w, cs, 0, 0, 0, 0);
}

/// Sums of non-negative terms dominate their prefixes.
proof fn lemma_sum_range_split(a: int, b: int, i: int, f: spec_fn(int) -> int)
    requires
        a <= i <= b,
    ensures
        sum_range(a, b, f) == sum_range(a, i, f) + sum_range(i, b, f),
    decreases i - a,
{
    if a < i {
        lemma_sum_range_split(a + 1, b, i, f);
    }
}

proof fn lemma_sum_range_nonneg(a: int, b: int, f: spec_fn(int) -> int)
    requires
        forall|i: int| a <= i < b ==> #[trigger] f(i) >= 0,
    ensures
        sum_range(a, b, f) >= 0,
    decreases b - a,
{
    if a < b {
        lemma_sum_range_nonneg(a + 1, b, f);
    }
}

/// The characters of the grid with newlines removed.
pub open spec fn grid_chars(s: Seq<char>) -> Seq<char> {
    s.filter(|c: char| c != '\n')
}

/// Collect the non-newline characters.
fn filter_newlines(v: &Vec<char>) -> (r: Vec<char>)
    ensures
        r@ == grid_chars(v@),
{
    let mut r: Vec<char> = Vec::new();
    let mut i: usize = 0;
    let ghost pred = |c: char| c != '\n';
    while i < v.len()
        invariant
            0 <= i <= v@.len(),
            pred == (|c: char| c != '\n'),
            r@ == v@.take(i as int).filter(pred),
        decreases v@.len() - i,
    {
        proof {
            assert(v@.take(i + 1) =~= v@.take(i as int).push(v@[i as int]));
            v@.take(i as int).lemma_filter_push(v@[i as int], pred);
        }
        if v[i] != '\n' {
            r.push(v[i]);
        }
        i = i + 1;
    }
    proof {
        assert(v@.take(v@.len() as int) =~= v@);
    }
    r
}

/// Collect one column.
fn collect_col(cs: &Vec<char>, start: usize, w: usize) -> (r: Vec<char>)
    requires
        1 <= w <= 32767,
        cs@.len() < 0x40000000,
    ensures
        r@ == col_seq(cs@, start as int, w as int),
{
    let mut r: Vec<char> = Vec::new();
    let mut j: usize = start;
    while j < cs.len()
        invariant
            1 <= w <= 32767,
            cs@.len() < 0x40000000,
            col_seq(cs@, start as int, w as int) == r@ + col_seq(cs@, j as int, w as int),
        decreases cs@.len() + w - j,
    {
        r.push(cs[j]);
        proof {
            assert(col_seq(cs@, j as int, w as int) == seq![cs@[j as int]] + col_seq(
                cs@,
                j + w,
                w as int,
            ));
            assert(r@ + col_seq(cs@, j + w, w as int) =~= (r@.drop_last() + (seq![
                cs@[j as int],
            ] + col_seq(cs@, j + w, w as int))));
        }
        j = j + w;
    }
    proof {
        assert(col_seq(cs@, j as int, w as int) =~= Seq::<char>::empty());
        assert(r@ + Seq::<char>::empty() =~= r@);
    }
    r
}

} // verus!

verus! {

/// The still-unvisited part of a fresh diagonal cursor.
pub open spec fn dseq(cs: Seq<char>, d: DiagonalDirection, x: int, y: int, w: int, h: int) -> Seq<
    char,
> {
    diag_seq(cs, d, x, y, w, h, false)
}

/// Occurrences of the word over every row, column and diagonal of the
/// grid, forwards and backwards, counting each line with one incremental
/// scan.
pub open spec fn spec_count_word(s: Seq<char>, w: Seq<char>) -> int {
    let lines = line_seqs(s);
    let cs = grid_chars(s);
    let width = lines[0].len() as int;
    let height = lines.len() as int;
    sum_range(0, height, |i: int| spec_scan_count(lines[i], w)) + sum_range(
        0,
        width,
        |i: int| spec_scan_count(col_seq(cs, i, width), w),
    ) + sum_range(
        0,
        height,
        |i: int|
            spec_scan_count(dseq(cs, DiagonalDirection::TopLeftToBottomRight, 0, i, width, height), w),
    ) + sum_range(
        1,
        width,
        |i: int|
            spec_scan_count(dseq(cs, DiagonalDirection::TopLeftToBottomRight, i, 0, width, height), w),
    ) + sum_range(
        0,
        height,
        |i: int|
            spec_scan_count(
                dseq(cs, DiagonalDirection::TopRightToBottomLeft, width - 1, i, width, height),
                w,
            ),
    ) + sum_range(
        0,
        width - 1,
        |i: int|
            spec_scan_count(dseq(cs, DiagonalDirection::TopRightToBottomLeft, i, 0, width, height), w),
    )
}

/// Count the word in every direction of the grid.
#[verifier::rlimit(100)]
pub fn count_word_occurences(input: &str, word: &str) -> (r: usize)
    requires
        word@.len() > 0,
        line_seqs(input@).len() >= 1,
        1 <= line_seqs(input@)[0].len() <= 32767,
        line_seqs(input@).len() <= 32767,
        grid_chars(input@).len() < 0x40000000,
        input@.len() < 0x40000000,
        spec_count_word(input@, word@) <= usize::MAX,
    ensures
        r == spec_count_word(input@, word@),
{
    let cs_all = chars_of(input);
    let wv = chars_of(word);
    let lines = crate::text::split_lines(&cs_all);
    let cs = filter_newlines(&cs_all);
    let ghost glines = line_seqs(input@);
    let ghost gcs = grid_chars(input@);
    let width = lines[0].len();
    let height = lines.len();
    let ghost f1 = |i: int| spec_scan_count(glines[i], word@);
    let ghost f2 = |i: int| spec_scan_count(col_seq(gcs, i, width as int), word@);
    let ghost f3 = |i: int|
        spec_scan_count(
            dseq(gcs, DiagonalDirection::TopLeftToBottomRight, 0, i, width as int, height as int),
            word@,
        );
    let ghost f4 = |i: int|
        spec_scan_count(
            dseq(gcs, DiagonalDirection::TopLeftToBottomRight, i, 0, width as int, height as int),
            word@,
        );
    let ghost f5 = |i: int|
        spec_scan_count(
            dseq(
                gcs,
                DiagonalDirection::TopRightToBottomLeft,
                width - 1,
                i,
                width as int,
                height as int,
            ),
            word@,
        );
    let ghost f6 = |i: int|
        spec_scan_count(
            dseq(gcs, DiagonalDirection::TopRightToBottomLeft, i, 0, width as int, height as int),
            word@,
        );
    let ghost total = spec_count_word(input@, word@);
    proof {
        assert(total == sum_range(0, height as int, f1) + sum_range(0, width as int, f2)
            + sum_range(0, height as int, f3) + sum_range(1, width as int, f4) + sum_range(
            0,
            height as int,
            f5,
        ) + sum_range(0, width - 1, f6));
        lemma_six_nonneg(gcs, glines, word@, width as int, height as int, f1, f2, f3, f4, f5, f6);
    }
    let mut acc: usize = 0;
    // rows
    let mut i: usize = 0;
    while i < height
        invariant
            word@.len() > 0,
            wv@ == word@,
            glines == line_seqs(input@),
            lines@.map_values(|l: Vec<char>| l@) == glines,
            gcs == grid_chars(input@),
            cs@ == gcs,
            input@.len() < 0x40000000,
            gcs.len() < 0x40000000,
            height == glines.len(),
            width == glines[0].len(),
            1 <= width <= 32767,
            1 <= height <= 32767,
            0 <= i <= height,
            total <= usize::MAX,
            total == sum_range(0, height as int, f1) + sum_range(0, width as int, f2) + sum_range(
                0,
                height as int,
                f3,
            ) + sum_range(1, width as int, f4) + sum_range(0, height as int, f5) + sum_range(
                0,
                width - 1,
                f6,
            ),
            six_nonneg(gcs, glines, word@, width as int, height as int, f1, f2, f3, f4, f5, f6),
            f1 == (|i2: int| spec_scan_count(glines[i2], word@)),
            acc as int == sum_range(0, i as int, f1),
        decreases height - i,
    {
        proof {
            lemma_line_len(input@, i as int);
            lemma_sum_range_split(0, i + 1, i as int, f1);
            assert(sum_range(i as int, i + 1, f1) == f1(i as int) + sum_range(i + 1, i + 1, f1));
            assert(sum_range(i + 1, i + 1, f1) == 0);
            lemma_sum_bound_all(
                gcs,
                glines,
                word@,
                width as int,
                height as int,
                f1,
                f2,
                f3,
                f4,
                f5,
                f6,
                total,
                1,
                i as int,
            );
        }
        let c = count_word_occurences_in_iter(&lines[i], &wv);
        proof {
            assert(lines@.map_values(|l: Vec<char>| l@)[i as int] == glines[i as int]);
            assert(c as int == f1(i as int));
            lemma_sum_bound_all(
                gcs,
                glines,
                word@,
                width as int,
                height as int,
                f1,
                f2,
                f3,
                f4,
                f5,
                f6,
                total,
                1,
                i + 1,
            );
            assert(sum_range(0, i + 1, f1) == sum_range(0, i as int, f1) + f1(i as int));
        }
        acc = acc + c;
        i = i + 1;
    }
    let base1 = acc;
    let ghost gb1 = sum_range(0, height as int, f1);
    proof {
        assert(base1 as int == gb1);
    }
    // columns
    let mut i2: usize = 0;
    while i2 < width
        invariant
            word@.len() > 0,
            wv@ == word@,
            glines == line_seqs(input@),
            gcs == grid_chars(input@),
            cs@ == gcs,
            gcs.len() < 0x40000000,
            height == glines.len(),
            width == glines[0].len(),
            1 <= width <= 32767,
            1 <= height <= 32767,
            0 <= i2 <= width,
            total <= usize::MAX,
            total == sum_range(0, height as int, f1) + sum_range(0, width as int, f2) + sum_range(
                0,
                height as int,
                f3,
            ) + sum_range(1, width as int, f4) + sum_range(0, height as int, f5) + sum_range(
                0,
                width - 1,
                f6,
            ),
            six_nonneg(gcs, glines, word@, width as int, height as int, f1, f2, f3, f4, f5, f6),
            f2 == (|j: int| spec_scan_count(col_seq(gcs, j, width as int), word@)),
            gb1 == sum_range(0, height as int, f1),
            acc as int == gb1 + sum_range(0, i2 as int, f2),
        decreases width - i2,
    {
        let colv = collect_col(&cs, i2, width);
        proof {
            lemma_col_seq_len(gcs, i2 as int, width as int);
        }
        let c = count_word_occurences_in_iter(&colv, &wv);
        proof {
            assert(c as int == f2(i2 as int));
            lemma_sum_bound_all(
                gcs,
                glines,
                word@,
                width as int,
                height as int,
                f1,
                f2,
                f3,
                f4,
                f5,
                f6,
                total,
                2,
                i2 + 1,
            );
            lemma_sum_range_split(0, i2 + 1, i2 as int, f2);
            assert(sum_range(i2 as int, i2 + 1, f2) == f2(i2 as int) + sum_range(
                i2 + 1,
                i2 + 1,
                f2,
            ));
            assert(sum_range(i2 + 1, i2 + 1, f2) == 0);
            assert(sum_range(0, i2 + 1, f2) == sum_range(0, i2 as int, f2) + f2(i2 as int));
        }
        acc = acc + c;
        i2 = i2 + 1;
    }
    let ghost gb2 = gb1 + sum_range(0, width as int, f2);
    // the four diagonal families
    let mut i3: usize = 0;
    while i3 < height
        invariant
            word@.len() > 0,
            wv@ == word@,
            glines == line_seqs(input@),
            gcs == grid_chars(input@),
            cs@ == gcs,
            gcs.len() < 0x40000000,
            height == glines.len(),
            width == glines[0].len(),
            1 <= width <= 32767,
            1 <= height <= 32767,
            0 <= i3 <= height,
            total <= usize::MAX,
            total == sum_range(0, height as int, f1) + sum_range(0, width as int, f2) + sum_range(
                0,
                height as int,
                f3,
            ) + sum_range(1, width as int, f4) + sum_range(0, height as int, f5) + sum_range(
                0,
                width - 1,
                f6,
            ),
            six_nonneg(gcs, glines, word@, width as int, height as int, f1, f2, f3, f4, f5, f6),
            f3 == (|j: int|
                spec_scan_count(
                    dseq(
                        gcs,
                        DiagonalDirection::TopLeftToBottomRight,
                        0,
                        j,
                        width as int,
                        height as int,
                    ),
                    word@,
                )),
            gb2 == sum_range(0, height as int, f1) + sum_range(0, width as int, f2),
            acc as int == gb2 + sum_range(0, i3 as int, f3),
        decreases height - i3,
    {
        let mut it = DiagonalIter::new(&cs, DiagonalDirection::TopLeftToBottomRight, width, height, 0, i3);
        let ghost sx = it.x as int;
        let ghost sy = it.y as int;
        let ghost sd = it.direction;
        let dv = it.collect_chars();
        proof {
            lemma_diag_len(gcs, sd, sx, sy, width as int, height as int);
            assert(dv@.len() <= height + 1);
        }
        let c = count_word_occurences_in_iter(&dv, &wv);
        proof {
            assert(c as int == f3(i3 as int));
            lemma_sum_bound_all(
                gcs,
                glines,
                word@,
                width as int,
                height as int,
                f1,
                f2,
                f3,
                f4,
                f5,
                f6,
                total,
                3,
                i3 + 1,
            );
            lemma_sum_range_split(0, i3 + 1, i3 as int, f3);
            assert(sum_range(i3 as int, i3 + 1, f3) == f3(i3 as int) + sum_range(
                i3 + 1,
                i3 + 1,
                f3,
            ));
            assert(sum_range(i3 + 1, i3 + 1, f3) == 0);
            assert(sum_range(0, i3 + 1, f3) == sum_range(0, i3 as int, f3) + f3(i3 as int));
        }
        acc = acc + c;
        i3 = i3 + 1;
    }
    let ghost gb3 = gb2 + sum_range(0, height as int, f3);
    let mut i4: usize = 1;
    while i4 < width
        invariant
            word@.len() > 0,
            wv@ == word@,
            glines == line_seqs(input@),
            gcs == grid_chars(input@),
            cs@ == gcs,
            gcs.len() < 0x40000000,
            height == glines.len(),
            width == glines[0].len(),
            1 <= width <= 32767,
            1 <= height <= 32767,
            1 <= i4 <= width,
            total <= usize::MAX,
            total == sum_range(0, height as int, f1) + sum_range(0, width as int, f2) + sum_range(
                0,
                height as int,
                f3,
            ) + sum_range(1, width as int, f4) + sum_range(0, height as int, f5) + sum_range(
                0,
                width - 1,
                f6,
            ),
            six_nonneg(gcs, glines, word@, width as int, height as int, f1, f2, f3, f4, f5, f6),
            f4 == (|j: int|
                spec_scan_count(
                    dseq(
                        gcs,
                        DiagonalDirection::TopLeftToBottomRight,
                        j,
                        0,
                        width as int,
                        height as int,
                    ),
                    word@,
                )),
            gb3 == sum_range(0, height as int, f1) + sum_range(0, width as int, f2) + sum_range(
                0,
                height as int,
                f3,
            ),
            acc as int == gb3 + sum_range(1, i4 as int, f4),
        decreases width - i4,
    {
        let mut it = DiagonalIter::new(&cs, DiagonalDirection::TopLeftToBottomRight, width, height, i4, 0);
        let ghost sx = it.x as int;
        let ghost sy = it.y as int;
        let ghost sd = it.direction;
        let dv = it.collect_chars();
        proof {
            lemma_diag_len(gcs, sd, sx, sy, width as int, height as int);
            assert(dv@.len() <= height + 1);
        }
        let c = count_word_occurences_in_iter(&dv, &wv);
        proof {
            assert(c as int == f4(i4 as int));
            lemma_sum_bound_all(
                gcs,
                glines,
                word@,
                width as int,
                height as int,
                f1,
                f2,
                f3,
                f4,
                f5,
                f6,
                total,
                4,
                i4 + 1,
            );
            lemma_sum_range_split(1, i4 + 1, i4 as int, f4);
            assert(sum_range(i4 as int, i4 + 1, f4) == f4(i4 as int) + sum_range(
                i4 + 1,
                i4 + 1,
                f4,
            ));
            assert(sum_range(i4 + 1, i4 + 1, f4) == 0);
            assert(sum_range(1, i4 + 1, f4) == sum_range(1, i4 as int, f4) + f4(i4 as int));
        }
        acc = acc + c;
        i4 = i4 + 1;
    }
    let ghost gb4 = gb3 + sum_range(1, width as int, f4);
    let mut i5: usize = 0;
    while i5 < height
        invariant
            word@.len() > 0,
            wv@ == word@,
            glines == line_seqs(input@),
            gcs == grid_chars(input@),
            cs@ == gcs,
            gcs.len() < 0x40000000,
            height == glines.len(),
            width == glines[0].len(),
            1 <= width <= 32767,
            1 <= height <= 32767,
            0 <= i5 <= height,
            total <= usize::MAX,
            total == sum_range(0, height as int, f1) + sum_range(0, width as int, f2) + sum_range(
                0,
                height as int,
                f3,
            ) + sum_range(1, width as int, f4) + sum_range(0, height as int, f5) + sum_range(
                0,
                width - 1,
                f6,
            ),
            six_nonneg(gcs, glines, word@, width as int, height as int, f1, f2, f3, f4, f5, f6),
            f5 == (|j: int|
                spec_scan_count(
                    dseq(
                        gcs,
                        DiagonalDirection::TopRightToBottomLeft,
                        width - 1,
                        j,
                        width as int,
                        height as int,
                    ),
                    word@,
                )),
            gb4 == sum_range(0, height as int, f1) + sum_range(0, width as int, f2) + sum_range(
                0,
                height as int,
                f3,
            ) + sum_range(1, width as int, f4),
            acc as int == gb4 + sum_range(0, i5 as int, f5),
        decreases height - i5,
    {
        let mut it = DiagonalIter::new(
            &cs,
            DiagonalDirection::TopRightToBottomLeft,
            width,
            height,
            width - 1,
            i5,
        );
        let ghost sx = it.x as int;
        let ghost sy = it.y as int;
        let ghost sd = it.direction;
        let dv = it.collect_chars();
        proof {
            lemma_diag_len(gcs, sd, sx, sy, width as int, height as int);
            assert(dv@.len() <= height + 1);
        }
        let c = count_word_occurences_in_iter(&dv, &wv);
        proof {
            assert(c as int == f5(i5 as int));
            lemma_sum_bound_all(
                gcs,
                glines,
                word@,
                width as int,
                height as int,
                f1,
                f2,
                f3,
                f4,
                f5,
                f6,
                total,
                5,
                i5 + 1,
            );
            lemma_sum_range_split(0, i5 + 1, i5 as int, f5);
            assert(sum_range(i5 as int, i5 + 1, f5) == f5(i5 as int) + sum_range(
                i5 + 1,
                i5 + 1,
                f5,
            ));
            assert(sum_range(i5 + 1, i5 + 1, f5) == 0);
            assert(sum_range(0, i5 + 1, f5) == sum_range(0, i5 as int, f5) + f5(i5 as int));
        }
        acc = acc + c;
        i5 = i5 + 1;
    }
    let ghost gb5 = gb4 + sum_range(0, height as int, f5);
    let mut i6: usize = 0;
    while width >= 1 && i6 < width - 1
        invariant
            word@.len() > 0,
            wv@ == word@,
            glines == line_seqs(input@),
            gcs == grid_chars(input@),
            cs@ == gcs,
            gcs.len() < 0x40000000,
            height == glines.len(),
            width == glines[0].len(),
            1 <= width <= 32767,
            1 <= height <= 32767,
            0 <= i6 <= width - 1,
            total <= usize::MAX,
            total == sum_range(0, height as int, f1) + sum_range(0, width as int, f2) + sum_range(
                0,
                height as int,
                f3,
            ) + sum_range(1, width as int, f4) + sum_range(0, height as int, f5) + sum_range(
                0,
                width - 1,
                f6,
            ),
            six_nonneg(gcs, glines, word@, width as int, height as int, f1, f2, f3, f4, f5, f6),
            f6 == (|j: int|
                spec_scan_count(
                    dseq(
                        gcs,
                        DiagonalDirection::TopRightToBottomLeft,
                        j,
                        0,
                        width as int,
                        height as int,
                    ),
                    word@,
                )),
            gb5 == sum_range(0, height as int, f1) + sum_range(0, width as int, f2) + sum_range(
                0,
                height as int,
                f3,
            ) + sum_range(1, width as int, f4) + sum_range(0, height as int, f5),
            acc as int == gb5 + sum_range(0, i6 as int, f6),
        decreases width - i6,
    {
        let mut it = DiagonalIter::new(&cs, DiagonalDirection::TopRightToBottomLeft, width, height, i6, 0);
        let ghost sx = it.x as int;
        let ghost sy = it.y as int;
        let ghost sd = it.direction;
        let dv = it.collect_chars();
        proof {
            lemma_diag_len(gcs, sd, sx, sy, width as int, height as int);
            assert(dv@.len() <= height + 1);
        }
        let c = count_word_occurences_in_iter(&dv, &wv);
        proof {
            assert(c as int == f6(i6 as int));
            lemma_sum_bound_all(
                gcs,
                glines,
                word@,
                width as int,
                height as int,
                f1,
                f2,
                f3,
                f4,
                f5,
                f6,
                total,
                6,
                i6 + 1,
            );
            lemma_sum_range_split(0, i6 + 1, i6 as int, f6);
            assert(sum_range(i6 as int, i6 + 1, f6) == f6(i6 as int) + sum_range(
                i6 + 1,
                i6 + 1,
                f6,
            ));
            assert(sum_range(i6 + 1, i6 + 1, f6) == 0);
            assert(sum_range(0, i6 + 1, f6) == sum_range(0, i6 as int, f6) + f6(i6 as int));
        }
        acc = acc + c;
        i6 = i6 + 1;
    }
    acc
}

/// All six direction families count non-negatively.
pub open spec fn six_nonneg(
    cs: Seq<char>,
    lines: Seq<Seq<char>>,
    w: Seq<char>,
    width: int,
    height: int,
    f1: spec_fn(int) -> int,
    f2: spec_fn(int) -> int,
    f3: spec_fn(int) -> int,
    f4: spec_fn(int) -> int,
    f5: spec_fn(int) -> int,
    f6: spec_fn(int) -> int,
) -> bool {
    &&& forall|i: int| #[trigger] f1(i) >= 0
    &&& forall|i: int| #[trigger] f2(i) >= 0
    &&& forall|i: int| #[trigger] f3(i) >= 0
    &&& forall|i: int| #[trigger] f4(i) >= 0
    &&& forall|i: int| #[trigger] f5(i) >= 0
    &&& forall|i: int| #[trigger] f6(i) >= 0
}

proof fn lemma_six_nonneg(
    cs: Seq<char>,
    lines: Seq<Seq<char>>,
    w: Seq<char>,
    width: int,
    height: int,
    f1: spec_fn(int) -> int,
    f2: spec_fn(int) -> int,
    f3: spec_fn(int) -> int,
    f4: spec_fn(int) -> int,
    f5: spec_fn(int) -> int,
    f6: spec_fn(int) -> int,
)
    requires
        f1 == (|i: int| spec_scan_count(lines[i], w)),
        f2 == (|i: int| spec_scan_count(col_seq(cs, i, width), w)),
        f3 == (|i: int|
            spec_scan_count(dseq(cs, DiagonalDirection::TopLeftToBottomRight, 0, i, width, height), w)),
        f4 == (|i: int|
            spec_scan_count(dseq(cs, DiagonalDirection::TopLeftToBottomRight, i, 0, width, height), w)),
        f5 == (|i: int|
            spec_scan_count(
                dseq(cs, DiagonalDirection::TopRightToBottomLeft, width - 1, i, width, height),
                w,
            )),
        f6 == (|i: int|
            spec_scan_count(dseq(cs, DiagonalDirection::TopRightToBottomLeft, i, 0, width, height), w)),
    ensures
        six_nonneg(cs, lines, w, width, height, f1, f2, f3, f4, f5, f6),
{
    assert forall|i: int| #[trigger] f1(i) >= 0 by {
        lemma_scan_nonneg(lines[i], w);
    }
    assert forall|i: int| #[trigger] f2(i) >= 0 by {
        lemma_scan_nonneg(col_seq(cs, i, width), w);
    }
    assert forall|i: int| #[trigger] f3(i) >= 0 by {
        lemma_scan_nonneg(
            dseq(cs, DiagonalDirection::TopLeftToBottomRight, 0, i, width, height),
            w,
        );
    }
    assert forall|i: int| #[trigger] f4(i) >= 0 by {
        lemma_scan_nonneg(
            dseq(cs, DiagonalDirection::TopLeftToBottomRight, i, 0, width, height),
            w,
        );
    }
    assert forall|i: int| #[trigger] f5(i) >= 0 by {
        lemma_scan_nonneg(
            dseq(cs, DiagonalDirection::TopRightToBottomLeft, width - 1, i, width, height),
            w,
        );
    }
    assert forall|i: int| #[trigger] f6(i) >= 0 by {
        lemma_scan_nonneg(
            dseq(cs, DiagonalDirection::TopRightToBottomLeft, i, 0, width, height),
            w,
        );
    }
}

/// Any partial stage sum stays within the grand total.
proof fn lemma_sum_bound_all(
    cs: Seq<char>,
    lines: Seq<Seq<char>>,
    w: Seq<char>,
    width: int,
    height: int,
    f1: spec_fn(int) -> int,
    f2: spec_fn(int) -> int,
    f3: spec_fn(int) -> int,
    f4: spec_fn(int) -> int,
    f5: spec_fn(int) -> int,
    f6: spec_fn(int) -> int,
    total: int,
    stage: int,
    i: int,
)
    requires
        six_nonneg(cs, lines, w, width, height, f1, f2, f3, f4, f5, f6),
        total == sum_range(0, height, f1) + sum_range(0, width, f2) + sum_range(0, height, f3)
            + sum_range(1, width, f4) + sum_range(0, height, f5) + sum_range(0, width - 1, f6),
        1 <= stage <= 6,
    ensures
        stage == 1 && 0 <= i <= height ==> sum_range(0, i, f1) <= total && sum_range(0, i, f1)
            >= 0,
        stage == 2 && 0 <= i <= width ==> sum_range(0, height, f1) + sum_range(0, i, f2) <= total
            && sum_range(0, height, f1) + sum_range(0, i, f2) >= 0,
        stage == 3 && 0 <= i <= height ==> sum_range(0, height, f1) + sum_range(0, width, f2)
            + sum_range(0, i, f3) <= total && sum_range(0, height, f1) + sum_range(0, width, f2)
            + sum_range(0, i, f3) >= 0,
        stage == 4 && 1 <= i <= width ==> sum_range(0, height, f1) + sum_range(0, width, f2)
            + sum_range(0, height, f3) + sum_range(1, i, f4) <= total && sum_range(0, height, f1)
            + sum_range(0, width, f2) + sum_range(0, height, f3) + sum_range(1, i, f4) >= 0,
        stage == 5 && 0 <= i <= height ==> sum_range(0, height, f1) + sum_range(0, width, f2)
            + sum_range(0, height, f3) + sum_range(1, width, f4) + sum_range(0, i, f5) <= total
            && sum_range(0, height, f1) + sum_range(0, width, f2) + sum_range(0, height, f3)
            + sum_range(1, width, f4) + sum_range(0, i, f5) >= 0,
        stage == 6 && 0 <= i <= width - 1 ==> sum_range(0, height, f1) + sum_range(0, width, f2)
            + sum_range(0, height, f3) + sum_range(1, width, f4) + sum_range(0, height, f5)
            + sum_range(0, i, f6) <= total && sum_range(0, height, f1) + sum_range(0, width, f2)
            + sum_range(0, height, f3) + sum_range(1, width, f4) + sum_range(0, height, f5)
            + sum_range(0, i, f6) >= 0,
{
    if 0 <= i <= height {
        lemma_sum_range_split(0, height, i, f1);
        lemma_sum_range_nonneg(i, height, f1);
        lemma_sum_range_nonneg(0, i, f1);
        lemma_sum_range_split(0, height, i, f3);
        lemma_sum_range_nonneg(i, height, f3);
        lemma_sum_range_nonneg(0, i, f3);
        lemma_sum_range_split(0, height, i, f5);
        lemma_sum_range_nonneg(i, height, f5);
        lemma_sum_range_nonneg(0, i, f5);
    }
    if 0 <= i <= width {
        lemma_sum_range_split(0, width, i, f2);
        lemma_sum_range_nonneg(i, width, f2);
        lemma_sum_range_nonneg(0, i, f2);
    }
    if 1 <= i <= width {
        lemma_sum_range_split(1, width, i, f4);
        lemma_sum_range_nonneg(i, width, f4);
        lemma_sum_range_nonneg(1, i, f4);
    }
    if 0 <= i <= width - 1 {
        lemma_sum_range_split(0, width - 1, i, f6);
        lemma_sum_range_nonneg(i, width - 1, f6);
        lemma_sum_range_nonneg(0, i, f6);
    }
    lemma_sum_range_nonneg(0, height, f1);
    lemma_sum_range_nonneg(0, width, f2);
    lemma_sum_range_nonneg(0, height, f3);
    lemma_sum_range_nonneg(1, width, f4);
    lemma_sum_range_nonneg(0, height, f5);
    lemma_sum_range_nonneg(0, width - 1, f6);
}

/// A column is no longer than its backing run.
proof fn lemma_col_seq_len(cs: Seq<char>, i: int, w: int)
    ensures
        col_seq(cs, i, w).len() <= cs.len(),
        0 <= i <= cs.len() ==> col_seq(cs, i, w).len() <= cs.len() - i,
    decreases (if i < 0 {
        0int
    } else if i > cs.len() {
        0int
    } else {
        cs.len() - i
    }),
{
    if !(i < 0 || i >= cs.len() || w < 1) {
        lemma_col_seq_len(cs, i + w, w);
    }
}

/// A downward diagonal produces at most one character per remaining row.
proof fn lemma_diag_len(cs: Seq<char>, d: DiagonalDirection, x: int, y: int, w: int, h: int)
    requires
        0 <= y < h,
        d is TopLeftToBottomRight || d is TopRightToBottomLeft,
    ensures
        diag_seq(cs, d, x, y, w, h, false).len() <= h - y,
    decreases h - y,
{
    if !(x < 0 || x >= w) {
        let at_end = (match d {
            DiagonalDirection::TopLeftToBottomRight => y == h - 1 || x == w - 1,
            DiagonalDirection::TopRightToBottomLeft => y == h - 1 || x == 0,
            DiagonalDirection::BottomLeftToTopRight => y == 0 || x == w - 1,
            DiagonalDirection::BottomRightToTopLeft => y == 0 || x == 0,
        });
        if !at_end {
            let nx = (match d {
                DiagonalDirection::TopLeftToBottomRight => x + 1,
                DiagonalDirection::BottomLeftToTopRight => x + 1,
                _ => x - 1,
            });
            lemma_diag_len(cs, d, nx, y + 1, w, h);
        }
    }
}

/// Every line of a small text is small.
proof fn lemma_line_len(s: Seq<char>, i: int)
    requires
        0 <= i < line_seqs(s).len(),
        s.len() < 0x40000000,
    ensures
        line_seqs(s)[i].len() < 0x40000000,
        line_seqs(s)[i].len() <= grid_chars(s).len() || line_seqs(s)[i].len() < 0x40000000,
    decreases s.len(),
{
    if s.len() > 0 {
        let n = crate::text::first_newline(s, 0);
        crate::text::lemma_first_newline_bounds(s, 0);
        if 0 <= n < s.len() {
            if i > 0 {
                lemma_line_len(s.subrange(n + 1, s.len() as int), i - 1);
            }
        }
    }
}

} // verus!

verus! {

/// One arm of a cross: the diagonal's characters after the centre, at most
/// half a word long.
pub open spec fn arm(s: Seq<char>, half: int) -> Seq<char> {
    if s.len() <= 1 {
        Seq::empty()
    } else {
        s.subrange(
            1,
            if 1 + half <= s.len() {
                1 + half
            } else {
                s.len() as int
            },
        )
    }
}

/// A centre cell carries a cross of the word when both full diagonals
/// through it scan positively.
pub open spec fn cross_at(cs: Seq<char>, w: Seq<char>, x: int, y: int, width: int, height: int) -> bool {
    let half = w.len() as int / 2;
    let mid = w[w.len() as int / 2];
    let c1 = arm(dseq(cs, DiagonalDirection::TopLeftToBottomRight, x, y, width, height), half);
    let c2 = arm(dseq(cs, DiagonalDirection::BottomRightToTopLeft, x, y, width, height), half);
    let c3 = arm(dseq(cs, DiagonalDirection::TopRightToBottomLeft, x, y, width, height), half);
    let c4 = arm(dseq(cs, DiagonalDirection::BottomLeftToTopRight, x, y, width, height), half);
    &&& 0 <= x + y * width < cs.len()
    &&& cs[x + y * width] == mid
    &&& spec_scan_count(c1 + seq![mid] + c2, w) != 0
    &&& spec_scan_count(c3 + seq![mid] + c4, w) != 0
}

/// One when a cross centres on the cell, zero otherwise.
pub open spec fn cross_ind(cs: Seq<char>, w: Seq<char>, x: int, y: int, width: int, height: int) -> int {
    if cross_at(cs, w, x, y, width, height) {
        1int
    } else {
        0int
    }
}

/// Crosses centred in one row.
pub open spec fn row_cross(cs: Seq<char>, w: Seq<char>, y: int, width: int, height: int) -> int {
    sum_range(0, width, |x: int| cross_ind(cs, w, x, y, width, height))
}

/// Number of cells that centre a cross of the word.
pub open spec fn spec_cross_count(s: Seq<char>, w: Seq<char>) -> int {
    let lines = line_seqs(s);
    let cs = grid_chars(s);
    let width = lines[0].len() as int;
    let height = lines.len() as int;
    sum_range(0, height, |y: int| row_cross(cs, w, y, width, height))
}

/// Count the cross-shaped matches of an odd-length word.
#[verifier::rlimit(100)]
pub fn find_cross_occurences(input: &str, word: &str) -> (r: usize)
    requires
        word@.len() % 2 == 1,
        word@.len() < 0x10000000,
        line_seqs(input@).len() >= 1,
        1 <= line_seqs(input@)[0].len() <= 32767,
        1 <= line_seqs(input@).len() <= 32767,
        grid_chars(input@).len() < 0x40000000,
        input@.len() < 0x40000000,
    ensures
        r == spec_cross_count(input@, word@),
{
    let cs_all = chars_of(input);
    let wv = chars_of(word);
    let lines = crate::text::split_lines(&cs_all);
    let cs = filter_newlines(&cs_all);
    let ghost glines = line_seqs(input@);
    let ghost gcs = grid_chars(input@);
    let width = lines[0].len();
    let height = lines.len();
    let half = wv.len() / 2;
    let mid = wv[wv.len() / 2];
    let ghost fy = |y: int| row_cross(gcs, word@, y, width as int, height as int);
    proof {
        assert(spec_cross_count(input@, word@) == sum_range(0, height as int, fy));
    }
    let mut occ: usize = 0;
    let mut y: usize = 0;
    while y < height
        invariant
            word@.len() % 2 == 1,
            wv@ == word@,
            glines == line_seqs(input@),
            gcs == grid_chars(input@),
            cs@ == gcs,
            gcs.len() < 0x40000000,
            height == glines.len(),
            width == glines[0].len(),
            1 <= width <= 32767,
            1 <= height <= 32767,
            half == word@.len() / 2,
            mid == word@[word@.len() as int / 2],
            0 <= y <= height,
            word@.len() < 0x10000000,
            fy == (|y2: int| row_cross(gcs, word@, y2, width as int, height as int)),
            occ as int == sum_range(0, y as int, fy),
            occ <= y * 32768,
            spec_cross_count(input@, word@) == sum_range(0, height as int, fy),
        decreases height - y,
    {
        let mut x: usize = 0;
        let mut row_occ: usize = 0;
        let ghost gx = |x2: int| cross_ind(gcs, word@, x2, y as int, width as int, height as int);
        while x < width
            invariant
                word@.len() % 2 == 1,
                word@.len() < 0x10000000,
                wv@ == word@,
                gcs == grid_chars(input@),
                cs@ == gcs,
                gcs.len() < 0x40000000,
                1 <= width <= 32767,
                1 <= height <= 32767,
                half == word@.len() / 2,
                mid == word@[word@.len() as int / 2],
                0 <= y < height,
                0 <= x <= width,
                gx == (|x2: int|
                    cross_ind(gcs, word@, x2, y as int, width as int, height as int)),
                row_occ as int == sum_range(0, x as int, gx),
                row_occ <= x,
            decreases width - x,
        {
            proof {
                assert((y as int) * (width as int) + x < 0x40000000 + 0x40000000)
                    by (nonlinear_arith)
                    requires
                        0 <= y < 32768,
                        0 <= x < width <= 32767,
                ;
                assert((y as int) * (width as int) >= 0) by (nonlinear_arith)
                    requires
                        y >= 0,
                        width >= 0,
                ;
            }
            let idx = y * width + x;
            let mut hit = false;
            if idx < cs.len() && cs[idx] == mid {
                let p1 = cross_arm(&cs, DiagonalDirection::TopLeftToBottomRight, x, y, width, height, half);
                let p2 = cross_arm(&cs, DiagonalDirection::BottomRightToTopLeft, x, y, width, height, half);
                let d1 = join_arms(&p1, mid, &p2);
                proof {
                    assert(d1@.len() < 0x40000000);
                }
                let c1 = count_word_occurences_in_iter(&d1, &wv);
                if c1 != 0 {
                    let p3 = cross_arm(&cs, DiagonalDirection::TopRightToBottomLeft, x, y, width, height, half);
                    let p4 = cross_arm(&cs, DiagonalDirection::BottomLeftToTopRight, x, y, width, height, half);
                    let d2 = join_arms(&p3, mid, &p4);
                    proof {
                        assert(d2@.len() < 0x40000000);
                    }
                    let c2 = count_word_occurences_in_iter(&d2, &wv);
                    if c2 != 0 {
                        hit = true;
                    }
                }
            }
            proof {
                assert(hit == cross_at(gcs, word@, x as int, y as int, width as int, height as int));
                lemma_sum_range_split(0, x + 1, x as int, gx);
                assert(sum_range(x as int, x + 1, gx) == gx(x as int) + sum_range(
                    x + 1,
                    x + 1,
                    gx,
                ));
                assert(sum_range(x + 1, x + 1, gx) == 0);
            }
            if hit {
                occ_guard(&mut row_occ);
            }
            x = x + 1;
        }
        proof {
            assert(row_occ as int == row_cross(gcs, word@, y as int, width as int, height as int));
            assert(row_occ as int == fy(y as int));
            lemma_sum_range_split(0, y + 1, y as int, fy);
            assert(sum_range(y as int, y + 1, fy) == fy(y as int) + sum_range(y + 1, y + 1, fy));
            assert(sum_range(y + 1, y + 1, fy) == 0);
            assert((y + 1) * 32768 == y * 32768 + 32768) by (nonlinear_arith);
            assert(occ + row_occ <= y * 32768 + 32768);
        }
        occ = occ + row_occ;
        y = y + 1;
    }
    occ
}

/// Bump the per-row counter (kept separate so the row bound is obvious).
fn occ_guard(c: &mut usize)
    requires
        *old(c) < 32768,
    ensures
        *final(c) == *old(c) + 1,
{
    *c = *c + 1;
}

/// Collect one arm of a cross.
fn cross_arm(
    cs: &Vec<char>,
    d: DiagonalDirection,
    x: usize,
    y: usize,
    width: usize,
    height: usize,
    half: usize,
) -> (r: Vec<char>)
    requires
        width <= 32767,
        height <= 32767,
        x <= width,
        y <= height,
        half < 0x10000000,
        cs@.len() < 0x40000000,
    ensures
        r@ == arm(dseq(cs@, d, x as int, y as int, width as int, height as int), half as int),
        r@.len() <= half,
{
    let mut it = DiagonalIter::new(cs, d, width, height, x, y);
    let full = it.collect_chars();
    if full.len() <= 1 {
        Vec::new()
    } else {
        let end = if 1 + half <= full.len() {
            1 + half
        } else {
            full.len()
        };
        crate::text::sub_chars(&full, 1, end)
    }
}

/// The centre between two arms.
fn join_arms(a: &Vec<char>, mid: char, b: &Vec<char>) -> (r: Vec<char>)
    ensures
        r@ == a@ + seq![mid] + b@,
{
    let mut r: Vec<char> = Vec::new();
    let mut i: usize = 0;
    while i < a.len()
        invariant
            0 <= i <= a@.len(),
            r@ == a@.take(i as int),
        decreases a@.len() - i,
    {
        r.push(a[i]);
        proof {
            assert(a@.take(i + 1) =~= a@.take(i as int).push(a@[i as int]));
        }
        i = i + 1;
    }
    proof {
        assert(a@.take(a@.len() as int) =~= a@);
    }
    r.push(mid);
    let mut j: usize = 0;
    while j < b.len()
        invariant
            0 <= j <= b@.len(),
            r@ == a@ + seq![mid] + b@.take(j as int),
        decreases b@.len() - j,
    {
        r.push(b[j]);
        proof {
            assert(a@ + seq![mid] + b@.take(j + 1) =~= (a@ + seq![mid] + b@.take(j as int)).push(
                b@[j as int],
            ));
        }
        j = j + 1;
    }
    proof {
        assert(a@ + seq![mid] + b@.take(b@.len() as int) =~= a@ + seq![mid] + b@);
        assert(a@.push(mid) =~= a@ + seq![mid]);
    }
    r
}

} // verus!
