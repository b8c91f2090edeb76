//! Claw machine games: two buttons move the claw by fixed vectors, and the
//! cheapest button combination that lands exactly on the prize is wanted
//! (button A costs three tokens, button B one).

use vstd::prelude::*;
use crate::text::{
    chars_of, digit_end, digits_value, is_seq_at, line_seqs, scan_digits, seq_at, sub_chars, trim,
    trimmed, parse_u64,
};

verus! {

broadcast use vstd::seq_lib::group_seq_properties;

/// One game: the prize position and the two button vectors.
pub struct ClawGame {
    pub target: (i64, i64),
    pub move_a: (i64, i64),
    pub move_b: (i64, i64),
}

impl ClawGame {
    /// Coordinates small enough that every intermediate product fits i128.
    pub open spec fn bounded(self) -> bool {
        &&& -1000000 <= self.move_a.0 <= 1000000
        &&& -1000000 <= self.move_a.1 <= 1000000
        &&& -1000000 <= self.move_b.0 <= 1000000
        &&& -1000000 <= self.move_b.1 <= 1000000
        &&& -0x100000000000000 <= self.target.0 <= 0x100000000000000
        &&& -0x100000000000000 <= self.target.1 <= 0x100000000000000
    }

    /// The two button vectors are linearly independent.
    pub open spec fn independent(self) -> bool {
        self.move_b.1 * self.move_a.0 - self.move_b.0 * self.move_a.1 != 0 && self.move_a.0 != 0
    }

    /// The token cost of the unique button combination that reaches the
    /// prize, if an integral one exists: None exactly when no pair of
    /// (possibly negative) press counts solves both axes.
    pub fn min_token_cost(&self) -> (r: Option<i128>)
        requires
            self.bounded(),
            self.independent(),
        ensures
            r matches Some(c) ==> exists|na: int, nb: int|
                #![trigger self.move_a.0 * na, self.move_b.0 * nb]
                self.move_a.0 * na + self.move_b.0 * nb == self.target.0 && self.move_a.1 * na
                    + self.move_b.1 * nb == self.target.1 && c == 3 * na + nb,
            r is None ==> forall|na: int, nb: int|
                #![trigger self.move_a.0 * na, self.move_b.0 * nb]
                !(self.move_a.0 * na + self.move_b.0 * nb == self.target.0 && self.move_a.1 * na
                    + self.move_b.1 * nb == self.target.1),
    {
        let ax: i128 = self.move_a.0 as i128;
        let ay: i128 = self.move_a.1 as i128;
        let bx: i128 = self.move_b.0 as i128;
        let by: i128 = self.move_b.1 as i128;
        let tx: i128 = self.target.0 as i128;
        let ty: i128 = self.target.1 as i128;
        proof {
            lemma_abs_mul_bound(by as int, ax as int, 1000000, 1000000);
            lemma_abs_mul_bound(bx as int, ay as int, 1000000, 1000000);
            lemma_abs_mul_bound(ty as int, ax as int, 0x100000000000000, 1000000);
            lemma_abs_mul_bound(tx as int, ay as int, 0x100000000000000, 1000000);
        }
        let det: i128 = by * ax - bx * ay;
        let diff: i128 = ty * ax - tx * ay;
        proof {
            lemma_div_abs_bound(diff as int, det as int);
        }
        let nb: i128 = match diff.checked_div(det) {
            Some(q) => q,
            None => {
                proof {
                    assert(false);
                }
                0
            },
        };
        proof {
            assert(nb as int == spec_trunc_div(diff as int, det as int));
        }
        proof {
            lemma_abs_mul_bound(nb as int, bx as int, 150000000000000000000000, 1000000);
        }
        let rem: i128 = tx - nb * bx;
        proof {
            lemma_div_abs_bound(rem as int, ax as int);
        }
        let na: i128 = match rem.checked_div(ax) {
            Some(q) => q,
            None => {
                proof {
                    assert(false);
                }
                0
            },
        };
        proof {
            assert(na as int == spec_trunc_div(rem as int, ax as int));
        }
        proof {
            lemma_abs_mul_bound(ax as int, na as int, 1000000, 200000000000000000000000000000);
            lemma_abs_mul_bound(ay as int, na as int, 1000000, 200000000000000000000000000000);
            lemma_abs_mul_bound(by as int, nb as int, 1000000, 150000000000000000000000);
        }
        if ax * na + bx * nb == tx && ay * na + by * nb == ty {
            proof {
                let wa = na as int;
                let wb = nb as int;
                assert(self.move_a.0 * wa + self.move_b.0 * wb == self.target.0);
                assert(self.move_a.1 * wa + self.move_b.1 * wb == self.target.1);
                assert((3 * na + nb) as int == 3 * wa + wb);
                assert(wa + wb == (na as int) + (nb as int));
            }
            Some(3 * na + nb)
        } else {
            proof {
                assert forall|na2: int, nb2: int|
                    #![trigger self.move_a.0 * na2, self.move_b.0 * nb2]
                    !(self.move_a.0 * na2 + self.move_b.0 * nb2 == self.target.0
                        && self.move_a.1 * na2 + self.move_b.1 * nb2 == self.target.1) by {
                    if self.move_a.0 * na2 + self.move_b.0 * nb2 == self.target.0
                        && self.move_a.1 * na2 + self.move_b.1 * nb2 == self.target.1 {
                        lemma_solution_is_computed(
                            ax as int,
                            ay as int,
                            bx as int,
                            by as int,
                            tx as int,
                            ty as int,
                            na2,
                            nb2,
                            nb as int,
                            na as int,
                        );
                    }
                }
            }
            None
        }
    }

    /// Parse one game from its three-line text form.  None when the text
    /// does not follow the expected shape or a coordinate is too large.
    pub fn parse(input: &str) -> (r: Option<ClawGame>)
        ensures
            r == spec_parse_claw(input@),
            r matches Some(g) ==> g.bounded(),
    {
        let cs = chars_of(input);
        let t = trim(&cs);
        let lines = crate::text::split_lines(&t);
        if lines.len() < 3 {
            return None;
        }
        let pre_a = chars_of("Button A: X+");
        let pre_b = chars_of("Button B: X+");
        let pre_p = chars_of("Prize: X=");
        let sep_plus = chars_of(", Y+");
        let sep_eq = chars_of(", Y=");
        let ghost glines = line_seqs(trimmed(input@));
        proof {
            assert(lines@.map_values(|l: Vec<char>| l@)[0] == glines[0]);
            assert(lines@.map_values(|l: Vec<char>| l@)[1] == glines[1]);
            assert(lines@.map_values(|l: Vec<char>| l@)[2] == glines[2]);
        }
        let ma = match two_nums(&lines[0], &pre_a, &sep_plus) {
            Some(p) => p,
            None => {
                return None;
            },
        };
        let mb = match two_nums(&lines[1], &pre_b, &sep_plus) {
            Some(p) => p,
            None => {
                return None;
            },
        };
        let tg = match two_nums(&lines[2], &pre_p, &sep_eq) {
            Some(p) => p,
            None => {
                return None;
            },
        };
        if ma.0 > 1000000 || ma.1 > 1000000 || mb.0 > 1000000 || mb.1 > 1000000 {
            return None;
        }
        if tg.0 > 0x100000000000000 || tg.1 > 0x100000000000000 {
            return None;
        }
        Some(
            ClawGame {
                target: (tg.0 as i64, tg.1 as i64),
                move_a: (ma.0 as i64, ma.1 as i64),
                move_b: (mb.0 as i64, mb.1 as i64),
            },
        )
    }
}

/// |a*b| is bounded by the product of the bounds.
proof fn lemma_abs_mul_bound(a: int, b: int, ba: int, bb: int)
    requires
        -ba <= a <= ba,
        -bb <= b <= bb,
        0 <= ba,
        0 <= bb,
    ensures
        -(ba * bb) <= a * b <= ba * bb,
{
    assert(-(ba * bb) <= a * b <= ba * bb) by (nonlinear_arith)
        requires
            -ba <= a <= ba,
            -bb <= b <= bb,
            0 <= ba,
            0 <= bb,
    ;
}

/// The magnitude of a quotient never exceeds the magnitude of the
/// dividend (non-zero divisor, truncating or Euclidean alike).
proof fn lemma_div_abs_bound(x: int, d: int)
    requires
        d != 0,
    ensures
        -(if x >= 0 {
            x
        } else {
            -x
        }) <= x / d <= (if x >= 0 {
            x
        } else {
            -x
        }),
        d > 0 ==> x / d * d <= x < x / d * d + d,
{
    assert(-(if x >= 0 {
        x
    } else {
        -x
    }) <= x / d <= (if x >= 0 {
        x
    } else {
        -x
    }) && (d > 0 ==> x / d * d <= x < x / d * d + d)) by (nonlinear_arith)
        requires
            d != 0,
    ;
}

/// Exact division: dividing a multiple gives back the factor, whatever
/// the divisor's sign.
proof fn lemma_exact_div(n: int, d: int)
    requires
        d != 0,
    ensures
        (n * d) / d == n,
{
    assert((n * d) / d == n) by (nonlinear_arith)
        requires
            d != 0,
    ;
}

/// Rust's truncating division of an exact multiple is the exact factor.
proof fn lemma_trunc_div_exact(n: int, d: int)
    requires
        d != 0,
    ensures
        ({
            let x = n * d;
            let q: int = if x == 0 {
                0
            } else if x > 0 && d > 0 {
                x / d
            } else if x < 0 && d < 0 {
                (x * -1) / (d * -1)
            } else if x < 0 {
                ((x * -1) / d) * -1
            } else {
                (x / (d * -1)) * -1
            };
            q == n
        }),
{
    let x = n * d;
    if x == 0 {
        assert(n == 0) by (nonlinear_arith)
            requires
                n * d == 0,
                d != 0,
        ;
    } else if x > 0 && d > 0 {
        lemma_exact_div(n, d);
    } else if x < 0 && d < 0 {
        assert(x * -1 == n * (d * -1)) by (nonlinear_arith)
            requires
                x == n * d,
        ;
        lemma_exact_div(n, d * -1);
    } else if x < 0 {
        assert(x * -1 == (n * -1) * d) by (nonlinear_arith)
            requires
                x == n * d,
        ;
        lemma_exact_div(n * -1, d);
    } else {
        assert(x == (n * -1) * (d * -1)) by (nonlinear_arith)
            requires
                x == n * d,
        ;
        lemma_exact_div(n * -1, d * -1);
    }
}

/// With independent button vectors the press counts are unique, and the
/// computed truncating quotients recover them.
proof fn lemma_solution_is_computed(
    ax: int,
    ay: int,
    bx: int,
    by: int,
    tx: int,
    ty: int,
    na2: int,
    nb2: int,
    nb_c: int,
    na_c: int,
)
    requires
        by * ax - bx * ay != 0,
        ax != 0,
        ax * na2 + bx * nb2 == tx,
        ay * na2 + by * nb2 == ty,
        nb_c == spec_trunc_div(ty * ax - tx * ay, by * ax - bx * ay),
        na_c == spec_trunc_div(tx - nb_c * bx, ax),
    ensures
        nb_c == nb2,
        na_c == na2,
{
    let det = by * ax - bx * ay;
    assert(ty * ax - tx * ay == nb2 * det) by (nonlinear_arith)
        requires
            ax * na2 + bx * nb2 == tx,
            ay * na2 + by * nb2 == ty,
            det == by * ax - bx * ay,
    ;
    lemma_trunc_div_exact(nb2, det);
    assert(nb_c == nb2);
    assert(tx - nb2 * bx == na2 * ax) by (nonlinear_arith)
        requires
            ax * na2 + bx * nb2 == tx,
    ;
    lemma_trunc_div_exact(na2, ax);
}

/// Rust's truncating division, as vstd specifies checked_div.
pub open spec fn spec_trunc_div(x: int, d: int) -> int {
    if x == 0 {
        0
    } else if x > 0 && d > 0 {
        x / d
    } else if x < 0 && d < 0 {
        (x * -1) / (d * -1)
    } else if x < 0 {
        ((x * -1) / d) * -1
    } else {
        (x / (d * -1)) * -1
    }
}

/// Two numbers on one line: a prefix, digits, a separator, digits.
pub open spec fn spec_two_nums(l: Seq<char>, pre: Seq<char>, sep: Seq<char>) -> Option<(int, int)> {
    if !is_seq_at(l, 0, pre) {
        None
    } else {
        let a0 = pre.len() as int;
        let a1 = digit_end(l, a0);
        if a1 == a0 {
            None
        } else {
            let x = digits_value(l.subrange(a0, a1));
            if !is_seq_at(l, a1, sep) {
                None
            } else {
                let b0 = a1 + sep.len();
                let b1 = digit_end(l, b0);
                if b1 == b0 || b1 != l.len() || x > u64::MAX || digits_value(
                    l.subrange(b0, b1),
                ) > u64::MAX {
                    None
                } else {
                    Some((x, digits_value(l.subrange(b0, b1))))
                }
            }
        }
    }
}

/// The parsed game, when the text has the three expected lines.
pub open spec fn spec_parse_claw(s: Seq<char>) -> Option<ClawGame> {
    let lines = line_seqs(trimmed(s));
    if lines.len() < 3 {
        None
    } else {
        let ma = spec_two_nums(lines[0], "Button A: X+"@, ", Y+"@);
        let mb = spec_two_nums(lines[1], "Button B: X+"@, ", Y+"@);
        let tg = spec_two_nums(lines[2], "Prize: X="@, ", Y="@);
        if ma is None || mb is None || tg is None {
            None
        } else {
            let ma = ma->Some_0;
            let mb = mb->Some_0;
            let tg = tg->Some_0;
            if ma.0 > 1000000 || ma.1 > 1000000 || mb.0 > 1000000 || mb.1 > 1000000 || tg.0
                > 0x100000000000000 || tg.1 > 0x100000000000000 {
                None
            } else {
                Some(
                    ClawGame {
                        target: (tg.0 as i64, tg.1 as i64),
                        move_a: (ma.0 as i64, ma.1 as i64),
                        move_b: (mb.0 as i64, mb.1 as i64),
                    },
                )
            }
        }
    }
}

/// Read the two numbers of one line.
pub(crate) fn two_nums(l: &Vec<char>, pre: &Vec<char>, sep: &Vec<char>) -> (r: Option<(u64, u64)>)
    ensures
        match r {
            Some(p) => spec_two_nums(l@, pre@, sep@) == Some((p.0 as int, p.1 as int)),
            None => spec_two_nums(l@, pre@, sep@) is None,
        },
{
    if !seq_at(l, 0, pre) {
        return None;
    }
    let a0 = pre.len();
    proof {
        assert(a0 <= l@.len());
    }
    let a1 = scan_digits(l, a0);
    if a1 == a0 {
        return None;
    }
    let first_digits = sub_chars(l, a0, a1);
    let x = match parse_u64(&first_digits) {
        Some(x) => x,
        None => {
            proof {
                lemma_scan_all_digits(l@, a0 as int, a1 as int);
            }
            return None;
        },
    };
    if !seq_at(l, a1, sep) {
        return None;
    }
    let ln = l.len();
    proof {
        assert(a1 + sep@.len() <= ln);
    }
    let b0 = a1 + sep.len();
    let b1 = scan_digits(l, b0);
    if b1 == b0 || b1 != l.len() {
        return None;
    }
    let second_digits = sub_chars(l, b0, b1);
    let y = match parse_u64(&second_digits) {
        Some(y) => y,
        None => {
            proof {
                lemma_scan_all_digits(l@, b0 as int, b1 as int);
            }
            return None;
        },
    };
    Some((x, y))
}

/// Everything the digit scan passed over is a digit.
pub(crate) proof fn lemma_digit_run_all(s: Seq<char>, from: int, upto: int)
    requires
        0 <= from <= upto <= s.len(),
        upto == digit_end(s, from),
    ensures
        crate::text::all_digits(s.subrange(from, upto)),
        s.subrange(from, upto).len() == upto - from,
{
    lemma_scan_all_digits(s, from, upto);
}

/// Everything the digit scan passed over is a digit.
proof fn lemma_scan_all_digits(s: Seq<char>, from: int, upto: int)
    requires
        0 <= from <= upto <= s.len(),
        upto == digit_end(s, from),
    ensures
        crate::text::all_digits(s.subrange(from, upto)),
        s.subrange(from, upto).len() == upto - from,
    decreases upto - from,
{
    lemma_digit_end_range(s, from);
    assert forall|i: int| 0 <= i < upto - from implies crate::text::digit_of(
        #[trigger] s.subrange(from, upto)[i],
    ) is Some by {
        lemma_digit_end_digits(s, from, from + i);
        assert(s.subrange(from, upto)[i] == s[from + i]);
    }
}

/// The scan result stays in range.
proof fn lemma_digit_end_range(s: Seq<char>, from: int)
    requires
        0 <= from <= s.len(),
    ensures
        from <= digit_end(s, from) <= s.len(),
    decreases s.len() - from,
{
    if from < s.len() && crate::text::digit_of(s[from]) is Some {
        lemma_digit_end_range(s, from + 1);
    }
}

/// Every position the scan passed over holds a digit.
proof fn lemma_digit_end_digits(s: Seq<char>, from: int, i: int)
    requires
        0 <= from <= i < digit_end(s, from),
        from <= s.len(),
    ensures
        crate::text::digit_of(s[i]) is Some,
    decreases i - from,
{
    if from < i {
        lemma_digit_end_digits(s, from + 1, i);
    }
}

} // verus!
