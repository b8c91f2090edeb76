//! Small verified text helpers shared by the parsers: character
//! extraction, trimming, line splitting and digit reading.

use vstd::prelude::*;
use vstd::std_specs::iter::IteratorSpec;

verus! {

broadcast use vstd::seq_lib::group_seq_properties;

/// The characters of a string slice, as a vector.
pub fn chars_of(s: &str) -> (r: Vec<char>)
    ensures
        r@ == s@,
{
    let mut it = s.chars();
    let mut r: Vec<char> = Vec::new();
    loop
        invariant
            r@ + it.remaining() == s@,
            it.obeys_prophetic_iter_laws(),
            it.decrease() is Some,
        ensures
            r@ == s@,
        decreases it.decrease()->0,
    {
        match it.next() {
            Some(c) => {
                r.push(c);
                proof {
                    assert(r@ + it.remaining() =~= s@);
                }
            },
            None => {
                proof {
                    assert(r@ + it.remaining() =~= r@);
                }
                break ;
            },
        }
    }
    r
}

/// Blank characters stripped by trimming.
pub open spec fn is_blank(c: char) -> bool {
    c == ' ' || c == '\n' || c == '\r' || c == '\t'
}

/// Index of the first non-blank character.
pub open spec fn first_solid(s: Seq<char>, from: int) -> int
    decreases s.len() - from,
{
    if from < 0 || from >= s.len() {
        s.len() as int
    } else if is_blank(s[from]) {
        first_solid(s, from + 1)
    } else {
        from
    }
}

/// Index one past the last non-blank character.
pub open spec fn last_solid(s: Seq<char>, upto: int) -> int
    decreases upto,
{
    if upto <= 0 || upto > s.len() {
        0
    } else if is_blank(s[upto - 1]) {
        last_solid(s, upto - 1)
    } else {
        upto
    }
}

/// The text with blank characters removed from both ends.
pub open spec fn trimmed(s: Seq<char>) -> Seq<char> {
    let a = first_solid(s, 0);
    let b = last_solid(s, s.len() as int);
    if a <= b {
        s.subrange(a, b)
    } else {
        Seq::empty()
    }
}

fn is_blank_exec(c: char) -> (r: bool)
    ensures
        r == is_blank(c),
{
    c == ' ' || c == '\n' || c == '\r' || c == '\t'
}

/// If everything below `upto` is blank the backward scan reaches zero.
proof fn lemma_last_solid_all_blank(s: Seq<char>, upto: int)
    requires
        0 <= upto <= s.len(),
        forall|j: int| 0 <= j < upto ==> is_blank(#[trigger] s[j]),
    ensures
        last_solid(s, upto) == 0,
    decreases upto,
{
    if upto > 0 {
        lemma_last_solid_all_blank(s, upto - 1);
    }
}

/// Trim blanks from both ends.
pub fn trim(v: &Vec<char>) -> (r: Vec<char>)
    ensures
        r@ == trimmed(v@),
{
    let mut a: usize = 0;
    while a < v.len() && is_blank_exec(v[a])
        invariant
            0 <= a <= v@.len(),
            first_solid(v@, 0) == first_solid(v@, a as int),
            forall|j: int| 0 <= j < a ==> is_blank(#[trigger] v@[j]),
        decreases v@.len() - a,
    {
        a = a + 1;
    }
    let mut b: usize = v.len();
    while b > a && is_blank_exec(v[b - 1])
        invariant
            a <= b <= v@.len(),
            a == first_solid(v@, 0) || (a == v@.len() && first_solid(v@, 0) == a),
            first_solid(v@, 0) == a,
            last_solid(v@, v@.len() as int) == last_solid(v@, b as int),
        decreases b,
    {
        b = b - 1;
    }
    let mut r: Vec<char> = Vec::new();
    let mut i: usize = a;
    while i < b
        invariant
            a <= i <= b <= v@.len(),
            r@ == v@.subrange(a as int, i as int),
        decreases b - i,
    {
        r.push(v[i]);
        proof {
            assert(v@.subrange(a as int, i + 1) =~= v@.subrange(a as int, i as int).push(
                v@[i as int],
            ));
        }
        i = i + 1;
    }
    proof {
        if b > a {
            assert(!is_blank(v@[b - 1]));
            assert(last_solid(v@, b as int) == b);
            assert(a < v@.len() && !is_blank(v@[a as int]));
            assert(first_solid(v@, 0) == a);
            assert(trimmed(v@) == v@.subrange(a as int, b as int));
        } else {
            assert(r@ =~= Seq::<char>::empty());
            lemma_last_solid_all_blank(v@, a as int);
            assert(last_solid(v@, v@.len() as int) == 0);
            if a == 0 {
                assert(trimmed(v@) =~= v@.subrange(0, 0));
                assert(trimmed(v@) =~= Seq::<char>::empty());
            } else {
                assert(first_solid(v@, 0) == a > 0);
                assert(trimmed(v@) =~= Seq::<char>::empty());
            }
        }
    }
    r
}

/// The lines of a text: maximal runs split at newline characters.
pub open spec fn line_seqs(s: Seq<char>) -> Seq<Seq<char>>
    decreases s.len(),
{
    if s.len() == 0 {
        Seq::empty()
    } else {
        let n = first_newline(s, 0);
        if 0 <= n < s.len() {
            seq![s.subrange(0, n)] + line_seqs(s.subrange(n + 1, s.len() as int))
        } else {
            seq![s]
        }
    }
}

/// Index of the first newline at or after `from`.
pub open spec fn first_newline(s: Seq<char>, from: int) -> int
    decreases s.len() - from,
{
    if from < 0 || from >= s.len() {
        s.len() as int
    } else if s[from] == '\n' {
        from
    } else {
        first_newline(s, from + 1)
    }
}

/// Split a text into its lines.
pub fn split_lines(v: &Vec<char>) -> (r: Vec<Vec<char>>)
    ensures
        r@.map_values(|l: Vec<char>| l@) == line_seqs(v@),
{
    let mut r: Vec<Vec<char>> = Vec::new();
    let mut start: usize = 0;
    let ghost orig = v@;
    while start < v.len()
        invariant
            0 <= start <= v@.len(),
            line_seqs(v@) =~= r@.map_values(|l: Vec<char>| l@) + line_seqs(
                v@.subrange(start as int, v@.len() as int),
            ),
            start > 0 ==> (start == v@.len() || v@[start - 1] == '\n') && r@.len() > 0 || start
                == 0,
        decreases v@.len() - start,
    {
        let ghost rest = v@.subrange(start as int, v@.len() as int);
        let mut e: usize = start;
        while e < v.len() && v[e] != '\n'
            invariant
                start <= e <= v@.len(),
                forall|j: int| start <= j < e ==> v@[j] != '\n',
            decreases v@.len() - e,
        {
            e = e + 1;
        }
        let mut line: Vec<char> = Vec::new();
        let mut i: usize = start;
        while i < e
            invariant
                start <= i <= e <= v@.len(),
                line@ == v@.subrange(start as int, i as int),
            decreases e - i,
        {
            line.push(v[i]);
            proof {
                assert(v@.subrange(start as int, i + 1) =~= v@.subrange(
                    start as int,
                    i as int,
                ).push(v@[i as int]));
            }
            i = i + 1;
        }
        proof {
            assert(rest.len() > 0);
            assert forall|j: int| 0 <= j < e - start implies rest[j] != '\n' by {
                assert(rest[j] == v@[start + j]);
            }
            if e < v@.len() {
                assert(rest[e - start] == '\n');
            }
            lemma_first_newline_at(rest, (e - start) as int);
            assert(first_newline(rest, 0) == e - start);
            assert(line@ =~= rest.subrange(0, e - start));
            if e == v@.len() {
                assert(line_seqs(rest) =~= seq![rest]);
                assert(rest =~= line@);
            } else {
                assert(rest.subrange(e - start + 1, rest.len() as int) =~= v@.subrange(
                    e + 1,
                    v@.len() as int,
                ));
            }
        }
        let ghost old_r = r@;
        r.push(line);
        proof {
            assert(r@.map_values(|l: Vec<char>| l@) =~= old_r.map_values(|l: Vec<char>| l@).push(
                line@,
            ));
        }
        if e >= v.len() {
            proof {
                assert(line_seqs(v@) =~= r@.map_values(|l: Vec<char>| l@));
            }
            return r;
        }
        start = e + 1;
        proof {
            if start > v@.len() {
            } else {
                assert(line_seqs(v@) =~= r@.map_values(|l: Vec<char>| l@) + line_seqs(
                    v@.subrange(start as int, v@.len() as int),
                ));
            }
        }
    }
    proof {
        assert(v@.subrange(start as int, v@.len() as int).len() == 0);
        assert(line_seqs(v@) =~= r@.map_values(|l: Vec<char>| l@));
    }
    r
}

/// Where the scan stops is the first newline.
proof fn lemma_first_newline_at(s: Seq<char>, e: int)
    requires
        0 <= e <= s.len(),
        forall|j: int| 0 <= j < e ==> s[j] != '\n',
        e < s.len() ==> s[e] == '\n',
    ensures
        first_newline(s, 0) == e,
{
    lemma_first_newline_from(s, 0, e);
}

proof fn lemma_first_newline_from(s: Seq<char>, from: int, e: int)
    requires
        0 <= from <= e <= s.len(),
        forall|j: int| from <= j < e ==> s[j] != '\n',
        e < s.len() ==> s[e] == '\n',
    ensures
        first_newline(s, from) == e,
    decreases e - from,
{
    if from < e {
        lemma_first_newline_from(s, from + 1, e);
    }
}

/// Digit value of a character, if it is a decimal digit.
pub open spec fn digit_of(c: char) -> Option<int> {
    if '0' <= c && c <= '9' {
        Some(c as int - '0' as int)
    } else {
        None
    }
}

/// The base-10 value of a digit run.
pub open spec fn digits_value(s: Seq<char>) -> int
    decreases s.len(),
{
    if s.len() == 0 {
        0
    } else {
        digits_value(s.drop_last()) * 10 + (s.last() as int - '0' as int)
    }
}

/// All characters are decimal digits.
pub open spec fn all_digits(s: Seq<char>) -> bool {
    forall|i: int| 0 <= i < s.len() ==> digit_of(#[trigger] s[i]) is Some
}

/// Parse a run of decimal digits as an unsigned number; None when the
/// run is empty, holds another character, or exceeds the u64 range.
pub fn parse_u64(v: &Vec<char>) -> (r: Option<u64>)
    ensures
        r matches Some(x) ==> v@.len() > 0 && all_digits(v@) && x as int == digits_value(v@),
        r is None ==> v@.len() == 0 || !all_digits(v@) || digits_value(v@) > u64::MAX,
{
    if v.len() == 0 {
        return None;
    }
    let mut acc: u64 = 0;
    let mut i: usize = 0;
    while i < v.len()
        invariant
            0 <= i <= v@.len(),
            acc as int == digits_value(v@.take(i as int)),
            all_digits(v@.take(i as int)),
        decreases v@.len() - i,
    {
        let c = v[i];
        if !(c >= '0' && c <= '9') {
            proof {
                assert(digit_of(v@[i as int]) is None);
            }
            return None;
        }
        let d: u64 = (c as u32 - '0' as u32) as u64;
        proof {
            assert(d as int == v@[i as int] as int - '0' as int);
            assert(v@.take(i + 1).drop_last() =~= v@.take(i as int));
            assert(v@.take(i + 1).last() == v@[i as int]);
            assert forall|j: int| 0 <= j < i + 1 implies digit_of(
                #[trigger] v@.take(i + 1)[j],
            ) is Some by {
                if j < i {
                    assert(v@.take(i as int)[j] == v@.take(i + 1)[j]);
                }
            }
        }
        let m = match acc.checked_mul(10) {
            Some(m) => m,
            None => {
                proof {
                    if all_digits(v@) {
                        lemma_digits_value_prefix(v@, i + 1);
                        lemma_digits_value_nonneg(v@.take(i as int));
                    }
                }
                return None;
            },
        };
        let a2 = match m.checked_add(d) {
            Some(a2) => a2,
            None => {
                proof {
                    if all_digits(v@) {
                        lemma_digits_value_prefix(v@, i + 1);
                        lemma_digits_value_nonneg(v@.take(i as int));
                    }
                }
                return None;
            },
        };
        acc = a2;
        i = i + 1;
    }
    proof {
        assert(v@.take(v@.len() as int) =~= v@);
    }
    Some(acc)
}

pub proof fn lemma_digits_value_nonneg(s: Seq<char>)
    ensures
        all_digits(s) ==> digits_value(s) >= 0,
    decreases s.len(),
{
    if s.len() > 0 {
        assert forall|i: int| 0 <= i < s.drop_last().len() implies digit_of(
            #[trigger] s.drop_last()[i],
        ) is Some || !all_digits(s) by {
            if all_digits(s) {
                assert(s.drop_last()[i] == s[i]);
            }
        }
        lemma_digits_value_nonneg(s.drop_last());
        if all_digits(s) {
            assert(all_digits(s.drop_last()));
            assert(digits_value(s.drop_last()) * 10 >= digits_value(s.drop_last()))
                by (nonlinear_arith)
                requires
                    digits_value(s.drop_last()) >= 0,
            ;
            assert(digit_of(s.last()) is Some);
        }
    }
}

/// A digit run's prefix value never exceeds the full value.
pub proof fn lemma_digits_value_prefix(s: Seq<char>, n: int)
    requires
        0 <= n <= s.len(),
        all_digits(s),
    ensures
        digits_value(s.take(n)) <= digits_value(s),
    decreases s.len() - n,
{
    if n < s.len() {
        lemma_digits_value_prefix(s, n + 1);
        assert(s.take(n + 1).drop_last() =~= s.take(n));
        assert forall|i: int| 0 <= i < n implies digit_of(#[trigger] s.take(n)[i]) is Some by {
            assert(s.take(n)[i] == s[i]);
        }
        lemma_digits_value_nonneg(s.take(n));
        assert(digit_of(s.take(n + 1).last()) is Some) by {
            assert(s.take(n + 1).last() == s[n]);
        }
        assert(digits_value(s.take(n)) * 10 >= digits_value(s.take(n))) by (nonlinear_arith)
            requires
                digits_value(s.take(n)) >= 0,
        ;
    } else {
        assert(s.take(n) =~= s);
    }
}

} // verus!

verus! {

/// Copy of a subrange of characters.
pub fn sub_chars(v: &Vec<char>, a: usize, b: usize) -> (r: Vec<char>)
    requires
        a <= b <= v@.len(),
    ensures
        r@ == v@.subrange(a as int, b as int),
{
    let mut r: Vec<char> = Vec::new();
    let mut i: usize = a;
    while i < b
        invariant
            a <= i <= b <= v@.len(),
            r@ == v@.subrange(a as int, i as int),
        decreases b - i,
    {
        r.push(v[i]);
        proof {
            assert(v@.subrange(a as int, i + 1) =~= v@.subrange(a as int, i as int).push(
                v@[i as int],
            ));
        }
        i = i + 1;
    }
    r
}

/// The pattern appears in the text at the given position.
pub open spec fn is_seq_at(l: Seq<char>, at: int, p: Seq<char>) -> bool {
    0 <= at && at + p.len() <= l.len() && l.subrange(at, at + p.len()) == p
}

pub fn seq_at(v: &Vec<char>, at: usize, p: &Vec<char>) -> (r: bool)
    ensures
        r == is_seq_at(v@, at as int, p@),
{
    if at > v.len() || v.len() - at < p.len() {
        return false;
    }
    let n = v.len();
    let mut i: usize = 0;
    while i < p.len()
        invariant
            n == v@.len(),
            at + p@.len() <= v@.len(),
            0 <= i <= p@.len(),
            forall|j: int| 0 <= j < i ==> v@[at + j] == p@[j],
        decreases p@.len() - i,
    {
        proof {
            assert(at + i < v@.len());
        }
        let vi = at + i;
        if v[vi] != p[i] {
            proof {
                assert(v@.subrange(at as int, at + p@.len())[i as int] != p@[i as int]);
            }
            return false;
        }
        i = i + 1;
    }
    proof {
        assert(v@.subrange(at as int, at + p@.len()) =~= p@);
    }
    true
}

/// Index of the first non-digit character at or after `from`.
pub open spec fn digit_end(s: Seq<char>, from: int) -> int
    decreases s.len() - from,
{
    if from < 0 || from >= s.len() {
        s.len() as int
    } else if digit_of(s[from]) is Some {
        digit_end(s, from + 1)
    } else {
        from
    }
}

pub fn scan_digits(v: &Vec<char>, from: usize) -> (r: usize)
    requires
        from <= v@.len(),
    ensures
        r == digit_end(v@, from as int),
        from <= r <= v@.len(),
{
    let mut i: usize = from;
    while i < v.len() && v[i] >= '0' && v[i] <= '9'
        invariant
            from <= i <= v@.len(),
            digit_end(v@, from as int) == digit_end(v@, i as int),
        decreases v@.len() - i,
    {
        i = i + 1;
    }
    i
}

} // verus!

verus! {

proof fn lemma_first_solid_range(s: Seq<char>, from: int)
    requires
        0 <= from <= s.len(),
    ensures
        from <= first_solid(s, from) <= s.len(),
    decreases s.len() - from,
{
    if from < s.len() && is_blank(s[from]) {
        lemma_first_solid_range(s, from + 1);
    }
}

proof fn lemma_last_solid_range(s: Seq<char>, upto: int)
    requires
        0 <= upto <= s.len(),
    ensures
        0 <= last_solid(s, upto) <= upto,
    decreases upto,
{
    if upto > 0 && is_blank(s[upto - 1]) {
        lemma_last_solid_range(s, upto - 1);
    }
}

/// Trimming never lengthens a text.
pub proof fn lemma_trimmed_len(s: Seq<char>)
    ensures
        trimmed(s).len() <= s.len(),
{
    lemma_first_solid_range(s, 0);
    lemma_last_solid_range(s, s.len() as int);
}

/// A text has at most one line per character (and none when empty).
pub proof fn lemma_line_count(s: Seq<char>)
    ensures
        line_seqs(s).len() <= s.len(),
    decreases s.len(),
{
    if s.len() > 0 {
        let n = first_newline(s, 0);
        if 0 <= n < s.len() {
            lemma_line_count(s.subrange(n + 1, s.len() as int));
        }
    }
}

} // verus!

verus! {

pub proof fn lemma_first_newline_bounds(s: Seq<char>, from: int)
    requires
        0 <= from <= s.len(),
    ensures
        from <= first_newline(s, from) <= s.len(),
    decreases s.len() - from,
{
    if from < s.len() && s[from] != '\n' {
        lemma_first_newline_bounds(s, from + 1);
    }
}

/// Positions before the first newline hold no newline.
pub proof fn lemma_first_newline_solid(s: Seq<char>, from: int, j: int)
    requires
        0 <= from <= j < first_newline(s, from),
        from <= s.len(),
    ensures
        j < s.len() && s[j] != '\n',
    decreases j - from,
{
    lemma_first_newline_bounds(s, from);
    if from < j {
        lemma_first_newline_solid(s, from + 1, j);
    }
}

/// Every character of the trimmed text occurs in the untrimmed text.
pub proof fn lemma_trimmed_chars(s: Seq<char>)
    ensures
        forall|c: char| trimmed(s).contains(c) ==> s.contains(c),
{
    lemma_first_solid_range(s, 0);
    lemma_last_solid_range(s, s.len() as int);
    assert forall|c: char| trimmed(s).contains(c) implies s.contains(c) by {
        let j = choose|j: int| 0 <= j < trimmed(s).len() && trimmed(s)[j] == c;
        let a = first_solid(s, 0);
        assert(s[a + j] == c);
    }
}

} // verus!
