//! Falling bytes corrupt a square memory grid; the shortest safe route
//! between two corners is found with an A* search from an outside crate.

use vstd::prelude::*;
use vstd::pervasive::VecAdditionalExecFns;
use crate::text::{chars_of, line_seqs, trim, trimmed};
use crate::claw::{spec_two_nums, two_nums};

verus! {

broadcast use vstd::seq_lib::group_seq_properties;

/// The grid: true marks a corrupted cell.
pub struct MemorySpace {
    pub size: usize,
    pub tiles: Vec<Vec<bool>>,
}

impl MemorySpace {
    pub open spec fn grid(self) -> Seq<Seq<bool>> {
        self.tiles@.map_values(|row: Vec<bool>| row@)
    }

    /// A square grid of the declared size.
    pub open spec fn wf(self) -> bool {
        &&& self.grid().len() == self.size
        &&& forall|y: int| 0 <= y < self.size ==> (#[trigger] self.grid()[y]).len() == self.size
    }

    /// An intact cell inside the grid.
    pub open spec fn open_cell(self, x: int, y: int) -> bool {
        0 <= x < self.size && 0 <= y < self.size && !self.grid()[y][x]
    }

    /// An all-clear square grid.
    pub fn new(size: usize) -> (r: MemorySpace)
        ensures
            r.wf(),
            r.size == size,
            forall|x: int, y: int| 0 <= x < size && 0 <= y < size ==> r.open_cell(x, y),
    {
        let mut tiles: Vec<Vec<bool>> = Vec::new();
        let mut y: usize = 0;
        while y < size
            invariant
                0 <= y <= size,
                tiles@.len() == y,
                forall|t: int| 0 <= t < y ==> (#[trigger] tiles@[t])@.len() == size,
                forall|t: int, u: int|
                    #![trigger tiles@[t]@[u]]
                    0 <= t < y && 0 <= u < size ==> !tiles@[t]@[u],
            decreases size - y,
        {
            let mut row: Vec<bool> = Vec::new();
            let mut x: usize = 0;
            while x < size
                invariant
                    0 <= x <= size,
                    row@.len() == x,
                    forall|u: int| 0 <= u < x ==> !(#[trigger] row@[u]),
                decreases size - x,
            {
                row.push(false);
                x = x + 1;
            }
            tiles.push(row);
            y = y + 1;
        }
        MemorySpace { size, tiles }
    }

    /// Mark one cell corrupted or intact.
    pub fn set(&mut self, coordinate: &(usize, usize), value: bool)
        requires
            old(self).wf(),
            coordinate.0 < old(self).size,
            coordinate.1 < old(self).size,
        ensures
            final(self).wf(),
            final(self).size == old(self).size,
            final(self).grid() =~= old(self).grid().update(
                coordinate.1 as int,
                old(self).grid()[coordinate.1 as int].update(coordinate.0 as int, value),
            ),
    {
        proof {
            assert(self.grid().len() == self.size);
            assert(self.grid()[coordinate.1 as int].len() == self.size);
            assert(self.tiles@.len() == self.size);
            assert(self.tiles@[coordinate.1 as int]@.len() == self.size);
        }
        let row = &mut self.tiles[coordinate.1];
        row.set(coordinate.0, value);
        proof {
            assert forall|y: int| 0 <= y < self.size implies (#[trigger] self.grid()[y]).len()
                == self.size by {
                if y != coordinate.1 as int {
                    assert(self.grid()[y] == old(self).grid()[y]);
                }
            }
        }
    }

    /// The intact neighbours of a cell, each one step away, in the search
    /// order of the route finder.
    pub fn successors(&self, x: usize, y: usize) -> (r: Vec<((usize, usize), usize)>)
        requires
            self.wf(),
        ensures
            r@ == spec_successors(*self, x as int, y as int),
    {
        proof {
            assert(self.tiles@.len() == self.size);
            assert forall|t: int| 0 <= t < self.size implies (#[trigger] self.tiles@[t])@.len()
                == self.size by {
                assert(self.grid()[t] == self.tiles@[t]@);
            }
        }
        let mut r: Vec<((usize, usize), usize)> = Vec::new();
        if y > 0 && x < self.size && y - 1 < self.size && !self.tiles[y - 1][x] {
            r.push(((x, y - 1), 1));
        }
        if x < self.size && y < self.size && self.size - y > 1 && !self.tiles[y + 1][x] {
            r.push(((x, y + 1), 1));
        }
        if x > 0 && x - 1 < self.size && y < self.size && !self.tiles[y][x - 1] {
            r.push(((x - 1, y), 1));
        }
        if y < self.size && x < self.size && self.size - x > 1 && !self.tiles[y][x + 1] {
            r.push(((x + 1, y), 1));
        }
        proof {
            assert(r@ =~= spec_successors(*self, x as int, y as int));
        }
        r
    }
}

/// The intact neighbours of a cell with unit costs, in fixed order.
pub open spec fn spec_successors(m: MemorySpace, x: int, y: int) -> Seq<((usize, usize), usize)> {
    (if m.open_cell(x, y - 1) {
        seq![(((x as usize), ((y - 1) as usize)), 1usize)]
    } else {
        Seq::empty()
    }) + (if m.open_cell(x, y + 1) {
        seq![(((x as usize), ((y + 1) as usize)), 1usize)]
    } else {
        Seq::empty()
    }) + (if m.open_cell(x - 1, y) {
        seq![((((x - 1) as usize), (y as usize)), 1usize)]
    } else {
        Seq::empty()
    }) + (if m.open_cell(x + 1, y) {
        seq![((((x + 1) as usize), (y as usize)), 1usize)]
    } else {
        Seq::empty()
    })
}

} // verus!

verus! {

/// Two cells one orthogonal step apart.
pub open spec fn adjacent(a: (usize, usize), b: (usize, usize)) -> bool {
    (a.0 == b.0 && (a.1 + 1 == b.1 || b.1 + 1 == a.1)) || (a.1 == b.1 && (a.0 + 1 == b.0 || b.0
        + 1 == a.0))
}

/// A route from s to e: it starts at s, ends at e, moves one step at a
/// time, and touches no corrupted cell after the start.
pub open spec fn is_route(m: MemorySpace, s: (usize, usize), e: (usize, usize), p: Seq<
    (usize, usize),
>) -> bool {
    &&& p.len() > 0
    &&& p[0] == s
    &&& p.last() == e
    &&& forall|i: int| 0 <= i < p.len() - 1 ==> adjacent(#[trigger] p[i], p[i + 1])
    &&& forall|i: int|
        1 <= i < p.len() ==> m.open_cell((#[trigger] p[i]).0 as int, p[i].1 as int)
}

impl MemorySpace {
    /// Relies on pathfinding's astar: with the verified successor lists
    /// (unit costs), a zero heuristic (trivially admissible), and exact
    /// goal equality, it returns the cost of a cheapest route from start
    /// to a goal node, or None when no node reachable through the
    /// successor lists satisfies the goal.  A cost c means a route of
    /// c + 1 cells that no shorter route undercuts.
    #[verifier::external_body]
    fn astar_len(&self, start: &(usize, usize), end: &(usize, usize)) -> (r: Option<usize>)
        requires
            self.wf(),
        ensures
            r matches Some(c) ==> exists|p: Seq<(usize, usize)>|
                #[trigger] is_route(*self, *start, *end, p) && p.len() == c + 1 && forall|
                    q: Seq<(usize, usize)>,
                |
                    is_route(*self, *start, *end, q) ==> q.len() >= c + 1,
            r is None ==> forall|p: Seq<(usize, usize)>| !is_route(*self, *start, *end, p),
    {
        let result = pathfinding::directed::astar::astar(
            start,
            |&(x, y): &(usize, usize)| self.successors(x, y),
            |_p: &(usize, usize)| 0usize,
            |p: &(usize, usize)| p == end,
        );
        result.map(|(_, cost)| cost)
    }

    /// Length of a shortest route between two cells, measured in steps;
    /// None when the target cannot be reached.
    pub fn find_shortest_path_len(&self, start: &(usize, usize), end: &(usize, usize)) -> (r:
        Option<usize>)
        requires
            self.wf(),
        ensures
            r matches Some(c) ==> exists|p: Seq<(usize, usize)>|
                #[trigger] is_route(*self, *start, *end, p) && p.len() == c + 1 && forall|
                    q: Seq<(usize, usize)>,
                |
                    is_route(*self, *start, *end, q) ==> q.len() >= c + 1,
            r is None ==> forall|p: Seq<(usize, usize)>| !is_route(*self, *start, *end, p),
    {
        self.astar_len(start, end)
    }
}

/// The coordinate pairs of a text, one x,y pair per line.
pub open spec fn spec_parse_coordinates(s: Seq<char>) -> Option<Seq<(usize, usize)>> {
    spec_coord_lines(line_seqs(trimmed(s)))
}

pub open spec fn spec_coord_lines(lines: Seq<Seq<char>>) -> Option<Seq<(usize, usize)>>
    decreases lines.len(),
{
    if lines.len() == 0 {
        Some(Seq::empty())
    } else {
        let rest = spec_coord_lines(lines.drop_last());
        let last = spec_two_nums(crate::text::trimmed(lines.last()), Seq::empty(), ","@);
        match (rest, last) {
            (Some(r), Some(p)) => {
                if p.0 <= 0xffffffff && p.1 <= 0xffffffff {
                    Some(r.push(((p.0 as usize), (p.1 as usize))))
                } else {
                    None
                }
            },
            _ => None,
        }
    }
}

/// Parse falling-byte coordinates; None when a line is not a pair of
/// small numbers.
pub fn parse_coordinates(input: &str) -> (r: Option<Vec<(usize, usize)>>)
    ensures
        match r {
            Some(v) => spec_parse_coordinates(input@) == Some(v@),
            None => spec_parse_coordinates(input@) is None,
        },
{
    let cs = chars_of(input);
    let t = trim(&cs);
    let lines = crate::text::split_lines(&t);
    let ghost glines = line_seqs(trimmed(input@));
    let empty_pre: Vec<char> = Vec::new();
    let sep = chars_of(",");
    let mut r: Vec<(usize, usize)> = Vec::new();
    let mut i: usize = 0;
    while i < lines.len()
        invariant
            glines == line_seqs(trimmed(input@)),
            lines@.map_values(|l: Vec<char>| l@) == glines,
            empty_pre@ == Seq::<char>::empty(),
            sep@ == ","@,
            0 <= i <= glines.len(),
            spec_coord_lines(glines.take(i as int)) == Some(r@),
        decreases glines.len() - i,
    {
        let lt = trim(&lines[i]);
        proof {
            assert(glines.take(i + 1).drop_last() =~= glines.take(i as int));
            assert(glines.take(i + 1).last() == glines[i as int]);
            assert(lines@.map_values(|l: Vec<char>| l@)[i as int] == glines[i as int]);
        }
        let p = match two_nums(&lt, &empty_pre, &sep) {
            Some(p) => p,
            None => {
                proof {
                    lemma_coord_lines_poison(glines, i as int);
                }
                return None;
            },
        };
        if p.0 > 0xffffffff || p.1 > 0xffffffff {
            proof {
                lemma_coord_lines_poison(glines, i as int);
            }
            return None;
        }
        r.push((p.0 as usize, p.1 as usize));
        i = i + 1;
    }
    proof {
        assert(glines.take(glines.len() as int) =~= glines);
    }
    Some(r)
}

/// One bad line poisons the whole parse.
proof fn lemma_coord_lines_poison(lines: Seq<Seq<char>>, i: int)
    requires
        0 <= i < lines.len(),
        ({
            let last = spec_two_nums(crate::text::trimmed(lines[i]), Seq::empty(), ","@);
            last is None || last->Some_0.0 > 0xffffffff || last->Some_0.1 > 0xffffffff
        }),
    ensures
        spec_coord_lines(lines) is None,
    decreases lines.len(),
{
    if lines.len() > 0 {
        if i == lines.len() - 1 {
        } else {
            lemma_coord_lines_poison(lines.drop_last(), i);
        }
    }
}

} // verus!
