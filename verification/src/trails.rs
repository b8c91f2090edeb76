//! Hill trails: a height grid, the graph of single-step ascents, the
//! summits reachable from each trailhead, and the count of distinct
//! ascending paths.

use vstd::prelude::*;
use crate::text::{chars_of, digit_of, line_seqs, trim, trimmed};

verus! {

broadcast use vstd::seq_lib::group_seq_properties;

/// One cell: impassable or at a height.
#[derive(Clone, Copy, PartialEq, Eq, Structural, Debug)]
pub enum Tile {
    Empty,
    Height(usize),
}

/// The tile a map character denotes.
pub open spec fn tile_of_char(c: char) -> Tile {
    if c == '.' || c == '\n' {
        Tile::Empty
    } else {
        Tile::Height(digit_of(c)->Some_0 as usize)
    }
}

/// The height grid.
pub struct TrailMap {
    pub map: Vec<Vec<Tile>>,
}

impl TrailMap {
    /// The grid as a mathematical object.
    pub open spec fn grid(self) -> Seq<Seq<Tile>> {
        self.map@.map_values(|row: Vec<Tile>| row@)
    }

    /// Every height is a single digit.
    pub open spec fn wf(self) -> bool {
        forall|y: int, x: int|
            #![trigger self.grid()[y][x]]
            0 <= y < self.grid().len() && 0 <= x < self.grid()[y].len() ==> ((
            self.grid()[y][x]) matches Tile::Height(h) ==> h <= 9)
    }

    /// Parse a map: dots are impassable, digits are heights.
    pub fn parse(input: &str) -> (r: TrailMap)
        requires
            forall|i: int|
                0 <= i < input@.len() ==> (#[trigger] input@[i]) == '.' || input@[i] == '\n'
                    || digit_of(input@[i]) is Some,
        ensures
            r.grid() == line_seqs(trimmed(input@)).map_values(
                |l: Seq<char>| l.map_values(|c: char| tile_of_char(c)),
            ),
            r.wf(),
    {
        let cs = chars_of(input);
        let t = trim(&cs);
        let lines = crate::text::split_lines(&t);
        let ghost glines = line_seqs(trimmed(input@));
        let mut rows: Vec<Vec<Tile>> = Vec::new();
        let mut y: usize = 0;
        while y < lines.len()
            invariant
                glines == line_seqs(trimmed(input@)),
                lines@.map_values(|l: Vec<char>| l@) == glines,
                forall|i: int|
                    0 <= i < input@.len() ==> (#[trigger] input@[i]) == '.' || input@[i] == '\n'
                        || digit_of(input@[i]) is Some,
                0 <= y <= lines@.len(),
                rows@.map_values(|row: Vec<Tile>| row@) =~= glines.take(y as int).map_values(
                    |l: Seq<char>| l.map_values(|c: char| tile_of_char(c)),
                ),
                forall|y2: int, x: int|
                    #![trigger rows@[y2]@[x]]
                    0 <= y2 < rows@.len() && 0 <= x < rows@[y2]@.len() ==> (rows@[y2]@[x]
                        matches Tile::Height(h) ==> h <= 9),
            decreases lines@.len() - y,
        {
            let line = &lines[y];
            let ghost gl = glines[y as int];
            proof {
                assert(gl == lines@.map_values(|l: Vec<char>| l@)[y as int]);
                lemma_line_chars_from_input(input@, y as int);
            }
            let mut row: Vec<Tile> = Vec::new();
            let mut x: usize = 0;
            while x < line.len()
                invariant
                    gl == line@,
                    forall|j: int|
                        0 <= j < gl.len() ==> (#[trigger] gl[j]) == '.' || digit_of(
                            gl[j],
                        ) is Some,
                    0 <= x <= line@.len(),
                    row@ =~= gl.take(x as int).map_values(|c: char| tile_of_char(c)),
                    forall|j: int|
                        0 <= j < row@.len() ==> ((#[trigger] row@[j]) matches Tile::Height(h)
                            ==> h <= 9),
                decreases line@.len() - x,
            {
                let c = line[x];
                let tile: Tile = if c == '.' {
                    Tile::Empty
                } else {
                    let d: usize = (c as u32 as usize) - ('0' as u32 as usize);
                    proof {
                        assert(digit_of(gl[x as int]) is Some);
                        assert(d == digit_of(gl[x as int])->Some_0);
                    }
                    Tile::Height(d)
                };
                row.push(tile);
                proof {
                    assert(gl.take(x + 1).map_values(|c2: char| tile_of_char(c2)) =~= gl.take(
                        x as int,
                    ).map_values(|c2: char| tile_of_char(c2)).push(tile_of_char(gl[x as int])));
                    assert(tile == tile_of_char(gl[x as int]));
                }
                x = x + 1;
            }
            proof {
                assert(gl.take(gl.len() as int) =~= gl);
            }
            let ghost rows0 = rows@;
            rows.push(row);
            proof {
                assert(glines.take(y + 1) =~= glines.take(y as int).push(gl));
                assert(rows@.map_values(|r2: Vec<Tile>| r2@) =~= rows0.map_values(
                    |r2: Vec<Tile>| r2@,
                ).push(row@));
                assert(row@ =~= gl.map_values(|c2: char| tile_of_char(c2)));
                assert(glines.take(y + 1).map_values(
                    |l: Seq<char>| l.map_values(|c2: char| tile_of_char(c2)),
                ) =~= glines.take(y as int).map_values(
                    |l: Seq<char>| l.map_values(|c2: char| tile_of_char(c2)),
                ).push(gl.map_values(|c2: char| tile_of_char(c2))));
                assert forall|y2: int, x: int|
                    #![trigger rows@[y2]@[x]]
                    0 <= y2 < rows@.len() && 0 <= x < rows@[y2]@.len() implies ((rows@[y2]@[x])
                    matches Tile::Height(h) ==> h <= 9) by {
                    if y2 < rows0.len() {
                        assert(rows@[y2] == rows0[y2]);
                    } else {
                        assert(rows@[y2]@ == row@);
                    }
                }
            }
            y = y + 1;
        }
        proof {
            assert(glines.take(glines.len() as int) =~= glines);
        }
        TrailMap { map: rows }
    }

    /// The tile at a position, if it is on the map.
    pub fn get(&self, x: usize, y: usize) -> (r: Option<Tile>)
        ensures
            r == spec_get(self.grid(), x as int, y as int),
    {
        if y < self.map.len() {
            let row = &self.map[y];
            if x < row.len() {
                return Some(row[x]);
            }
        }
        None
    }

    /// Width of the first row (zero when there are no rows).
    pub fn width(&self) -> (r: usize)
        ensures
            r == spec_width(self.grid()),
    {
        if self.map.len() == 0 {
            0
        } else {
            self.map[0].len()
        }
    }

    /// Number of rows.
    pub fn height(&self) -> (r: usize)
        ensures
            r == self.grid().len(),
    {
        self.map.len()
    }
}

/// A space never denotes a height; the parser precondition keeps it out of
/// map rows, so this lemma carries the character facts into each line.
proof fn lemma_line_chars_from_input(s: Seq<char>, y: int)
    requires
        forall|i: int|
            0 <= i < s.len() ==> (#[trigger] s[i]) == '.' || s[i] == '\n' || digit_of(
                s[i],
            ) is Some,
        0 <= y < line_seqs(trimmed(s)).len(),
    ensures
        forall|j: int|
            0 <= j < line_seqs(trimmed(s))[y].len() ==> (#[trigger] line_seqs(trimmed(s))[y][j])
                == '.' || digit_of(line_seqs(trimmed(s))[y][j]) is Some,
{
    crate::text::lemma_trimmed_chars(s);
    lemma_line_chars(trimmed(s), y);
    assert forall|j: int| 0 <= j < line_seqs(trimmed(s))[y].len() implies (
    #[trigger] line_seqs(trimmed(s))[y][j]) == '.' || digit_of(
        line_seqs(trimmed(s))[y][j],
    ) is Some by {
        let c = line_seqs(trimmed(s))[y][j];
        assert(trimmed(s).contains(c));
        assert(s.contains(c));
        let i = choose|i: int| 0 <= i < s.len() && s[i] == c;
        assert(c != '\n');
    }
}

/// Characters of every line come from the text and exclude newlines.
proof fn lemma_line_chars(s: Seq<char>, y: int)
    requires
        0 <= y < line_seqs(s).len(),
    ensures
        forall|j: int|
            0 <= j < line_seqs(s)[y].len() ==> s.contains(#[trigger] line_seqs(s)[y][j])
                && line_seqs(s)[y][j] != '\n',
    decreases s.len(),
{
    if s.len() > 0 {
        let n = crate::text::first_newline(s, 0);
        if 0 <= n < s.len() {
            if y == 0 {
                assert forall|j: int| 0 <= j < line_seqs(s)[0].len() implies s.contains(
                    #[trigger] line_seqs(s)[0][j],
                ) && line_seqs(s)[0][j] != '\n' by {
                    assert(line_seqs(s)[0][j] == s[j]);
                    crate::text::lemma_first_newline_solid(s, 0, j);
                }
            } else {
                let rest = s.subrange(n + 1, s.len() as int);
                lemma_line_chars(rest, y - 1);
                assert forall|j: int| 0 <= j < line_seqs(s)[y].len() implies s.contains(
                    #[trigger] line_seqs(s)[y][j],
                ) && line_seqs(s)[y][j] != '\n' by {
                    assert(line_seqs(s)[y] == line_seqs(rest)[y - 1]);
                    assert(rest.contains(line_seqs(rest)[y - 1][j]));
                    let k = choose|k: int|
                        0 <= k < rest.len() && #[trigger] rest[k] == line_seqs(rest)[y - 1][j];
                    assert(s[n + 1 + k] == rest[k]);
                }
            }
        } else {
            proof_first_newline_is_len(s);
            assert forall|j: int| 0 <= j < line_seqs(s)[y].len() implies s.contains(
                #[trigger] line_seqs(s)[y][j],
            ) && line_seqs(s)[y][j] != '\n' by {
                assert(line_seqs(s)[y][j] == s[j]);
                crate::text::lemma_first_newline_solid(s, 0, j);
            }
        }
    }
}

proof fn proof_first_newline_is_len(s: Seq<char>)
    ensures
        0 <= crate::text::first_newline(s, 0) <= s.len(),
{
    crate::text::lemma_first_newline_bounds(s, 0);
}

/// The tile at a position of a grid.
pub open spec fn spec_get(g: Seq<Seq<Tile>>, x: int, y: int) -> Option<Tile> {
    if 0 <= y < g.len() && 0 <= x < g[y].len() {
        Some(g[y][x])
    } else {
        None
    }
}

/// Width of the first row.
pub open spec fn spec_width(g: Seq<Seq<Tile>>) -> int {
    if g.len() == 0 {
        0
    } else {
        g[0].len() as int
    }
}

} // verus!

verus! {

/// The in-bounds orthogonal neighbours of a cell, in scan order.
pub open spec fn spec_neighbors(x: usize, y: usize, w: int, h: int) -> Seq<(usize, usize)> {
    (if x > 0 {
        seq![(((x - 1) as usize), y)]
    } else {
        Seq::empty()
    }) + (if y > 0 {
        seq![(x, ((y - 1) as usize))]
    } else {
        Seq::empty()
    }) + (if x + 1 < w {
        seq![(((x + 1) as usize), y)]
    } else {
        Seq::empty()
    }) + (if y + 1 < h {
        seq![(x, ((y + 1) as usize))]
    } else {
        Seq::empty()
    })
}

/// Positions one step up from (x, y): neighbours whose height is exactly
/// one more.
pub open spec fn spec_edges(g: Seq<Seq<Tile>>, x: usize, y: usize) -> Seq<(usize, usize)> {
    match spec_get(g, x as int, y as int) {
        Some(Tile::Height(hh)) => spec_neighbors(x, y, spec_width(g), g.len() as int).filter(
            |p: (usize, usize)| spec_get(g, p.0 as int, p.1 as int) == Some(
                Tile::Height((hh + 1) as usize),
            ),
        ),
        _ => Seq::empty(),
    }
}

/// b is reachable from a in at most k ascending steps.
pub open spec fn reach_in(g: Seq<Seq<Tile>>, a: (usize, usize), b: (usize, usize), k: nat) -> bool
    decreases k,
{
    a == b || (k > 0 && exists|c: (usize, usize)|
        #[trigger] spec_edges(g, a.0, a.1).contains(c) && reach_in(g, c, b, (k - 1) as nat))
}

/// b is reachable from a by ascending steps.
pub open spec fn reachable(g: Seq<Seq<Tile>>, a: (usize, usize), b: (usize, usize)) -> bool {
    exists|k: nat| reach_in(g, a, b, k)
}

/// The in-bounds neighbours of a position.
pub fn get_neighbor_positions(x: usize, y: usize, map_width: usize, map_height: usize) -> (r: Vec<
    (usize, usize),
>)
    ensures
        r@ == spec_neighbors(x, y, map_width as int, map_height as int),
{
    let mut r: Vec<(usize, usize)> = Vec::new();
    if x > 0 {
        r.push((x - 1, y));
    }
    if y > 0 {
        r.push((x, y - 1));
    }
    if map_width > 0 && x < map_width - 1 {
        r.push((x + 1, y));
    }
    if map_height > 0 && y < map_height - 1 {
        r.push((x, y + 1));
    }
    proof {
        assert(r@ =~= spec_neighbors(x, y, map_width as int, map_height as int));
    }
    r
}

/// The ascent graph over a height map.
pub struct Graph {
    pub map: TrailMap,
    pub edges: Vec<Vec<Vec<(usize, usize)>>>,
}

impl Graph {
    /// The adjacency grid matches the map exactly.
    pub open spec fn wf(self) -> bool {
        &&& self.map.wf()
        &&& self.edges@.len() == self.map.grid().len()
        &&& forall|y: int|
            0 <= y < self.edges@.len() ==> (#[trigger] self.edges@[y])@.len()
                == self.map.grid()[y].len()
        &&& forall|y: int, x: int|
            #![trigger self.edges@[y]@[x]]
            0 <= y < self.edges@.len() && 0 <= x < self.edges@[y]@.len() ==> self.edges@[y]@[x]@
                == spec_edges(self.map.grid(), x as usize, y as usize)
    }

    /// Build the adjacency lists for every cell.
    pub fn new(map: TrailMap) -> (r: Graph)
        requires
            map.wf(),
        ensures
            r.wf(),
            r.map == map,
    {
        let ghost g = map.grid();
        let w = map.width();
        let h = map.height();
        let mut edges: Vec<Vec<Vec<(usize, usize)>>> = Vec::new();
        let mut y: usize = 0;
        while y < map.map.len()
            invariant
                map.wf(),
                g == map.grid(),
                w == spec_width(g),
                h == g.len(),
                0 <= y <= g.len(),
                edges@.len() == y,
                forall|y2: int|
                    0 <= y2 < y ==> (#[trigger] edges@[y2])@.len() == g[y2].len(),
                forall|y2: int, x2: int|
                    #![trigger edges@[y2]@[x2]]
                    0 <= y2 < y && 0 <= x2 < edges@[y2]@.len() ==> edges@[y2]@[x2]@ == spec_edges(
                        g,
                        x2 as usize,
                        y2 as usize,
                    ),
            decreases g.len() - y,
        {
            let row_len = map.map[y].len();
            let mut row: Vec<Vec<(usize, usize)>> = Vec::new();
            let mut x: usize = 0;
            while x < row_len
                invariant
                    map.wf(),
                    g == map.grid(),
                    w == spec_width(g),
                    h == g.len(),
                    0 <= y < g.len(),
                    row_len == g[y as int].len(),
                    0 <= x <= row_len,
                    row@.len() == x,
                    forall|x2: int|
                        #![trigger row@[x2]]
                        0 <= x2 < x ==> row@[x2]@ == spec_edges(g, x2 as usize, y),
                decreases row_len - x,
            {
                let mut cell_edges: Vec<(usize, usize)> = Vec::new();
                match map.get(x, y) {
                    Some(Tile::Height(hh)) if hh <= 9 => {
                        let neighbors = get_neighbor_positions(x, y, w, h);
                        let ghost nseq = spec_neighbors(x, y, spec_width(g), g.len() as int);
                        let ghost pred = |p: (usize, usize)|
                            spec_get(g, p.0 as int, p.1 as int) == Some(
                                Tile::Height((hh + 1) as usize),
                            );
                        let mut ni: usize = 0;
                        while ni < neighbors.len()
                            invariant
                                g == map.grid(),
                                neighbors@ == nseq,
                                0 <= ni <= nseq.len(),
                                pred == (|p: (usize, usize)|
                                    spec_get(g, p.0 as int, p.1 as int) == Some(
                                        Tile::Height((hh + 1) as usize),
                                    )),
                                cell_edges@ == nseq.take(ni as int).filter(pred),
                                hh <= 9,
                            decreases nseq.len() - ni,
                        {
                            let (nx, ny) = (neighbors[ni].0, neighbors[ni].1);
                            proof {
                                assert(nseq.take(ni + 1) =~= nseq.take(ni as int).push(
                                    nseq[ni as int],
                                ));
                                nseq.take(ni as int).lemma_filter_push(nseq[ni as int], pred);
                            }
                            match map.get(nx, ny) {
                                Some(Tile::Height(nh)) => {
                                    if nh == hh + 1 {
                                        cell_edges.push((nx, ny));
                                    }
                                },
                                _ => {},
                            }
                            proof {
                                assert(cell_edges@ =~= nseq.take(ni + 1).filter(pred));
                            }
                            ni = ni + 1;
                        }
                        proof {
                            assert(nseq.take(nseq.len() as int) =~= nseq);
                            assert(spec_edges(g, x, y) == nseq.filter(pred));
                        }
                    },
                    _ => {
                        proof {
                            assert(spec_edges(g, x, y) =~= Seq::<(usize, usize)>::empty());
                        }
                    },
                }
                row.push(cell_edges);
                x = x + 1;
            }
            edges.push(row);
            y = y + 1;
        }
        Graph { map, edges }
    }
}

} // verus!

verus! {

/// Number of marked cells in a visited grid.
pub open spec fn count_marked(v: Seq<Seq<bool>>) -> int
    decreases v.len(),
{
    if v.len() == 0 {
        0
    } else {
        count_marked(v.drop_last()) + count_row(v.last())
    }
}

pub open spec fn count_row(row: Seq<bool>) -> int
    decreases row.len(),
{
    if row.len() == 0 {
        0
    } else {
        count_row(row.drop_last()) + (if row.last() {
            1int
        } else {
            0int
        })
    }
}

proof fn lemma_count_row_bounds(row: Seq<bool>)
    ensures
        0 <= count_row(row) <= row.len(),
    decreases row.len(),
{
    if row.len() > 0 {
        lemma_count_row_bounds(row.drop_last());
    }
}

proof fn lemma_count_row_update(row: Seq<bool>, i: int)
    requires
        0 <= i < row.len(),
        !row[i],
    ensures
        count_row(row.update(i, true)) == count_row(row) + 1,
    decreases row.len(),
{
    if i == row.len() - 1 {
        assert(row.update(i, true).drop_last() =~= row.drop_last());
    } else {
        assert(row.update(i, true).drop_last() =~= row.drop_last().update(i, true));
        lemma_count_row_update(row.drop_last(), i);
    }
}

proof fn lemma_count_marked_update(v: Seq<Seq<bool>>, y: int, nrow: Seq<bool>, x: int)
    requires
        0 <= y < v.len(),
        0 <= x < v[y].len(),
        !v[y][x],
        nrow == v[y].update(x, true),
    ensures
        count_marked(v.update(y, nrow)) == count_marked(v) + 1,
    decreases v.len(),
{
    if y == v.len() - 1 {
        assert(v.update(y, nrow).drop_last() =~= v.drop_last());
        lemma_count_row_update(v.last(), x);
    } else {
        assert(v.update(y, nrow).drop_last() =~= v.drop_last().update(y, nrow));
        lemma_count_marked_update(v.drop_last(), y, nrow, x);
    }
}

proof fn lemma_count_marked_bounds(v: Seq<Seq<bool>>, total: int)
    requires
        total >= seq_total_len(v),
    ensures
        count_marked(v) <= total,
    decreases v.len(),
{
    if v.len() > 0 {
        lemma_count_marked_bounds(v.drop_last(), total - v.last().len());
        lemma_count_row_bounds(v.last());
    }
}

/// Total number of cells.
pub open spec fn seq_total_len(v: Seq<Seq<bool>>) -> int
    decreases v.len(),
{
    if v.len() == 0 {
        0
    } else {
        seq_total_len(v.drop_last()) + v.last().len()
    }
}

/// A reachable cell stays reachable one step further.
proof fn lemma_reach_step(
    g: Seq<Seq<Tile>>,
    a: (usize, usize),
    b: (usize, usize),
    c: (usize, usize),
    k: nat,
)
    requires
        reach_in(g, a, b, k),
        spec_edges(g, b.0, b.1).contains(c),
    ensures
        reach_in(g, a, c, (k + 1) as nat),
    decreases k,
{
    if a == b {
        assert(reach_in(g, c, c, k));
    } else {
        let m = choose|m: (usize, usize)|
            #[trigger] spec_edges(g, a.0, a.1).contains(m) && reach_in(g, m, b, (k - 1) as nat);
        lemma_reach_step(g, m, b, c, (k - 1) as nat);
    }
}

/// Everything reachable from a marked start inside a closed marking is
/// marked.
proof fn lemma_closed_marking(
    g: Seq<Seq<Tile>>,
    v: Seq<Seq<bool>>,
    a: (usize, usize),
    b: (usize, usize),
    k: nat,
)
    requires
        reach_in(g, a, b, k),
        marked(v, a),
        forall|c: (usize, usize), d: (usize, usize)|
            marked(v, c) && #[trigger] spec_edges(g, c.0, c.1).contains(d) ==> marked(v, d),
    ensures
        marked(v, b),
    decreases k,
{
    if a != b {
        let m = choose|m: (usize, usize)|
            #[trigger] spec_edges(g, a.0, a.1).contains(m) && reach_in(g, m, b, (k - 1) as nat);
        lemma_closed_marking(g, v, m, b, (k - 1) as nat);
    }
}

/// A cell is marked in the visited grid.
pub open spec fn marked(v: Seq<Seq<bool>>, p: (usize, usize)) -> bool {
    0 <= p.1 < v.len() && 0 <= p.0 < v[p.1 as int].len() && v[p.1 as int][p.0 as int]
}

/// Edges only reach cells on the map.
proof fn lemma_edge_on_map(g: Seq<Seq<Tile>>, x: usize, y: usize, d: (usize, usize))
    requires
        spec_edges(g, x, y).contains(d),
    ensures
        0 <= d.1 < g.len() && 0 <= d.0 < g[d.1 as int].len(),
{
    match spec_get(g, x as int, y as int) {
        Some(Tile::Height(hh)) => {
            let nseq = spec_neighbors(x, y, spec_width(g), g.len() as int);
            let pred = |p: (usize, usize)|
                spec_get(g, p.0 as int, p.1 as int) == Some(Tile::Height((hh + 1) as usize));
            nseq.lemma_filter_contains_rev(pred, d);
        },
        _ => {},
    }
}

impl Graph {
    /// The cells of the given height reachable by ascents from (x, y), in
    /// row-major order.
    #[verifier::rlimit(100)]
    pub fn get_reachable_positions_with_height(&self, x: usize, y: usize, height: usize) -> (r:
        Vec<(usize, usize)>)
        requires
            self.wf(),
        ensures
            forall|p: (usize, usize)|
                #[trigger] r@.contains(p) <==> (reachable(self.map.grid(), (x, y), p) && spec_get(
                    self.map.grid(),
                    p.0 as int,
                    p.1 as int,
                ) == Some(Tile::Height(height))),
    {
        let ghost g = self.map.grid();
        let mut r: Vec<(usize, usize)> = Vec::new();
        let on_map = match self.map.get(x, y) {
            Some(_) => true,
            None => false,
        };
        if !on_map {
            proof {
                assert forall|p: (usize, usize)|
                    reachable(g, (x, y), p) && spec_get(g, p.0 as int, p.1 as int) == Some(
                        Tile::Height(height),
                    ) implies r@.contains(p) by {
                    let k = choose|k: nat| reach_in(g, (x, y), p, k);
                    lemma_unreachable_off_map(g, (x, y), p, k);
                }
            }
            return r;
        }
        // an all-false visited grid shaped like the map
        let mut visited: Vec<Vec<bool>> = Vec::new();
        let mut y2: usize = 0;
        while y2 < self.map.map.len()
            invariant
                g == self.map.grid(),
                0 <= y2 <= g.len(),
                visited@.len() == y2,
                forall|t: int| 0 <= t < y2 ==> (#[trigger] visited@[t])@.len() == g[t].len(),
                forall|t: int, u: int|
                    #![trigger visited@[t]@[u]]
                    0 <= t < y2 && 0 <= u < visited@[t]@.len() ==> !visited@[t]@[u],
            decreases g.len() - y2,
        {
            let rl = self.map.map[y2].len();
            let mut vrow: Vec<bool> = Vec::new();
            let mut x2: usize = 0;
            while x2 < rl
                invariant
                    0 <= x2 <= rl,
                    vrow@.len() == x2,
                    forall|u: int| 0 <= u < x2 ==> !(#[trigger] vrow@[u]),
                decreases rl - x2,
            {
                vrow.push(false);
                x2 = x2 + 1;
            }
            visited.push(vrow);
            y2 = y2 + 1;
        }
        let ghost gtotal = seq_total_len(visited@.map_values(|row: Vec<bool>| row@));
        let mut queue: Vec<(usize, usize)> = Vec::new();
        queue.push((x, y));
        proof {
            assert(reach_in(g, (x, y), (x, y), 0));
            assert(reachable(g, (x, y), (x, y)));
            assert(queue@[0] == ((x, y)));
            lemma_count_marked_bounds(visited@.map_values(|row: Vec<bool>| row@), gtotal);
        }
        while queue.len() > 0
            invariant
                self.wf(),
                g == self.map.grid(),
                visited@.len() == g.len(),
                forall|t: int| 0 <= t < g.len() ==> (#[trigger] visited@[t])@.len() == g[t].len(),
                gtotal >= seq_total_len(visited@.map_values(|row: Vec<bool>| row@)),
                gtotal >= count_marked(visited@.map_values(|row: Vec<bool>| row@)),
                forall|p: (usize, usize)|
                    marked(visited@.map_values(|row: Vec<bool>| row@), p) ==> reachable(
                        g,
                        (x, y),
                        p,
                    ),
                forall|i: int|
                    0 <= i < queue@.len() ==> reachable(g, (x, y), #[trigger] queue@[i]) && 0
                        <= queue@[i].1 < g.len() && 0 <= queue@[i].0 < g[queue@[i].1 as int].len(),
                marked(visited@.map_values(|row: Vec<bool>| row@), (x, y)) || queue@.contains(
                    (x, y),
                ),
                forall|c: (usize, usize), d: (usize, usize)|
                    marked(visited@.map_values(|row: Vec<bool>| row@), c)
                        && #[trigger] spec_edges(g, c.0, c.1).contains(d) ==> marked(
                        visited@.map_values(|row: Vec<bool>| row@),
                        d,
                    ) || queue@.contains(d),
            decreases gtotal - count_marked(visited@.map_values(|row: Vec<bool>| row@)),
                queue@.len(),
        {
            let ghost vg0 = visited@.map_values(|row: Vec<bool>| row@);
            let ghost q0 = queue@;
            let cur = match queue.pop() {
                Some(c) => c,
                None => {
                    proof {
                        assert(false);
                    }
                    (0, 0)
                },
            };
            let (cx, cy) = cur;
            proof {
                assert(cur == q0.last());
                assert(q0.contains(cur));
            }
            if visited[cy][cx] {
                proof {
                    lemma_queue_shrunk(vg0, q0, queue@, (x, y));
                    assert forall|c: (usize, usize), d: (usize, usize)|
                        marked(vg0, c) && #[trigger] spec_edges(g, c.0, c.1).contains(
                            d,
                        ) implies marked(vg0, d) || queue@.contains(d) by {
                        if !marked(vg0, d) {
                            let i = choose|i: int| 0 <= i < q0.len() && q0[i] == d;
                            if i < q0.len() - 1 {
                                assert(queue@[i] == d);
                            } else {
                                assert(d == cur);
                                assert(marked(vg0, d));
                            }
                        }
                    }
                }
                continue ;
            }
            // mark cur and enqueue its ascents
            proof {
                assert(!vg0[cy as int][cx as int]);
            }
            let row_ref = &mut visited[cy];
            row_ref.set(cx, true);
            let ghost vg1 = visited@.map_values(|row: Vec<bool>| row@);
            proof {
                assert(vg1 =~= vg0.update(cy as int, vg0[cy as int].update(cx as int, true)));
                lemma_count_marked_update(vg0, cy as int, vg0[cy as int].update(cx as int, true), cx as int);
                lemma_total_len_update(vg0, cy as int, vg0[cy as int].update(cx as int, true));
                assert forall|p: (usize, usize)| marked(vg1, p) implies reachable(
                    g,
                    (x, y),
                    p,
                ) by {
                    if p != cur {
                        assert(marked(vg0, p));
                    }
                }
            }
            let elist = &self.edges[cy][cx];
            let ghost espec = spec_edges(g, cx, cy);
            proof {
                assert(elist@ == espec);
                lemma_count_marked_bounds(vg1, gtotal);
            }
            let mut ei: usize = 0;
            while ei < elist.len()
                invariant
                    self.wf(),
                    g == self.map.grid(),
                    elist@ == espec,
                    espec == spec_edges(g, cx, cy),
                    reachable(g, (x, y), (cx, cy)),
                    0 <= ei <= espec.len(),
                    forall|i: int|
                        0 <= i < queue@.len() ==> reachable(g, (x, y), #[trigger] queue@[i]) && 0
                            <= queue@[i].1 < g.len() && 0 <= queue@[i].0 < g[queue@[
                            i
                        ].1 as int].len(),
                    forall|t: int| 0 <= t < ei ==> queue@.contains(#[trigger] espec[t]),
                    queue@.len() >= q0.len() - 1,
                    forall|t: int| 0 <= t < q0.len() - 1 ==> #[trigger] queue@[t] == q0[t],
                decreases espec.len() - ei,
            {
                let ghost qb = queue@;
                let target = (elist[ei].0, elist[ei].1);
                proof {
                    let k = choose|k: nat| reach_in(g, (x, y), (cx, cy), k);
                    lemma_reach_step(g, (x, y), (cx, cy), target, k);
                    lemma_edge_on_map(g, cx, cy, target);
                }
                queue.push(target);
                proof {
                    assert forall|t: int| 0 <= t < ei + 1 implies queue@.contains(
                        #[trigger] espec[t],
                    ) by {
                        if t < ei {
                            let i = choose|i: int| 0 <= i < qb.len() && qb[i] == espec[t];
                            assert(queue@[i] == espec[t]);
                        } else {
                            assert(queue@[queue@.len() - 1] == espec[t]);
                        }
                    }
                }
                ei = ei + 1;
            }
            proof {
                // the new marking is closed up to the queue
                assert forall|c: (usize, usize), d: (usize, usize)|
                    marked(vg1, c) && #[trigger] spec_edges(g, c.0, c.1).contains(
                        d,
                    ) implies marked(vg1, d) || queue@.contains(d) by {
                    if c == cur {
                        let t = choose|t: int| 0 <= t < espec.len() && espec[t] == d;
                    } else {
                        assert(marked(vg0, c));
                        if !marked(vg0, d) {
                            let i = choose|i: int| 0 <= i < q0.len() && q0[i] == d;
                            if i < q0.len() - 1 {
                                lemma_push_chain_contains(q0, queue@, i, espec.len() as int);
                            } else {
                                assert(d == cur);
                                assert(marked(vg1, d));
                            }
                        } else {
                            assert(marked(vg1, d));
                        }
                    }
                }
                if !marked(vg1, (x, y)) {
                    assert(!marked(vg0, (x, y)));
                    let i = choose|i: int| 0 <= i < q0.len() && q0[i] == (x, y);
                    if i < q0.len() - 1 {
                        lemma_push_chain_contains(q0, queue@, i, espec.len() as int);
                    } else {
                        assert((x, y) == cur);
                        assert(marked(vg1, (x, y)));
                    }
                }
            }
        }
        // sweep the grid in row-major order
        let ghost vg = visited@.map_values(|row: Vec<bool>| row@);
        proof {
            assert(marked(vg, (x, y)));
        }
        let mut sy: usize = 0;
        while sy < self.map.map.len()
            invariant
                self.wf(),
                g == self.map.grid(),
                vg == visited@.map_values(|row: Vec<bool>| row@),
                visited@.len() == g.len(),
                forall|t: int| 0 <= t < g.len() ==> (#[trigger] visited@[t])@.len() == g[t].len(),
                marked(vg, (x, y)),
                forall|p: (usize, usize)| marked(vg, p) ==> reachable(g, (x, y), p),
                forall|c: (usize, usize), d: (usize, usize)|
                    marked(vg, c) && #[trigger] spec_edges(g, c.0, c.1).contains(d) ==> marked(
                        vg,
                        d,
                    ),
                0 <= sy <= g.len(),
                forall|p: (usize, usize)|
                    #[trigger] r@.contains(p) <==> ((p.1 < sy) && marked(vg, p) && spec_get(
                        g,
                        p.0 as int,
                        p.1 as int,
                    ) == Some(Tile::Height(height))),
            decreases g.len() - sy,
        {
            let rl = self.map.map[sy].len();
            let mut sx: usize = 0;
            while sx < rl
                invariant
                    self.wf(),
                    g == self.map.grid(),
                    vg == visited@.map_values(|row: Vec<bool>| row@),
                    visited@.len() == g.len(),
                    forall|t: int|
                        0 <= t < g.len() ==> (#[trigger] visited@[t])@.len() == g[t].len(),
                    0 <= sy < g.len(),
                    rl == g[sy as int].len(),
                    0 <= sx <= rl,
                    forall|p: (usize, usize)|
                        #[trigger] r@.contains(p) <==> ((p.1 < sy || (p.1 == sy && p.0 < sx))
                            && marked(vg, p) && spec_get(g, p.0 as int, p.1 as int) == Some(
                            Tile::Height(height),
                        )),
                decreases rl - sx,
            {
                let ghost r0 = r@;
                let mut hit = false;
                if visited[sy][sx] {
                    match self.map.get(sx, sy) {
                        Some(Tile::Height(hh)) => {
                            if hh == height {
                                r.push((sx, sy));
                                hit = true;
                            }
                        },
                        _ => {},
                    }
                }
                proof {
                    assert forall|p: (usize, usize)| #[trigger] r@.contains(p) implies ((p.1 < sy
                        || (p.1 == sy && p.0 < sx + 1)) && marked(vg, p) && spec_get(
                        g,
                        p.0 as int,
                        p.1 as int,
                    ) == Some(Tile::Height(height))) by {
                        if hit {
                            let i = choose|i: int| 0 <= i < r@.len() && r@[i] == p;
                            if i < r0.len() {
                                assert(r0.contains(p));
                            } else {
                                assert(p == (sx, sy));
                            }
                        } else {
                            assert(r0.contains(p));
                        }
                    }
                    assert forall|p: (usize, usize)|
                        ((p.1 < sy || (p.1 == sy && p.0 < sx + 1)) && marked(vg, p) && spec_get(
                            g,
                            p.0 as int,
                            p.1 as int,
                        ) == Some(Tile::Height(height))) implies #[trigger] r@.contains(p) by {
                        if p.1 == sy && p.0 == sx {
                            assert(r@[r@.len() - 1] == p);
                        } else {
                            assert(r0.contains(p));
                            let i = choose|i: int| 0 <= i < r0.len() && r0[i] == p;
                            assert(r@[i] == p);
                        }
                    }
                }
                sx = sx + 1;
            }
            sy = sy + 1;
        }
        proof {
            assert forall|p: (usize, usize)| #[trigger] r@.contains(p) implies (reachable(
                g,
                (x, y),
                p,
            ) && spec_get(g, p.0 as int, p.1 as int) == Some(Tile::Height(height))) by {}
            assert forall|p: (usize, usize)|
                reachable(g, (x, y), p) && spec_get(g, p.0 as int, p.1 as int) == Some(
                    Tile::Height(height),
                ) implies #[trigger] r@.contains(p) by {
                let k = choose|k: nat| reach_in(g, (x, y), p, k);
                lemma_closed_marking(g, vg, (x, y), p, k);
            }
        }
        r
    }
}

/// Popping keeps every earlier element reachable by index.
proof fn lemma_queue_shrunk(
    vg0: Seq<Seq<bool>>,
    q0: Seq<(usize, usize)>,
    q1: Seq<(usize, usize)>,
    start: (usize, usize),
)
    requires
        q0.len() > 0,
        q1 == q0.drop_last(),
        marked(vg0, start) || q0.contains(start),
        marked(vg0, q0.last()),
    ensures
        marked(vg0, start) || q1.contains(start),
{
    if !marked(vg0, start) {
        let i = choose|i: int| 0 <= i < q0.len() && q0[i] == start;
        if i < q0.len() - 1 {
            assert(q1[i] == start);
        }
    }
}

/// Elements survive a run of pushes.
proof fn lemma_push_chain_contains(
    q0: Seq<(usize, usize)>,
    q2: Seq<(usize, usize)>,
    i: int,
    pushed: int,
)
    requires
        0 <= i < q0.len() - 1,
        q2.len() >= q0.len() - 1,
        forall|t: int| 0 <= t < q0.len() - 1 ==> #[trigger] q2[t] == q0[t],
    ensures
        q2.contains(q0[i]),
{
    assert(q2[i] == q0[i]);
}

proof fn lemma_total_len_update(v: Seq<Seq<bool>>, y: int, nrow: Seq<bool>)
    requires
        0 <= y < v.len(),
        nrow.len() == v[y].len(),
    ensures
        seq_total_len(v.update(y, nrow)) == seq_total_len(v),
    decreases v.len(),
{
    if y == v.len() - 1 {
        assert(v.update(y, nrow).drop_last() =~= v.drop_last());
    } else {
        assert(v.update(y, nrow).drop_last() =~= v.drop_last().update(y, nrow));
        lemma_total_len_update(v.drop_last(), y, nrow);
    }
}

/// Nothing is reachable from a cell off the map but itself.
proof fn lemma_unreachable_off_map(
    g: Seq<Seq<Tile>>,
    a: (usize, usize),
    b: (usize, usize),
    k: nat,
)
    requires
        reach_in(g, a, b, k),
        spec_get(g, a.0 as int, a.1 as int) is None,
    ensures
        a == b,
    decreases k,
{
    if a != b {
        let m = choose|m: (usize, usize)|
            #[trigger] spec_edges(g, a.0, a.1).contains(m) && reach_in(g, m, b, (k - 1) as nat);
        assert(spec_edges(g, a.0, a.1) =~= Seq::<(usize, usize)>::empty());
    }
}

} // verus!

verus! {

/// Number of distinct ascending paths from a cell to a summit of height
/// nine, exploring at most `fuel` steps deep.
pub open spec fn spec_paths(g: Seq<Seq<Tile>>, p: (usize, usize), fuel: nat) -> int
    decreases fuel, 0nat, 0nat,
{
    if spec_get(g, p.0 as int, p.1 as int) == Some(Tile::Height(9usize)) {
        1
    } else if fuel == 0 {
        0
    } else {
        sum_paths(g, spec_edges(g, p.0, p.1), (fuel - 1) as nat)
    }
}

pub open spec fn sum_paths(g: Seq<Seq<Tile>>, list: Seq<(usize, usize)>, fuel: nat) -> int
    decreases fuel, 1nat, list.len(),
{
    if list.len() == 0 {
        0
    } else {
        spec_paths(g, list[0], fuel) + sum_paths(g, list.drop_first(), fuel)
    }
}

/// Path counts are small: at most four choices per step.
proof fn lemma_paths_bound(g: Seq<Seq<Tile>>, p: (usize, usize), fuel: nat)
    ensures
        0 <= spec_paths(g, p, fuel) <= pow4(fuel),
    decreases fuel, 0nat, 0nat,
{
    lemma_pow4_pos(fuel);
    if spec_get(g, p.0 as int, p.1 as int) != Some(Tile::Height(9usize)) && fuel > 0 {
        let list = spec_edges(g, p.0, p.1);
        lemma_edges_short(g, p.0, p.1);
        lemma_sum_paths_bound(g, list, (fuel - 1) as nat);
        lemma_pow4_pos((fuel - 1) as nat);
        assert(list.len() * pow4((fuel - 1) as nat) <= 4 * pow4((fuel - 1) as nat))
            by (nonlinear_arith)
            requires
                list.len() <= 4,
                pow4((fuel - 1) as nat) >= 1,
        ;
        assert(4 * pow4((fuel - 1) as nat) == pow4(fuel));
    }
}

proof fn lemma_sum_paths_bound(g: Seq<Seq<Tile>>, list: Seq<(usize, usize)>, fuel: nat)
    ensures
        0 <= sum_paths(g, list, fuel) <= list.len() * pow4(fuel),
    decreases fuel, 1nat, list.len(),
{
    lemma_pow4_pos(fuel);
    if list.len() == 0 {
    } else {
        lemma_paths_bound(g, list[0], fuel);
        lemma_sum_paths_bound(g, list.drop_first(), fuel);
        assert(pow4(fuel) + (list.len() - 1) * pow4(fuel) == list.len() * pow4(fuel))
            by (nonlinear_arith);
    }
}

/// A cell has at most four ascents.
proof fn lemma_edges_short(g: Seq<Seq<Tile>>, x: usize, y: usize)
    ensures
        spec_edges(g, x, y).len() <= 4,
{
    match spec_get(g, x as int, y as int) {
        Some(Tile::Height(hh)) => {
            let nseq = spec_neighbors(x, y, spec_width(g), g.len() as int);
            let pred = |p: (usize, usize)|
                spec_get(g, p.0 as int, p.1 as int) == Some(Tile::Height((hh + 1) as usize));
            nseq.filter_lemma(pred);
            assert(nseq.len() <= 4);
        },
        _ => {},
    }
}

pub open spec fn pow4(k: nat) -> int
    decreases k,
{
    if k == 0 {
        1
    } else {
        4 * pow4((k - 1) as nat)
    }
}

proof fn lemma_pow4_pos(k: nat)
    ensures
        pow4(k) >= 1,
    decreases k,
{
    if k > 0 {
        lemma_pow4_pos((k - 1) as nat);
    }
}

proof fn lemma_pow4_cap()
    ensures
        pow4(10) == 1048576,
{
    assert(pow4(0) == 1);
    assert(pow4(1) == 4);
    assert(pow4(2) == 16);
    assert(pow4(3) == 64);
    assert(pow4(4) == 256);
    assert(pow4(5) == 1024);
    assert(pow4(6) == 4096);
    assert(pow4(7) == 16384);
    assert(pow4(8) == 65536);
    assert(pow4(9) == 262144);
    assert(pow4(10) == 1048576);
}

/// Sum of path counts over every trailhead (height-zero cell), scanning
/// the grid in row-major order.
pub open spec fn total_paths(g: Seq<Seq<Tile>>, y: int, x: int) -> int
    decreases g.len() - y, g[y].len() + 1 - x,
{
    if y < 0 || y >= g.len() {
        0
    } else if x < 0 || x >= g[y].len() {
        total_paths(g, y + 1, 0)
    } else {
        (if spec_get(g, x, y) == Some(Tile::Height(0usize)) {
            spec_paths(g, (x as usize, y as usize), 10)
        } else {
            0
        }) + total_paths(g, y, x + 1)
    }
}

impl Graph {
    /// Count the ascending paths from a cell with the given fuel.
    fn count_paths(&self, x: usize, y: usize, fuel: usize) -> (r: usize)
        requires
            self.wf(),
            fuel <= 10,
        ensures
            r == spec_paths(self.map.grid(), (x, y), fuel as nat),
            r <= pow4(fuel as nat),
        decreases fuel,
    {
        let ghost g = self.map.grid();
        proof {
            lemma_paths_bound(g, (x, y), fuel as nat);
            lemma_pow4_cap();
            lemma_pow4_mono(fuel as nat, 10);
        }
        match self.map.get(x, y) {
            Some(Tile::Height(hh)) if hh == 9 => {
                return 1;
            },
            _ => {},
        }
        if fuel == 0 {
            return 0;
        }
        let on_map = match self.map.get(x, y) {
            Some(_) => true,
            None => false,
        };
        if !on_map {
            proof {
                assert(spec_edges(g, x, y) =~= Seq::<(usize, usize)>::empty());
            }
            return 0;
        }
        let elist = &self.edges[y][x];
        let ghost espec = spec_edges(g, x, y);
        proof {
            assert(elist@ == espec);
            lemma_edges_short(g, x, y);
        }
        let mut acc: usize = 0;
        let mut i: usize = 0;
        while i < elist.len()
            invariant
                self.wf(),
                g == self.map.grid(),
                elist@ == espec,
                espec == spec_edges(g, x, y),
                espec.len() <= 4,
                fuel >= 1,
                fuel <= 10,
                0 <= i <= espec.len(),
                acc + sum_paths(g, espec.skip(i as int), (fuel - 1) as nat) == sum_paths(
                    g,
                    espec,
                    (fuel - 1) as nat,
                ),
                acc <= 4 * pow4((fuel - 1) as nat),
                acc >= 0,
            decreases espec.len() - i,
        {
            proof {
                assert(espec.skip(i as int)[0] == espec[i as int]);
                assert(espec.skip(i as int).drop_first() =~= espec.skip(i + 1));
                lemma_paths_bound(g, espec[i as int], (fuel - 1) as nat);
                lemma_sum_paths_bound(g, espec.skip(i + 1), (fuel - 1) as nat);
                lemma_sum_paths_bound(g, espec, (fuel - 1) as nat);
                lemma_pow4_cap();
                lemma_pow4_pos((fuel - 1) as nat);
                lemma_pow4_mono((fuel - 1) as nat, 10);
                assert(espec.len() * pow4((fuel - 1) as nat) <= 4 * pow4((fuel - 1) as nat))
                    by (nonlinear_arith)
                    requires
                        espec.len() <= 4,
                        pow4((fuel - 1) as nat) >= 1,
                ;
            }
            let sub = self.count_paths(elist[i].0, elist[i].1, fuel - 1);
            acc = acc + sub;
            i = i + 1;
        }
        proof {
            assert(espec.skip(espec.len() as int) =~= Seq::<(usize, usize)>::empty());
        }
        acc
    }

    /// Count the distinct ascending trails from every trailhead to any
    /// summit.
    pub fn find_unique_paths(&self) -> (r: usize)
        requires
            self.wf(),
            total_paths(self.map.grid(), 0, 0) <= usize::MAX,
        ensures
            r == total_paths(self.map.grid(), 0, 0),
    {
        let ghost g = self.map.grid();
        let mut acc: usize = 0;
        let mut y: usize = 0;
        proof {
            lemma_total_paths_nonneg(g, 0, 0);
        }
        while y < self.map.map.len()
            invariant
                self.wf(),
                g == self.map.grid(),
                0 <= y <= g.len(),
                total_paths(g, 0, 0) <= usize::MAX,
                acc + total_paths(g, y as int, 0) == total_paths(g, 0, 0),
                acc >= 0,
            decreases g.len() - y,
        {
            let rl = self.map.map[y].len();
            let mut x: usize = 0;
            while x < rl
                invariant
                    self.wf(),
                    g == self.map.grid(),
                    0 <= y < g.len(),
                    rl == g[y as int].len(),
                    0 <= x <= rl,
                    total_paths(g, 0, 0) <= usize::MAX,
                    acc + total_paths(g, y as int, x as int) == total_paths(g, 0, 0),
                    acc >= 0,
                decreases rl - x,
            {
                proof {
                    lemma_total_paths_nonneg(g, y as int, x + 1);
                    lemma_paths_bound(g, (x, y), 10);
                }
                match self.map.get(x, y) {
                    Some(Tile::Height(hh)) if hh == 0 => {
                        let sub = self.count_paths(x, y, 10);
                        acc = acc + sub;
                    },
                    _ => {},
                }
                x = x + 1;
            }
            y = y + 1;
        }
        proof {
            assert(total_paths(g, g.len() as int, 0) == 0);
        }
        acc
    }
}

proof fn lemma_pow4_mono(k1: nat, k2: nat)
    requires
        k1 <= k2,
    ensures
        pow4(k1) <= pow4(k2),
    decreases k2,
{
    if k1 < k2 {
        lemma_pow4_mono(k1, (k2 - 1) as nat);
        lemma_pow4_pos((k2 - 1) as nat);
    }
}

proof fn lemma_total_paths_nonneg(g: Seq<Seq<Tile>>, y: int, x: int)
    ensures
        total_paths(g, y, x) >= 0,
    decreases g.len() - y, (if 0 <= y < g.len() {
        g[y].len() + 1 - x
    } else {
        0
    }),
{
    if y < 0 || y >= g.len() {
    } else if x < 0 || x >= g[y].len() {
        lemma_total_paths_nonneg(g, y + 1, 0);
    } else {
        lemma_total_paths_nonneg(g, y, x + 1);
        lemma_paths_bound(g, (x as usize, y as usize), 10);
    }
}

/// For each trailhead (height-zero cell), the summits of height nine it
/// can reach, in row-major order of the trailheads.
impl Graph {
    pub fn find_all_trailheads(&self) -> (r: Vec<((usize, usize), Vec<(usize, usize)>)>)
        requires
            self.wf(),
        ensures
            forall|k: int|
                0 <= k < r@.len() ==> spec_get(
                    self.map.grid(),
                    (#[trigger] r@[k]).0.0 as int,
                    r@[k].0.1 as int,
                ) == Some(Tile::Height(0usize)),
            forall|k: int, p: (usize, usize)|
                #![trigger r@[k].1@.contains(p)]
                0 <= k < r@.len() ==> (r@[k].1@.contains(p) <==> (reachable(
                    self.map.grid(),
                    r@[k].0,
                    p,
                ) && spec_get(self.map.grid(), p.0 as int, p.1 as int) == Some(
                    Tile::Height(9usize),
                ))),
            forall|q: (usize, usize)|
                spec_get(self.map.grid(), q.0 as int, q.1 as int) == Some(Tile::Height(0usize))
                    ==> exists|k: int| 0 <= k < r@.len() && (#[trigger] r@[k]).0 == q,
            forall|k1: int, k2: int| 0 <= k1 < k2 < r@.len() ==> r@[k1].0 != r@[k2].0,
    {
        let ghost g = self.map.grid();
        let mut r: Vec<((usize, usize), Vec<(usize, usize)>)> = Vec::new();
        let mut y: usize = 0;
        while y < self.map.map.len()
            invariant
                self.wf(),
                g == self.map.grid(),
                0 <= y <= g.len(),
                forall|k: int|
                    0 <= k < r@.len() ==> spec_get(
                        g,
                        (#[trigger] r@[k]).0.0 as int,
                        r@[k].0.1 as int,
                    ) == Some(Tile::Height(0usize)),
                forall|k: int, p: (usize, usize)|
                    #![trigger r@[k].1@.contains(p)]
                    0 <= k < r@.len() ==> (r@[k].1@.contains(p) <==> (reachable(
                        g,
                        r@[k].0,
                        p,
                    ) && spec_get(g, p.0 as int, p.1 as int) == Some(Tile::Height(9usize)))),
                forall|q: (usize, usize)|
                    spec_get(g, q.0 as int, q.1 as int) == Some(Tile::Height(0usize)) && q.1 < y
                        ==> exists|k: int| 0 <= k < r@.len() && (#[trigger] r@[k]).0 == q,
                forall|k: int| 0 <= k < r@.len() ==> (#[trigger] r@[k]).0.1 < y,
                forall|k1: int, k2: int| 0 <= k1 < k2 < r@.len() ==> r@[k1].0 != r@[k2].0,
            decreases g.len() - y,
        {
            let rl = self.map.map[y].len();
            let mut x: usize = 0;
            while x < rl
                invariant
                    self.wf(),
                    g == self.map.grid(),
                    0 <= y < g.len(),
                    rl == g[y as int].len(),
                    0 <= x <= rl,
                    forall|k: int|
                        0 <= k < r@.len() ==> spec_get(
                            g,
                            (#[trigger] r@[k]).0.0 as int,
                            r@[k].0.1 as int,
                        ) == Some(Tile::Height(0usize)),
                    forall|k: int, p: (usize, usize)|
                        #![trigger r@[k].1@.contains(p)]
                        0 <= k < r@.len() ==> (r@[k].1@.contains(p) <==> (reachable(
                            g,
                            r@[k].0,
                            p,
                        ) && spec_get(g, p.0 as int, p.1 as int) == Some(Tile::Height(9usize)))),
                    forall|q: (usize, usize)|
                        spec_get(g, q.0 as int, q.1 as int) == Some(Tile::Height(0usize)) && (q.1
                            < y || (q.1 == y && q.0 < x)) ==> exists|k: int|
                            0 <= k < r@.len() && (#[trigger] r@[k]).0 == q,
                    forall|k: int|
                        0 <= k < r@.len() ==> ((#[trigger] r@[k]).0.1 < y || (r@[k].0.1 == y
                            && r@[k].0.0 < x)),
                    forall|k1: int, k2: int| 0 <= k1 < k2 < r@.len() ==> r@[k1].0 != r@[k2].0,
                decreases rl - x,
            {
                let ghost r0 = r@;
                match self.map.get(x, y) {
                    Some(Tile::Height(hh)) if hh == 0 => {
                        let v = self.get_reachable_positions_with_height(x, y, 9);
                        r.push(((x, y), v));
                    },
                    _ => {},
                }
                proof {
                    assert forall|q: (usize, usize)|
                        spec_get(g, q.0 as int, q.1 as int) == Some(Tile::Height(0usize)) && (q.1
                            < y || (q.1 == y && q.0 < x + 1)) implies exists|k: int|
                        0 <= k < r@.len() && (#[trigger] r@[k]).0 == q by {
                        if q.1 == y && q.0 == x {
                            assert(r@[r@.len() - 1].0 == q);
                        } else {
                            let k = choose|k: int| 0 <= k < r0.len() && (#[trigger] r0[k]).0 == q;
                            assert(r@[k].0 == q);
                        }
                    }
                }
                x = x + 1;
            }
            y = y + 1;
        }
        r
    }
}

} // verus!
