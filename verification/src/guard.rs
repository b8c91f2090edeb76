//! Guard patrol: a guard walks a walled grid, turning right at walls and
//! leaving at the border; obstruction placements that trap the guard in a
//! loop are counted.

use vstd::prelude::*;
use vstd::pervasive::VecAdditionalExecFns;
use crate::text::{chars_of, line_seqs, trim, trimmed};

verus! {

broadcast use vstd::seq_lib::group_seq_properties;

/// One map cell.
#[derive(Clone, Copy, PartialEq, Eq, Structural, Debug)]
pub enum Tile {
    Empty,
    Wall,
}

/// A facing of the guard.
#[derive(Clone, Copy, PartialEq, Eq, Structural, Debug)]
pub enum Direction {
    Up,
    Down,
    Left,
    Right,
}

impl Direction {
    /// The facing after a right turn.
    pub open spec fn spec_rotate(self) -> Direction {
        match self {
            Direction::Up => Direction::Right,
            Direction::Down => Direction::Left,
            Direction::Left => Direction::Up,
            Direction::Right => Direction::Down,
        }
    }

    pub fn rotate_clockwise(self) -> (r: Direction)
        ensures
            r == self.spec_rotate(),
    {
        match self {
            Direction::Up => Direction::Right,
            Direction::Down => Direction::Left,
            Direction::Left => Direction::Up,
            Direction::Right => Direction::Down,
        }
    }

    /// The direction a map character denotes, if any.
    pub open spec fn spec_of_char(c: char) -> Option<Direction> {
        if c == '^' {
            Some(Direction::Up)
        } else if c == 'v' {
            Some(Direction::Down)
        } else if c == '<' {
            Some(Direction::Left)
        } else if c == '>' {
            Some(Direction::Right)
        } else {
            None
        }
    }

    pub fn of_char(c: char) -> (r: Option<Direction>)
        ensures
            r == Direction::spec_of_char(c),
    {
        match c {
            '^' => Some(Direction::Up),
            'v' => Some(Direction::Down),
            '<' => Some(Direction::Left),
            '>' => Some(Direction::Right),
            _ => None,
        }
    }
}

/// The walled grid.
pub struct Grid {
    pub tiles: Vec<Vec<Tile>>,
}

impl Grid {
    pub open spec fn grid(self) -> Seq<Seq<Tile>> {
        self.tiles@.map_values(|row: Vec<Tile>| row@)
    }

    /// A non-empty rectangle.
    pub open spec fn wf(self) -> bool {
        &&& self.grid().len() > 0
        &&& self.grid()[0].len() > 0
        &&& forall|y: int|
            0 <= y < self.grid().len() ==> (#[trigger] self.grid()[y]).len()
                == self.grid()[0].len()
    }

    pub fn width(&self) -> (r: usize)
        requires
            self.wf(),
        ensures
            r == self.grid()[0].len(),
    {
        self.tiles[0].len()
    }

    pub fn height(&self) -> (r: usize)
        ensures
            r == self.grid().len(),
    {
        self.tiles.len()
    }

    pub fn get_tile(&self, x: usize, y: usize) -> (r: Tile)
        requires
            y < self.grid().len(),
            x < self.grid()[y as int].len(),
        ensures
            r == self.grid()[y as int][x as int],
    {
        self.tiles[y][x]
    }

    pub fn set_tile(&mut self, x: usize, y: usize, tile: Tile)
        requires
            y < old(self).grid().len(),
            x < old(self).grid()[y as int].len(),
        ensures
            final(self).grid() =~= old(self).grid().update(
                y as int,
                old(self).grid()[y as int].update(x as int, tile),
            ),
    {
        let row = &mut self.tiles[y];
        row.set(x, tile);
    }

    pub fn is_position_in_map(&self, x: i64, y: i64) -> (r: bool)
        requires
            self.wf(),
            self.grid().len() * self.grid()[0].len() <= 1000000,
        ensures
            r == (0 <= x < self.grid()[0].len() && 0 <= y < self.grid().len()),
    {
        proof {
            lemma_small_sides(self.grid());
        }
        x >= 0 && y >= 0 && x < self.width() as i64 && y < self.height() as i64
    }
}

/// Small grids have small sides.
proof fn lemma_small_sides(g: Seq<Seq<Tile>>)
    requires
        g.len() > 0,
        g[0].len() > 0,
        g.len() * g[0].len() <= 1000000,
    ensures
        g.len() <= 1000000,
        g[0].len() <= 1000000,
{
    assert(g.len() <= 1000000 && g[0].len() <= 1000000) by (nonlinear_arith)
        requires
            g.len() > 0,
            g[0].len() > 0,
            g.len() * g[0].len() <= 1000000,
    ;
}

/// The full patrol state.
pub struct World {
    pub map: Grid,
    pub guard_direction: Direction,
    pub guard_x: usize,
    pub guard_y: usize,
    pub guard_in_world: bool,
}

impl World {
    /// The guard stands on the map, which is a modest rectangle.
    pub open spec fn wf(self) -> bool {
        &&& self.map.wf()
        &&& self.guard_y < self.map.grid().len()
        &&& self.guard_x < self.map.grid()[0].len()
        &&& self.map.grid().len() * self.map.grid()[0].len() <= 1000000
    }

    /// The cell ahead of the guard; may lie outside the map.
    pub open spec fn spec_next_pos(self) -> (int, int) {
        match self.guard_direction {
            Direction::Up => (self.guard_x as int, self.guard_y - 1),
            Direction::Down => (self.guard_x as int, self.guard_y + 1),
            Direction::Left => (self.guard_x - 1, self.guard_y as int),
            Direction::Right => (self.guard_x + 1, self.guard_y as int),
        }
    }

    pub fn next_guard_position(&self) -> (r: (i64, i64))
        requires
            self.wf(),
        ensures
            r.0 == self.spec_next_pos().0 && r.1 == self.spec_next_pos().1,
    {
        proof {
            lemma_small_sides(self.map.grid());
        }
        match self.guard_direction {
            Direction::Up => (self.guard_x as i64, self.guard_y as i64 - 1),
            Direction::Down => (self.guard_x as i64, self.guard_y as i64 + 1),
            Direction::Left => (self.guard_x as i64 - 1, self.guard_y as i64),
            Direction::Right => (self.guard_x as i64 + 1, self.guard_y as i64),
        }
    }

    /// One tick of the simulation: leave at the border, turn right at a
    /// wall, walk otherwise.
    pub open spec fn spec_step(self) -> World {
        if !self.guard_in_world {
            self
        } else {
            let (nx, ny) = self.spec_next_pos();
            if !(0 <= nx < self.map.grid()[0].len() && 0 <= ny < self.map.grid().len()) {
                World {
                    map: self.map,
                    guard_direction: self.guard_direction,
                    guard_x: self.guard_x,
                    guard_y: self.guard_y,
                    guard_in_world: false,
                }
            } else if self.map.grid()[ny][nx] == Tile::Wall {
                World {
                    map: self.map,
                    guard_direction: self.guard_direction.spec_rotate(),
                    guard_x: self.guard_x,
                    guard_y: self.guard_y,
                    guard_in_world: self.guard_in_world,
                }
            } else {
                World {
                    map: self.map,
                    guard_direction: self.guard_direction,
                    guard_x: nx as usize,
                    guard_y: ny as usize,
                    guard_in_world: self.guard_in_world,
                }
            }
        }
    }

    /// The state after n ticks.
    pub open spec fn spec_steps(self, n: nat) -> World
        decreases n,
    {
        if n == 0 {
            self
        } else {
            self.spec_step().spec_steps((n - 1) as nat)
        }
    }

    pub fn step(&mut self)
        requires
            old(self).wf(),
        ensures
            *final(self) == old(self).spec_step(),
            final(self).wf(),
    {
        if !self.guard_in_world {
            return ;
        }
        let ghost w0 = *self;
        let (nx, ny) = self.next_guard_position();
        proof {
            assert(nx as int == w0.spec_next_pos().0 && ny as int == w0.spec_next_pos().1);
        }
        if !self.map.is_position_in_map(nx, ny) {
            self.guard_in_world = false;
            proof {
                assert(*self == w0.spec_step());
            }
            return ;
        }
        let ux = nx as usize;
        let uy = ny as usize;
        proof {
            lemma_small_sides(self.map.grid());
            assert(ux as int == nx as int && uy as int == ny as int);
        }
        match self.map.get_tile(ux, uy) {
            Tile::Empty => {
                self.guard_x = ux;
                self.guard_y = uy;
                proof {
                    assert(*self == w0.spec_step());
                }
            },
            Tile::Wall => {
                self.guard_direction = self.guard_direction.rotate_clockwise();
                proof {
                    assert(self.guard_direction == w0.guard_direction.spec_rotate());
                    assert(*self == w0.spec_step());
                }
            },
        }
    }

    /// Parse a patrol map.  None when a character is unknown, the guard is
    /// missing, the grid is ragged or empty, or the map is too large.
    pub fn read(input: &str) -> (r: Option<World>)
        ensures
            r matches Some(w) ==> w.wf() && w.guard_in_world && spec_read_ok(
                trimmed(input@),
                w.map.grid(),
                w.guard_x as int,
                w.guard_y as int,
                w.guard_direction,
            ),
            r is None ==> !(exists|w: World|
                spec_read_ok(
                    trimmed(input@),
                    w.map.grid(),
                    w.guard_x as int,
                    w.guard_y as int,
                    w.guard_direction,
                )),
    {
        let cs = chars_of(input);
        let t = trim(&cs);
        let lines = crate::text::split_lines(&t);
        if lines.len() == 0 {
            return None;
        }
        let ghost glines = line_seqs(trimmed(input@));
        let width = lines[0].len();
        if width == 0 {
            return None;
        }
        let mut rows: Vec<Vec<Tile>> = Vec::new();
        let mut gx: usize = 0;
        let mut gy: usize = 0;
        let mut gdir: Direction = Direction::Up;
        let mut found: bool = false;
        let mut y: usize = 0;
        while y < lines.len()
            invariant
                glines == line_seqs(trimmed(input@)),
                lines@.map_values(|l: Vec<char>| l@) == glines,
                glines.len() > 0,
                width == glines[0].len(),
                width > 0,
                0 <= y <= glines.len(),
                rows@.len() == y,
                forall|t2: int| 0 <= t2 < y ==> (#[trigger] glines[t2]).len() == width,
                forall|t2: int| 0 <= t2 < y ==> (#[trigger] rows@[t2])@.len() == width,
                forall|t2: int, u: int|
                    #![trigger rows@[t2]@[u]]
                    0 <= t2 < y && 0 <= u < width ==> rows@[t2]@[u] == tile_at(glines, t2, u),
                forall|t2: int, u: int|
                    #![trigger glines[t2][u]]
                    0 <= t2 < y && 0 <= u < width ==> (glines[t2][u] == '.' || glines[t2][u]
                        == '#' || Direction::spec_of_char(glines[t2][u]) is Some),
                !found ==> forall|t2: int, u: int|
                    #![trigger glines[t2][u]]
                    0 <= t2 < y && 0 <= u < width ==> Direction::spec_of_char(
                        glines[t2][u],
                    ) is None,
                found ==> gy < y && gx < width && Direction::spec_of_char(glines[gy as int][gx as int])
                    == Some(gdir),
            decreases glines.len() - y,
        {
            let line = &lines[y];
            if line.len() != width {
                return None;
            }
            let ghost gl = glines[y as int];
            proof {
                assert(gl == lines@.map_values(|l: Vec<char>| l@)[y as int]);
            }
            let mut row: Vec<Tile> = Vec::new();
            let mut x: usize = 0;
            while x < line.len()
                invariant
                    glines == line_seqs(trimmed(input@)),
                    gl == line@,
                    gl.len() == width,
                    glines.len() > 0,
                    0 <= y < glines.len(),
                    gl == glines[y as int],
                    0 <= x <= width,
                    row@.len() == x,
                    forall|u: int| 0 <= u < x ==> #[trigger] row@[u] == tile_at(glines, y as int, u),
                    forall|u: int|
                        0 <= u < x ==> ((#[trigger] gl[u]) == '.' || gl[u] == '#'
                            || Direction::spec_of_char(gl[u]) is Some),
                    forall|t2: int, u: int|
                        #![trigger glines[t2][u]]
                        0 <= t2 < y && 0 <= u < width ==> (glines[t2][u] == '.' || glines[t2][u]
                            == '#' || Direction::spec_of_char(glines[t2][u]) is Some),
                    !found ==> forall|t2: int, u: int|
                        #![trigger glines[t2][u]]
                        0 <= t2 < y && 0 <= u < width ==> Direction::spec_of_char(
                            glines[t2][u],
                        ) is None,
                    !found ==> forall|u: int|
                        0 <= u < x ==> Direction::spec_of_char(#[trigger] gl[u]) is None,
                    found ==> (gy < y || (gy == y && gx < x)) && gx < width
                        && Direction::spec_of_char(glines[gy as int][gx as int]) == Some(gdir),
                decreases width - x,
            {
                let c = line[x];
                match Direction::of_char(c) {
                    Some(d) => {
                        gx = x;
                        gy = y;
                        gdir = d;
                        found = true;
                        row.push(Tile::Empty);
                    },
                    None => {
                        if c == '.' {
                            row.push(Tile::Empty);
                        } else if c == '#' {
                            row.push(Tile::Wall);
                        } else {
                            proof {
                                assert(glines[y as int][x as int] == c);
                                assert(!(c == '.' || c == '#' || Direction::spec_of_char(
                                    c,
                                ) is Some));
                            }
                            return None;
                        }
                    },
                }
                x = x + 1;
            }
            rows.push(row);
            y = y + 1;
        }
        if !found {
            return None;
        }
        let grid = Grid { tiles: rows };
        let world = World {
            map: grid,
            guard_direction: gdir,
            guard_x: gx,
            guard_y: gy,
            guard_in_world: true,
        };
        if world.map.height() > 1000 || world.map.width() > 1000 {
            return None;
        }
        proof {
            assert(world.map.grid().len() * world.map.grid()[0].len() <= 1000000)
                by (nonlinear_arith)
                requires
                    world.map.grid().len() <= 1000,
                    world.map.grid()[0].len() <= 1000,
            ;
        }
        Some(world)
    }
}

/// The tile a map line's character denotes; guard markers stand on empty
/// ground.
pub open spec fn tile_at(lines: Seq<Seq<char>>, y: int, x: int) -> Tile {
    if lines[y][x] == '#' {
        Tile::Wall
    } else {
        Tile::Empty
    }
}

/// What a successful read promises: the grid mirrors the text and the
/// guard stands where its marker was.
pub open spec fn spec_read_ok(
    t: Seq<char>,
    g: Seq<Seq<Tile>>,
    gx: int,
    gy: int,
    gdir: Direction,
) -> bool {
    let lines = line_seqs(t);
    &&& g.len() == lines.len()
    &&& forall|y: int, x: int|
        #![trigger g[y][x]]
        0 <= y < g.len() && 0 <= x < g[y].len() ==> g[y][x] == tile_at(lines, y, x)
    &&& 0 <= gy < lines.len()
    &&& 0 <= gx < lines[gy].len()
    &&& Direction::spec_of_char(lines[gy][gx]) == Some(gdir)
    &&& lines.len() >= 1
    &&& 1 <= lines[0].len() <= 1000
    &&& lines.len() <= 1000
    &&& forall|y: int| 0 <= y < lines.len() ==> (#[trigger] lines[y]).len() == lines[0].len()
    &&& forall|y: int, x: int|
        #![trigger lines[y][x]]
        0 <= y < lines.len() && 0 <= x < lines[y].len() ==> (lines[y][x] == '.' || lines[y][x]
            == '#' || Direction::spec_of_char(lines[y][x]) is Some)
}

} // verus!

verus! {

/// The guard positions of a bounded simulation, one entry per tick spent
/// on the map.
pub open spec fn sim_trace(w: World, fuel: nat) -> Seq<(usize, usize)>
    decreases fuel,
{
    if !w.guard_in_world || fuel == 0 {
        Seq::empty()
    } else {
        seq![(w.guard_x, w.guard_y)] + sim_trace(w.spec_step(), (fuel - 1) as nat)
    }
}

/// Collapse adjacent repeats, remembering the last kept entry.
pub open spec fn dedup_from(prev: Option<(usize, usize)>, s: Seq<(usize, usize)>) -> Seq<
    (usize, usize),
>
    decreases s.len(),
{
    if s.len() == 0 {
        Seq::empty()
    } else if prev == Some(s[0]) {
        dedup_from(prev, s.drop_first())
    } else {
        seq![s[0]] + dedup_from(Some(s[0]), s.drop_first())
    }
}

/// An exited guard stays exited.
proof fn lemma_exit_absorbing(w: World, n: nat)
    requires
        !w.guard_in_world,
    ensures
        w.spec_steps(n) == w,
    decreases n,
{
    if n > 0 {
        lemma_exit_absorbing(w, (n - 1) as nat);
    }
}

proof fn lemma_steps_chain(w: World, a: nat, b: nat)
    ensures
        w.spec_steps(a).spec_steps(b) == w.spec_steps((a + b) as nat),
    decreases a,
{
    if a > 0 {
        lemma_steps_chain(w.spec_step(), (a - 1) as nat, b);
    }
}

/// Walk the guard until it leaves the map, deduplicating consecutive
/// positions; None when it is still on the map after max_steps ticks.
pub fn get_visited_positions(world: &mut World, max_steps: usize) -> (r: Option<
    Vec<(usize, usize)>,
>)
    requires
        old(world).wf(),
    ensures
        *final(world) == old(world).spec_steps(max_steps as nat),
        r is None <==> old(world).spec_steps(max_steps as nat).guard_in_world,
        r matches Some(v) ==> v@ == dedup_from(None, sim_trace(*old(world), max_steps as nat)),
{
    let ghost w0 = *world;
    let mut acc: Vec<(usize, usize)> = Vec::new();
    let mut k: usize = 0;
    while k < max_steps && world.guard_in_world
        invariant
            world.wf(),
            0 <= k <= max_steps,
            *world == w0.spec_steps(k as nat),
            dedup_from(None, sim_trace(w0, max_steps as nat)) == acc@ + dedup_from(
                (if acc@.len() == 0 {
                    None
                } else {
                    Some(acc@.last())
                }),
                sim_trace(*world, (max_steps - k) as nat),
            ),
            acc@.len() == 0 ==> sim_trace(w0, max_steps as nat) == sim_trace(
                *world,
                (max_steps - k) as nat,
            ),
        decreases max_steps - k,
    {
        let ghost wc = *world;
        let ghost rem = (max_steps - k) as nat;
        proof {
            assert(sim_trace(wc, rem) == seq![(wc.guard_x, wc.guard_y)] + sim_trace(
                wc.spec_step(),
                (rem - 1) as nat,
            ));
            assert(sim_trace(wc, rem)[0] == ((wc.guard_x, wc.guard_y)));
            assert(sim_trace(wc, rem).drop_first() =~= sim_trace(wc.spec_step(), (rem - 1) as nat));
        }
        let cur = (world.guard_x, world.guard_y);
        let push_it = if acc.len() == 0 {
            true
        } else {
            let last = acc[acc.len() - 1];
            !(last.0 == cur.0 && last.1 == cur.1)
        };
        if push_it {
            acc.push(cur);
        }
        world.step();
        k = k + 1;
        proof {
            lemma_steps_chain(w0, (k - 1) as nat, 1);
            let xm = w0.spec_steps((k - 1) as nat);
            assert(xm.spec_steps(1) == xm.spec_step().spec_steps(0));
            assert(xm.spec_step().spec_steps(0) == xm.spec_step());
            assert(w0.spec_steps((k - 1) as nat).spec_step() == w0.spec_steps(k as nat));
        }
    }
    proof {
        if k < max_steps {
            assert(!world.guard_in_world);
            lemma_exit_absorbing(*world, (max_steps - k) as nat);
            lemma_steps_chain(w0, k as nat, (max_steps - k) as nat);
            assert(*world == w0.spec_steps(max_steps as nat));
            assert(sim_trace(*world, (max_steps - k) as nat) =~= Seq::<(usize, usize)>::empty());
        } else {
            assert(sim_trace(*world, 0) =~= Seq::<(usize, usize)>::empty());
        }
        assert(dedup_from(
            (if acc@.len() == 0 {
                None
            } else {
                Some(acc@.last())
            }),
            Seq::<(usize, usize)>::empty(),
        ) =~= Seq::<(usize, usize)>::empty());
        assert(acc@ + Seq::<(usize, usize)>::empty() =~= acc@);
    }
    if world.guard_in_world {
        None
    } else {
        Some(acc)
    }
}

} // verus!

verus! {

/// The observable patrol state: grid and guard, free of representation.
pub struct WorldView {
    pub grid: Seq<Seq<Tile>>,
    pub dir: Direction,
    pub x: int,
    pub y: int,
    pub in_world: bool,
}

impl World {
    /// The observable state of this world.
    pub open spec fn view_of(self) -> WorldView {
        WorldView {
            grid: self.map.grid(),
            dir: self.guard_direction,
            x: self.guard_x as int,
            y: self.guard_y as int,
            in_world: self.guard_in_world,
        }
    }
}

impl WorldView {
    pub open spec fn next_pos(self) -> (int, int) {
        match self.dir {
            Direction::Up => (self.x, self.y - 1),
            Direction::Down => (self.x, self.y + 1),
            Direction::Left => (self.x - 1, self.y),
            Direction::Right => (self.x + 1, self.y),
        }
    }

    pub open spec fn step_v(self) -> WorldView {
        if !self.in_world {
            self
        } else {
            let (nx, ny) = self.next_pos();
            if !(0 <= nx < self.grid[0].len() && 0 <= ny < self.grid.len()) {
                WorldView { in_world: false, ..self }
            } else if self.grid[ny][nx] == Tile::Wall {
                WorldView { dir: self.dir.spec_rotate(), ..self }
            } else {
                WorldView { x: nx, y: ny, ..self }
            }
        }
    }

    pub open spec fn steps_v(self, n: nat) -> WorldView
        decreases n,
    {
        if n == 0 {
            self
        } else {
            self.step_v().steps_v((n - 1) as nat)
        }
    }

    /// The guard configuration alone.
    pub open spec fn state(self) -> (int, int, Direction) {
        (self.x, self.y, self.dir)
    }

    /// The same world with one extra wall.
    pub open spec fn with_wall(self, x: int, y: int) -> WorldView {
        WorldView { grid: self.grid.update(y, self.grid[y].update(x, Tile::Wall)), ..self }
    }
}

/// Stepping commutes with taking the view.
proof fn lemma_step_view(w: World)
    requires
        w.wf(),
    ensures
        w.spec_step().view_of() == w.view_of().step_v(),
{
    lemma_small_sides(w.map.grid());
}

/// Within the given budget, the walled simulation revisits a guard state:
/// the guard is trapped in a loop.  (Four states per cell, so a budget of
/// four times the area plus one exhausts every state.)
pub open spec fn loop_detected(v: WorldView, n: nat) -> bool {
    exists|i: nat, j: nat|
        #![trigger v.step_v().steps_v(i), v.step_v().steps_v(j)]
        1 <= i < j <= n && v.step_v().steps_v(j).in_world && v.step_v().steps_v(i).state()
            == v.step_v().steps_v(j).state()
}

/// Obstruction positions that trap the guard in a loop: every empty,
/// non-start cell is tried with a wall on it, in column-major order.
#[verifier::rlimit(100)]
pub fn find_loop_obstruction_placements(world: &mut World) -> (r: Vec<(usize, usize)>)
    requires
        old(world).wf(),
    ensures
        final(world).view_of() == old(world).view_of(),
        final(world).wf(),
        forall|p: (usize, usize)|
            #[trigger] r@.contains(p) <==> (p.0 < old(world).view_of().grid[0].len() && p.1 < old(
                world,
            ).view_of().grid.len() && old(world).view_of().grid[p.1 as int][p.0 as int]
                == Tile::Empty && !(p.0 == old(world).guard_x && p.1 == old(world).guard_y)
                && loop_detected(
                old(world).view_of().with_wall(p.0 as int, p.1 as int),
                (4 * old(world).view_of().grid.len() * old(world).view_of().grid[0].len()
                    + 2) as nat,
            )),
{
    let ghost v0 = old(world).view_of();
    let w = world.map.width();
    let h = world.map.height();
    let (sx, sy, sdir, sin) = (world.guard_x, world.guard_y, world.guard_direction,
        world.guard_in_world);
    proof {
        lemma_small_sides(world.map.grid());
        assert(4 * (h as int) * (w as int) + 2 <= 4000000 + 2) by (nonlinear_arith)
            requires
                (h as int) * (w as int) <= 1000000,
                h >= 1,
                w >= 1,
        ;
        assert((h as int) * (w as int) >= 0) by (nonlinear_arith)
            requires
                h >= 1,
                w >= 1,
        ;
    }
    let budget: usize = 4 * h * w + 2;
    let ghost nbudget = budget as nat;
    let mut r: Vec<(usize, usize)> = Vec::new();
    let mut x: usize = 0;
    while x < w
        invariant
            world.wf(),
            world.view_of() == v0,
            v0 == old(world).view_of(),
            w == v0.grid[0].len(),
            h == v0.grid.len(),
            sx == old(world).guard_x,
            sy == old(world).guard_y,
            sdir == old(world).guard_direction,
            sin == old(world).guard_in_world,
            world.guard_x == sx && world.guard_y == sy && world.guard_direction == sdir
                && world.guard_in_world == sin,
            nbudget == 4 * v0.grid.len() * v0.grid[0].len() + 2,
            budget == nbudget,
            0 <= x <= w,
            forall|p: (usize, usize)|
                #[trigger] r@.contains(p) <==> (p.0 < x && p.1 < h && v0.grid[p.1 as int][p.0 as int]
                    == Tile::Empty && !(p.0 == sx && p.1 == sy) && loop_detected(
                    v0.with_wall(p.0 as int, p.1 as int),
                    nbudget,
                )),
        decreases w - x,
    {
        let mut y: usize = 0;
        while y < h
            invariant
                world.wf(),
                world.view_of() == v0,
                v0 == old(world).view_of(),
                w == v0.grid[0].len(),
                h == v0.grid.len(),
                sx == old(world).guard_x,
                sy == old(world).guard_y,
                sdir == old(world).guard_direction,
                sin == old(world).guard_in_world,
                world.guard_x == sx && world.guard_y == sy && world.guard_direction == sdir
                    && world.guard_in_world == sin,
                nbudget == 4 * v0.grid.len() * v0.grid[0].len() + 2,
                budget == nbudget,
                0 <= x < w,
                0 <= y <= h,
                forall|p: (usize, usize)|
                    #[trigger] r@.contains(p) <==> ((p.0 < x || (p.0 == x && p.1 < y)) && p.1 < h
                        && v0.grid[p.1 as int][p.0 as int] == Tile::Empty && !(p.0 == sx && p.1
                        == sy) && loop_detected(v0.with_wall(p.0 as int, p.1 as int), nbudget)),
            decreases h - y,
        {
            let ghost r0 = r@;
            let mut pushed: bool = false;
            let is_wall = match world.map.get_tile(x, y) {
                Tile::Wall => true,
                Tile::Empty => false,
            };
            let is_start = world.guard_x == x && world.guard_y == y;
            if !is_wall && !is_start {
                // place the wall, run the bounded simulation, restore
                world.map.set_tile(x, y, Tile::Wall);
                let ghost vw = v0.with_wall(x as int, y as int);
                proof {
                    assert(world.view_of().grid =~~= vw.grid);
                    assert(world.view_of() == vw);
                }
                let ghost wwall = *world;
                world.step();
                proof {
                    lemma_step_view(wwall);
                }
                let ghost s1 = vw.step_v();
                proof {
                    assert(world.view_of() == s1);
                    assert(s1.steps_v(0) == s1);
                }
                let mut seen: Vec<(usize, usize, Direction)> = Vec::new();
                let mut t: usize = 0;
                let mut found: bool = false;
                while t < budget && !found && world.guard_in_world
                    invariant
                        world.wf(),
                        s1 == vw.step_v(),
                        0 <= t <= budget,
                        budget == nbudget,
                        world.view_of() == s1.steps_v(t as nat),
                        seen@.len() <= t,
                        world.guard_in_world && !found ==> seen@.len() == t,
                        forall|u: int|
                            #![trigger seen@[u]]
                            0 <= u < seen@.len() ==> s1.steps_v((u + 1) as nat).in_world
                                && s1.steps_v((u + 1) as nat).x == seen@[u].0 as int
                                && s1.steps_v((u + 1) as nat).y == seen@[u].1 as int
                                && s1.steps_v((u + 1) as nat).dir == seen@[u].2,
                        found ==> loop_detected(vw, nbudget),
                        !found ==> !(exists|i: nat, j: nat|
                            #![trigger s1.steps_v(i), s1.steps_v(j)]
                            1 <= i < j <= t && s1.steps_v(j).in_world && s1.steps_v(i).state()
                                == s1.steps_v(j).state()),
                    decreases budget - t,
                {
                    let ghost wprev = *world;
                    let ghost seen0 = seen@;
                    world.step();
                    proof {
                        lemma_step_view(wprev);
                        lemma_steps_v_chain(s1, t as nat, 1);
                        let xm = s1.steps_v(t as nat);
                        assert(xm.steps_v(1) == xm.step_v().steps_v(0));
                        assert(world.view_of() == s1.steps_v((t + 1) as nat));
                    }
                    if !world.guard_in_world {
                        t = t + 1;
                        proof {
                            assert(!s1.steps_v(t as nat).in_world);
                            assert forall|i: nat, j: nat|
                                #![trigger s1.steps_v(i), s1.steps_v(j)]
                                1 <= i < j <= t implies !(s1.steps_v(j).in_world && s1.steps_v(
                                i,
                            ).state() == s1.steps_v(j).state()) by {
                                if j < t {
                                    assert(1 <= i < j <= t - 1);
                                }
                            }
                        }
                    } else {
                        let cx = world.guard_x;
                        let cy = world.guard_y;
                        let cd = world.guard_direction;
                        let mut si: usize = 0;
                        let mut hit: bool = false;
                        while si < seen.len()
                            invariant
                                0 <= si <= seen@.len(),
                                hit ==> exists|u: int|
                                    0 <= u < seen@.len() && #[trigger] seen@[u] == ((cx, cy, cd)),
                                !hit ==> forall|u: int|
                                    0 <= u < si ==> #[trigger] seen@[u] != ((cx, cy, cd)),
                            decreases seen@.len() - si,
                        {
                            let e = seen[si];
                            if e.0 == cx && e.1 == cy && e.2 == cd {
                                hit = true;
                                proof {
                                    assert(seen@[si as int] == ((cx, cy, cd)));
                                }
                            }
                            si = si + 1;
                        }
                        if hit {
                            found = true;
                            proof {
                                let u = choose|u: int|
                                    0 <= u < seen@.len() && #[trigger] seen@[u] == ((cx, cy, cd));
                                assert(s1.steps_v((u + 1) as nat).x == cx as int);
                                assert(s1.steps_v((t + 1) as nat).x == cx as int && s1.steps_v(
                                    (t + 1) as nat,
                                ).y == cy as int && s1.steps_v((t + 1) as nat).dir == cd);
                                assert(s1.steps_v((u + 1) as nat).state() == s1.steps_v(
                                    (t + 1) as nat,
                                ).state());
                                assert(s1.steps_v((t + 1) as nat).in_world);
                                assert(1 <= ((u + 1) as nat) && ((u + 1) as nat) < ((t + 1) as nat)
                                    && ((t + 1) as nat) <= nbudget);
                                assert(loop_detected(vw, nbudget));
                            }
                        } else {
                            proof {
                                assert(s1.steps_v((t + 1) as nat).x == cx as int && s1.steps_v(
                                    (t + 1) as nat,
                                ).y == cy as int && s1.steps_v((t + 1) as nat).dir == cd);
                            }
                            seen.push((cx, cy, cd));
                            proof {
                                assert(seen@[t as int] == ((cx, cy, cd)));
                                assert(s1.steps_v((t + 1) as nat).in_world);
                            }
                        }
                        t = t + 1;
                        proof {
                            if !found {
                                assert forall|i: nat, j: nat|
                                    #![trigger s1.steps_v(i), s1.steps_v(j)]
                                    1 <= i < j <= t implies !(s1.steps_v(j).in_world
                                    && s1.steps_v(i).state() == s1.steps_v(j).state()) by {
                                    if j < t {
                                        assert(1 <= i < j <= t - 1);
                                    } else {
                                        if s1.steps_v(i).state() == s1.steps_v(j).state() {
                                            assert(s1.steps_v(i).x == seen0[i - 1].0 as int
                                                && s1.steps_v(i).y == seen0[i - 1].1 as int
                                                && s1.steps_v(i).dir == seen0[i - 1].2);
                                            assert(s1.steps_v(j).x == cx as int && s1.steps_v(
                                                j,
                                            ).y == cy as int && s1.steps_v(j).dir == cd);
                                            assert(seen0[i - 1].0 == cx && seen0[i - 1].1 == cy
                                                && seen0[i - 1].2 == cd);
                                            assert(seen0[i - 1] == ((cx, cy, cd)));
                                        }
                                    }
                                }
                            }
                        }
                    }
                }
                proof {
                    if !found {
                        if world.guard_in_world {
                            assert(t == budget);
                            assert(!loop_detected(vw, nbudget));
                        } else {
                            assert(!s1.steps_v(t as nat).in_world);
                            assert forall|i: nat, j: nat|
                                #![trigger s1.steps_v(i), s1.steps_v(j)]
                                1 <= i < j <= nbudget implies !(s1.steps_v(j).in_world
                                && s1.steps_v(i).state() == s1.steps_v(j).state()) by {
                                if s1.steps_v(j).in_world {
                                    if j > t {
                                        lemma_steps_v_chain(s1, t as nat, (j - t) as nat);
                                        lemma_exit_stays_v(s1.steps_v(t as nat), (j - t) as nat);
                                    } else {
                                        assert(1 <= i < j <= t);
                                    }
                                }
                            }
                            assert(!loop_detected(vw, nbudget));
                        }
                    }
                }
                if found {
                    r.push((x, y));
                    pushed = true;
                }
                // restore the world
                proof {
                    lemma_steps_grid(s1, t as nat);
                    assert(world.view_of().grid == vw.grid);
                    assert(world.map.grid() == vw.grid);
                }
                world.map.set_tile(x, y, Tile::Empty);
                world.guard_x = sx;
                world.guard_y = sy;
                world.guard_direction = sdir;
                world.guard_in_world = sin;
                proof {
                    assert(world.view_of().grid =~~= v0.grid);
                    assert(world.view_of() == v0);
                }
            }
            proof {
                assert forall|p: (usize, usize)| #[trigger] r@.contains(p) implies ((p.0 < x || (
                p.0 == x && p.1 < y + 1)) && p.1 < h && v0.grid[p.1 as int][p.0 as int]
                    == Tile::Empty && !(p.0 == sx && p.1 == sy) && loop_detected(
                    v0.with_wall(p.0 as int, p.1 as int),
                    nbudget,
                )) by {
                    if pushed {
                        let k = choose|k: int| 0 <= k < r@.len() && r@[k] == p;
                        if k < r0.len() {
                            assert(r0.contains(p));
                        } else {
                            assert(p == ((x, y)));
                        }
                    } else {
                        assert(r0.contains(p));
                    }
                }
                assert forall|p: (usize, usize)|
                    ((p.0 < x || (p.0 == x && p.1 < y + 1)) && p.1 < h && v0.grid[p.1 as int][p.0 as int]
                        == Tile::Empty && !(p.0 == sx && p.1 == sy) && loop_detected(
                        v0.with_wall(p.0 as int, p.1 as int),
                        nbudget,
                    )) implies #[trigger] r@.contains(p) by {
                    if p.0 == x && p.1 == y {
                        assert(pushed);
                        assert(r@[r@.len() - 1] == p);
                    } else {
                        assert(r0.contains(p));
                        let k = choose|k: int| 0 <= k < r0.len() && r0[k] == p;
                        assert(r@[k] == p);
                    }
                }
            }
            y = y + 1;
        }
        x = x + 1;
    }
    r
}

proof fn lemma_steps_grid(v: WorldView, n: nat)
    ensures
        v.steps_v(n).grid == v.grid,
    decreases n,
{
    if n > 0 {
        lemma_steps_grid(v.step_v(), (n - 1) as nat);
    }
}

proof fn lemma_steps_v_chain(v: WorldView, a: nat, b: nat)
    ensures
        v.steps_v(a).steps_v(b) == v.steps_v((a + b) as nat),
    decreases a,
{
    if a > 0 {
        lemma_steps_v_chain(v.step_v(), (a - 1) as nat, b);
    }
}

proof fn lemma_exit_absorbing_v(v: WorldView)
    ensures
        !v.in_world ==> v.step_v() == v,
{
}

proof fn lemma_exit_stays_v(v: WorldView, n: nat)
    requires
        !v.in_world,
    ensures
        v.steps_v(n) == v,
    decreases n,
{
    if n > 0 {
        lemma_exit_stays_v(v, (n - 1) as nat);
    }
}

} // verus!
