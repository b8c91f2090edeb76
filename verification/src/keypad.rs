//! Keypad topologies and tied-minimal path tables.
//!
//! A keypad is a small grid with exactly one forbidden gap cell.  For every
//! ordered pair of distinct keys the `PairwisePathTable` holds the set of
//! *all* move sequences of minimal length between them that never touch the
//! gap; for the numeric keypad the table additionally discards entries with
//! more than one direction change.

use vstd::prelude::*;

verus! {

/// A key on the numeric keypad: one of the digits or Activate.
#[derive(Clone, Copy, PartialEq, Eq, Structural, Debug)]
pub enum Key {
    Zero,
    One,
    Two,
    Three,
    Four,
    Five,
    Six,
    Seven,
    Eight,
    Nine,
    Activate,
}

/// A button on the directional keypad: a move or Activate.
#[derive(Clone, Copy, PartialEq, Eq, Structural, Debug)]
pub enum DirectionalCommand {
    Up,
    Down,
    Left,
    Right,
    Activate,
}

/// One route between two keys: the moves only, without the trailing
/// Activate press.
pub type PathEntry = Vec<DirectionalCommand>;

/// A full press sequence at one indirection level, terminated by Activate
/// presses after every segment.
pub type Candidate = Vec<DirectionalCommand>;

/// Grid geometry of one keypad kind: its extent and the single gap cell.
#[derive(Clone, Copy, PartialEq, Eq, Structural, Debug)]
pub struct KeypadTopology {
    pub width: u8,
    pub height: u8,
    pub gap_col: u8,
    pub gap_row: u8,
}

/// The numeric keypad: 3 wide, 4 tall, gap in the bottom-left corner.
pub open spec fn spec_numeric_topology() -> KeypadTopology {
    KeypadTopology { width: 3, height: 4, gap_col: 0, gap_row: 3 }
}

/// The directional keypad: 3 wide, 2 tall, gap in the top-left corner.
pub open spec fn spec_directional_topology() -> KeypadTopology {
    KeypadTopology { width: 3, height: 2, gap_col: 0, gap_row: 0 }
}

pub fn numeric_topology() -> (t: KeypadTopology)
    ensures
        t == spec_numeric_topology(),
{
    KeypadTopology { width: 3, height: 4, gap_col: 0, gap_row: 3 }
}

pub fn directional_topology() -> (t: KeypadTopology)
    ensures
        t == spec_directional_topology(),
{
    KeypadTopology { width: 3, height: 2, gap_col: 0, gap_row: 0 }
}

/// A cell that may be visited: inside the grid and not the gap.
pub open spec fn cell_ok(t: KeypadTopology, c: int, r: int) -> bool {
    &&& 0 <= c < t.width
    &&& 0 <= r < t.height
    &&& !(c == t.gap_col && r == t.gap_row)
}

/// Column delta of one directional command.
pub open spec fn dcol(d: DirectionalCommand) -> int {
    match d {
        DirectionalCommand::Left => -1,
        DirectionalCommand::Right => 1,
        _ => 0,
    }
}

/// Row delta of one directional command.
pub open spec fn drow(d: DirectionalCommand) -> int {
    match d {
        DirectionalCommand::Up => -1,
        DirectionalCommand::Down => 1,
        _ => 0,
    }
}

/// The cell where a move sequence ends when started at (c, r).
pub open spec fn walk_end(c: int, r: int, p: Seq<DirectionalCommand>) -> (int, int)
    decreases p.len(),
{
    if p.len() == 0 {
        (c, r)
    } else {
        walk_end(c + dcol(p[0]), r + drow(p[0]), p.drop_first())
    }
}

/// A move sequence that starts at (c, r), uses only moves (no Activate),
/// and visits only cells that are inside the grid and off the gap.
pub open spec fn walk_ok(t: KeypadTopology, c: int, r: int, p: Seq<DirectionalCommand>) -> bool
    decreases p.len(),
{
    &&& cell_ok(t, c, r)
    &&& (p.len() > 0 ==> {
        &&& !(p[0] is Activate)
        &&& walk_ok(t, c + dcol(p[0]), r + drow(p[0]), p.drop_first())
    })
}

/// A legal route from cell a to cell b.
pub open spec fn is_path(
    t: KeypadTopology,
    a: (int, int),
    b: (int, int),
    p: Seq<DirectionalCommand>,
) -> bool {
    walk_ok(t, a.0, a.1, p) && walk_end(a.0, a.1, p) == b
}

/// A legal route from a to b that no legal route undercuts.
pub open spec fn is_min_path(
    t: KeypadTopology,
    a: (int, int),
    b: (int, int),
    p: Seq<DirectionalCommand>,
) -> bool {
    &&& is_path(t, a, b, p)
    &&& forall|q: Seq<DirectionalCommand>| is_path(t, a, b, q) ==> p.len() <= q.len()
}

/// Some legal route of length at most n leads from a to b.
pub open spec fn reach_within(t: KeypadTopology, a: (int, int), b: (int, int), n: nat) -> bool {
    exists|p: Seq<DirectionalCommand>| is_path(t, a, b, p) && p.len() <= n
}

/// Number of positions where a move sequence switches direction.
pub open spec fn dir_changes(p: Seq<DirectionalCommand>) -> nat
    decreases p.len(),
{
    if p.len() <= 1 {
        0
    } else {
        (if p[0] == p[1] {
            0nat
        } else {
            1nat
        }) + dir_changes(p.drop_first())
    }
}

// ---------------------------------------------------------------------------
// Basic lemmas about walks.
// ---------------------------------------------------------------------------

/// Appending one move to a walk: validity and endpoint of the extension.
pub proof fn lemma_walk_snoc(
    t: KeypadTopology,
    c: int,
    r: int,
    p: Seq<DirectionalCommand>,
    d: DirectionalCommand,
)
    ensures
        walk_ok(t, c, r, p.push(d)) <==> (walk_ok(t, c, r, p) && !(d is Activate) && cell_ok(
            t,
            walk_end(c, r, p).0 + dcol(d),
            walk_end(c, r, p).1 + drow(d),
        )),
        walk_end(c, r, p.push(d)) == (
            walk_end(c, r, p).0 + dcol(d),
            walk_end(c, r, p).1 + drow(d),
        ),
    decreases p.len(),
{
    let x = p.push(d);
    if p.len() == 0 {
        assert(x[0] == d);
        assert(x.drop_first() =~= Seq::<DirectionalCommand>::empty());
        assert(walk_end(c, r, p) == (c, r));
        assert(walk_end(c + dcol(d), r + drow(d), x.drop_first()) == (c + dcol(d), r + drow(d)));
        assert(walk_end(c, r, x) == (c + dcol(d), r + drow(d)));
        assert(walk_ok(t, c + dcol(d), r + drow(d), x.drop_first()) == cell_ok(
            t,
            c + dcol(d),
            r + drow(d),
        ));
        assert(walk_ok(t, c, r, x) == (cell_ok(t, c, r) && !(d is Activate) && cell_ok(
            t,
            c + dcol(d),
            r + drow(d),
        )));
        assert(walk_ok(t, c, r, p) == cell_ok(t, c, r));
    } else {
        let c1 = c + dcol(p[0]);
        let r1 = r + drow(p[0]);
        assert(x[0] == p[0]);
        assert(x.drop_first() =~= p.drop_first().push(d));
        lemma_walk_snoc(t, c1, r1, p.drop_first(), d);
        assert(walk_end(c, r, x) == walk_end(c1, r1, x.drop_first()));
        assert(walk_end(c, r, p) == walk_end(c1, r1, p.drop_first()));
        assert(walk_ok(t, c, r, x) == (cell_ok(t, c, r) && !(x[0] is Activate) && walk_ok(
            t,
            c1,
            r1,
            x.drop_first(),
        )));
    }
}

/// Every prefix of a walk is a walk, ending where the prefix leads.
pub proof fn lemma_walk_prefix(
    t: KeypadTopology,
    c: int,
    r: int,
    p: Seq<DirectionalCommand>,
    n: int,
)
    requires
        walk_ok(t, c, r, p),
        0 <= n <= p.len(),
    ensures
        walk_ok(t, c, r, p.take(n)),
    decreases p.len(),
{
    if n > 0 && p.len() > 0 {
        assert(p.take(n)[0] == p[0]);
        assert(p.take(n).drop_first() =~= p.drop_first().take(n - 1));
        lemma_walk_prefix(t, c + dcol(p[0]), r + drow(p[0]), p.drop_first(), n - 1);
    } else {
        assert(p.take(n) =~= Seq::<DirectionalCommand>::empty());
    }
}

/// All tied-minimal routes between one pair of cells share one length.
pub proof fn lemma_min_paths_equal_length(
    t: KeypadTopology,
    a: (int, int),
    b: (int, int),
    p: Seq<DirectionalCommand>,
    q: Seq<DirectionalCommand>,
)
    requires
        is_min_path(t, a, b, p),
        is_min_path(t, a, b, q),
    ensures
        p.len() == q.len(),
{
}

/// A minimal route from a cell to itself is empty: the empty route already
/// connects the pair.
pub proof fn lemma_min_self_path_empty(
    t: KeypadTopology,
    a: (int, int),
    p: Seq<DirectionalCommand>,
)
    requires
        is_min_path(t, a, a, p),
    ensures
        p.len() == 0,
{
    assert(walk_ok(t, a.0, a.1, Seq::<DirectionalCommand>::empty()));
    assert(is_path(t, a, a, Seq::<DirectionalCommand>::empty()));
}

/// Wherever some route exists, a tied-minimal route exists.
pub proof fn lemma_min_path_exists(
    t: KeypadTopology,
    a: (int, int),
    b: (int, int),
    p: Seq<DirectionalCommand>,
) -> (m: Seq<DirectionalCommand>)
    requires
        is_path(t, a, b, p),
    ensures
        is_min_path(t, a, b, m),
        m.len() <= p.len(),
    decreases p.len(),
{
    if forall|q: Seq<DirectionalCommand>| is_path(t, a, b, q) ==> p.len() <= q.len() {
        p
    } else {
        let q = choose|q: Seq<DirectionalCommand>| is_path(t, a, b, q) && q.len() < p.len();
        let m = lemma_min_path_exists(t, a, b, q);
        m
    }
}

} // verus!

verus! {

broadcast use vstd::seq_lib::group_seq_properties;

/// View of a list of routes as a sequence of move sequences.
pub open spec fn paths_view(ps: Seq<PathEntry>) -> Seq<Seq<DirectionalCommand>> {
    ps.map_values(|p: PathEntry| p@)
}

/// The list ps holds exactly the tied-minimal routes from a to b (those
/// with at most one direction change when bend_limited), each once.
pub open spec fn path_set_exact(
    t: KeypadTopology,
    a: (int, int),
    b: (int, int),
    ps: Seq<Seq<DirectionalCommand>>,
    bend_limited: bool,
) -> bool {
    &&& forall|k: int|
        0 <= k < ps.len() ==> is_min_path(t, a, b, #[trigger] ps[k]) && (bend_limited
            ==> dir_changes(ps[k]) <= 1)
    &&& forall|q: Seq<DirectionalCommand>|
        #[trigger] is_min_path(t, a, b, q) && (bend_limited ==> dir_changes(q) <= 1)
            ==> ps.contains(q)
    &&& forall|k1: int, k2: int| 0 <= k1 < k2 < ps.len() ==> ps[k1] !== ps[k2]
}

/// Element-for-element copy of a route.
pub(crate) fn copy_path(p: &PathEntry) -> (r: PathEntry)
    ensures
        r@ == p@,
{
    let mut r: PathEntry = Vec::new();
    let mut i: usize = 0;
    while i < p.len()
        invariant
            0 <= i <= p.len(),
            r@ == p@.take(i as int),
        decreases p.len() - i,
    {
        r.push(p[i]);
        proof {
            assert(p@.take(i + 1) =~= p@.take(i as int).push(p@[i as int]));
        }
        i = i + 1;
    }
    proof {
        assert(p@.take(p@.len() as int) =~= p@);
    }
    r
}

/// Equality of two routes.
pub(crate) fn path_eq(a: &PathEntry, b: &PathEntry) -> (r: bool)
    ensures
        r == (a@ == b@),
{
    if a.len() != b.len() {
        return false;
    }
    let mut i: usize = 0;
    while i < a.len()
        invariant
            0 <= i <= a.len(),
            a@.len() == b@.len(),
            forall|j: int| 0 <= j < i ==> a@[j] == b@[j],
        decreases a.len() - i,
    {
        if a[i] != b[i] {
            return false;
        }
        i = i + 1;
    }
    proof {
        assert(a@ =~= b@);
    }
    true
}

/// Whether the list already holds a route equal to p.
pub(crate) fn contains_path(v: &Vec<PathEntry>, p: &PathEntry) -> (r: bool)
    ensures
        r == paths_view(v@).contains(p@),
{
    let mut i: usize = 0;
    while i < v.len()
        invariant
            0 <= i <= v.len(),
            forall|j: int| 0 <= j < i ==> paths_view(v@)[j] !== p@,
        decreases v.len() - i,
    {
        if path_eq(&v[i], p) {
            assert(paths_view(v@)[i as int] == p@);
            return true;
        }
        i = i + 1;
    }
    assert(forall|j: int| 0 <= j < v@.len() ==> paths_view(v@)[j] !== p@);
    false
}

/// Keep the first occurrence of every route.
pub(crate) fn dedup_paths(v: Vec<PathEntry>) -> (r: Vec<PathEntry>)
    ensures
        forall|q: Seq<DirectionalCommand>|
            #[trigger] paths_view(r@).contains(q) <==> paths_view(v@).contains(q),
        forall|k1: int, k2: int|
            0 <= k1 < k2 < r@.len() ==> paths_view(r@)[k1] !== paths_view(r@)[k2],
{
    let mut r: Vec<PathEntry> = Vec::new();
    let mut i: usize = 0;
    while i < v.len()
        invariant
            0 <= i <= v.len(),
            forall|q: Seq<DirectionalCommand>|
                #[trigger] paths_view(r@).contains(q) <==> paths_view(v@.take(i as int)).contains(
                    q,
                ),
            forall|k1: int, k2: int|
                0 <= k1 < k2 < r@.len() ==> paths_view(r@)[k1] !== paths_view(r@)[k2],
        decreases v.len() - i,
    {
        let ghost old_r = r@;
        let ghost old_view = paths_view(r@);
        if !contains_path(&r, &v[i]) {
            let c = copy_path(&v[i]);
            r.push(c);
            proof {
                assert(paths_view(r@) =~= old_view.push(v@[i as int]@));
                assert forall|q: Seq<DirectionalCommand>|
                    #[trigger] paths_view(r@).contains(q) implies paths_view(
                    v@.take(i + 1),
                ).contains(q) by {
                    if q == v@[i as int]@ {
                        assert(paths_view(v@.take(i + 1))[i as int] == q);
                    } else {
                        let k = choose|k: int|
                            0 <= k < old_view.len() && #[trigger] old_view[k] == q;
                        let k2 = choose|k2: int|
                            0 <= k2 < i && #[trigger] paths_view(v@.take(i as int))[k2] == q;
                        assert(paths_view(v@.take(i + 1))[k2] == q);
                    }
                }
                assert forall|q: Seq<DirectionalCommand>|
                    #[trigger] paths_view(v@.take(i + 1)).contains(q) implies paths_view(
                    r@,
                ).contains(q) by {
                    let k = choose|k: int|
                        0 <= k < i + 1 && #[trigger] paths_view(v@.take(i + 1))[k] == q;
                    if k == i {
                        assert(paths_view(r@)[r@.len() - 1] == q);
                    } else {
                        assert(paths_view(v@.take(i as int))[k] == q);
                        assert(paths_view(v@.take(i as int)).contains(q));
                    }
                }
            }
        } else {
            proof {
                assert forall|q: Seq<DirectionalCommand>|
                    #[trigger] paths_view(v@.take(i + 1)).contains(q) implies paths_view(
                    r@,
                ).contains(q) by {
                    let k = choose|k: int|
                        0 <= k < i + 1 && #[trigger] paths_view(v@.take(i + 1))[k] == q;
                    if k == i {
                        assert(q == v@[i as int]@);
                    } else {
                        assert(paths_view(v@.take(i as int))[k] == q);
                        assert(paths_view(v@.take(i as int)).contains(q));
                    }
                }
                assert forall|q: Seq<DirectionalCommand>|
                    #[trigger] paths_view(r@).contains(q) implies paths_view(
                    v@.take(i + 1),
                ).contains(q) by {
                    let k = choose|k: int|
                        0 <= k < i && #[trigger] paths_view(v@.take(i as int))[k] == q;
                    assert(paths_view(v@.take(i + 1))[k] == q);
                }
            }
        }
        i = i + 1;
    }
    proof {
        assert(v@.take(v@.len() as int) =~= v@);
    }
    r
}

} // verus!

verus! {

/// The step from one cell, if it stays on the keypad.
fn step_cell(t: &KeypadTopology, c: u8, r: u8, d: DirectionalCommand) -> (res: Option<(u8, u8)>)
    requires
        cell_ok(*t, c as int, r as int),
        !(d is Activate),
    ensures
        match res {
            Some(p) => p.0 == c + dcol(d) && p.1 == r + drow(d) && cell_ok(
                *t,
                c + dcol(d),
                r + drow(d),
            ),
            None => !cell_ok(*t, c + dcol(d), r + drow(d)),
        },
{
    let (nc, nr): (u8, u8) = match d {
        DirectionalCommand::Up => {
            if r == 0 {
                return None;
            }
            (c, r - 1)
        },
        DirectionalCommand::Down => {
            if r >= t.height - 1 {
                return None;
            }
            (c, r + 1)
        },
        DirectionalCommand::Left => {
            if c == 0 {
                return None;
            }
            (c - 1, r)
        },
        DirectionalCommand::Right => {
            if c >= t.width - 1 {
                return None;
            }
            (c + 1, r)
        },
        DirectionalCommand::Activate => {
            return None;
        },
    };
    if nc == t.gap_col && nr == t.gap_row {
        return None;
    }
    Some((nc, nr))
}

/// One partial route of the search: its end cell and its moves.
pub type SearchNode = (u8, u8, PathEntry);

/// Every node is a walk of the given length from the start, ending at its
/// recorded cell.
pub open spec fn frontier_sound(
    t: KeypadTopology,
    a: (int, int),
    fs: Seq<SearchNode>,
    len: nat,
) -> bool {
    forall|k: int|
        0 <= k < fs.len() ==> {
            &&& walk_ok(t, a.0, a.1, (#[trigger] fs[k]).2@)
            &&& fs[k].2@.len() == len
            &&& walk_end(a.0, a.1, fs[k].2@) == (fs[k].0 as int, fs[k].1 as int)
        }
}

/// Every walk of the given length from the start is one of the nodes.
pub open spec fn frontier_complete(
    t: KeypadTopology,
    a: (int, int),
    fs: Seq<SearchNode>,
    len: nat,
) -> bool {
    forall|p: Seq<DirectionalCommand>|
        #[trigger] walk_ok(t, a.0, a.1, p) && p.len() == len ==> exists|k: int|
            0 <= k < fs.len() && fs[k].2@ == p
}

/// Push the extensions of one node by every legal move.
fn extend_node(
    t: &KeypadTopology,
    nf: &mut Vec<SearchNode>,
    c: u8,
    r: u8,
    path: &PathEntry,
    Ghost(a): Ghost<(int, int)>,
)
    requires
        walk_ok(*t, a.0, a.1, path@),
        walk_end(a.0, a.1, path@) == (c as int, r as int),
    ensures
        final(nf)@.len() >= old(nf)@.len(),
        forall|k: int| 0 <= k < old(nf)@.len() ==> final(nf)@[k] == old(nf)@[k],
        forall|k: int|
            old(nf)@.len() <= k < final(nf)@.len() ==> {
                &&& walk_ok(*t, a.0, a.1, (#[trigger] final(nf)@[k]).2@)
                &&& final(nf)@[k].2@.len() == path@.len() + 1
                &&& walk_end(a.0, a.1, final(nf)@[k].2@) == (
                    final(nf)@[k].0 as int,
                    final(nf)@[k].1 as int,
                )
            },
        forall|d: DirectionalCommand|
            !(d is Activate) && cell_ok(*t, c + dcol(d), r + drow(d)) ==> exists|k: int|
                old(nf)@.len() <= k < final(nf)@.len() && (#[trigger] final(nf)@[k]).2@ == path@.push(
                    d,
                ),
{
    proof {
        assert(cell_ok(*t, c as int, r as int)) by {
            lemma_walk_end_cell_ok(*t, a.0, a.1, path@);
        }
    }
    let dirs: [DirectionalCommand; 4] = [
        DirectionalCommand::Up,
        DirectionalCommand::Down,
        DirectionalCommand::Left,
        DirectionalCommand::Right,
    ];
    let mut di: usize = 0;
    while di < 4
        invariant
            0 <= di <= 4,
            walk_ok(*t, a.0, a.1, path@),
            walk_end(a.0, a.1, path@) == (c as int, r as int),
            cell_ok(*t, c as int, r as int),
            dirs@ =~= seq![
                DirectionalCommand::Up,
                DirectionalCommand::Down,
                DirectionalCommand::Left,
                DirectionalCommand::Right,
            ],
            nf@.len() >= old(nf)@.len(),
            forall|k: int| 0 <= k < old(nf)@.len() ==> nf@[k] == old(nf)@[k],
            forall|k: int|
                old(nf)@.len() <= k < nf@.len() ==> {
                    &&& walk_ok(*t, a.0, a.1, (#[trigger] nf@[k]).2@)
                    &&& nf@[k].2@.len() == path@.len() + 1
                    &&& walk_end(a.0, a.1, nf@[k].2@) == (nf@[k].0 as int, nf@[k].1 as int)
                },
            forall|j: int|
                0 <= j < di && !(dirs@[j] is Activate) && cell_ok(
                    *t,
                    c + dcol(dirs@[j]),
                    r + drow(dirs@[j]),
                ) ==> exists|k: int|
                    old(nf)@.len() <= k < nf@.len() && (#[trigger] nf@[k]).2@ == path@.push(
                        dirs@[j],
                    ),
        decreases 4 - di,
    {
        let ghost nf0 = nf@;
        let d = dirs[di];
        match step_cell(t, c, r, d) {
            Some((nc, nr)) => {
                let mut np = copy_path(path);
                np.push(d);
                proof {
                    lemma_walk_snoc(*t, a.0, a.1, path@, d);
                }
                nf.push((nc, nr, np));
                proof {
                    assert(nf@ == nf0.push((nc, nr, np)));
                    assert(nf@[nf@.len() - 1].2@ == path@.push(d));
                }
            },
            None => {},
        }
        proof {
            assert forall|j: int|
                0 <= j < di + 1 && !(dirs@[j] is Activate) && cell_ok(
                    *t,
                    c + dcol(dirs@[j]),
                    r + drow(dirs@[j]),
                ) implies exists|k: int|
                old(nf)@.len() <= k < nf@.len() && (#[trigger] nf@[k]).2@ == path@.push(
                dirs@[j],
            ) by {
                if j < di {
                    let k = choose|k: int|
                        old(nf)@.len() <= k < nf0.len() && (#[trigger] nf0[k]).2@ == path@.push(
                            dirs@[j],
                        );
                    assert(nf@[k] == nf0[k]);
                } else {
                    assert(nf@[nf@.len() - 1].2@ == path@.push(dirs@[j]));
                }
            }
        }
        di = di + 1;
    }
    proof {
        assert forall|d: DirectionalCommand|
            !(d is Activate) && cell_ok(*t, c + dcol(d), r + drow(d)) implies exists|k: int|
            old(nf)@.len() <= k < nf@.len() && (#[trigger] nf@[k]).2@ == path@.push(d) by {
            let j: int = match d {
                DirectionalCommand::Up => 0,
                DirectionalCommand::Down => 1,
                DirectionalCommand::Left => 2,
                DirectionalCommand::Right => 3,
                DirectionalCommand::Activate => 0,
            };
            assert(dirs@[j] == d);
        }
    }
}

/// The end of a walk is a legal cell.
pub proof fn lemma_walk_end_cell_ok(
    t: KeypadTopology,
    c: int,
    r: int,
    p: Seq<DirectionalCommand>,
)
    requires
        walk_ok(t, c, r, p),
    ensures
        cell_ok(t, walk_end(c, r, p).0, walk_end(c, r, p).1),
    decreases p.len(),
{
    if p.len() > 0 {
        lemma_walk_end_cell_ok(t, c + dcol(p[0]), r + drow(p[0]), p.drop_first());
    }
}

} // verus!

verus! {

/// All tied-minimal routes between two distinct cells, found by exhausting
/// walks length by length.  A pair that no route of length at most
/// width*height connects yields the empty list.
fn all_min_paths(t: &KeypadTopology, fc: u8, fr: u8, tc: u8, tr: u8) -> (r: Vec<PathEntry>)
    requires
        cell_ok(*t, fc as int, fr as int),
        cell_ok(*t, tc as int, tr as int),
        (fc, fr) != (tc, tr),
    ensures
        reach_within(
            *t,
            (fc as int, fr as int),
            (tc as int, tr as int),
            (t.width * t.height) as nat,
        ) ==> path_set_exact(
            *t,
            (fc as int, fr as int),
            (tc as int, tr as int),
            paths_view(r@),
            false,
        ) && r@.len() > 0,
        !reach_within(
            *t,
            (fc as int, fr as int),
            (tc as int, tr as int),
            (t.width * t.height) as nat,
        ) ==> r@.len() == 0,
{
    let ghost a: (int, int) = (fc as int, fr as int);
    let ghost b: (int, int) = (tc as int, tr as int);
    proof {
        assert((t.width as usize) * (t.height as usize) <= 65025) by (nonlinear_arith)
            requires
                t.width <= 255,
                t.height <= 255,
        ;
    }
    let cap: usize = (t.width as usize) * (t.height as usize);
    let mut frontier: Vec<SearchNode> = Vec::new();
    let empty: PathEntry = Vec::new();
    frontier.push((fc, fr, empty));
    proof {
        assert(frontier@[0].2@ =~= Seq::<DirectionalCommand>::empty());
        assert(frontier_sound(*t, a, frontier@, 0));
        assert forall|p: Seq<DirectionalCommand>|
            #[trigger] walk_ok(*t, a.0, a.1, p) && p.len() == 0 implies exists|k: int|
            0 <= k < frontier@.len() && frontier@[k].2@ == p by {
            assert(frontier@[0].2@ == p);
        }
    }
    let mut len: usize = 0;
    while len <= cap
        invariant
            cell_ok(*t, a.0, a.1),
            cell_ok(*t, b.0, b.1),
            a != b,
            a == (fc as int, fr as int),
            b == (tc as int, tr as int),
            cap == (t.width * t.height) as int,
            cap <= 65025,
            len <= cap + 1,
            frontier_sound(*t, a, frontier@, len as nat),
            frontier_complete(*t, a, frontier@, len as nat),
            forall|q: Seq<DirectionalCommand>| #[trigger] is_path(*t, a, b, q) ==> q.len() >= len,
        decreases cap + 1 - len,
    {
        // collect the walks of the current length that end at the target
        let mut hits: Vec<PathEntry> = Vec::new();
        let mut k: usize = 0;
        while k < frontier.len()
            invariant
                0 <= k <= frontier@.len(),
                frontier_sound(*t, a, frontier@, len as nat),
                a == (fc as int, fr as int),
                b == (tc as int, tr as int),
                forall|h: int|
                    0 <= h < hits@.len() ==> is_path(*t, a, b, (#[trigger] hits@[h])@)
                        && hits@[h]@.len() == len,
                forall|j: int|
                    0 <= j < k && ((#[trigger] frontier@[j]).0, frontier@[j].1) == (tc, tr)
                        ==> paths_view(hits@).contains(frontier@[j].2@),
            decreases frontier@.len() - k,
        {
            let ghost hits0 = hits@;
            if frontier[k].0 == tc && frontier[k].1 == tr {
                let h = copy_path(&frontier[k].2);
                hits.push(h);
                proof {
                    assert(paths_view(hits@)[hits@.len() - 1] == frontier@[k as int].2@);
                }
            }
            proof {
                assert forall|j: int|
                    0 <= j < k + 1 && ((#[trigger] frontier@[j]).0, frontier@[j].1) == (
                        tc,
                        tr,
                    ) implies paths_view(hits@).contains(frontier@[j].2@) by {
                    if j < k {
                        let x = choose|x: int|
                            0 <= x < hits0.len() && #[trigger] paths_view(hits0)[x]
                                == frontier@[j].2@;
                        assert(paths_view(hits@)[x] == frontier@[j].2@);
                    } else {
                        assert(paths_view(hits@)[hits@.len() - 1] == frontier@[j].2@);
                    }
                }
            }
            k = k + 1;
        }
        if hits.len() > 0 {
            proof {
                // every hit is minimal: nothing shorter reaches the target
                assert forall|h: int| 0 <= h < hits@.len() implies is_min_path(
                    *t,
                    a,
                    b,
                    (#[trigger] hits@[h])@,
                ) by {
                    assert(is_path(*t, a, b, hits@[h]@));
                }
                // every minimal route is one of the hits
                assert forall|q: Seq<DirectionalCommand>| #[trigger] is_min_path(
                    *t,
                    a,
                    b,
                    q,
                ) implies paths_view(hits@).contains(q) by {
                    assert(is_path(*t, a, b, hits@[0]@));
                    assert(q.len() <= hits@[0]@.len());
                    assert(q.len() >= len);
                    assert(q.len() == len);
                    assert(walk_ok(*t, a.0, a.1, q));
                    let k2 = choose|k2: int|
                        0 <= k2 < frontier@.len() && (#[trigger] frontier@[k2]).2@ == q;
                    lemma_walk_end_cell_ok(*t, a.0, a.1, q);
                    assert((frontier@[k2].0 as int, frontier@[k2].1 as int) == walk_end(
                        a.0,
                        a.1,
                        q,
                    ));
                    assert((frontier@[k2].0, frontier@[k2].1) == (tc, tr));
                }
                assert(is_path(*t, a, b, hits@[0]@) && hits@[0]@.len() <= cap);
            }
            let out = dedup_paths(hits);
            proof {
                assert forall|k2: int| 0 <= k2 < paths_view(out@).len() implies is_min_path(
                    *t,
                    a,
                    b,
                    #[trigger] paths_view(out@)[k2],
                ) by {
                    assert(paths_view(out@).contains(paths_view(out@)[k2]));
                    let x = choose|x: int|
                        0 <= x < paths_view(hits@).len() && #[trigger] paths_view(hits@)[x]
                            == paths_view(out@)[k2];
                }
            }
            return out;
        }
        // no walk of this length reaches the target: grow every walk
        proof {
            assert forall|q: Seq<DirectionalCommand>| #[trigger] is_path(*t, a, b, q) implies q.len()
                >= len + 1 by {
                if q.len() == len {
                    let k2 = choose|k2: int|
                        0 <= k2 < frontier@.len() && (#[trigger] frontier@[k2]).2@ == q;
                    lemma_walk_end_cell_ok(*t, a.0, a.1, q);
                    assert((frontier@[k2].0, frontier@[k2].1) == (tc, tr));
                    assert(paths_view(hits@).contains(frontier@[k2].2@));
                }
            }
        }
        let mut nf: Vec<SearchNode> = Vec::new();
        let mut i: usize = 0;
        while i < frontier.len()
            invariant
                0 <= i <= frontier@.len(),
                frontier_sound(*t, a, frontier@, len as nat),
                a == (fc as int, fr as int),
                forall|k2: int|
                    0 <= k2 < nf@.len() ==> {
                        &&& walk_ok(*t, a.0, a.1, (#[trigger] nf@[k2]).2@)
                        &&& nf@[k2].2@.len() == len + 1
                        &&& walk_end(a.0, a.1, nf@[k2].2@) == (nf@[k2].0 as int, nf@[k2].1 as int)
                    },
                forall|j: int, d: DirectionalCommand|
                    #![trigger frontier@[j], dcol(d)]
                    0 <= j < i && !(d is Activate) && cell_ok(
                        *t,
                        frontier@[j].0 + dcol(d),
                        frontier@[j].1 + drow(d),
                    ) ==> exists|k2: int|
                        0 <= k2 < nf@.len() && (#[trigger] nf@[k2]).2@ == frontier@[j].2@.push(d),
            decreases frontier@.len() - i,
        {
            let ghost nfs = nf@;
            let (c0, r0) = (frontier[i].0, frontier[i].1);
            extend_node(t, &mut nf, c0, r0, &frontier[i].2, Ghost(a));
            proof {
                assert forall|j: int, d: DirectionalCommand|
                    #![trigger frontier@[j], dcol(d)]
                    0 <= j < i + 1 && !(d is Activate) && cell_ok(
                        *t,
                        frontier@[j].0 + dcol(d),
                        frontier@[j].1 + drow(d),
                    ) implies exists|k2: int|
                    0 <= k2 < nf@.len() && (#[trigger] nf@[k2]).2@ == frontier@[j].2@.push(d) by {
                    if j < i {
                        let k2 = choose|k2: int|
                            0 <= k2 < nfs.len() && (#[trigger] nfs[k2]).2@ == frontier@[j].2@.push(
                                d,
                            );
                        assert(nf@[k2] == nfs[k2]);
                    }
                }
            }
            i = i + 1;
        }
        proof {
            assert forall|p: Seq<DirectionalCommand>|
                #[trigger] walk_ok(*t, a.0, a.1, p) && p.len() == len + 1 implies exists|k2: int|
                0 <= k2 < nf@.len() && nf@[k2].2@ == p by {
                let pre = p.take(p.len() - 1);
                let d = p[p.len() - 1];
                assert(p =~= pre.push(d));
                lemma_walk_snoc(*t, a.0, a.1, pre, d);
                let j = choose|j: int|
                    0 <= j < frontier@.len() && (#[trigger] frontier@[j]).2@ == pre;
                assert((frontier@[j].0 as int, frontier@[j].1 as int) == walk_end(a.0, a.1, pre));
                assert(cell_ok(*t, frontier@[j].0 + dcol(d), frontier@[j].1 + drow(d)));
            }
        }
        frontier = nf;
        len = len + 1;
    }
    proof {
        assert forall|p: Seq<DirectionalCommand>| is_path(*t, a, b, p) implies p.len() > cap by {
            assert(is_path(*t, a, b, p) ==> p.len() >= len);
        }
    }
    Vec::new()
}

} // verus!

verus! {

/// Extending a move sequence adds one direction change exactly when the
/// new move differs from the last one.
pub proof fn lemma_dir_changes_snoc(p: Seq<DirectionalCommand>, d: DirectionalCommand)
    ensures
        dir_changes(p.push(d)) == dir_changes(p) + (if p.len() > 0 && p.last() != d {
            1nat
        } else {
            0nat
        }),
    decreases p.len(),
{
    let x = p.push(d);
    if p.len() == 0 {
        assert(x.len() == 1);
    } else if p.len() == 1 {
        assert(x.drop_first() =~= seq![d]);
        assert(dir_changes(x.drop_first()) == 0);
        assert(x[0] == p[0] && x[1] == d);
    } else {
        assert(x[0] == p[0] && x[1] == p[1]);
        assert(x.drop_first() =~= p.drop_first().push(d));
        lemma_dir_changes_snoc(p.drop_first(), d);
        assert(p.drop_first().last() == p.last());
    }
}

/// Number of direction changes in a route.
fn count_changes(p: &PathEntry) -> (n: usize)
    ensures
        n == dir_changes(p@),
{
    let mut n: usize = 0;
    if p.len() == 0 {
        return n;
    }
    let mut i: usize = 1;
    proof {
        assert(p@.take(1) =~= seq![p@[0]]);
    }
    while i < p.len()
        invariant
            1 <= i <= p@.len(),
            n == dir_changes(p@.take(i as int)),
            n < i,
        decreases p@.len() - i,
    {
        proof {
            lemma_dir_changes_snoc(p@.take(i as int), p@[i as int]);
            assert(p@.take(i + 1) =~= p@.take(i as int).push(p@[i as int]));
            assert(p@.take(i as int).last() == p@[i - 1]);
        }
        if p[i - 1] != p[i] {
            n = n + 1;
        }
        i = i + 1;
    }
    proof {
        assert(p@.take(p@.len() as int) =~= p@);
    }
    n
}

/// Keep only the routes with at most one direction change.
fn bend_filter(v: Vec<PathEntry>) -> (r: Vec<PathEntry>)
    ensures
        forall|q: Seq<DirectionalCommand>|
            #[trigger] paths_view(r@).contains(q) <==> (paths_view(v@).contains(q) && dir_changes(
                q,
            ) <= 1),
        (forall|k1: int, k2: int|
            0 <= k1 < k2 < v@.len() ==> paths_view(v@)[k1] !== paths_view(v@)[k2]) ==> (forall|
            k1: int,
            k2: int,
        |
            0 <= k1 < k2 < r@.len() ==> paths_view(r@)[k1] !== paths_view(r@)[k2]),
{
    let ghost distinct_in = forall|k1: int, k2: int|
        0 <= k1 < k2 < v@.len() ==> paths_view(v@)[k1] !== paths_view(v@)[k2];
    let mut r: Vec<PathEntry> = Vec::new();
    let mut i: usize = 0;
    while i < v.len()
        invariant
            0 <= i <= v@.len(),
            distinct_in == (forall|k1: int, k2: int|
                0 <= k1 < k2 < v@.len() ==> paths_view(v@)[k1] !== paths_view(v@)[k2]),
            forall|q: Seq<DirectionalCommand>|
                #[trigger] paths_view(r@).contains(q) <==> (paths_view(v@.take(i as int)).contains(
                    q,
                ) && dir_changes(q) <= 1),
            distinct_in ==> (forall|k1: int, k2: int|
                0 <= k1 < k2 < r@.len() ==> paths_view(r@)[k1] !== paths_view(r@)[k2]),
        decreases v@.len() - i,
    {
        let ghost r0 = r@;
        let c = count_changes(&v[i]);
        if c <= 1 {
            let cp = copy_path(&v[i]);
            r.push(cp);
            proof {
                assert(paths_view(r@) =~= paths_view(r0).push(v@[i as int]@));
                if distinct_in {
                    assert forall|k1: int, k2: int|
                        0 <= k1 < k2 < r@.len() implies paths_view(r@)[k1] !== paths_view(
                        r@,
                    )[k2] by {
                        if k2 == r@.len() - 1 {
                            assert(paths_view(r0).contains(paths_view(r0)[k1]));
                            let k3 = choose|k3: int|
                                0 <= k3 < i && #[trigger] paths_view(v@.take(i as int))[k3]
                                    == paths_view(r0)[k1];
                            assert(paths_view(v@)[k3] == paths_view(v@.take(i as int))[k3]);
                            assert(paths_view(v@)[k3] !== paths_view(v@)[i as int]);
                            assert(paths_view(r@)[k2] == paths_view(v@)[i as int]);
                        }
                    }
                }
                assert forall|q: Seq<DirectionalCommand>|
                    #[trigger] paths_view(r@).contains(q) implies (paths_view(
                    v@.take(i + 1),
                ).contains(q) && dir_changes(q) <= 1) by {
                    let k1 = choose|k1: int|
                        0 <= k1 < paths_view(r@).len() && #[trigger] paths_view(r@)[k1] == q;
                    if k1 < r0.len() {
                        assert(paths_view(r0).contains(q));
                        let k2 = choose|k2: int|
                            0 <= k2 < i && #[trigger] paths_view(v@.take(i as int))[k2] == q;
                        assert(paths_view(v@.take(i + 1))[k2] == q);
                    } else {
                        assert(q == v@[i as int]@);
                        assert(paths_view(v@.take(i + 1))[i as int] == q);
                    }
                }
                assert forall|q: Seq<DirectionalCommand>|
                    paths_view(v@.take(i + 1)).contains(q) && dir_changes(q)
                        <= 1 implies #[trigger] paths_view(r@).contains(q) by {
                    let k2 = choose|k2: int|
                        0 <= k2 < i + 1 && #[trigger] paths_view(v@.take(i + 1))[k2] == q;
                    if k2 == i {
                        assert(paths_view(r@)[r@.len() - 1] == q);
                    } else {
                        assert(paths_view(v@.take(i as int))[k2] == q);
                        assert(paths_view(v@.take(i as int)).contains(q));
                    }
                }
            }
        } else {
            proof {
                assert forall|q: Seq<DirectionalCommand>|
                    paths_view(v@.take(i + 1)).contains(q) && dir_changes(q)
                        <= 1 implies #[trigger] paths_view(r@).contains(q) by {
                    let k2 = choose|k2: int|
                        0 <= k2 < i + 1 && #[trigger] paths_view(v@.take(i + 1))[k2] == q;
                    if k2 == i {
                        assert(q == v@[i as int]@);
                    } else {
                        assert(paths_view(v@.take(i as int))[k2] == q);
                        assert(paths_view(v@.take(i as int)).contains(q));
                    }
                }
                assert forall|q: Seq<DirectionalCommand>|
                    #[trigger] paths_view(r@).contains(q) implies (paths_view(
                    v@.take(i + 1),
                ).contains(q) && dir_changes(q) <= 1) by {
                    let k2 = choose|k2: int|
                        0 <= k2 < i && #[trigger] paths_view(v@.take(i as int))[k2] == q;
                    assert(paths_view(v@.take(i + 1))[k2] == q);
                }
            }
        }
        i = i + 1;
    }
    proof {
        assert(v@.take(v@.len() as int) =~= v@);
    }
    r
}

} // verus!

verus! {

/// Grid cell of a numeric key.
pub open spec fn key_cell(k: Key) -> (int, int) {
    match k {
        Key::Seven => (0, 0),
        Key::Eight => (1, 0),
        Key::Nine => (2, 0),
        Key::Four => (0, 1),
        Key::Five => (1, 1),
        Key::Six => (2, 1),
        Key::One => (0, 2),
        Key::Two => (1, 2),
        Key::Three => (2, 2),
        Key::Zero => (1, 3),
        Key::Activate => (2, 3),
    }
}

/// Ordinal of a numeric key in the table.
pub open spec fn spec_key_index(k: Key) -> int {
    match k {
        Key::Zero => 0,
        Key::One => 1,
        Key::Two => 2,
        Key::Three => 3,
        Key::Four => 4,
        Key::Five => 5,
        Key::Six => 6,
        Key::Seven => 7,
        Key::Eight => 8,
        Key::Nine => 9,
        Key::Activate => 10,
    }
}

/// The key with a given ordinal.
pub open spec fn key_of_index(i: int) -> Key {
    if i == 0 {
        Key::Zero
    } else if i == 1 {
        Key::One
    } else if i == 2 {
        Key::Two
    } else if i == 3 {
        Key::Three
    } else if i == 4 {
        Key::Four
    } else if i == 5 {
        Key::Five
    } else if i == 6 {
        Key::Six
    } else if i == 7 {
        Key::Seven
    } else if i == 8 {
        Key::Eight
    } else if i == 9 {
        Key::Nine
    } else {
        Key::Activate
    }
}

/// Grid cell of a directional button.
pub open spec fn cmd_cell(d: DirectionalCommand) -> (int, int) {
    match d {
        DirectionalCommand::Up => (1, 0),
        DirectionalCommand::Activate => (2, 0),
        DirectionalCommand::Left => (0, 1),
        DirectionalCommand::Down => (1, 1),
        DirectionalCommand::Right => (2, 1),
    }
}

/// Ordinal of a directional button in the table.
pub open spec fn spec_cmd_index(d: DirectionalCommand) -> int {
    match d {
        DirectionalCommand::Up => 0,
        DirectionalCommand::Down => 1,
        DirectionalCommand::Left => 2,
        DirectionalCommand::Right => 3,
        DirectionalCommand::Activate => 4,
    }
}

/// The directional button with a given ordinal.
pub open spec fn cmd_of_index(i: int) -> DirectionalCommand {
    if i == 0 {
        DirectionalCommand::Up
    } else if i == 1 {
        DirectionalCommand::Down
    } else if i == 2 {
        DirectionalCommand::Left
    } else if i == 3 {
        DirectionalCommand::Right
    } else {
        DirectionalCommand::Activate
    }
}

pub fn key_index(k: Key) -> (i: usize)
    ensures
        i == spec_key_index(k),
        i < 11,
{
    match k {
        Key::Zero => 0,
        Key::One => 1,
        Key::Two => 2,
        Key::Three => 3,
        Key::Four => 4,
        Key::Five => 5,
        Key::Six => 6,
        Key::Seven => 7,
        Key::Eight => 8,
        Key::Nine => 9,
        Key::Activate => 10,
    }
}

pub fn cmd_index(d: DirectionalCommand) -> (i: usize)
    ensures
        i == spec_cmd_index(d),
        i < 5,
{
    match d {
        DirectionalCommand::Up => 0,
        DirectionalCommand::Down => 1,
        DirectionalCommand::Left => 2,
        DirectionalCommand::Right => 3,
        DirectionalCommand::Activate => 4,
    }
}

/// Positions of the numeric keys, by ordinal.
pub fn numeric_positions() -> (p: Vec<(u8, u8)>)
    ensures
        p@.len() == 11,
        forall|i: int|
            0 <= i < 11 ==> ((#[trigger] p@[i]).0 as int, p@[i].1 as int) == key_cell(
                key_of_index(i),
            ),
{
    let mut p: Vec<(u8, u8)> = Vec::new();
    p.push((1, 3));
    p.push((0, 2));
    p.push((1, 2));
    p.push((2, 2));
    p.push((0, 1));
    p.push((1, 1));
    p.push((2, 1));
    p.push((0, 0));
    p.push((1, 0));
    p.push((2, 0));
    p.push((2, 3));
    p
}

/// Positions of the directional buttons, by ordinal.
pub fn directional_positions() -> (p: Vec<(u8, u8)>)
    ensures
        p@.len() == 5,
        forall|i: int|
            0 <= i < 5 ==> ((#[trigger] p@[i]).0 as int, p@[i].1 as int) == cmd_cell(
                cmd_of_index(i),
            ),
{
    let mut p: Vec<(u8, u8)> = Vec::new();
    p.push((1, 0));
    p.push((1, 1));
    p.push((0, 1));
    p.push((2, 1));
    p.push((2, 0));
    p
}

/// Memoized table of the tied-minimal routes between every ordered pair of
/// keys of one keypad kind.
pub struct PairwisePathTable {
    pub topology: KeypadTopology,
    pub positions: Vec<(u8, u8)>,
    pub entries: Vec<Vec<Vec<PathEntry>>>,
    pub bend_limited: bool,
}

impl PairwisePathTable {
    /// Cell of the key with ordinal i.
    pub open spec fn cell_of(self, i: int) -> (int, int) {
        (self.positions@[i].0 as int, self.positions@[i].1 as int)
    }

    /// The routes stored for the ordered pair (i, j).
    pub open spec fn entry_paths(self, i: int, j: int) -> Seq<Seq<DirectionalCommand>> {
        paths_view(self.entries@[i]@[j]@)
    }

    /// Search bound: no useful route is longer than the number of cells.
    pub open spec fn cap(self) -> nat {
        (self.topology.width * self.topology.height) as nat
    }

    /// The table is complete and exact: for every ordered pair of distinct
    /// keys it holds exactly the tied-minimal routes (those with at most
    /// one bend when bend_limited), and the diagonal is empty.
    pub open spec fn wf(self) -> bool {
        &&& self.entries@.len() == self.positions@.len()
        &&& forall|i: int|
            0 <= i < self.entries@.len() ==> (#[trigger] self.entries@[i])@.len()
                == self.positions@.len()
        &&& forall|i: int|
            0 <= i < self.positions@.len() ==> cell_ok(
                self.topology,
                (#[trigger] self.cell_of(i)).0,
                self.cell_of(i).1,
            )
        &&& forall|i: int, j: int|
            0 <= i < self.positions@.len() && 0 <= j < self.positions@.len() && i != j
                ==> #[trigger] self.cell_of(i) != #[trigger] self.cell_of(j)
        &&& forall|i: int|
            0 <= i < self.positions@.len() ==> (#[trigger] self.entry_paths(i, i)).len() == 0
        &&& forall|i: int, j: int|
            0 <= i < self.positions@.len() && 0 <= j < self.positions@.len() && i != j ==> {
                if reach_within(self.topology, self.cell_of(i), self.cell_of(j), self.cap()) {
                    path_set_exact(
                        self.topology,
                        self.cell_of(i),
                        self.cell_of(j),
                        #[trigger] self.entry_paths(i, j),
                        self.bend_limited,
                    )
                } else {
                    self.entry_paths(i, j).len() == 0
                }
            }
    }

    /// Build the table for one topology by running the bounded search on
    /// every ordered pair of keys.
    pub fn build(topology: KeypadTopology, positions: Vec<(u8, u8)>, bend_limited: bool) -> (tb:
        Self)
        requires
            forall|i: int|
                0 <= i < positions@.len() ==> cell_ok(
                    topology,
                    (#[trigger] positions@[i]).0 as int,
                    positions@[i].1 as int,
                ),
            forall|i: int, j: int|
                0 <= i < positions@.len() && 0 <= j < positions@.len() && i != j ==> (
                (#[trigger] positions@[i]).0 as int,
                positions@[i].1 as int,
                ) != ((#[trigger] positions@[j]).0 as int, positions@[j].1 as int),
        ensures
            tb.wf(),
            tb.topology == topology,
            tb.positions == positions,
            tb.bend_limited == bend_limited,
    {
        let n = positions.len();
        let mut entries: Vec<Vec<Vec<PathEntry>>> = Vec::new();
        let mut i: usize = 0;
        while i < n
            invariant
                n == positions@.len(),
                forall|x: int|
                    0 <= x < positions@.len() ==> cell_ok(
                        topology,
                        (#[trigger] positions@[x]).0 as int,
                        positions@[x].1 as int,
                    ),
                forall|x: int, y: int|
                    0 <= x < positions@.len() && 0 <= y < positions@.len() && x != y ==> (
                    (#[trigger] positions@[x]).0 as int,
                    positions@[x].1 as int,
                    ) != ((#[trigger] positions@[y]).0 as int, positions@[y].1 as int),
                entries@.len() == i,
                0 <= i <= n,
                forall|x: int|
                    0 <= x < i ==> (#[trigger] entries@[x])@.len() == positions@.len(),
                forall|x: int|
                    0 <= x < i ==> paths_view((#[trigger] entries@[x])@[x]@).len() == 0,
                forall|x: int, y: int|
                    #![trigger entries@[x]@[y]]
                    0 <= x < i && 0 <= y < positions@.len() && x != y ==> {
                        let a = (positions@[x].0 as int, positions@[x].1 as int);
                        let b = (positions@[y].0 as int, positions@[y].1 as int);
                        if reach_within(topology, a, b, (topology.width * topology.height) as nat) {
                            path_set_exact(
                                topology,
                                a,
                                b,
                                paths_view(entries@[x]@[y]@),
                                bend_limited,
                            )
                        } else {
                            paths_view(entries@[x]@[y]@).len() == 0
                        }
                    },
            decreases n - i,
        {
            let mut row: Vec<Vec<PathEntry>> = Vec::new();
            let mut j: usize = 0;
            while j < n
                invariant
                    n == positions@.len(),
                    0 <= i < n,
                    0 <= j <= n,
                    row@.len() == j,
                    forall|x: int|
                        0 <= x < positions@.len() ==> cell_ok(
                            topology,
                            (#[trigger] positions@[x]).0 as int,
                            positions@[x].1 as int,
                        ),
                    forall|x: int, y: int|
                        0 <= x < positions@.len() && 0 <= y < positions@.len() && x != y ==> (
                        (#[trigger] positions@[x]).0 as int,
                        positions@[x].1 as int,
                        ) != ((#[trigger] positions@[y]).0 as int, positions@[y].1 as int),
                    forall|y: int| 0 <= y < j && y == i ==> paths_view((#[trigger] row@[y])@).len() == 0,
                    forall|y: int|
                        0 <= y < j && y != i as int ==> {
                            let a = (positions@[i as int].0 as int, positions@[i as int].1 as int);
                            let b = (positions@[y].0 as int, positions@[y].1 as int);
                            if reach_within(
                                topology,
                                a,
                                b,
                                (topology.width * topology.height) as nat,
                            ) {
                                path_set_exact(
                                    topology,
                                    a,
                                    b,
                                    paths_view((#[trigger] row@[y])@),
                                    bend_limited,
                                )
                            } else {
                                paths_view(row@[y]@).len() == 0
                            }
                        },
                decreases n - j,
            {
                let ghost a = (positions@[i as int].0 as int, positions@[i as int].1 as int);
                let ghost b = (positions@[j as int].0 as int, positions@[j as int].1 as int);
                let ghost capn = (topology.width * topology.height) as nat;
                if j == i {
                    let e: Vec<PathEntry> = Vec::new();
                    row.push(e);
                    proof {
                        assert(row@[j as int]@.len() == 0);
                        assert(paths_view(row@[j as int]@).len() == 0);
                    }
                } else {
                    let (fc, fr) = (positions[i].0, positions[i].1);
                    let (tc, tr) = (positions[j].0, positions[j].1);
                    let ps = all_min_paths(&topology, fc, fr, tc, tr);
                    if bend_limited {
                        let fps = bend_filter(ps);
                        proof {
                            if reach_within(topology, a, b, capn) {
                                assert(path_set_exact(topology, a, b, paths_view(ps@), false));
                                assert forall|k: int|
                                    0 <= k < paths_view(fps@).len() implies is_min_path(
                                    topology,
                                    a,
                                    b,
                                    #[trigger] paths_view(fps@)[k],
                                ) && dir_changes(paths_view(fps@)[k]) <= 1 by {
                                    let q = paths_view(fps@)[k];
                                    assert(paths_view(fps@).contains(q));
                                    assert(paths_view(ps@).contains(q));
                                    let x = choose|x: int|
                                        0 <= x < paths_view(ps@).len() && #[trigger] paths_view(
                                            ps@,
                                        )[x] == q;
                                }
                                assert forall|q: Seq<DirectionalCommand>|
                                    #[trigger] is_min_path(topology, a, b, q) && dir_changes(q)
                                        <= 1 implies paths_view(fps@).contains(q) by {
                                    assert(paths_view(ps@).contains(q));
                                }
                                assert(path_set_exact(
                                    topology,
                                    a,
                                    b,
                                    paths_view(fps@),
                                    bend_limited,
                                ));
                            } else {
                                assert(paths_view(ps@).len() == 0);
                                if paths_view(fps@).len() > 0 {
                                    let q = paths_view(fps@)[0];
                                    assert(paths_view(fps@).contains(q));
                                    assert(paths_view(ps@).contains(q));
                                }
                            }
                        }
                        row.push(fps);
                    } else {
                        row.push(ps);
                    }
                }
                j = j + 1;
            }
            entries.push(row);
            i = i + 1;
        }
        PairwisePathTable { topology, positions, entries, bend_limited }
    }
}

} // verus!

verus! {

/// The opposite of a move; Activate is its own opposite.
pub open spec fn flip(d: DirectionalCommand) -> DirectionalCommand {
    match d {
        DirectionalCommand::Up => DirectionalCommand::Down,
        DirectionalCommand::Down => DirectionalCommand::Up,
        DirectionalCommand::Left => DirectionalCommand::Right,
        DirectionalCommand::Right => DirectionalCommand::Left,
        DirectionalCommand::Activate => DirectionalCommand::Activate,
    }
}

/// A route read backwards with every move flipped: the way back.
pub open spec fn flip_rev(p: Seq<DirectionalCommand>) -> Seq<DirectionalCommand> {
    p.reverse().map_values(|d: DirectionalCommand| flip(d))
}

/// Unfolding flip_rev at the front of the route.
proof fn lemma_flip_rev_cons(p: Seq<DirectionalCommand>)
    requires
        p.len() > 0,
    ensures
        flip_rev(p) =~= flip_rev(p.drop_first()).push(flip(p[0])),
{
}

/// The way back is a walk from the end to the start.
pub proof fn lemma_walk_flip_rev(t: KeypadTopology, c: int, r: int, p: Seq<DirectionalCommand>)
    requires
        walk_ok(t, c, r, p),
    ensures
        walk_ok(t, walk_end(c, r, p).0, walk_end(c, r, p).1, flip_rev(p)),
        walk_end(walk_end(c, r, p).0, walk_end(c, r, p).1, flip_rev(p)) == (c, r),
        flip_rev(p).len() == p.len(),
    decreases p.len(),
{
    if p.len() == 0 {
        assert(flip_rev(p) =~= Seq::<DirectionalCommand>::empty());
    } else {
        let d = p[0];
        let c1 = c + dcol(d);
        let r1 = r + drow(d);
        let rest = p.drop_first();
        lemma_walk_flip_rev(t, c1, r1, rest);
        lemma_flip_rev_cons(p);
        let e = walk_end(c1, r1, rest);
        assert(walk_end(c, r, p) == e);
        lemma_walk_snoc(t, e.0, e.1, flip_rev(rest), flip(d));
        assert(walk_end(e.0, e.1, flip_rev(rest)) == (c1, r1));
        assert(c1 + dcol(flip(d)) == c && r1 + drow(flip(d)) == r);
        assert(cell_ok(t, c, r));
    }
}

/// The way back of a tied-minimal route is tied-minimal for the reverse
/// pair, with the same number of direction changes.
pub proof fn lemma_min_path_symmetry(
    t: KeypadTopology,
    a: (int, int),
    b: (int, int),
    p: Seq<DirectionalCommand>,
)
    requires
        is_min_path(t, a, b, p),
    ensures
        is_min_path(t, b, a, flip_rev(p)),
        flip_rev(p).len() == p.len(),
{
    lemma_walk_flip_rev(t, a.0, a.1, p);
    assert(is_path(t, b, a, flip_rev(p)));
    assert forall|q: Seq<DirectionalCommand>| is_path(t, b, a, q) implies flip_rev(p).len()
        <= q.len() by {
        lemma_walk_flip_rev(t, b.0, b.1, q);
        assert(is_path(t, a, b, flip_rev(q)));
        assert(p.len() <= flip_rev(q).len());
    }
}

/// Reversing and flipping a route keeps its number of direction changes.
pub proof fn lemma_dir_changes_flip_rev(p: Seq<DirectionalCommand>)
    ensures
        dir_changes(flip_rev(p)) == dir_changes(p),
    decreases p.len(),
{
    if p.len() == 0 {
        assert(flip_rev(p) =~= Seq::<DirectionalCommand>::empty());
    } else if p.len() == 1 {
        assert(flip_rev(p) =~= seq![flip(p[0])]);
    } else {
        let rest = p.drop_first();
        lemma_dir_changes_flip_rev(rest);
        lemma_flip_rev_cons(p);
        lemma_dir_changes_snoc(flip_rev(rest), flip(p[0]));
        assert(flip_rev(rest).len() == rest.len()) by {
            assert(rest.reverse().len() == rest.len());
        }
        assert(flip_rev(rest).last() == flip(rest[0])) by {
            assert(rest.reverse()[rest.len() - 1] == rest[0]);
            assert(flip_rev(rest)[rest.len() - 1] == flip(rest.reverse()[rest.len() - 1]));
        }
        assert(flip(rest[0]) != flip(p[0]) <==> rest[0] != p[0]) by {
            assert(flip(flip(rest[0])) == rest[0] && flip(flip(p[0])) == p[0]);
        }
        assert(dir_changes(p) == (if p[0] == p[1] {
            0nat
        } else {
            1nat
        }) + dir_changes(rest));
        assert(rest[0] == p[1]);
    }
}

/// Symmetry of the path table: the way back of every stored route is
/// stored for the opposite pair.
pub proof fn lemma_table_symmetry(tb: PairwisePathTable, i: int, j: int, q: Seq<DirectionalCommand>)
    requires
        tb.wf(),
        0 <= i < tb.positions@.len(),
        0 <= j < tb.positions@.len(),
        i != j,
        tb.entry_paths(i, j).contains(q),
    ensures
        tb.entry_paths(j, i).contains(flip_rev(q)),
{
    let a = tb.cell_of(i);
    let b = tb.cell_of(j);
    let k = choose|k: int|
        0 <= k < tb.entry_paths(i, j).len() && #[trigger] tb.entry_paths(i, j)[k] == q;
    if !reach_within(tb.topology, a, b, tb.cap()) {
        assert(tb.entry_paths(i, j).len() == 0);
    }
    assert(path_set_exact(tb.topology, a, b, tb.entry_paths(i, j), tb.bend_limited));
    assert(is_min_path(tb.topology, a, b, q));
    lemma_min_path_symmetry(tb.topology, a, b, q);
    lemma_dir_changes_flip_rev(q);
    // the opposite pair is reachable within the same bound
    let w = choose|w: Seq<DirectionalCommand>|
        is_path(tb.topology, a, b, w) && w.len() <= tb.cap();
    lemma_walk_flip_rev(tb.topology, a.0, a.1, w);
    assert(is_path(tb.topology, b, a, flip_rev(w)) && flip_rev(w).len() <= tb.cap());
    assert(reach_within(tb.topology, b, a, tb.cap()));
    assert(path_set_exact(tb.topology, b, a, tb.entry_paths(j, i), tb.bend_limited));
}

} // verus!

verus! {

/// Equal-length law: any two routes stored for one ordered pair have the
/// same length, the shortest-path distance of the pair.
pub proof fn lemma_table_equal_lengths(
    tb: PairwisePathTable,
    i: int,
    j: int,
    p: Seq<DirectionalCommand>,
    q: Seq<DirectionalCommand>,
)
    requires
        tb.wf(),
        0 <= i < tb.positions@.len(),
        0 <= j < tb.positions@.len(),
        tb.entry_paths(i, j).contains(p),
        tb.entry_paths(i, j).contains(q),
    ensures
        p.len() == q.len(),
{
    if i != j {
        if !reach_within(tb.topology, tb.cell_of(i), tb.cell_of(j), tb.cap()) {
            assert(tb.entry_paths(i, j).len() == 0);
        }
        let k1 = choose|k1: int|
            0 <= k1 < tb.entry_paths(i, j).len() && #[trigger] tb.entry_paths(i, j)[k1] == p;
        let k2 = choose|k2: int|
            0 <= k2 < tb.entry_paths(i, j).len() && #[trigger] tb.entry_paths(i, j)[k2] == q;
        assert(is_min_path(tb.topology, tb.cell_of(i), tb.cell_of(j), p));
        assert(is_min_path(tb.topology, tb.cell_of(i), tb.cell_of(j), q));
    }
}

/// Self-pair law: the table maps every (k, k) to the empty set.
pub proof fn lemma_table_self_empty(tb: PairwisePathTable, i: int)
    requires
        tb.wf(),
        0 <= i < tb.positions@.len(),
    ensures
        tb.entry_paths(i, i).len() == 0,
{
}

/// Filter law: in a bend-limited table every stored route has at most one
/// direction change.
pub proof fn lemma_table_single_bend(
    tb: PairwisePathTable,
    i: int,
    j: int,
    p: Seq<DirectionalCommand>,
)
    requires
        tb.wf(),
        tb.bend_limited,
        0 <= i < tb.positions@.len(),
        0 <= j < tb.positions@.len(),
        tb.entry_paths(i, j).contains(p),
    ensures
        dir_changes(p) <= 1,
{
    if i != j {
        if !reach_within(tb.topology, tb.cell_of(i), tb.cell_of(j), tb.cap()) {
            assert(tb.entry_paths(i, j).len() == 0);
        }
        let k1 = choose|k1: int|
            0 <= k1 < tb.entry_paths(i, j).len() && #[trigger] tb.entry_paths(i, j)[k1] == p;
    }
}

} // verus!
