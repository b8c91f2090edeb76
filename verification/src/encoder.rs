//! The indirection-chain encoder: composing per-segment route sets into
//! full candidate press sequences, and the dynamic programming that finds a
//! minimum-length top-level candidate without materializing the sets.

use vstd::prelude::*;
use crate::keypad::{
    cell_ok, cmd_cell, cmd_index, cmd_of_index, dir_changes, directional_positions,
    directional_topology, is_min_path, is_path, key_cell, key_index, key_of_index,
    lemma_min_path_exists, numeric_positions, numeric_topology, paths_view, reach_within,
    spec_cmd_index, spec_directional_topology, spec_key_index, spec_numeric_topology, walk_end,
    walk_ok, Candidate, DirectionalCommand, Key, KeypadTopology, PairwisePathTable, PathEntry,
};

verus! {

broadcast use vstd::seq_lib::group_seq_properties;

// ---------------------------------------------------------------------------
// The mathematical model: candidate sets per indirection level.
// ---------------------------------------------------------------------------

/// The alternative routes for one numeric-keypad transition: for a pair of
/// distinct keys the tied-minimal routes with at most one bend, and for a
/// key to itself the single empty route.
pub open spec fn num_pair_alternatives(f: Key, t: Key) -> Set<Seq<DirectionalCommand>> {
    if f == t {
        set![Seq::<DirectionalCommand>::empty()]
    } else {
        Set::new(
            |p: Seq<DirectionalCommand>|
                is_min_path(spec_numeric_topology(), key_cell(f), key_cell(t), p) && dir_changes(p)
                    <= 1,
        )
    }
}

/// The alternative routes for one directional-keypad transition: all the
/// tied-minimal routes, unfiltered.
pub open spec fn dir_pair_alternatives(
    f: DirectionalCommand,
    t: DirectionalCommand,
) -> Set<Seq<DirectionalCommand>> {
    if f == t {
        set![Seq::<DirectionalCommand>::empty()]
    } else {
        Set::new(
            |p: Seq<DirectionalCommand>|
                is_min_path(spec_directional_topology(), cmd_cell(f), cmd_cell(t), p),
        )
    }
}

/// Each alternative followed by the Activate press that fires the key.
pub open spec fn with_activate(s: Set<Seq<DirectionalCommand>>) -> Set<Seq<DirectionalCommand>> {
    Set::new(
        |x: Seq<DirectionalCommand>|
            exists|p: Seq<DirectionalCommand>|
                s.contains(p) && x == p.push(DirectionalCommand::Activate),
    )
}

/// Option set for one numeric transition, Activate included.
pub open spec fn num_options(f: Key, t: Key) -> Set<Seq<DirectionalCommand>> {
    with_activate(num_pair_alternatives(f, t))
}

/// Option set for one directional transition, Activate included.
pub open spec fn dir_options(
    f: DirectionalCommand,
    t: DirectionalCommand,
) -> Set<Seq<DirectionalCommand>> {
    with_activate(dir_pair_alternatives(f, t))
}

/// All level-0 candidates that type `code` on the numeric keypad starting
/// from the key `cur`: the cartesian product of the per-transition options.
pub open spec fn level0_from(cur: Key, code: Seq<Key>) -> Set<Seq<DirectionalCommand>>
    decreases code.len(),
{
    if code.len() == 0 {
        set![Seq::<DirectionalCommand>::empty()]
    } else {
        Set::new(
            |s: Seq<DirectionalCommand>|
                exists|h: Seq<DirectionalCommand>, t2: Seq<DirectionalCommand>|
                    num_options(cur, code[0]).contains(h) && level0_from(
                        code[0],
                        code.drop_first(),
                    ).contains(t2) && s == h + t2,
        )
    }
}

/// All re-encodings of the sequence `s` through the directional keypad,
/// starting from the command `cur`.
pub open spec fn reencode_from(
    cur: DirectionalCommand,
    s: Seq<DirectionalCommand>,
) -> Set<Seq<DirectionalCommand>>
    decreases s.len(),
{
    if s.len() == 0 {
        set![Seq::<DirectionalCommand>::empty()]
    } else {
        Set::new(
            |x: Seq<DirectionalCommand>|
                exists|h: Seq<DirectionalCommand>, t2: Seq<DirectionalCommand>|
                    dir_options(cur, s[0]).contains(h) && reencode_from(
                        s[0],
                        s.drop_first(),
                    ).contains(t2) && x == h + t2,
        )
    }
}

/// The level-0 candidate set of a code (the arm starts on Activate).
pub open spec fn level0_set(code: Seq<Key>) -> Set<Seq<DirectionalCommand>> {
    level0_from(Key::Activate, code)
}

/// The re-encodings of one candidate (the arm starts on Activate).
pub open spec fn reencode_set(s: Seq<DirectionalCommand>) -> Set<Seq<DirectionalCommand>> {
    reencode_from(DirectionalCommand::Activate, s)
}

/// The candidate set after `depth` re-encoding passes.
pub open spec fn level_set(code: Seq<Key>, depth: nat) -> Set<Seq<DirectionalCommand>>
    decreases depth,
{
    if depth == 0 {
        level0_set(code)
    } else {
        Set::new(
            |x: Seq<DirectionalCommand>|
                exists|c: Seq<DirectionalCommand>|
                    level_set(code, (depth - 1) as nat).contains(c) && reencode_set(c).contains(x),
        )
    }
}

/// Both fixed keypads admit, for every ordered pair of distinct keys, a
/// tied-minimal route (with at most one bend on the numeric pad) no longer
/// than the pad's cell count.  This is a closed fact about the two fixed
/// layouts; the encoder constructor checks it and proves it at run time.
pub open spec fn dir_pair_covered(f: DirectionalCommand, t: DirectionalCommand) -> bool {
    exists|p: Seq<DirectionalCommand>| dir_pair_alternatives(f, t).contains(p) && p.len() <= 6
}

pub open spec fn num_pair_covered(f: Key, t: Key) -> bool {
    exists|p: Seq<DirectionalCommand>| num_pair_alternatives(f, t).contains(p) && p.len() <= 12
}

pub open spec fn pads_complete() -> bool {
    &&& forall|f: DirectionalCommand, t: DirectionalCommand| f != t ==> #[trigger] dir_pair_covered(f, t)
    &&& forall|f: Key, t: Key| f != t ==> #[trigger] num_pair_covered(f, t)
}

// ---------------------------------------------------------------------------
// Pure consequences of the model: lengths never shrink under re-encoding.
// ---------------------------------------------------------------------------

/// Every re-encoding of a sequence is at least as long as the sequence:
/// each of its commands costs at least one press above.
pub proof fn lemma_reencode_no_shorter(
    cur: DirectionalCommand,
    s: Seq<DirectionalCommand>,
    c: Seq<DirectionalCommand>,
)
    requires
        reencode_from(cur, s).contains(c),
    ensures
        c.len() >= s.len(),
    decreases s.len(),
{
    if s.len() > 0 {
        let (h, t2) = choose|h: Seq<DirectionalCommand>, t2: Seq<DirectionalCommand>|
            dir_options(cur, s[0]).contains(h) && reencode_from(s[0], s.drop_first()).contains(t2)
                && c == h + t2;
        let p = choose|p: Seq<DirectionalCommand>|
            dir_pair_alternatives(cur, s[0]).contains(p) && h == p.push(
                DirectionalCommand::Activate,
            );
        lemma_reencode_no_shorter(s[0], s.drop_first(), t2);
        assert(h.len() >= 1);
    }
}

/// A value that is the minimum length over a candidate set.
pub open spec fn is_min_len_of(s: Set<Seq<DirectionalCommand>>, m: int) -> bool {
    &&& exists|c: Seq<DirectionalCommand>| s.contains(c) && c.len() == m
    &&& forall|c: Seq<DirectionalCommand>| s.contains(c) ==> #[trigger] c.len() >= m
}

/// Monotonicity law: for a fixed code, one more indirection level never
/// decreases the minimal candidate length.
pub proof fn lemma_depth_monotonic(code: Seq<Key>, depth: nat, m1: int, m2: int)
    requires
        is_min_len_of(level_set(code, depth), m1),
        is_min_len_of(level_set(code, (depth + 1) as nat), m2),
    ensures
        m2 >= m1,
{
    let c2 = choose|c2: Seq<DirectionalCommand>|
        level_set(code, (depth + 1) as nat).contains(c2) && c2.len() == m2;
    let c1 = choose|c1: Seq<DirectionalCommand>|
        level_set(code, depth).contains(c1) && reencode_set(c1).contains(c2);
    lemma_reencode_no_shorter(DirectionalCommand::Activate, c1, c2);
}

/// Two minima of one set are equal: with the exact contracts below, equal
/// inputs force equal results (determinism law).
pub proof fn lemma_min_len_unique(s: Set<Seq<DirectionalCommand>>, m1: int, m2: int)
    requires
        is_min_len_of(s, m1),
        is_min_len_of(s, m2),
    ensures
        m1 == m2,
{
    let c1 = choose|c1: Seq<DirectionalCommand>| s.contains(c1) && c1.len() == m1;
    let c2 = choose|c2: Seq<DirectionalCommand>| s.contains(c2) && c2.len() == m2;
}

} // verus!

verus! {

/// The two memoized path tables, built once and then only read.
pub struct ChainEncoder {
    pub num_table: PairwisePathTable,
    pub dir_table: PairwisePathTable,
}

impl ChainEncoder {
    /// Both tables are exact for the two fixed keypads, the numeric one
    /// bend-filtered, and every pair of distinct keys has at least one
    /// stored route.
    pub open spec fn wf(self) -> bool {
        &&& self.num_table.wf()
        &&& self.num_table.bend_limited
        &&& self.num_table.topology == spec_numeric_topology()
        &&& self.num_table.positions@.len() == 11
        &&& forall|i: int|
            0 <= i < 11 ==> #[trigger] self.num_table.cell_of(i) == key_cell(key_of_index(i))
        &&& self.dir_table.wf()
        &&& !self.dir_table.bend_limited
        &&& self.dir_table.topology == spec_directional_topology()
        &&& self.dir_table.positions@.len() == 5
        &&& forall|i: int|
            0 <= i < 5 ==> #[trigger] self.dir_table.cell_of(i) == cmd_cell(cmd_of_index(i))
        &&& pads_complete()
    }
}

/// Ordinal round trips for the fixed key sets.
pub proof fn lemma_index_roundtrip()
    ensures
        forall|k: Key| #[trigger] key_of_index(spec_key_index(k)) == k,
        forall|d: DirectionalCommand| #[trigger] cmd_of_index(spec_cmd_index(d)) == d,
        forall|k: Key| 0 <= #[trigger] spec_key_index(k) < 11,
        forall|d: DirectionalCommand| 0 <= #[trigger] spec_cmd_index(d) < 5,
{
}

// ---------------------------------------------------------------------------
// The dynamic-programming cost model over the tables.
// ---------------------------------------------------------------------------

/// Presses needed at the top of a chain of k directional robots to make the
/// bottom arm, currently on `prev`, type the sequence `s`.
pub open spec fn press_cost(
    tb: PairwisePathTable,
    prev: DirectionalCommand,
    s: Seq<DirectionalCommand>,
    k: nat,
) -> int
    decreases k, 2nat, s.len(),
{
    if s.len() == 0 {
        0
    } else if k == 0 {
        s.len() as int
    } else {
        trans_cost(tb, prev, s[0], k) + press_cost(tb, s[0], s.drop_first(), k)
    }
}

/// Cheapest way to move the bottom arm from f to t and press, across k
/// robots: the best option from the table.
pub open spec fn trans_cost(
    tb: PairwisePathTable,
    f: DirectionalCommand,
    t: DirectionalCommand,
    k: nat,
) -> int
    decreases k, 1nat, 0nat,
{
    if k == 0 {
        1
    } else if f == t {
        press_cost(
            tb,
            DirectionalCommand::Activate,
            seq![DirectionalCommand::Activate],
            (k - 1) as nat,
        )
    } else {
        list_min_cost(tb, tb.entry_paths(spec_cmd_index(f), spec_cmd_index(t)), k)
    }
}

/// Minimum, over a list of stored routes, of the cost of typing the route
/// plus its Activate one level down.
pub open spec fn list_min_cost(tb: PairwisePathTable, ps: Seq<Seq<DirectionalCommand>>, k: nat) -> int
    decreases k, 0nat, ps.len(),
{
    if k == 0 || ps.len() == 0 {
        0
    } else {
        let c0 = press_cost(
            tb,
            DirectionalCommand::Activate,
            ps[0].push(DirectionalCommand::Activate),
            (k - 1) as nat,
        );
        if ps.len() == 1 {
            c0
        } else {
            let m = list_min_cost(tb, ps.drop_first(), k);
            if c0 <= m {
                c0
            } else {
                m
            }
        }
    }
}

/// Minimum over the numeric routes for one code transition, each typed by
/// the directional chain of the given depth.
pub open spec fn num_list_min_cost(
    enc: ChainEncoder,
    ps: Seq<Seq<DirectionalCommand>>,
    depth: nat,
) -> int
    decreases ps.len(),
{
    if ps.len() == 0 {
        0
    } else {
        let c0 = press_cost(
            enc.dir_table,
            DirectionalCommand::Activate,
            ps[0].push(DirectionalCommand::Activate),
            depth,
        );
        if ps.len() == 1 {
            c0
        } else {
            let m = num_list_min_cost(enc, ps.drop_first(), depth);
            if c0 <= m {
                c0
            } else {
                m
            }
        }
    }
}

/// Cheapest top-level cost of one numeric transition.
pub open spec fn num_trans_cost(enc: ChainEncoder, f: Key, t: Key, depth: nat) -> int {
    if f == t {
        press_cost(
            enc.dir_table,
            DirectionalCommand::Activate,
            seq![DirectionalCommand::Activate],
            depth,
        )
    } else {
        num_list_min_cost(
            enc,
            enc.num_table.entry_paths(spec_key_index(f), spec_key_index(t)),
            depth,
        )
    }
}

/// Cheapest top-level cost of typing a whole code, transition by
/// transition from the key `prev`.
pub open spec fn num_total_from(enc: ChainEncoder, prev: Key, code: Seq<Key>, depth: nat) -> int
    decreases code.len(),
{
    if code.len() == 0 {
        0
    } else {
        num_trans_cost(enc, prev, code[0], depth) + num_total_from(
            enc,
            code[0],
            code.drop_first(),
            depth,
        )
    }
}

// ---------------------------------------------------------------------------
// Bridging: the tables hold exactly the model's alternative sets.
// ---------------------------------------------------------------------------

/// For distinct directional buttons the table entry holds exactly the
/// model's alternatives, each no longer than six moves, and at least one.
pub proof fn lemma_dir_entries_exact(enc: ChainEncoder, f: DirectionalCommand, t: DirectionalCommand)
    requires
        enc.wf(),
        f != t,
    ensures
        forall|q: Seq<DirectionalCommand>|
            enc.dir_table.entry_paths(spec_cmd_index(f), spec_cmd_index(t)).contains(q)
                <==> #[trigger] dir_pair_alternatives(f, t).contains(q),
        enc.dir_table.entry_paths(spec_cmd_index(f), spec_cmd_index(t)).len() > 0,
        forall|q: Seq<DirectionalCommand>|
            #[trigger] enc.dir_table.entry_paths(spec_cmd_index(f), spec_cmd_index(t)).contains(q)
                ==> q.len() <= 6,
{
    lemma_index_roundtrip();
    let i = spec_cmd_index(f);
    let j = spec_cmd_index(t);
    let tb = enc.dir_table;
    assert(tb.cell_of(i) == cmd_cell(f));
    assert(tb.cell_of(j) == cmd_cell(t));
    assert(tb.cell_of(i) != tb.cell_of(j));
    assert(dir_pair_covered(f, t));
    let p = choose|p: Seq<DirectionalCommand>|
        dir_pair_alternatives(f, t).contains(p) && p.len() <= 6;
    assert(tb.cap() == 6);
    assert(is_path(tb.topology, cmd_cell(f), cmd_cell(t), p));
    assert(reach_within(tb.topology, tb.cell_of(i), tb.cell_of(j), tb.cap()));
    assert(crate::keypad::path_set_exact(
        tb.topology,
        tb.cell_of(i),
        tb.cell_of(j),
        tb.entry_paths(i, j),
        tb.bend_limited,
    ));
    assert forall|q: Seq<DirectionalCommand>|
        tb.entry_paths(i, j).contains(q) implies #[trigger] dir_pair_alternatives(f, t).contains(
        q,
    ) && q.len() <= 6 by {
        let x = choose|x: int|
            0 <= x < tb.entry_paths(i, j).len() && #[trigger] tb.entry_paths(i, j)[x] == q;
        assert(is_min_path(tb.topology, cmd_cell(f), cmd_cell(t), q));
        assert(q.len() <= p.len());
    }
    assert(tb.entry_paths(i, j).contains(p) || !dir_pair_alternatives(f, t).contains(p));
    assert(tb.entry_paths(i, j).len() > 0) by {
        assert(tb.entry_paths(i, j).contains(p));
    }
}

/// The numeric analogue: exact alternatives, each at most twelve moves.
pub proof fn lemma_num_entries_exact(enc: ChainEncoder, f: Key, t: Key)
    requires
        enc.wf(),
        f != t,
    ensures
        forall|q: Seq<DirectionalCommand>|
            enc.num_table.entry_paths(spec_key_index(f), spec_key_index(t)).contains(q)
                <==> #[trigger] num_pair_alternatives(f, t).contains(q),
        enc.num_table.entry_paths(spec_key_index(f), spec_key_index(t)).len() > 0,
        forall|q: Seq<DirectionalCommand>|
            #[trigger] enc.num_table.entry_paths(spec_key_index(f), spec_key_index(t)).contains(q)
                ==> q.len() <= 12,
{
    lemma_index_roundtrip();
    let i = spec_key_index(f);
    let j = spec_key_index(t);
    let tb = enc.num_table;
    assert(tb.cell_of(i) == key_cell(f));
    assert(tb.cell_of(j) == key_cell(t));
    assert(tb.cell_of(i) != tb.cell_of(j));
    assert(num_pair_covered(f, t));
    let p = choose|p: Seq<DirectionalCommand>|
        num_pair_alternatives(f, t).contains(p) && p.len() <= 12;
    assert(tb.cap() == 12);
    assert(is_path(tb.topology, key_cell(f), key_cell(t), p));
    assert(reach_within(tb.topology, tb.cell_of(i), tb.cell_of(j), tb.cap()));
    assert(crate::keypad::path_set_exact(
        tb.topology,
        tb.cell_of(i),
        tb.cell_of(j),
        tb.entry_paths(i, j),
        tb.bend_limited,
    ));
    assert forall|q: Seq<DirectionalCommand>|
        tb.entry_paths(i, j).contains(q) implies #[trigger] num_pair_alternatives(f, t).contains(
        q,
    ) && q.len() <= 12 by {
        let x = choose|x: int|
            0 <= x < tb.entry_paths(i, j).len() && #[trigger] tb.entry_paths(i, j)[x] == q;
        assert(is_min_path(tb.topology, key_cell(f), key_cell(t), q));
        assert(q.len() <= p.len());
    }
    assert(tb.entry_paths(i, j).len() > 0) by {
        assert(tb.entry_paths(i, j).contains(p));
    }
}

} // verus!

verus! {

/// Press costs add over concatenation; the arm continues from the end of
/// the first part.
pub proof fn lemma_press_cost_concat(
    tb: PairwisePathTable,
    prev: DirectionalCommand,
    x: Seq<DirectionalCommand>,
    y: Seq<DirectionalCommand>,
    k: nat,
)
    ensures
        press_cost(tb, prev, x + y, k) == press_cost(tb, prev, x, k) + press_cost(
            tb,
            if x.len() == 0 {
                prev
            } else {
                x.last()
            },
            y,
            k,
        ),
    decreases x.len(),
{
    if x.len() == 0 {
        assert(x + y =~= y);
    } else {
        assert((x + y)[0] == x[0]);
        assert((x + y).drop_first() =~= x.drop_first() + y);
        lemma_press_cost_concat(tb, x[0], x.drop_first(), y, k);
        if x.len() == 1 {
            assert(x.drop_first().len() == 0);
            assert(x.last() == x[0]);
        } else {
            assert(x.drop_first().last() == x.last());
        }
    }
}

/// The list minimum is a lower bound for every member.
pub proof fn lemma_list_min_le_member(
    tb: PairwisePathTable,
    ps: Seq<Seq<DirectionalCommand>>,
    x: int,
    k: nat,
)
    requires
        0 <= x < ps.len(),
        k >= 1,
    ensures
        list_min_cost(tb, ps, k) <= press_cost(
            tb,
            DirectionalCommand::Activate,
            ps[x].push(DirectionalCommand::Activate),
            (k - 1) as nat,
        ),
    decreases ps.len(),
{
    if x > 0 {
        lemma_list_min_le_member(tb, ps.drop_first(), x - 1, k);
        assert(ps.drop_first()[x - 1] == ps[x]);
    }
}

/// The list minimum is attained by some member.
pub proof fn lemma_list_min_achieved(tb: PairwisePathTable, ps: Seq<Seq<DirectionalCommand>>, k: nat) -> (x: int)
    requires
        ps.len() > 0,
        k >= 1,
    ensures
        0 <= x < ps.len(),
        list_min_cost(tb, ps, k) == press_cost(
            tb,
            DirectionalCommand::Activate,
            ps[x].push(DirectionalCommand::Activate),
            (k - 1) as nat,
        ),
    decreases ps.len(),
{
    if ps.len() == 1 {
        0
    } else {
        let c0 = press_cost(
            tb,
            DirectionalCommand::Activate,
            ps[0].push(DirectionalCommand::Activate),
            (k - 1) as nat,
        );
        let m = list_min_cost(tb, ps.drop_first(), k);
        if c0 <= m {
            0
        } else {
            let x0 = lemma_list_min_achieved(tb, ps.drop_first(), k);
            assert(ps.drop_first()[x0] == ps[x0 + 1]);
            x0 + 1
        }
    }
}

/// Numeric variants of the two list lemmas.
pub proof fn lemma_num_list_min_le_member(
    enc: ChainEncoder,
    ps: Seq<Seq<DirectionalCommand>>,
    x: int,
    depth: nat,
)
    requires
        0 <= x < ps.len(),
    ensures
        num_list_min_cost(enc, ps, depth) <= press_cost(
            enc.dir_table,
            DirectionalCommand::Activate,
            ps[x].push(DirectionalCommand::Activate),
            depth,
        ),
    decreases ps.len(),
{
    if x > 0 {
        lemma_num_list_min_le_member(enc, ps.drop_first(), x - 1, depth);
        assert(ps.drop_first()[x - 1] == ps[x]);
    }
}

pub proof fn lemma_num_list_min_achieved(
    enc: ChainEncoder,
    ps: Seq<Seq<DirectionalCommand>>,
    depth: nat,
) -> (x: int)
    requires
        ps.len() > 0,
    ensures
        0 <= x < ps.len(),
        num_list_min_cost(enc, ps, depth) == press_cost(
            enc.dir_table,
            DirectionalCommand::Activate,
            ps[x].push(DirectionalCommand::Activate),
            depth,
        ),
    decreases ps.len(),
{
    if ps.len() == 1 {
        0
    } else {
        let c0 = press_cost(
            enc.dir_table,
            DirectionalCommand::Activate,
            ps[0].push(DirectionalCommand::Activate),
            depth,
        );
        let m = num_list_min_cost(enc, ps.drop_first(), depth);
        if c0 <= m {
            0
        } else {
            let x0 = lemma_num_list_min_achieved(enc, ps.drop_first(), depth);
            assert(ps.drop_first()[x0] == ps[x0 + 1]);
            x0 + 1
        }
    }
}

/// Every re-encoding of a sequence costs at least what the DP charges the
/// sequence one level higher.
pub proof fn lemma_reencode_lower(
    enc: ChainEncoder,
    prev: DirectionalCommand,
    s: Seq<DirectionalCommand>,
    c: Seq<DirectionalCommand>,
    k: nat,
)
    requires
        enc.wf(),
        reencode_from(prev, s).contains(c),
    ensures
        press_cost(enc.dir_table, DirectionalCommand::Activate, c, k) >= press_cost(
            enc.dir_table,
            prev,
            s,
            (k + 1) as nat,
        ),
    decreases s.len(),
{
    let tb = enc.dir_table;
    if s.len() == 0 {
        assert(c == Seq::<DirectionalCommand>::empty());
    } else {
        let (h, t2) = choose|h: Seq<DirectionalCommand>, t2: Seq<DirectionalCommand>|
            dir_options(prev, s[0]).contains(h) && reencode_from(s[0], s.drop_first()).contains(t2)
                && c == h + t2;
        let p = choose|p: Seq<DirectionalCommand>|
            dir_pair_alternatives(prev, s[0]).contains(p) && h == p.push(
                DirectionalCommand::Activate,
            );
        lemma_press_cost_concat(tb, DirectionalCommand::Activate, h, t2, k);
        assert(h.last() == DirectionalCommand::Activate);
        lemma_reencode_lower(enc, s[0], s.drop_first(), t2, k);
        if prev == s[0] {
            assert(p == Seq::<DirectionalCommand>::empty());
            assert(h =~= seq![DirectionalCommand::Activate]);
            assert(press_cost(tb, DirectionalCommand::Activate, h, k) == trans_cost(
                tb,
                prev,
                s[0],
                (k + 1) as nat,
            ));
        } else {
            lemma_dir_entries_exact(enc, prev, s[0]);
            let entries = tb.entry_paths(spec_cmd_index(prev), spec_cmd_index(s[0]));
            assert(entries.contains(p));
            let x = choose|x: int| 0 <= x < entries.len() && #[trigger] entries[x] == p;
            lemma_list_min_le_member(tb, entries, x, (k + 1) as nat);
            assert(trans_cost(tb, prev, s[0], (k + 1) as nat) <= press_cost(
                tb,
                DirectionalCommand::Activate,
                h,
                k,
            ));
        }
    }
}

/// Every level-0 candidate costs at least the DP total of the code.
pub proof fn lemma_level0_lower(
    enc: ChainEncoder,
    prev: Key,
    code: Seq<Key>,
    c: Seq<DirectionalCommand>,
    depth: nat,
)
    requires
        enc.wf(),
        level0_from(prev, code).contains(c),
    ensures
        press_cost(enc.dir_table, DirectionalCommand::Activate, c, depth) >= num_total_from(
            enc,
            prev,
            code,
            depth,
        ),
    decreases code.len(),
{
    let tb = enc.dir_table;
    if code.len() == 0 {
        assert(c == Seq::<DirectionalCommand>::empty());
    } else {
        let (h, t2) = choose|h: Seq<DirectionalCommand>, t2: Seq<DirectionalCommand>|
            num_options(prev, code[0]).contains(h) && level0_from(
                code[0],
                code.drop_first(),
            ).contains(t2) && c == h + t2;
        let p = choose|p: Seq<DirectionalCommand>|
            num_pair_alternatives(prev, code[0]).contains(p) && h == p.push(
                DirectionalCommand::Activate,
            );
        lemma_press_cost_concat(tb, DirectionalCommand::Activate, h, t2, depth);
        assert(h.last() == DirectionalCommand::Activate);
        lemma_level0_lower(enc, code[0], code.drop_first(), t2, depth);
        if prev == code[0] {
            assert(p == Seq::<DirectionalCommand>::empty());
            assert(h =~= seq![DirectionalCommand::Activate]);
            assert(press_cost(tb, DirectionalCommand::Activate, h, depth) == num_trans_cost(
                enc,
                prev,
                code[0],
                depth,
            ));
        } else {
            lemma_num_entries_exact(enc, prev, code[0]);
            let entries = enc.num_table.entry_paths(
                spec_key_index(prev),
                spec_key_index(code[0]),
            );
            assert(entries.contains(p));
            let x = choose|x: int| 0 <= x < entries.len() && #[trigger] entries[x] == p;
            lemma_num_list_min_le_member(enc, entries, x, depth);
            assert(num_trans_cost(enc, prev, code[0], depth) <= press_cost(
                tb,
                DirectionalCommand::Activate,
                h,
                depth,
            ));
        }
    }
}

/// The optimality theorem: every candidate that `d` re-encoding passes can
/// produce costs, `depth - d` levels up, at least the DP total of the code.
/// With d == depth the cost is the candidate's own length.
pub proof fn lemma_level_lower(
    enc: ChainEncoder,
    code: Seq<Key>,
    depth: nat,
    d: nat,
    c: Seq<DirectionalCommand>,
)
    requires
        enc.wf(),
        d <= depth,
        level_set(code, d).contains(c),
    ensures
        press_cost(enc.dir_table, DirectionalCommand::Activate, c, (depth - d) as nat)
            >= num_total_from(enc, Key::Activate, code, depth),
    decreases d,
{
    if d == 0 {
        lemma_level0_lower(enc, Key::Activate, code, c, depth);
    } else {
        let c1 = choose|c1: Seq<DirectionalCommand>|
            level_set(code, (d - 1) as nat).contains(c1) && reencode_set(c1).contains(c);
        lemma_reencode_lower(enc, DirectionalCommand::Activate, c1, c, (depth - d) as nat);
        lemma_level_lower(enc, code, depth, (d - 1) as nat, c1);
    }
}

/// A candidate's length is its press cost with no robots in between.
pub proof fn lemma_press_cost_zero(
    tb: PairwisePathTable,
    prev: DirectionalCommand,
    s: Seq<DirectionalCommand>,
)
    ensures
        press_cost(tb, prev, s, 0) == s.len(),
{
}

} // verus!

verus! {

/// Powers of seven: the coarse growth bound of the DP values (no stored
/// route plus its Activate is longer than seven commands).
pub open spec fn pow7(k: nat) -> int
    decreases k,
{
    if k == 0 {
        1
    } else {
        7 * pow7((k - 1) as nat)
    }
}

pub proof fn lemma_pow7_pos(k: nat)
    ensures
        pow7(k) >= 1,
    decreases k,
{
    if k > 0 {
        lemma_pow7_pos((k - 1) as nat);
    }
}

/// Transition costs lie between 1 and pow7(k).
pub proof fn lemma_trans_cost_bounds(
    enc: ChainEncoder,
    f: DirectionalCommand,
    t: DirectionalCommand,
    k: nat,
)
    requires
        enc.wf(),
        k >= 1,
    ensures
        1 <= trans_cost(enc.dir_table, f, t, k) <= pow7(k),
    decreases k, 1nat, 0nat,
{
    let tb = enc.dir_table;
    lemma_pow7_pos((k - 1) as nat);
    if f == t {
        lemma_press_cost_bounds(enc, DirectionalCommand::Activate, seq![DirectionalCommand::Activate], (k - 1) as nat);
        assert(seq![DirectionalCommand::Activate].len() == 1);
        assert(1 * pow7((k - 1) as nat) == pow7((k - 1) as nat));
        assert(pow7(k) >= pow7((k - 1) as nat)) by (nonlinear_arith)
            requires
                pow7(k) == 7 * pow7((k - 1) as nat),
                pow7((k - 1) as nat) >= 1,
        ;
    } else {
        lemma_dir_entries_exact(enc, f, t);
        let entries = tb.entry_paths(spec_cmd_index(f), spec_cmd_index(t));
        let x = lemma_list_min_achieved(tb, entries, k);
        let q = entries[x];
        assert(entries.contains(q));
        assert(q.len() <= 6);
        lemma_press_cost_bounds(enc, DirectionalCommand::Activate, q.push(DirectionalCommand::Activate), (k - 1) as nat);
        assert(q.push(DirectionalCommand::Activate).len() == q.len() + 1);
        assert((q.len() + 1) * pow7((k - 1) as nat) <= 7 * pow7((k - 1) as nat)) by (nonlinear_arith)
            requires
                q.len() + 1 <= 7,
                pow7((k - 1) as nat) >= 1,
        ;
    }
}

/// Press costs lie between the sequence length and len * pow7(k).
pub proof fn lemma_press_cost_bounds(
    enc: ChainEncoder,
    prev: DirectionalCommand,
    s: Seq<DirectionalCommand>,
    k: nat,
)
    requires
        enc.wf(),
    ensures
        s.len() <= press_cost(enc.dir_table, prev, s, k),
        press_cost(enc.dir_table, prev, s, k) <= s.len() * pow7(k),
    decreases k, 2nat, s.len(),
{
    let tb = enc.dir_table;
    lemma_pow7_pos(k);
    if s.len() == 0 {
    } else if k == 0 {
        assert(s.len() * pow7(0) == s.len() * 1);
        assert(s.len() * 1 == s.len()) by (nonlinear_arith);
    } else {
        lemma_trans_cost_bounds(enc, prev, s[0], k);
        lemma_press_cost_bounds(enc, s[0], s.drop_first(), k);
        assert(pow7(k) + (s.len() - 1) * pow7(k) == s.len() * pow7(k)) by (nonlinear_arith);
    }
}

/// Numeric transition costs lie between 1 and 13 * pow7(depth).
pub proof fn lemma_num_trans_cost_bounds(enc: ChainEncoder, f: Key, t: Key, depth: nat)
    requires
        enc.wf(),
    ensures
        1 <= num_trans_cost(enc, f, t, depth) <= 13 * pow7(depth),
{
    lemma_pow7_pos(depth);
    if f == t {
        lemma_press_cost_bounds(enc, DirectionalCommand::Activate, seq![DirectionalCommand::Activate], depth);
        assert(seq![DirectionalCommand::Activate].len() == 1);
        assert(1 * pow7(depth) <= 13 * pow7(depth)) by (nonlinear_arith)
            requires
                pow7(depth) >= 1,
        ;
    } else {
        lemma_num_entries_exact(enc, f, t);
        let entries = enc.num_table.entry_paths(spec_key_index(f), spec_key_index(t));
        let x = lemma_num_list_min_achieved(enc, entries, depth);
        let q = entries[x];
        assert(entries.contains(q));
        assert(q.len() <= 12);
        lemma_press_cost_bounds(enc, DirectionalCommand::Activate, q.push(DirectionalCommand::Activate), depth);
        assert(q.push(DirectionalCommand::Activate).len() == q.len() + 1);
        assert((q.len() + 1) * pow7(depth) <= 13 * pow7(depth)) by (nonlinear_arith)
            requires
                q.len() + 1 <= 13,
                pow7(depth) >= 1,
        ;
    }
}

/// The concrete ceiling used by the executable code: with at most 20
/// levels every DP value fits comfortably in 62 bits.
pub proof fn lemma_pow7_cap(k: nat)
    requires
        k <= 20,
    ensures
        pow7(k) <= 79792266297612001,
        13 * pow7(k) <= 1037299461868956013,
{
    assert(pow7(0) == 1);
    assert(pow7(1) == 7);
    assert(pow7(2) == 49);
    assert(pow7(3) == 343);
    assert(pow7(4) == 2401);
    assert(pow7(5) == 16807);
    assert(pow7(6) == 117649);
    assert(pow7(7) == 823543);
    assert(pow7(8) == 5764801);
    assert(pow7(9) == 40353607);
    assert(pow7(10) == 282475249);
    assert(pow7(11) == 1977326743);
    assert(pow7(12) == 13841287201);
    assert(pow7(13) == 96889010407);
    assert(pow7(14) == 678223072849);
    assert(pow7(15) == 4747561509943);
    assert(pow7(16) == 33232930569601);
    assert(pow7(17) == 232630513987207);
    assert(pow7(18) == 1628413597910449);
    assert(pow7(19) == 11398895185373143);
    assert(pow7(20) == 79792266297612001);
    lemma_pow7_mono(k, 20);
    lemma_pow7_pos(k);
}

pub proof fn lemma_pow7_mono(k1: nat, k2: nat)
    requires
        k1 <= k2,
    ensures
        pow7(k1) <= pow7(k2),
    decreases k2,
{
    if k1 < k2 {
        lemma_pow7_mono(k1, (k2 - 1) as nat);
        lemma_pow7_pos((k2 - 1) as nat);
        assert(pow7(k2) == 7 * pow7((k2 - 1) as nat));
        assert(7 * pow7((k2 - 1) as nat) >= pow7((k2 - 1) as nat)) by (nonlinear_arith)
            requires
                pow7((k2 - 1) as nat) >= 1,
        ;
    }
}

} // verus!

verus! {

impl ChainEncoder {
    /// Build both path tables once and check that every ordered pair of
    /// distinct keys has at least one stored route.  The check can only
    /// fail if the fixed keypads were mis-specified; its success is what
    /// proves `pads_complete` to the verifier.
    #[verifier::rlimit(100)]
    pub fn new() -> (r: Option<ChainEncoder>)
        ensures
            r is Some <==> pads_complete(),
            r matches Some(e) ==> e.wf(),
    {
        proof {
            lemma_index_roundtrip();
        }
        let num_pos = numeric_positions();
        let dir_pos = directional_positions();
        proof {
            assert forall|i: int| 0 <= i < 11 implies cell_ok(
                spec_numeric_topology(),
                (#[trigger] num_pos@[i]).0 as int,
                num_pos@[i].1 as int,
            ) by {
                assert((num_pos@[i].0 as int, num_pos@[i].1 as int) == key_cell(key_of_index(i)));
            }
            assert forall|i: int, j: int|
                0 <= i < 11 && 0 <= j < 11 && i != j implies (
                (#[trigger] num_pos@[i]).0 as int,
                num_pos@[i].1 as int,
            ) != ((#[trigger] num_pos@[j]).0 as int, num_pos@[j].1 as int) by {
                assert((num_pos@[i].0 as int, num_pos@[i].1 as int) == key_cell(key_of_index(i)));
                assert((num_pos@[j].0 as int, num_pos@[j].1 as int) == key_cell(key_of_index(j)));
            }
            assert forall|i: int| 0 <= i < 5 implies cell_ok(
                spec_directional_topology(),
                (#[trigger] dir_pos@[i]).0 as int,
                dir_pos@[i].1 as int,
            ) by {
                assert((dir_pos@[i].0 as int, dir_pos@[i].1 as int) == cmd_cell(cmd_of_index(i)));
            }
            assert forall|i: int, j: int|
                0 <= i < 5 && 0 <= j < 5 && i != j implies (
                (#[trigger] dir_pos@[i]).0 as int,
                dir_pos@[i].1 as int,
            ) != ((#[trigger] dir_pos@[j]).0 as int, dir_pos@[j].1 as int) by {
                assert((dir_pos@[i].0 as int, dir_pos@[i].1 as int) == cmd_cell(cmd_of_index(i)));
                assert((dir_pos@[j].0 as int, dir_pos@[j].1 as int) == cmd_cell(cmd_of_index(j)));
            }
        }
        let num_table = PairwisePathTable::build(numeric_topology(), num_pos, true);
        let dir_table = PairwisePathTable::build(directional_topology(), dir_pos, false);
        // check: no pair of distinct keys may lack a route
        let mut i: usize = 0;
        while i < 11
            invariant
                num_table.wf(),
                num_table.bend_limited,
                num_table.topology == spec_numeric_topology(),
                num_table.positions@.len() == 11,
                num_table.entries@.len() == 11,
                forall|x: int|
                    0 <= x < 11 ==> #[trigger] num_table.cell_of(x) == key_cell(key_of_index(x)),
                0 <= i <= 11,
                forall|x: int, y: int|
                    0 <= x < i && 0 <= y < 11 && x != y ==> (#[trigger] num_table.entry_paths(
                        x,
                        y,
                    )).len() > 0,
            decreases 11 - i,
        {
            let mut j: usize = 0;
            while j < 11
                invariant
                    num_table.wf(),
                    num_table.bend_limited,
                    num_table.topology == spec_numeric_topology(),
                    num_table.positions@.len() == 11,
                    num_table.entries@.len() == 11,
                    forall|x: int|
                        0 <= x < 11 ==> #[trigger] num_table.cell_of(x) == key_cell(
                            key_of_index(x),
                        ),
                    0 <= i < 11,
                    0 <= j <= 11,
                    forall|x: int, y: int|
                        0 <= x < i && 0 <= y < 11 && x != y ==> (#[trigger] num_table.entry_paths(
                            x,
                            y,
                        )).len() > 0,
                    forall|y: int|
                        0 <= y < j && y != i as int ==> (#[trigger] num_table.entry_paths(
                            i as int,
                            y,
                        )).len() > 0,
                decreases 11 - j,
            {
                if j != i {
                    if num_table.entries[i][j].len() == 0 {
                        proof {
                            lemma_missing_num_entry(num_table, i as int, j as int);
                        }
                        return None;
                    }
                }
                j = j + 1;
            }
            i = i + 1;
        }
        let mut i2: usize = 0;
        while i2 < 5
            invariant
                dir_table.wf(),
                dir_table.topology == spec_directional_topology(),
                dir_table.positions@.len() == 5,
                dir_table.entries@.len() == 5,
                !dir_table.bend_limited,
                forall|x: int|
                    0 <= x < 5 ==> #[trigger] dir_table.cell_of(x) == cmd_cell(cmd_of_index(x)),
                0 <= i2 <= 5,
                forall|x: int, y: int|
                    0 <= x < i2 && 0 <= y < 5 && x != y ==> (#[trigger] dir_table.entry_paths(
                        x,
                        y,
                    )).len() > 0,
            decreases 5 - i2,
        {
            let mut j2: usize = 0;
            while j2 < 5
                invariant
                    dir_table.wf(),
                    dir_table.topology == spec_directional_topology(),
                    dir_table.positions@.len() == 5,
                    dir_table.entries@.len() == 5,
                    !dir_table.bend_limited,
                    forall|x: int|
                        0 <= x < 5 ==> #[trigger] dir_table.cell_of(x) == cmd_cell(
                            cmd_of_index(x),
                        ),
                    0 <= i2 < 5,
                    0 <= j2 <= 5,
                    forall|x: int, y: int|
                        0 <= x < i2 && 0 <= y < 5 && x != y ==> (#[trigger] dir_table.entry_paths(
                            x,
                            y,
                        )).len() > 0,
                    forall|y: int|
                        0 <= y < j2 && y != i2 as int ==> (#[trigger] dir_table.entry_paths(
                            i2 as int,
                            y,
                        )).len() > 0,
                decreases 5 - j2,
            {
                if j2 != i2 {
                    if dir_table.entries[i2][j2].len() == 0 {
                        proof {
                            lemma_missing_dir_entry(dir_table, i2 as int, j2 as int);
                        }
                        return None;
                    }
                }
                j2 = j2 + 1;
            }
            i2 = i2 + 1;
        }
        let enc = ChainEncoder { num_table, dir_table };
        proof {
            assert forall|f: Key, t: Key| f != t implies #[trigger] num_pair_covered(f, t) by {
                lemma_nonempty_num_entry(enc.num_table, spec_key_index(f), spec_key_index(t));
            }
            assert forall|f: DirectionalCommand, t: DirectionalCommand|
                f != t implies #[trigger] dir_pair_covered(f, t) by {
                lemma_nonempty_dir_entry(enc.dir_table, spec_cmd_index(f), spec_cmd_index(t));
            }
            assert(pads_complete());
            assert(enc.wf());
        }
        Some(enc)
    }
}

/// An empty numeric entry for distinct keys refutes `pads_complete`.
proof fn lemma_missing_num_entry(tb: PairwisePathTable, i: int, j: int)
    requires
        tb.wf(),
        tb.bend_limited,
        tb.topology == spec_numeric_topology(),
        tb.positions@.len() == 11,
        forall|x: int| 0 <= x < 11 ==> #[trigger] tb.cell_of(x) == key_cell(key_of_index(x)),
        0 <= i < 11,
        0 <= j < 11,
        i != j,
        tb.entry_paths(i, j).len() == 0,
    ensures
        !pads_complete(),
{
    lemma_index_roundtrip();
    let f = key_of_index(i);
    let t = key_of_index(j);
    assert(key_cell(f) != key_cell(t));
    assert(f != t);
    if pads_complete() {
        assert(num_pair_covered(f, t));
        let p = choose|p: Seq<DirectionalCommand>|
            num_pair_alternatives(f, t).contains(p) && p.len() <= 12;
        assert(is_path(tb.topology, tb.cell_of(i), tb.cell_of(j), p));
        assert(tb.cap() == 12);
        assert(reach_within(tb.topology, tb.cell_of(i), tb.cell_of(j), tb.cap()));
        assert(crate::keypad::path_set_exact(
            tb.topology,
            tb.cell_of(i),
            tb.cell_of(j),
            tb.entry_paths(i, j),
            tb.bend_limited,
        ));
        assert(tb.entry_paths(i, j).contains(p));
    }
}

/// An empty directional entry for distinct buttons refutes `pads_complete`.
proof fn lemma_missing_dir_entry(tb: PairwisePathTable, i: int, j: int)
    requires
        tb.wf(),
        !tb.bend_limited,
        tb.topology == spec_directional_topology(),
        tb.positions@.len() == 5,
        forall|x: int| 0 <= x < 5 ==> #[trigger] tb.cell_of(x) == cmd_cell(cmd_of_index(x)),
        0 <= i < 5,
        0 <= j < 5,
        i != j,
        tb.entry_paths(i, j).len() == 0,
    ensures
        !pads_complete(),
{
    lemma_index_roundtrip();
    let f = cmd_of_index(i);
    let t = cmd_of_index(j);
    assert(cmd_cell(f) != cmd_cell(t));
    assert(f != t);
    if pads_complete() {
        assert(dir_pair_covered(f, t));
        let p = choose|p: Seq<DirectionalCommand>|
            dir_pair_alternatives(f, t).contains(p) && p.len() <= 6;
        assert(is_path(tb.topology, tb.cell_of(i), tb.cell_of(j), p));
        assert(tb.cap() == 6);
        assert(reach_within(tb.topology, tb.cell_of(i), tb.cell_of(j), tb.cap()));
        assert(crate::keypad::path_set_exact(
            tb.topology,
            tb.cell_of(i),
            tb.cell_of(j),
            tb.entry_paths(i, j),
            tb.bend_limited,
        ));
        assert(tb.entry_paths(i, j).contains(p));
    }
}

/// A non-empty numeric entry yields the witness `pads_complete` asks for.
proof fn lemma_nonempty_num_entry(tb: PairwisePathTable, i: int, j: int)
    requires
        tb.wf(),
        tb.bend_limited,
        tb.topology == spec_numeric_topology(),
        tb.positions@.len() == 11,
        forall|x: int| 0 <= x < 11 ==> #[trigger] tb.cell_of(x) == key_cell(key_of_index(x)),
        0 <= i < 11,
        0 <= j < 11,
        i != j,
        tb.entry_paths(i, j).len() > 0,
    ensures
        num_pair_covered(key_of_index(i), key_of_index(j)),
{
    lemma_index_roundtrip();
    let f = key_of_index(i);
    let t = key_of_index(j);
    assert(key_cell(f) != key_cell(t));
    if !reach_within(tb.topology, tb.cell_of(i), tb.cell_of(j), tb.cap()) {
        assert(tb.entry_paths(i, j).len() == 0);
    }
    assert(crate::keypad::path_set_exact(
        tb.topology,
        tb.cell_of(i),
        tb.cell_of(j),
        tb.entry_paths(i, j),
        tb.bend_limited,
    ));
    let q = tb.entry_paths(i, j)[0];
    assert(is_min_path(tb.topology, tb.cell_of(i), tb.cell_of(j), q) && dir_changes(q) <= 1);
    let w = choose|w: Seq<DirectionalCommand>|
        is_path(tb.topology, tb.cell_of(i), tb.cell_of(j), w) && w.len() <= tb.cap();
    assert(q.len() <= w.len());
    assert(tb.topology.width == 3 && tb.topology.height == 4);
    assert((tb.topology.width * tb.topology.height) as int == 12) by (nonlinear_arith)
        requires
            tb.topology.width == 3,
            tb.topology.height == 4,
    ;
    assert(tb.cap() == 12);
    assert(num_pair_alternatives(f, t).contains(q) && q.len() <= 12);
}

/// A non-empty directional entry yields the witness `pads_complete` asks for.
proof fn lemma_nonempty_dir_entry(tb: PairwisePathTable, i: int, j: int)
    requires
        tb.wf(),
        !tb.bend_limited,
        tb.topology == spec_directional_topology(),
        tb.positions@.len() == 5,
        forall|x: int| 0 <= x < 5 ==> #[trigger] tb.cell_of(x) == cmd_cell(cmd_of_index(x)),
        0 <= i < 5,
        0 <= j < 5,
        i != j,
        tb.entry_paths(i, j).len() > 0,
    ensures
        dir_pair_covered(cmd_of_index(i), cmd_of_index(j)),
{
    lemma_index_roundtrip();
    let f = cmd_of_index(i);
    let t = cmd_of_index(j);
    assert(cmd_cell(f) != cmd_cell(t));
    if !reach_within(tb.topology, tb.cell_of(i), tb.cell_of(j), tb.cap()) {
        assert(tb.entry_paths(i, j).len() == 0);
    }
    assert(crate::keypad::path_set_exact(
        tb.topology,
        tb.cell_of(i),
        tb.cell_of(j),
        tb.entry_paths(i, j),
        tb.bend_limited,
    ));
    let q = tb.entry_paths(i, j)[0];
    assert(is_min_path(tb.topology, tb.cell_of(i), tb.cell_of(j), q));
    let w = choose|w: Seq<DirectionalCommand>|
        is_path(tb.topology, tb.cell_of(i), tb.cell_of(j), w) && w.len() <= tb.cap();
    assert(q.len() <= w.len());
    assert(tb.topology.width == 3 && tb.topology.height == 2);
    assert((tb.topology.width * tb.topology.height) as int == 6) by (nonlinear_arith)
        requires
            tb.topology.width == 3,
            tb.topology.height == 2,
    ;
    assert(tb.cap() == 6);
    assert(dir_pair_alternatives(f, t).contains(q) && q.len() <= 6);
}

} // verus!

verus! {

/// m encodes the transition costs of the directional pad at level k.
pub open spec fn matrix_ok(enc: ChainEncoder, m: Seq<Vec<u64>>, k: nat) -> bool {
    &&& m.len() == 5
    &&& forall|i: int| 0 <= i < 5 ==> (#[trigger] m[i])@.len() == 5
    &&& forall|i: int, j: int|
        #![trigger m[i]@[j]]
        0 <= i < 5 && 0 <= j < 5 ==> m[i]@[j] as int == trans_cost(
            enc.dir_table,
            cmd_of_index(i),
            cmd_of_index(j),
            k,
        )
}

/// mats[x] encodes level x + 1.
pub open spec fn mats_ok(enc: ChainEncoder, mats: Seq<Vec<Vec<u64>>>) -> bool {
    forall|x: int| 0 <= x < mats.len() ==> matrix_ok(enc, (#[trigger] mats[x])@, (x + 1) as nat)
}

/// Concatenation of two press sequences.
fn concat_paths(a: &Candidate, b: &Candidate) -> (r: Candidate)
    ensures
        r@ == a@ + b@,
{
    let mut r = copy_path_entry(a);
    let mut i: usize = 0;
    while i < b.len()
        invariant
            0 <= i <= b@.len(),
            r@ == a@ + b@.take(i as int),
        decreases b@.len() - i,
    {
        r.push(b[i]);
        proof {
            assert(a@ + b@.take(i + 1) =~= (a@ + b@.take(i as int)).push(b@[i as int]));
        }
        i = i + 1;
    }
    proof {
        assert(a@ + b@.take(b@.len() as int) =~= a@ + b@);
    }
    r
}

/// Element-for-element copy.
fn copy_path_entry(p: &Candidate) -> (r: Candidate)
    ensures
        r@ == p@,
{
    let mut r: Candidate = Vec::new();
    let mut i: usize = 0;
    while i < p.len()
        invariant
            0 <= i <= p@.len(),
            r@ == p@.take(i as int),
        decreases p@.len() - i,
    {
        r.push(p[i]);
        proof {
            assert(p@.take(i + 1) =~= p@.take(i as int).push(p@[i as int]));
        }
        i = i + 1;
    }
    proof {
        assert(p@.take(p@.len() as int) =~= p@);
    }
    r
}

/// Cost of typing one stored route plus its Activate, k levels up,
/// evaluated with the memoized matrices.
fn option_cost(
    enc: &ChainEncoder,
    mats: &Vec<Vec<Vec<u64>>>,
    k: usize,
    q: &PathEntry,
) -> (c: u64)
    requires
        enc.wf(),
        mats_ok(*enc, mats@),
        k <= mats@.len(),
        mats@.len() <= 20,
        q@.len() <= 12,
    ensures
        c as int == press_cost(
            enc.dir_table,
            DirectionalCommand::Activate,
            q@.push(DirectionalCommand::Activate),
            k as nat,
        ),
{
    let ghost tb = enc.dir_table;
    let ghost full = q@.push(DirectionalCommand::Activate);
    if k == 0 {
        let c = q.len() + 1;
        proof {
            lemma_press_cost_zero(tb, DirectionalCommand::Activate, full);
        }
        return c as u64;
    }
    proof {
        lemma_index_roundtrip();
        lemma_pow7_cap(k as nat);
        lemma_pow7_pos(k as nat);
        lemma_pow7_mono(k as nat, 20);
    }
    let m = &mats[k - 1];
    let mut acc: u64 = 0;
    let mut prev: DirectionalCommand = DirectionalCommand::Activate;
    let mut i: usize = 0;
    while i < q.len() + 1
        invariant
            enc.wf(),
            matrix_ok(*enc, m@, k as nat),
            1 <= k <= 20,
            full == q@.push(DirectionalCommand::Activate),
            q@.len() <= 12,
            tb == enc.dir_table,
            0 <= i <= full.len(),
            full.len() == q@.len() + 1,
            acc as int == press_cost(tb, DirectionalCommand::Activate, full.take(i as int), k as nat),
            prev == if i == 0 {
                DirectionalCommand::Activate
            } else {
                full[i - 1]
            },
            pow7(k as nat) <= 79792266297612001,
        decreases full.len() - i,
    {
        let cur = if i < q.len() {
            q[i]
        } else {
            DirectionalCommand::Activate
        };
        proof {
            assert(cur == full[i as int]);
        }
        let pi = cmd_index(prev);
        let ci = cmd_index(cur);
        let step = m[pi][ci];
        proof {
            lemma_index_roundtrip();
            assert(step as int == trans_cost(tb, prev, cur, k as nat));
            assert(full.take(i + 1) =~= full.take(i as int) + seq![full[i as int]]);
            lemma_press_cost_concat(
                tb,
                DirectionalCommand::Activate,
                full.take(i as int),
                seq![full[i as int]],
                k as nat,
            );
            let p2 = if i == 0 {
                DirectionalCommand::Activate
            } else {
                full.take(i as int).last()
            };
            assert(p2 == prev);
            assert(seq![full[i as int]][0] == full[i as int]);
            assert(seq![full[i as int]].drop_first() =~= Seq::<DirectionalCommand>::empty());
            assert(press_cost(
                tb,
                full[i as int],
                Seq::<DirectionalCommand>::empty(),
                k as nat,
            ) == 0);
            assert(press_cost(tb, p2, seq![full[i as int]], k as nat) == trans_cost(
                tb,
                p2,
                full[i as int],
                k as nat,
            ));
            lemma_press_cost_bounds(*enc, DirectionalCommand::Activate, full.take(i + 1), k as nat);
            lemma_pow7_pos(k as nat);
            assert(full.take(i + 1).len() == i + 1);
            assert(full.take(i + 1).len() * pow7(k as nat) <= 13 * 79792266297612001)
                by (nonlinear_arith)
                requires
                    full.take(i + 1).len() <= 13,
                    1 <= pow7(k as nat) <= 79792266297612001,
            ;
        }
        acc = acc + step;
        prev = cur;
        i = i + 1;
    }
    proof {
        assert(full.take(full.len() as int) =~= full);
    }
    acc
}

/// The memoized transition matrices for levels 1 ..= depth.
fn build_matrices(enc: &ChainEncoder, depth: usize) -> (mats: Vec<Vec<Vec<u64>>>)
    requires
        enc.wf(),
        depth <= 20,
    ensures
        mats@.len() == depth,
        mats_ok(*enc, mats@),
{
    let mut mats: Vec<Vec<Vec<u64>>> = Vec::new();
    let mut k: usize = 1;
    while k <= depth
        invariant
            enc.wf(),
            depth <= 20,
            1 <= k <= depth + 1,
            mats@.len() == k - 1,
            mats_ok(*enc, mats@),
        decreases depth + 1 - k,
    {
        let empty_route: PathEntry = Vec::new();
        let mut m: Vec<Vec<u64>> = Vec::new();
        let mut i: usize = 0;
        while i < 5
            invariant
                enc.wf(),
                depth <= 20,
                1 <= k <= depth,
                mats@.len() == k - 1,
                mats_ok(*enc, mats@),
                empty_route@.len() == 0,
                0 <= i <= 5,
                m@.len() == i,
                forall|x: int| 0 <= x < i ==> (#[trigger] m@[x])@.len() == 5,
                forall|x: int, y: int|
                    #![trigger m@[x]@[y]]
                    0 <= x < i && 0 <= y < 5 ==> m@[x]@[y] as int == trans_cost(
                        enc.dir_table,
                        cmd_of_index(x),
                        cmd_of_index(y),
                        k as nat,
                    ),
            decreases 5 - i,
        {
            let mut row: Vec<u64> = Vec::new();
            let mut j: usize = 0;
            while j < 5
                invariant
                    enc.wf(),
                    depth <= 20,
                    1 <= k <= depth,
                    mats@.len() == k - 1,
                    mats_ok(*enc, mats@),
                    empty_route@.len() == 0,
                    0 <= i < 5,
                    0 <= j <= 5,
                    row@.len() == j,
                    forall|y: int|
                        0 <= y < j ==> (#[trigger] row@[y]) as int == trans_cost(
                            enc.dir_table,
                            cmd_of_index(i as int),
                            cmd_of_index(y),
                            k as nat,
                        ),
                decreases 5 - j,
            {
                let ghost f = cmd_of_index(i as int);
                let ghost t = cmd_of_index(j as int);
                let v: u64;
                if j == i {
                    v = option_cost(enc, &mats, k - 1, &empty_route);
                    proof {
                        assert(empty_route@.push(DirectionalCommand::Activate) =~= seq![
                            DirectionalCommand::Activate,
                        ]);
                        assert(v as int == trans_cost(enc.dir_table, f, t, k as nat));
                    }
                } else {
                    proof {
                        lemma_index_roundtrip();
                        lemma_dir_entries_exact(*enc, f, t);
                        assert(spec_cmd_index(f) == i as int && spec_cmd_index(t) == j as int);
                    }
                    let entries = &enc.dir_table.entries[i][j];
                    let ghost eview = enc.dir_table.entry_paths(i as int, j as int);
                    proof {
                        assert(eview.len() == entries@.len());
                        assert forall|x: int| 0 <= x < entries@.len() implies (
                        #[trigger] entries@[x])@.len() <= 12 by {
                            assert(eview[x] == entries@[x]@);
                            assert(eview.contains(eview[x]));
                        }
                    }
                    let mut best: u64 = option_cost(enc, &mats, k - 1, &entries[0]);
                    let ghost tb = enc.dir_table;
                    let mut x: usize = 1;
                    proof {
                        assert(eview[0] == entries@[0]@);
                    }
                    while x < entries.len()
                        invariant
                            enc.wf(),
                            depth <= 20,
                            1 <= k <= depth,
                            mats@.len() == k - 1,
                            mats_ok(*enc, mats@),
                            tb == enc.dir_table,
                            eview == tb.entry_paths(i as int, j as int),
                            eview.len() == entries@.len(),
                            entries@.len() > 0,
                            forall|y: int|
                                0 <= y < entries@.len() ==> (#[trigger] entries@[y])@.len() <= 12
                                    && entries@[y]@ == eview[y],
                            1 <= x <= entries@.len(),
                            exists|y: int|
                                0 <= y < x && best as int == press_cost(
                                    tb,
                                    DirectionalCommand::Activate,
                                    (#[trigger] eview[y]).push(DirectionalCommand::Activate),
                                    (k - 1) as nat,
                                ),
                            forall|y: int|
                                0 <= y < x ==> best as int <= press_cost(
                                    tb,
                                    DirectionalCommand::Activate,
                                    (#[trigger] eview[y]).push(DirectionalCommand::Activate),
                                    (k - 1) as nat,
                                ),
                        decreases entries@.len() - x,
                    {
                        let c = option_cost(enc, &mats, k - 1, &entries[x]);
                        if c < best {
                            best = c;
                        }
                        x = x + 1;
                    }
                    proof {
                        let y0 = choose|y: int|
                            0 <= y < eview.len() && best as int == press_cost(
                                tb,
                                DirectionalCommand::Activate,
                                (#[trigger] eview[y]).push(DirectionalCommand::Activate),
                                (k - 1) as nat,
                            );
                        lemma_list_min_le_member(tb, eview, y0, k as nat);
                        let y1 = lemma_list_min_achieved(tb, eview, k as nat);
                        assert(trans_cost(tb, f, t, k as nat) == list_min_cost(tb, eview, k as nat));
                    }
                    v = best;
                }
                row.push(v);
                j = j + 1;
            }
            m.push(row);
            i = i + 1;
        }
        mats.push(m);
        proof {
            assert forall|x: int| 0 <= x < mats@.len() implies matrix_ok(
                *enc,
                (#[trigger] mats@[x])@,
                (x + 1) as nat,
            ) by {
                if x < mats@.len() - 1 {
                    assert(matrix_ok(*enc, mats@[x]@, (x + 1) as nat));
                }
            }
        }
        k = k + 1;
    }
    mats
}

} // verus!

verus! {

/// The key held before position i of a code is typed.
pub open spec fn prev_key(code: Seq<Key>, i: int) -> Key {
    if i == 0 {
        Key::Activate
    } else {
        code[i - 1]
    }
}

/// The command held before position i of a sequence is typed.
pub open spec fn prev_cmd(s: Seq<DirectionalCommand>, i: int) -> DirectionalCommand {
    if i == 0 {
        DirectionalCommand::Activate
    } else {
        s[i - 1]
    }
}

/// A cheapest option (route plus Activate) for one numeric transition.
fn best_num_option(
    enc: &ChainEncoder,
    mats: &Vec<Vec<Vec<u64>>>,
    depth: usize,
    f: Key,
    t: Key,
) -> (q: Candidate)
    requires
        enc.wf(),
        mats_ok(*enc, mats@),
        mats@.len() == depth,
        depth <= 20,
    ensures
        exists|palt: Seq<DirectionalCommand>|
            (#[trigger] num_pair_alternatives(f, t)).contains(palt) && q@ == palt.push(
                DirectionalCommand::Activate,
            ),
        press_cost(enc.dir_table, DirectionalCommand::Activate, q@, depth as nat)
            == num_trans_cost(*enc, f, t, depth as nat),
{
    let ghost tb = enc.dir_table;
    if f == t {
        let mut q: Candidate = Vec::new();
        q.push(DirectionalCommand::Activate);
        proof {
            let palt = Seq::<DirectionalCommand>::empty();
            assert(num_pair_alternatives(f, t).contains(palt));
            assert(q@ =~= palt.push(DirectionalCommand::Activate));
            assert(q@ =~= seq![DirectionalCommand::Activate]);
        }
        q
    } else {
        proof {
            lemma_index_roundtrip();
            lemma_num_entries_exact(*enc, f, t);
        }
        let fi = key_index(f);
        let ti = key_index(t);
        let entries = &enc.num_table.entries[fi][ti];
        let ghost eview = enc.num_table.entry_paths(fi as int, ti as int);
        proof {
            assert(eview.len() == entries@.len());
            assert forall|x: int| 0 <= x < entries@.len() implies (
            #[trigger] entries@[x])@.len() <= 12 by {
                assert(eview[x] == entries@[x]@);
                assert(eview.contains(eview[x]));
            }
        }
        let mut best: u64 = option_cost(enc, mats, depth, &entries[0]);
        let mut bi: usize = 0;
        let mut x: usize = 1;
        proof {
            assert(eview[0] == entries@[0]@);
        }
        while x < entries.len()
            invariant
                enc.wf(),
                mats_ok(*enc, mats@),
                mats@.len() == depth,
                depth <= 20,
                tb == enc.dir_table,
                eview == enc.num_table.entry_paths(fi as int, ti as int),
                eview.len() == entries@.len(),
                entries@.len() > 0,
                forall|y: int|
                    0 <= y < entries@.len() ==> (#[trigger] entries@[y])@.len() <= 12
                        && entries@[y]@ == eview[y],
                1 <= x <= entries@.len(),
                0 <= bi < x,
                best as int == press_cost(
                    tb,
                    DirectionalCommand::Activate,
                    eview[bi as int].push(DirectionalCommand::Activate),
                    depth as nat,
                ),
                forall|y: int|
                    0 <= y < x ==> best as int <= press_cost(
                        tb,
                        DirectionalCommand::Activate,
                        (#[trigger] eview[y]).push(DirectionalCommand::Activate),
                        depth as nat,
                    ),
            decreases entries@.len() - x,
        {
            let c = option_cost(enc, mats, depth, &entries[x]);
            if c < best {
                best = c;
                bi = x;
            }
            x = x + 1;
        }
        let mut q = copy_path_entry(&entries[bi]);
        q.push(DirectionalCommand::Activate);
        proof {
            lemma_num_list_min_le_member(*enc, eview, bi as int, depth as nat);
            let y1 = lemma_num_list_min_achieved(*enc, eview, depth as nat);
            assert(num_trans_cost(*enc, f, t, depth as nat) == num_list_min_cost(
                *enc,
                eview,
                depth as nat,
            ));
            assert(eview.contains(eview[bi as int]));
            assert(num_pair_alternatives(f, t).contains(eview[bi as int]));
            assert(q@ == eview[bi as int].push(DirectionalCommand::Activate));
        }
        q
    }
}

/// A cheapest option for one directional transition at level k.
fn best_dir_option(
    enc: &ChainEncoder,
    mats: &Vec<Vec<Vec<u64>>>,
    k: usize,
    f: DirectionalCommand,
    t: DirectionalCommand,
) -> (q: Candidate)
    requires
        enc.wf(),
        mats_ok(*enc, mats@),
        1 <= k <= mats@.len(),
        mats@.len() <= 20,
    ensures
        exists|palt: Seq<DirectionalCommand>|
            (#[trigger] dir_pair_alternatives(f, t)).contains(palt) && q@ == palt.push(
                DirectionalCommand::Activate,
            ),
        press_cost(enc.dir_table, DirectionalCommand::Activate, q@, (k - 1) as nat) == trans_cost(
            enc.dir_table,
            f,
            t,
            k as nat,
        ),
{
    let ghost tb = enc.dir_table;
    if f == t {
        let mut q: Candidate = Vec::new();
        q.push(DirectionalCommand::Activate);
        proof {
            let palt = Seq::<DirectionalCommand>::empty();
            assert(dir_pair_alternatives(f, t).contains(palt));
            assert(q@ =~= palt.push(DirectionalCommand::Activate));
            assert(q@ =~= seq![DirectionalCommand::Activate]);
        }
        q
    } else {
        proof {
            lemma_index_roundtrip();
            lemma_dir_entries_exact(*enc, f, t);
        }
        let fi = cmd_index(f);
        let ti = cmd_index(t);
        let entries = &enc.dir_table.entries[fi][ti];
        let ghost eview = enc.dir_table.entry_paths(fi as int, ti as int);
        proof {
            assert(eview.len() == entries@.len());
            assert forall|x: int| 0 <= x < entries@.len() implies (
            #[trigger] entries@[x])@.len() <= 12 by {
                assert(eview[x] == entries@[x]@);
                assert(eview.contains(eview[x]));
            }
        }
        let mut best: u64 = option_cost(enc, mats, k - 1, &entries[0]);
        let mut bi: usize = 0;
        let mut x: usize = 1;
        proof {
            assert(eview[0] == entries@[0]@);
        }
        while x < entries.len()
            invariant
                enc.wf(),
                mats_ok(*enc, mats@),
                1 <= k <= mats@.len(),
                mats@.len() <= 20,
                tb == enc.dir_table,
                eview == enc.dir_table.entry_paths(fi as int, ti as int),
                eview.len() == entries@.len(),
                entries@.len() > 0,
                forall|y: int|
                    0 <= y < entries@.len() ==> (#[trigger] entries@[y])@.len() <= 12
                        && entries@[y]@ == eview[y],
                1 <= x <= entries@.len(),
                0 <= bi < x,
                best as int == press_cost(
                    tb,
                    DirectionalCommand::Activate,
                    eview[bi as int].push(DirectionalCommand::Activate),
                    (k - 1) as nat,
                ),
                forall|y: int|
                    0 <= y < x ==> best as int <= press_cost(
                        tb,
                        DirectionalCommand::Activate,
                        (#[trigger] eview[y]).push(DirectionalCommand::Activate),
                        (k - 1) as nat,
                    ),
            decreases entries@.len() - x,
        {
            let c = option_cost(enc, mats, k - 1, &entries[x]);
            if c < best {
                best = c;
                bi = x;
            }
            x = x + 1;
        }
        let mut q = copy_path_entry(&entries[bi]);
        q.push(DirectionalCommand::Activate);
        proof {
            lemma_list_min_le_member(tb, eview, bi as int, k as nat);
            let y1 = lemma_list_min_achieved(tb, eview, k as nat);
            assert(trans_cost(tb, f, t, k as nat) == list_min_cost(tb, eview, k as nat));
            assert(eview.contains(eview[bi as int]));
            assert(dir_pair_alternatives(f, t).contains(eview[bi as int]));
            assert(q@ == eview[bi as int].push(DirectionalCommand::Activate));
        }
        q
    }
}

} // verus!

verus! {

/// Build one cheapest level-0 candidate for a code, back to front.
fn encode_level0_min(
    enc: &ChainEncoder,
    mats: &Vec<Vec<Vec<u64>>>,
    depth: usize,
    code: &Vec<Key>,
) -> (s: Candidate)
    requires
        enc.wf(),
        mats_ok(*enc, mats@),
        mats@.len() == depth,
        depth <= 20,
    ensures
        level0_set(code@).contains(s@),
        press_cost(enc.dir_table, DirectionalCommand::Activate, s@, depth as nat)
            == num_total_from(*enc, Key::Activate, code@, depth as nat),
{
    let ghost tb = enc.dir_table;
    let mut tail: Candidate = Vec::new();
    let mut i: usize = code.len();
    proof {
        assert(code@.skip(code@.len() as int) =~= Seq::<Key>::empty());
        assert(level0_from(prev_key(code@, i as int), code@.skip(i as int)).contains(tail@));
    }
    while i > 0
        invariant
            enc.wf(),
            mats_ok(*enc, mats@),
            mats@.len() == depth,
            depth <= 20,
            tb == enc.dir_table,
            0 <= i <= code@.len(),
            level0_from(prev_key(code@, i as int), code@.skip(i as int)).contains(tail@),
            press_cost(tb, DirectionalCommand::Activate, tail@, depth as nat) == num_total_from(
                *enc,
                prev_key(code@, i as int),
                code@.skip(i as int),
                depth as nat,
            ),
        decreases i,
    {
        i = i - 1;
        let f = if i == 0 {
            Key::Activate
        } else {
            code[i - 1]
        };
        let t = code[i];
        proof {
            assert(f == prev_key(code@, i as int));
        }
        let opt = best_num_option(enc, mats, depth, f, t);
        let new_tail = concat_paths(&opt, &tail);
        proof {
            let rest = code@.skip(i as int);
            assert(rest.len() > 0);
            assert(rest[0] == code@[i as int]);
            assert(rest.drop_first() =~= code@.skip(i + 1));
            let palt = choose|palt: Seq<DirectionalCommand>|
                (#[trigger] num_pair_alternatives(f, t)).contains(palt) && opt@ == palt.push(
                    DirectionalCommand::Activate,
                );
            assert(num_options(f, t).contains(opt@));
            assert(level0_from(f, rest).contains(new_tail@)) by {
                assert(num_options(f, rest[0]).contains(opt@) && level0_from(
                    rest[0],
                    rest.drop_first(),
                ).contains(tail@) && new_tail@ == opt@ + tail@);
            }
            lemma_press_cost_concat(tb, DirectionalCommand::Activate, opt@, tail@, depth as nat);
            assert(opt@.len() > 0 && opt@.last() == DirectionalCommand::Activate);
            assert(num_total_from(*enc, f, rest, depth as nat) == num_trans_cost(
                *enc,
                f,
                rest[0],
                depth as nat,
            ) + num_total_from(*enc, rest[0], rest.drop_first(), depth as nat));
        }
        tail = new_tail;
    }
    proof {
        assert(code@.skip(0) =~= code@);
    }
    tail
}

/// Re-encode a candidate once, choosing a cheapest option per transition.
fn reencode_min(
    enc: &ChainEncoder,
    mats: &Vec<Vec<Vec<u64>>>,
    k: usize,
    s: &Candidate,
) -> (t: Candidate)
    requires
        enc.wf(),
        mats_ok(*enc, mats@),
        1 <= k <= mats@.len(),
        mats@.len() <= 20,
    ensures
        reencode_set(s@).contains(t@),
        press_cost(enc.dir_table, DirectionalCommand::Activate, t@, (k - 1) as nat) == press_cost(
            enc.dir_table,
            DirectionalCommand::Activate,
            s@,
            k as nat,
        ),
{
    let ghost tb = enc.dir_table;
    let mut tail: Candidate = Vec::new();
    let mut i: usize = s.len();
    proof {
        assert(s@.skip(s@.len() as int) =~= Seq::<DirectionalCommand>::empty());
        assert(reencode_from(prev_cmd(s@, i as int), s@.skip(i as int)).contains(tail@));
    }
    while i > 0
        invariant
            enc.wf(),
            mats_ok(*enc, mats@),
            1 <= k <= mats@.len(),
            mats@.len() <= 20,
            tb == enc.dir_table,
            0 <= i <= s@.len(),
            reencode_from(prev_cmd(s@, i as int), s@.skip(i as int)).contains(tail@),
            press_cost(tb, DirectionalCommand::Activate, tail@, (k - 1) as nat) == press_cost(
                tb,
                prev_cmd(s@, i as int),
                s@.skip(i as int),
                k as nat,
            ),
        decreases i,
    {
        i = i - 1;
        let f = if i == 0 {
            DirectionalCommand::Activate
        } else {
            s[i - 1]
        };
        let t = s[i];
        proof {
            assert(f == prev_cmd(s@, i as int));
        }
        let opt = best_dir_option(enc, mats, k, f, t);
        let new_tail = concat_paths(&opt, &tail);
        proof {
            let rest = s@.skip(i as int);
            assert(rest.len() > 0);
            assert(rest[0] == s@[i as int]);
            assert(rest.drop_first() =~= s@.skip(i + 1));
            let palt = choose|palt: Seq<DirectionalCommand>|
                (#[trigger] dir_pair_alternatives(f, t)).contains(palt) && opt@ == palt.push(
                    DirectionalCommand::Activate,
                );
            assert(dir_options(f, t).contains(opt@));
            assert(reencode_from(f, rest).contains(new_tail@)) by {
                assert(dir_options(f, rest[0]).contains(opt@) && reencode_from(
                    rest[0],
                    rest.drop_first(),
                ).contains(tail@) && new_tail@ == opt@ + tail@);
            }
            lemma_press_cost_concat(
                tb,
                DirectionalCommand::Activate,
                opt@,
                tail@,
                (k - 1) as nat,
            );
            assert(opt@.len() > 0 && opt@.last() == DirectionalCommand::Activate);
            assert(press_cost(tb, f, rest, k as nat) == trans_cost(tb, f, rest[0], k as nat)
                + press_cost(tb, rest[0], rest.drop_first(), k as nat));
        }
        tail = new_tail;
    }
    proof {
        assert(s@.skip(0) =~= s@);
    }
    tail
}

/// A shortest top-level press sequence for one code across the given
/// number of directional indirection levels.  Returns None exactly when
/// the fixed keypads fail their completeness check, which cannot happen
/// for the layouts shipped here.
pub fn find_shortest_encoding(code: &Vec<Key>, depth: usize) -> (r: Option<Candidate>)
    requires
        depth <= 20,
    ensures
        r is Some <==> pads_complete(),
        r matches Some(c) ==> level_set(code@, depth as nat).contains(c@) && is_min_len_of(
            level_set(code@, depth as nat),
            c@.len() as int,
        ),
{
    let enc = match ChainEncoder::new() {
        None => {
            return None;
        },
        Some(e) => e,
    };
    let ghost tb = enc.dir_table;
    let mats = build_matrices(&enc, depth);
    let mut s = encode_level0_min(&enc, &mats, depth, code);
    let mut k: usize = depth;
    proof {
        assert(level_set(code@, 0).contains(s@));
    }
    while k > 0
        invariant
            enc.wf(),
            mats_ok(enc, mats@),
            mats@.len() == depth,
            depth <= 20,
            tb == enc.dir_table,
            0 <= k <= depth,
            level_set(code@, (depth - k) as nat).contains(s@),
            press_cost(tb, DirectionalCommand::Activate, s@, k as nat) == num_total_from(
                enc,
                Key::Activate,
                code@,
                depth as nat,
            ),
        decreases k,
    {
        let s2 = reencode_min(&enc, &mats, k, &s);
        proof {
            assert(reencode_set(s@).contains(s2@));
            assert(level_set(code@, (depth - k + 1) as nat).contains(s2@)) by {
                assert(level_set(code@, (depth - k) as nat).contains(s@) && reencode_set(
                    s@,
                ).contains(s2@));
            }
        }
        s = s2;
        k = k - 1;
    }
    proof {
        lemma_press_cost_zero(tb, DirectionalCommand::Activate, s@);
        assert(s@.len() == num_total_from(enc, Key::Activate, code@, depth as nat));
        assert forall|c: Seq<DirectionalCommand>|
            level_set(code@, depth as nat).contains(c) implies #[trigger] c.len()
            >= s@.len() by {
            lemma_level_lower(enc, code@, depth as nat, depth as nat, c);
            lemma_press_cost_zero(tb, DirectionalCommand::Activate, c);
        }
        assert(is_min_len_of(level_set(code@, depth as nat), s@.len() as int));
    }
    Some(s)
}

} // verus!

verus! {

/// Decimal digit of a key; Activate carries no digit.
pub open spec fn key_digit_val(k: Key) -> int {
    match k {
        Key::Zero => 0,
        Key::One => 1,
        Key::Two => 2,
        Key::Three => 3,
        Key::Four => 4,
        Key::Five => 5,
        Key::Six => 6,
        Key::Seven => 7,
        Key::Eight => 8,
        Key::Nine => 9,
        Key::Activate => 0,
    }
}

/// The numeric value of a code: its digits read in order, base 10,
/// Activate presses ignored.
pub open spec fn code_value(code: Seq<Key>) -> int
    decreases code.len(),
{
    if code.len() == 0 {
        0
    } else {
        let rest = code_value(code.drop_last());
        if code.last() is Activate {
            rest
        } else {
            rest * 10 + key_digit_val(code.last())
        }
    }
}

pub proof fn lemma_code_value_nonneg(code: Seq<Key>)
    ensures
        code_value(code) >= 0,
    decreases code.len(),
{
    if code.len() > 0 {
        lemma_code_value_nonneg(code.drop_last());
        assert(code_value(code.drop_last()) * 10 >= code_value(code.drop_last()))
            by (nonlinear_arith)
            requires
                code_value(code.drop_last()) >= 0,
        ;
    }
}

/// The value of a prefix never exceeds the value of the whole code.
pub proof fn lemma_code_value_prefix(code: Seq<Key>, n: int)
    requires
        0 <= n <= code.len(),
    ensures
        code_value(code.take(n)) <= code_value(code),
    decreases code.len() - n,
{
    if n < code.len() {
        lemma_code_value_prefix(code, n + 1);
        let pre = code.take(n + 1);
        assert(pre.drop_last() =~= code.take(n));
        lemma_code_value_nonneg(code.take(n));
        assert(code_value(code.take(n)) * 10 >= code_value(code.take(n))) by (nonlinear_arith)
            requires
                code_value(code.take(n)) >= 0,
        ;
    } else {
        assert(code.take(n) =~= code);
    }
}

/// The numeric value of a code, or None when it exceeds u64.
fn code_value_exec(code: &Vec<Key>) -> (r: Option<u64>)
    ensures
        r matches Some(v) ==> v as int == code_value(code@),
        r is None ==> code_value(code@) > u64::MAX,
{
    let mut acc: u64 = 0;
    let mut i: usize = 0;
    while i < code.len()
        invariant
            0 <= i <= code@.len(),
            acc as int == code_value(code@.take(i as int)),
        decreases code@.len() - i,
    {
        let k = code[i];
        proof {
            assert(code@.take(i + 1).drop_last() =~= code@.take(i as int));
            assert(code@.take(i + 1).last() == code@[i as int]);
        }
        match k {
            Key::Activate => {},
            _ => {
                let d: u64 = match k {
                    Key::Zero => 0,
                    Key::One => 1,
                    Key::Two => 2,
                    Key::Three => 3,
                    Key::Four => 4,
                    Key::Five => 5,
                    Key::Six => 6,
                    Key::Seven => 7,
                    Key::Eight => 8,
                    Key::Nine => 9,
                    Key::Activate => 0,
                };
                proof {
                    assert(d as int == key_digit_val(k));
                }
                let m = match acc.checked_mul(10) {
                    Some(m) => m,
                    None => {
                        proof {
                            lemma_code_value_prefix(code@, i + 1);
                            lemma_code_value_nonneg(code@.take(i as int));
                        }
                        return None;
                    },
                };
                let a2 = match m.checked_add(d) {
                    Some(a2) => a2,
                    None => {
                        proof {
                            lemma_code_value_prefix(code@, i + 1);
                            lemma_code_value_nonneg(code@.take(i as int));
                        }
                        return None;
                    },
                };
                acc = a2;
            },
        }
        i = i + 1;
    }
    proof {
        assert(code@.take(code@.len() as int) =~= code@);
    }
    Some(acc)
}

/// The minimal candidate length of a code at a depth; meaningful whenever
/// some minimum exists, which the encoder proves at run time.
pub open spec fn min_candidate_len(code: Seq<Key>, depth: nat) -> int {
    choose|m: int| is_min_len_of(level_set(code, depth), m)
}

/// The checksum of a batch: the sum over the codes of minimal candidate
/// length times numeric code value.
pub open spec fn checksum_total(codes: Seq<Seq<Key>>, depth: nat) -> int
    decreases codes.len(),
{
    if codes.len() == 0 {
        0
    } else {
        checksum_total(codes.drop_last(), depth) + min_candidate_len(codes.last(), depth)
            * code_value(codes.last())
    }
}

/// What `calculate_checksums` promises: exactly the checksum when the
/// keypads pass their completeness check and the sum fits in u64.
pub open spec fn checksum_post(codes: Seq<Seq<Key>>, depth: nat, r: Option<u64>) -> bool {
    &&& (r is Some <==> (pads_complete() && checksum_total(codes, depth) <= u64::MAX))
    &&& (r matches Some(v) ==> v as int == checksum_total(codes, depth))
}

/// Determinism law: the contract of `calculate_checksums` pins its result,
/// so two runs on the same batch and depth return the same checksum.
pub proof fn lemma_checksum_deterministic(
    codes: Seq<Seq<Key>>,
    depth: nat,
    r1: Option<u64>,
    r2: Option<u64>,
)
    requires
        checksum_post(codes, depth, r1),
        checksum_post(codes, depth, r2),
    ensures
        r1 == r2,
{
}

/// Candidates for a code are never shorter than the code itself.
pub proof fn lemma_level0_no_shorter(cur: Key, code: Seq<Key>, c: Seq<DirectionalCommand>)
    requires
        level0_from(cur, code).contains(c),
    ensures
        c.len() >= code.len(),
    decreases code.len(),
{
    if code.len() > 0 {
        let (h, t2) = choose|h: Seq<DirectionalCommand>, t2: Seq<DirectionalCommand>|
            num_options(cur, code[0]).contains(h) && level0_from(
                code[0],
                code.drop_first(),
            ).contains(t2) && c == h + t2;
        let p = choose|p: Seq<DirectionalCommand>|
            num_pair_alternatives(cur, code[0]).contains(p) && h == p.push(
                DirectionalCommand::Activate,
            );
        lemma_level0_no_shorter(code[0], code.drop_first(), t2);
        assert(h.len() >= 1);
    }
}

/// The minimal candidate length is at least the code length.
pub proof fn lemma_min_len_ge_code(code: Seq<Key>, depth: nat, m: int)
    requires
        is_min_len_of(level_set(code, depth), m),
    ensures
        m >= code.len(),
{
    let c = choose|c: Seq<DirectionalCommand>|
        level_set(code, depth).contains(c) && c.len() == m;
    lemma_level_len_ge_code(code, depth, c);
}

proof fn lemma_level_len_ge_code(code: Seq<Key>, depth: nat, c: Seq<DirectionalCommand>)
    requires
        level_set(code, depth).contains(c),
    ensures
        c.len() >= code.len(),
    decreases depth,
{
    if depth == 0 {
        lemma_level0_no_shorter(Key::Activate, code, c);
    } else {
        let c1 = choose|c1: Seq<DirectionalCommand>|
            level_set(code, (depth - 1) as nat).contains(c1) && reencode_set(c1).contains(c);
        lemma_level_len_ge_code(code, (depth - 1) as nat, c1);
        lemma_reencode_no_shorter(DirectionalCommand::Activate, c1, c);
    }
}

} // verus!

verus! {

/// The result of the shortest-encoding search is the unique minimum.
proof fn lemma_min_len_matches(code: Seq<Key>, depth: nat, m: int)
    requires
        is_min_len_of(level_set(code, depth), m),
    ensures
        min_candidate_len(code, depth) == m,
{
    let m2 = choose|m2: int| is_min_len_of(level_set(code, depth), m2);
    assert(is_min_len_of(level_set(code, depth), m2));
    lemma_min_len_unique(level_set(code, depth), m, m2);
}

/// Under complete keypads every code has a level-0 candidate.
proof fn lemma_level0_inhabited(cur: Key, code: Seq<Key>) -> (c: Seq<DirectionalCommand>)
    requires
        pads_complete(),
    ensures
        level0_from(cur, code).contains(c),
    decreases code.len(),
{
    if code.len() == 0 {
        Seq::<DirectionalCommand>::empty()
    } else {
        let palt: Seq<DirectionalCommand> = if cur == code[0] {
            Seq::<DirectionalCommand>::empty()
        } else {
            assert(num_pair_covered(cur, code[0]));
            choose|p: Seq<DirectionalCommand>|
                num_pair_alternatives(cur, code[0]).contains(p) && p.len() <= 12
        };
        let h = palt.push(DirectionalCommand::Activate);
        assert(num_options(cur, code[0]).contains(h));
        let t2 = lemma_level0_inhabited(code[0], code.drop_first());
        let c = h + t2;
        assert(level0_from(cur, code).contains(c));
        c
    }
}

/// Under complete keypads every sequence has a re-encoding.
proof fn lemma_reencode_inhabited(cur: DirectionalCommand, s: Seq<DirectionalCommand>) -> (c: Seq<
    DirectionalCommand,
>)
    requires
        pads_complete(),
    ensures
        reencode_from(cur, s).contains(c),
    decreases s.len(),
{
    if s.len() == 0 {
        Seq::<DirectionalCommand>::empty()
    } else {
        let palt: Seq<DirectionalCommand> = if cur == s[0] {
            Seq::<DirectionalCommand>::empty()
        } else {
            assert(dir_pair_covered(cur, s[0]));
            choose|p: Seq<DirectionalCommand>|
                dir_pair_alternatives(cur, s[0]).contains(p) && p.len() <= 6
        };
        let h = palt.push(DirectionalCommand::Activate);
        assert(dir_options(cur, s[0]).contains(h));
        let t2 = lemma_reencode_inhabited(s[0], s.drop_first());
        let c = h + t2;
        assert(reencode_from(cur, s).contains(c));
        c
    }
}

/// Under complete keypads no candidate set is empty, so a minimum exists.
proof fn lemma_level_inhabited(code: Seq<Key>, depth: nat) -> (c: Seq<DirectionalCommand>)
    requires
        pads_complete(),
    ensures
        level_set(code, depth).contains(c),
    decreases depth,
{
    if depth == 0 {
        lemma_level0_inhabited(Key::Activate, code)
    } else {
        let c1 = lemma_level_inhabited(code, (depth - 1) as nat);
        let c = lemma_reencode_inhabited(DirectionalCommand::Activate, c1);
        assert(reencode_set(c1).contains(c));
        assert(level_set(code, depth).contains(c));
        c
    }
}

/// A non-empty candidate set has a minimal length.
proof fn lemma_min_exists(s: Set<Seq<DirectionalCommand>>, c: Seq<DirectionalCommand>)
    requires
        s.contains(c),
    ensures
        exists|m: int| is_min_len_of(s, m),
    decreases c.len(),
{
    if forall|c2: Seq<DirectionalCommand>| s.contains(c2) ==> #[trigger] c2.len() >= c.len() {
        assert(is_min_len_of(s, c.len() as int));
    } else {
        let c2 = choose|c2: Seq<DirectionalCommand>| s.contains(c2) && c2.len() < c.len();
        lemma_min_exists(s, c2);
    }
}

/// One checksum term is non-negative.
proof fn lemma_term_bounds(code: Seq<Key>, depth: nat)
    requires
        pads_complete(),
    ensures
        min_candidate_len(code, depth) >= code.len(),
        min_candidate_len(code, depth) * code_value(code) >= 0,
{
    let c = lemma_level_inhabited(code, depth);
    lemma_min_exists(level_set(code, depth), c);
    let m = choose|m: int| is_min_len_of(level_set(code, depth), m);
    lemma_min_len_matches(code, depth, m);
    lemma_min_len_ge_code(code, depth, m);
    lemma_code_value_nonneg(code);
    assert(min_candidate_len(code, depth) * code_value(code) >= 0) by (nonlinear_arith)
        requires
            min_candidate_len(code, depth) >= 0,
            code_value(code) >= 0,
    ;
}

/// Checksums of longer prefixes dominate those of shorter ones.
proof fn lemma_checksum_prefix_bound(codes: Seq<Seq<Key>>, depth: nat, i: int)
    requires
        pads_complete(),
        0 <= i <= codes.len(),
    ensures
        checksum_total(codes, depth) >= checksum_total(codes.take(i), depth),
    decreases codes.len() - i,
{
    if i < codes.len() {
        lemma_checksum_prefix_bound(codes, depth, i + 1);
        assert(codes.take(i + 1).drop_last() =~= codes.take(i));
        assert(codes.take(i + 1).last() == codes[i]);
        lemma_term_bounds(codes[i], depth);
    } else {
        assert(codes.take(i) =~= codes);
    }
}

/// Sum, over a batch of codes, of minimal top-level candidate length times
/// numeric code value.  None exactly when the keypads fail their
/// completeness check or the checksum leaves u64.
pub fn calculate_checksums(codes: &Vec<Vec<Key>>, depth: usize) -> (r: Option<u64>)
    requires
        depth <= 20,
    ensures
        checksum_post(codes@.map_values(|c: Vec<Key>| c@), depth as nat, r),
{
    let ghost gcodes = codes@.map_values(|c: Vec<Key>| c@);
    match ChainEncoder::new() {
        None => {
            return None;
        },
        Some(_probe) => {},
    }
    let mut total: u64 = 0;
    let mut i: usize = 0;
    while i < codes.len()
        invariant
            depth <= 20,
            gcodes == codes@.map_values(|c: Vec<Key>| c@),
            0 <= i <= codes@.len(),
            pads_complete(),
            total as int == checksum_total(gcodes.take(i as int), depth as nat),
        decreases codes@.len() - i,
    {
        let ghost code_i = gcodes[i as int];
        proof {
            assert(code_i == codes@[i as int]@);
        }
        let best = match find_shortest_encoding(&codes[i], depth) {
            Some(b) => b,
            None => {
                return None;
            },
        };
        proof {
            lemma_min_len_matches(code_i, depth as nat, best@.len() as int);
            lemma_term_bounds(code_i, depth as nat);
            lemma_code_value_nonneg(code_i);
        }
        let value = match code_value_exec(&codes[i]) {
            Some(v) => v,
            None => {
                proof {
                    assert(code_i.len() >= 1) by {
                        if code_i.len() == 0 {
                            assert(code_value(code_i) == 0);
                        }
                    }
                    assert(min_candidate_len(code_i, depth as nat) * code_value(code_i)
                        > u64::MAX) by (nonlinear_arith)
                        requires
                            min_candidate_len(code_i, depth as nat) >= 1,
                            code_value(code_i) > u64::MAX,
                    ;
                    lemma_overflow_concludes(gcodes, depth as nat, i as int, total as int);
                }
                return None;
            },
        };
        let len64: u64 = best.len() as u64;
        let term = match len64.checked_mul(value) {
            Some(t) => t,
            None => {
                proof {
                    lemma_overflow_concludes(gcodes, depth as nat, i as int, total as int);
                }
                return None;
            },
        };
        let nt = match total.checked_add(term) {
            Some(t) => t,
            None => {
                proof {
                    lemma_overflow_concludes(gcodes, depth as nat, i as int, total as int);
                }
                return None;
            },
        };
        total = nt;
        proof {
            assert(gcodes.take(i + 1).drop_last() =~= gcodes.take(i as int));
            assert(gcodes.take(i + 1).last() == gcodes[i as int]);
        }
        i = i + 1;
    }
    proof {
        assert(gcodes.take(gcodes.len() as int) =~= gcodes);
    }
    Some(total)
}

/// When the running total plus the current term leaves u64, the whole
/// checksum leaves u64.
proof fn lemma_overflow_concludes(codes: Seq<Seq<Key>>, depth: nat, i: int, sofar: int)
    requires
        pads_complete(),
        0 <= i < codes.len(),
        sofar == checksum_total(codes.take(i), depth),
        sofar >= 0,
        sofar + min_candidate_len(codes[i], depth) * code_value(codes[i]) > u64::MAX,
    ensures
        checksum_total(codes, depth) > u64::MAX,
{
    lemma_checksum_prefix_bound(codes, depth, i + 1);
    assert(codes.take(i + 1).drop_last() =~= codes.take(i));
    assert(codes.take(i + 1).last() == codes[i]);
}

} // verus!

verus! {

/// The options for one numeric transition, as a list.
fn num_options_vec(enc: &ChainEncoder, f: Key, t: Key) -> (r: Vec<Candidate>)
    requires
        enc.wf(),
    ensures
        forall|q: Seq<DirectionalCommand>|
            #[trigger] paths_view(r@).contains(q) <==> num_options(f, t).contains(q),
{
    let mut r: Vec<Candidate> = Vec::new();
    if f == t {
        let mut o: Candidate = Vec::new();
        o.push(DirectionalCommand::Activate);
        r.push(o);
        proof {
            let palt = Seq::<DirectionalCommand>::empty();
            assert(num_pair_alternatives(f, t).contains(palt));
            assert(paths_view(r@)[0] =~= palt.push(DirectionalCommand::Activate));
            assert forall|q: Seq<DirectionalCommand>|
                #[trigger] num_options(f, t).contains(q) implies paths_view(r@).contains(q) by {
                let p2 = choose|p2: Seq<DirectionalCommand>|
                    num_pair_alternatives(f, t).contains(p2) && q == p2.push(
                        DirectionalCommand::Activate,
                    );
                assert(p2 == palt);
                assert(paths_view(r@)[0] == q);
            }
        }
    } else {
        proof {
            lemma_index_roundtrip();
            lemma_num_entries_exact(*enc, f, t);
        }
        let fi = key_index(f);
        let ti = key_index(t);
        let entries = &enc.num_table.entries[fi][ti];
        let ghost eview = enc.num_table.entry_paths(fi as int, ti as int);
        let mut x: usize = 0;
        while x < entries.len()
            invariant
                enc.wf(),
                eview == enc.num_table.entry_paths(fi as int, ti as int),
                eview.len() == entries@.len(),
                forall|y: int| 0 <= y < entries@.len() ==> (#[trigger] entries@[y])@ == eview[y],
                forall|q2: Seq<DirectionalCommand>|
                    #[trigger] eview.contains(q2) <==> num_pair_alternatives(f, t).contains(q2),
                0 <= x <= entries@.len(),
                r@.len() == x,
                forall|y: int|
                    0 <= y < x ==> #[trigger] paths_view(r@)[y] == eview[y].push(
                        DirectionalCommand::Activate,
                    ),
            decreases entries@.len() - x,
        {
            let ghost rv0 = paths_view(r@);
            let mut o = copy_path_entry(&entries[x]);
            o.push(DirectionalCommand::Activate);
            r.push(o);
            proof {
                assert(paths_view(r@) =~= rv0.push(o@));
                assert(paths_view(r@)[x as int] == o@);
                assert(o@ == eview[x as int].push(DirectionalCommand::Activate));
                assert forall|y: int| 0 <= y < x implies #[trigger] paths_view(r@)[y] == eview[y].push(
                    DirectionalCommand::Activate,
                ) by {
                    assert(paths_view(r@)[y] == rv0[y]);
                }
            }
            x = x + 1;
        }
        proof {
            assert forall|q: Seq<DirectionalCommand>|
                #[trigger] paths_view(r@).contains(q) implies num_options(f, t).contains(q) by {
                let y = choose|y: int|
                    0 <= y < paths_view(r@).len() && #[trigger] paths_view(r@)[y] == q;
                assert(eview.contains(eview[y]));
                assert(num_pair_alternatives(f, t).contains(eview[y]));
            }
            assert forall|q: Seq<DirectionalCommand>|
                #[trigger] num_options(f, t).contains(q) implies paths_view(r@).contains(q) by {
                let p2 = choose|p2: Seq<DirectionalCommand>|
                    num_pair_alternatives(f, t).contains(p2) && q == p2.push(
                        DirectionalCommand::Activate,
                    );
                assert(eview.contains(p2));
                let y = choose|y: int| 0 <= y < eview.len() && #[trigger] eview[y] == p2;
                assert(paths_view(r@)[y] == q);
            }
        }
    }
    r
}

/// The options for one directional transition, as a list.
fn dir_options_vec(enc: &ChainEncoder, f: DirectionalCommand, t: DirectionalCommand) -> (r: Vec<
    Candidate,
>)
    requires
        enc.wf(),
    ensures
        forall|q: Seq<DirectionalCommand>|
            #[trigger] paths_view(r@).contains(q) <==> dir_options(f, t).contains(q),
{
    let mut r: Vec<Candidate> = Vec::new();
    if f == t {
        let mut o: Candidate = Vec::new();
        o.push(DirectionalCommand::Activate);
        r.push(o);
        proof {
            let palt = Seq::<DirectionalCommand>::empty();
            assert(dir_pair_alternatives(f, t).contains(palt));
            assert(paths_view(r@)[0] =~= palt.push(DirectionalCommand::Activate));
            assert forall|q: Seq<DirectionalCommand>|
                #[trigger] dir_options(f, t).contains(q) implies paths_view(r@).contains(q) by {
                let p2 = choose|p2: Seq<DirectionalCommand>|
                    dir_pair_alternatives(f, t).contains(p2) && q == p2.push(
                        DirectionalCommand::Activate,
                    );
                assert(p2 == palt);
                assert(paths_view(r@)[0] == q);
            }
        }
    } else {
        proof {
            lemma_index_roundtrip();
            lemma_dir_entries_exact(*enc, f, t);
        }
        let fi = cmd_index(f);
        let ti = cmd_index(t);
        let entries = &enc.dir_table.entries[fi][ti];
        let ghost eview = enc.dir_table.entry_paths(fi as int, ti as int);
        let mut x: usize = 0;
        while x < entries.len()
            invariant
                enc.wf(),
                eview == enc.dir_table.entry_paths(fi as int, ti as int),
                eview.len() == entries@.len(),
                forall|y: int| 0 <= y < entries@.len() ==> (#[trigger] entries@[y])@ == eview[y],
                forall|q2: Seq<DirectionalCommand>|
                    #[trigger] eview.contains(q2) <==> dir_pair_alternatives(f, t).contains(q2),
                0 <= x <= entries@.len(),
                r@.len() == x,
                forall|y: int|
                    0 <= y < x ==> #[trigger] paths_view(r@)[y] == eview[y].push(
                        DirectionalCommand::Activate,
                    ),
            decreases entries@.len() - x,
        {
            let ghost rv0 = paths_view(r@);
            let mut o = copy_path_entry(&entries[x]);
            o.push(DirectionalCommand::Activate);
            r.push(o);
            proof {
                assert(paths_view(r@) =~= rv0.push(o@));
                assert(paths_view(r@)[x as int] == o@);
                assert(o@ == eview[x as int].push(DirectionalCommand::Activate));
                assert forall|y: int| 0 <= y < x implies #[trigger] paths_view(r@)[y] == eview[y].push(
                    DirectionalCommand::Activate,
                ) by {
                    assert(paths_view(r@)[y] == rv0[y]);
                }
            }
            x = x + 1;
        }
        proof {
            assert forall|q: Seq<DirectionalCommand>|
                #[trigger] paths_view(r@).contains(q) implies dir_options(f, t).contains(q) by {
                let y = choose|y: int|
                    0 <= y < paths_view(r@).len() && #[trigger] paths_view(r@)[y] == q;
                assert(eview.contains(eview[y]));
                assert(dir_pair_alternatives(f, t).contains(eview[y]));
            }
            assert forall|q: Seq<DirectionalCommand>|
                #[trigger] dir_options(f, t).contains(q) implies paths_view(r@).contains(q) by {
                let p2 = choose|p2: Seq<DirectionalCommand>|
                    dir_pair_alternatives(f, t).contains(p2) && q == p2.push(
                        DirectionalCommand::Activate,
                    );
                assert(eview.contains(p2));
                let y = choose|y: int| 0 <= y < eview.len() && #[trigger] eview[y] == p2;
                assert(paths_view(r@)[y] == q);
            }
        }
    }
    r
}

/// Every concatenation of one option with one stored tail.
fn compose_extend(opts: &Vec<Candidate>, tails: &Vec<Candidate>) -> (r: Vec<Candidate>)
    ensures
        forall|x: Seq<DirectionalCommand>|
            #[trigger] paths_view(r@).contains(x) <==> exists|
                h: Seq<DirectionalCommand>,
                t2: Seq<DirectionalCommand>,
            |
                paths_view(opts@).contains(h) && paths_view(tails@).contains(t2) && x == h + t2,
{
    let mut r: Vec<Candidate> = Vec::new();
    let mut a: usize = 0;
    while a < opts.len()
        invariant
            0 <= a <= opts@.len(),
            forall|x: Seq<DirectionalCommand>|
                #[trigger] paths_view(r@).contains(x) <==> exists|
                    ai: int,
                    bi: int,
                |
                    0 <= ai < a && 0 <= bi < tails@.len() && x == #[trigger] (paths_view(
                        opts@,
                    )[ai] + paths_view(tails@)[bi]),
        decreases opts@.len() - a,
    {
        let mut b: usize = 0;
        while b < tails.len()
            invariant
                0 <= a < opts@.len(),
                0 <= b <= tails@.len(),
                forall|x: Seq<DirectionalCommand>|
                    #[trigger] paths_view(r@).contains(x) <==> exists|
                        ai: int,
                        bi: int,
                    |
                        (0 <= ai < a && 0 <= bi < tails@.len() || ai == a && 0 <= bi < b) && x
                            == #[trigger] (paths_view(opts@)[ai] + paths_view(tails@)[bi]),
            decreases tails@.len() - b,
        {
            let ghost r0 = r@;
            let c = concat_paths(&opts[a], &tails[b]);
            r.push(c);
            proof {
                assert(paths_view(r@) =~= paths_view(r0).push(
                    paths_view(opts@)[a as int] + paths_view(tails@)[b as int],
                ));
                assert forall|x: Seq<DirectionalCommand>|
                    #[trigger] paths_view(r@).contains(x) implies exists|ai: int, bi: int|
                    (0 <= ai < a && 0 <= bi < tails@.len() || ai == a as int && 0 <= bi < b + 1)
                        && x == #[trigger] (paths_view(opts@)[ai] + paths_view(tails@)[bi]) by {
                    let y = choose|y: int|
                        0 <= y < paths_view(r@).len() && #[trigger] paths_view(r@)[y] == x;
                    if y < r0.len() {
                        assert(paths_view(r0).contains(x));
                    } else {
                        assert(x == paths_view(opts@)[a as int] + paths_view(tails@)[b as int]);
                    }
                }
                assert forall|ai: int, bi: int|
                    ((0 <= ai < a && 0 <= bi < tails@.len() || ai == a as int && 0 <= bi < b + 1)
                        && true) implies #[trigger] paths_view(r@).contains(
                    paths_view(opts@)[ai] + paths_view(tails@)[bi],
                ) by {
                    if ai == a as int && bi == b as int {
                        assert(paths_view(r@)[r@.len() - 1] == paths_view(opts@)[ai] + paths_view(
                            tails@,
                        )[bi]);
                    } else {
                        assert(paths_view(r0).contains(paths_view(opts@)[ai] + paths_view(
                            tails@,
                        )[bi]));
                        let y = choose|y: int|
                            0 <= y < paths_view(r0).len() && #[trigger] paths_view(r0)[y]
                                == paths_view(opts@)[ai] + paths_view(tails@)[bi];
                        assert(paths_view(r@)[y] == paths_view(opts@)[ai] + paths_view(
                            tails@,
                        )[bi]);
                    }
                }
            }
            b = b + 1;
        }
        a = a + 1;
    }
    proof {
        assert forall|x: Seq<DirectionalCommand>|
            #[trigger] paths_view(r@).contains(x) implies exists|
            h: Seq<DirectionalCommand>,
            t2: Seq<DirectionalCommand>,
        |
            paths_view(opts@).contains(h) && paths_view(tails@).contains(t2) && x == h + t2 by {
            let (ai, bi) = choose|ai: int, bi: int|
                0 <= ai < opts@.len() && 0 <= bi < tails@.len() && x == #[trigger] (paths_view(
                    opts@,
                )[ai] + paths_view(tails@)[bi]);
            assert(paths_view(opts@).contains(paths_view(opts@)[ai]));
            assert(paths_view(tails@).contains(paths_view(tails@)[bi]));
        }
        assert forall|h: Seq<DirectionalCommand>, t2: Seq<DirectionalCommand>|
            paths_view(opts@).contains(h) && paths_view(tails@).contains(
                t2,
            ) implies #[trigger] paths_view(r@).contains(h + t2) by {
            let ai = choose|ai: int|
                0 <= ai < paths_view(opts@).len() && #[trigger] paths_view(opts@)[ai] == h;
            let bi = choose|bi: int|
                0 <= bi < paths_view(tails@).len() && #[trigger] paths_view(tails@)[bi] == t2;
            assert(paths_view(r@).contains(paths_view(opts@)[ai] + paths_view(tails@)[bi]));
        }
    }
    r
}

} // verus!

verus! {

/// The complete level-0 candidate set of a code, as a list.
fn level0_all(enc: &ChainEncoder, code: &Vec<Key>) -> (r: Vec<Candidate>)
    requires
        enc.wf(),
    ensures
        forall|q: Seq<DirectionalCommand>|
            #[trigger] paths_view(r@).contains(q) <==> level0_set(code@).contains(q),
{
    let mut tails: Vec<Candidate> = Vec::new();
    let empty_tail: Candidate = Vec::new();
    tails.push(empty_tail);
    let mut i: usize = code.len();
    proof {
        assert(code@.skip(code@.len() as int) =~= Seq::<Key>::empty());
        assert(paths_view(tails@)[0] =~= Seq::<DirectionalCommand>::empty());
        assert forall|q: Seq<DirectionalCommand>| #[trigger] paths_view(tails@).contains(
            q,
        ) implies level0_from(prev_key(code@, i as int), code@.skip(i as int)).contains(q) by {
            let y = choose|y: int|
                0 <= y < paths_view(tails@).len() && #[trigger] paths_view(tails@)[y] == q;
            assert(q == paths_view(tails@)[0]);
        }
        assert forall|q: Seq<DirectionalCommand>| #[trigger] level0_from(
            prev_key(code@, i as int),
            code@.skip(i as int),
        ).contains(q) implies paths_view(tails@).contains(q) by {
            assert(q =~= paths_view(tails@)[0]);
        }
    }
    while i > 0
        invariant
            enc.wf(),
            0 <= i <= code@.len(),
            forall|q: Seq<DirectionalCommand>|
                #[trigger] paths_view(tails@).contains(q) <==> level0_from(
                    prev_key(code@, i as int),
                    code@.skip(i as int),
                ).contains(q),
        decreases i,
    {
        i = i - 1;
        let f = if i == 0 {
            Key::Activate
        } else {
            code[i - 1]
        };
        let t = code[i];
        proof {
            assert(f == prev_key(code@, i as int));
        }
        let opts = num_options_vec(enc, f, t);
        let new_tails = compose_extend(&opts, &tails);
        proof {
            let rest = code@.skip(i as int);
            assert(rest.len() > 0);
            assert(rest[0] == code@[i as int]);
            assert(rest.drop_first() =~= code@.skip(i + 1));
            assert forall|q: Seq<DirectionalCommand>| #[trigger] paths_view(
                new_tails@,
            ).contains(q) implies level0_from(f, rest).contains(q) by {
                let (h, t2) = choose|h: Seq<DirectionalCommand>, t2: Seq<DirectionalCommand>|
                    paths_view(opts@).contains(h) && paths_view(tails@).contains(t2) && q == h
                        + t2;
                assert(num_options(f, rest[0]).contains(h));
                assert(level0_from(rest[0], rest.drop_first()).contains(t2));
            }
            assert forall|q: Seq<DirectionalCommand>| #[trigger] level0_from(
                f,
                rest,
            ).contains(q) implies paths_view(new_tails@).contains(q) by {
                let (h, t2) = choose|h: Seq<DirectionalCommand>, t2: Seq<DirectionalCommand>|
                    num_options(f, rest[0]).contains(h) && level0_from(
                        rest[0],
                        rest.drop_first(),
                    ).contains(t2) && q == h + t2;
                assert(paths_view(opts@).contains(h));
                assert(paths_view(tails@).contains(t2));
            }
        }
        tails = new_tails;
    }
    proof {
        assert(code@.skip(0) =~= code@);
    }
    tails
}

/// The complete re-encoding set of one candidate, as a list.
fn reencode_all(enc: &ChainEncoder, s: &Candidate) -> (r: Vec<Candidate>)
    requires
        enc.wf(),
    ensures
        forall|q: Seq<DirectionalCommand>|
            #[trigger] paths_view(r@).contains(q) <==> reencode_set(s@).contains(q),
{
    let mut tails: Vec<Candidate> = Vec::new();
    let empty_tail: Candidate = Vec::new();
    tails.push(empty_tail);
    let mut i: usize = s.len();
    proof {
        assert(s@.skip(s@.len() as int) =~= Seq::<DirectionalCommand>::empty());
        assert(paths_view(tails@)[0] =~= Seq::<DirectionalCommand>::empty());
        assert forall|q: Seq<DirectionalCommand>| #[trigger] paths_view(tails@).contains(
            q,
        ) implies reencode_from(prev_cmd(s@, i as int), s@.skip(i as int)).contains(q) by {
            let y = choose|y: int|
                0 <= y < paths_view(tails@).len() && #[trigger] paths_view(tails@)[y] == q;
            assert(q == paths_view(tails@)[0]);
        }
        assert forall|q: Seq<DirectionalCommand>| #[trigger] reencode_from(
            prev_cmd(s@, i as int),
            s@.skip(i as int),
        ).contains(q) implies paths_view(tails@).contains(q) by {
            assert(q =~= paths_view(tails@)[0]);
        }
    }
    while i > 0
        invariant
            enc.wf(),
            0 <= i <= s@.len(),
            forall|q: Seq<DirectionalCommand>|
                #[trigger] paths_view(tails@).contains(q) <==> reencode_from(
                    prev_cmd(s@, i as int),
                    s@.skip(i as int),
                ).contains(q),
        decreases i,
    {
        i = i - 1;
        let f = if i == 0 {
            DirectionalCommand::Activate
        } else {
            s[i - 1]
        };
        let t = s[i];
        proof {
            assert(f == prev_cmd(s@, i as int));
        }
        let opts = dir_options_vec(enc, f, t);
        let new_tails = compose_extend(&opts, &tails);
        proof {
            let rest = s@.skip(i as int);
            assert(rest.len() > 0);
            assert(rest[0] == s@[i as int]);
            assert(rest.drop_first() =~= s@.skip(i + 1));
            assert forall|q: Seq<DirectionalCommand>| #[trigger] paths_view(
                new_tails@,
            ).contains(q) implies reencode_from(f, rest).contains(q) by {
                let (h, t2) = choose|h: Seq<DirectionalCommand>, t2: Seq<DirectionalCommand>|
                    paths_view(opts@).contains(h) && paths_view(tails@).contains(t2) && q == h
                        + t2;
                assert(dir_options(f, rest[0]).contains(h));
                assert(reencode_from(rest[0], rest.drop_first()).contains(t2));
            }
            assert forall|q: Seq<DirectionalCommand>| #[trigger] reencode_from(
                f,
                rest,
            ).contains(q) implies paths_view(new_tails@).contains(q) by {
                let (h, t2) = choose|h: Seq<DirectionalCommand>, t2: Seq<DirectionalCommand>|
                    dir_options(f, rest[0]).contains(h) && reencode_from(
                        rest[0],
                        rest.drop_first(),
                    ).contains(t2) && q == h + t2;
                assert(paths_view(opts@).contains(h));
                assert(paths_view(tails@).contains(t2));
            }
        }
        tails = new_tails;
    }
    proof {
        assert(s@.skip(0) =~= s@);
    }
    tails
}

/// The candidate set after the given number of re-encoding passes, per
/// the full cartesian-product method; the sets can grow combinatorially,
/// so this is meant for shallow levels.  None exactly when the keypads
/// fail their completeness check.
/// The union of the re-encoding sets of every stored candidate.
#[verifier::rlimit(100)]
fn union_reencode(enc: &ChainEncoder, cands: &Vec<Candidate>) -> (next: Vec<Candidate>)
    requires
        enc.wf(),
    ensures
        forall|q: Seq<DirectionalCommand>|
            #[trigger] paths_view(next@).contains(q) <==> exists|ci: int|
                0 <= ci < cands@.len() && reencode_set(#[trigger] paths_view(cands@)[ci]).contains(
                    q,
                ),
{
    let mut next: Vec<Candidate> = Vec::new();
    let mut c: usize = 0;
    while c < cands.len()
        invariant
            enc.wf(),
            0 <= c <= cands@.len(),
            forall|q: Seq<DirectionalCommand>|
                #[trigger] paths_view(next@).contains(q) <==> exists|ci: int|
                    0 <= ci < c && reencode_set(#[trigger] paths_view(cands@)[ci]).contains(q),
        decreases cands@.len() - c,
    {
        let ghost next0 = next@;
        let more = reencode_all(enc, &cands[c]);
        let mut m: usize = 0;
        while m < more.len()
            invariant
                0 <= m <= more@.len(),
                0 <= c < cands@.len(),
                forall|q: Seq<DirectionalCommand>|
                    #[trigger] paths_view(more@).contains(q) <==> reencode_set(
                        paths_view(cands@)[c as int],
                    ).contains(q),
                forall|q: Seq<DirectionalCommand>|
                    #[trigger] paths_view(next@).contains(q) <==> (paths_view(next0).contains(q)
                        || paths_view(more@.take(m as int)).contains(q)),
                forall|q: Seq<DirectionalCommand>|
                    #[trigger] paths_view(next0).contains(q) ==> paths_view(next@).contains(q),
            decreases more@.len() - m,
        {
            let ghost nv0 = paths_view(next@);
            let cp = copy_path_entry(&more[m]);
            next.push(cp);
            proof {
                assert(paths_view(next@) =~= nv0.push(more@[m as int]@));
                assert forall|q: Seq<DirectionalCommand>| #[trigger] paths_view(
                    next@,
                ).contains(q) implies (paths_view(next0).contains(q) || paths_view(
                    more@.take(m + 1),
                ).contains(q)) by {
                    let y = choose|y: int|
                        0 <= y < paths_view(next@).len() && #[trigger] paths_view(next@)[y] == q;
                    if y < nv0.len() {
                        assert(nv0.contains(q));
                        if paths_view(more@.take(m as int)).contains(q) {
                            let z = choose|z: int|
                                0 <= z < m && #[trigger] paths_view(more@.take(m as int))[z] == q;
                            assert(paths_view(more@.take(m + 1))[z] == q);
                        }
                    } else {
                        assert(q == more@[m as int]@);
                        assert(paths_view(more@.take(m + 1))[m as int] == q);
                    }
                }
                assert forall|q: Seq<DirectionalCommand>|
                    (paths_view(next0).contains(q) || paths_view(more@.take(m + 1)).contains(
                        q,
                    )) implies #[trigger] paths_view(next@).contains(q) by {
                    if paths_view(next0).contains(q) {
                        assert(nv0.contains(q));
                        let y = choose|y: int| 0 <= y < nv0.len() && #[trigger] nv0[y] == q;
                        assert(paths_view(next@)[y] == q);
                    } else {
                        let z = choose|z: int|
                            0 <= z < m + 1 && #[trigger] paths_view(more@.take(m + 1))[z] == q;
                        if z < m {
                            assert(paths_view(more@.take(m as int))[z] == q);
                            assert(paths_view(more@.take(m as int)).contains(q));
                            assert(nv0.contains(q));
                            let y = choose|y: int| 0 <= y < nv0.len() && #[trigger] nv0[y] == q;
                            assert(paths_view(next@)[y] == q);
                        } else {
                            assert(q == more@[m as int]@);
                            assert(paths_view(next@)[paths_view(next@).len() - 1] == q);
                        }
                    }
                }
            }
            m = m + 1;
        }
        proof {
            assert(more@.take(more@.len() as int) =~= more@);
            assert forall|q: Seq<DirectionalCommand>| #[trigger] paths_view(
                next@,
            ).contains(q) implies exists|ci: int|
                0 <= ci < c + 1 && reencode_set(#[trigger] paths_view(cands@)[ci]).contains(
                    q,
                ) by {
                if paths_view(next0).contains(q) {
                    let ci = choose|ci: int|
                        0 <= ci < c && reencode_set(#[trigger] paths_view(cands@)[ci]).contains(q);
                } else {
                    assert(paths_view(more@).contains(q));
                    assert(reencode_set(paths_view(cands@)[c as int]).contains(q));
                }
            }
            assert forall|ci: int|
                0 <= ci < c + 1 implies forall|q: Seq<DirectionalCommand>|
                reencode_set(#[trigger] paths_view(cands@)[ci]).contains(q)
                    ==> #[trigger] paths_view(next@).contains(q) by {
                assert forall|q: Seq<DirectionalCommand>|
                    reencode_set(paths_view(cands@)[ci]).contains(q) implies #[trigger] paths_view(
                    next@,
                ).contains(q) by {
                    if ci < c {
                        assert(paths_view(next0).contains(q));
                    } else {
                        assert(paths_view(more@).contains(q));
                    }
                }
            }
        }
        c = c + 1;
    }
    next
}

/// The candidate set after the given number of re-encoding passes, per
/// the full cartesian-product method; the sets can grow combinatorially,
/// so this is meant for shallow levels.  None exactly when the keypads
/// fail their completeness check.
pub fn encode(level: usize, code: &Vec<Key>) -> (r: Option<Vec<Candidate>>)
    ensures
        r is Some <==> pads_complete(),
        r matches Some(cands) ==> (forall|q: Seq<DirectionalCommand>|
            #[trigger] paths_view(cands@).contains(q) <==> level_set(
                code@,
                level as nat,
            ).contains(q)),
{
    let enc = match ChainEncoder::new() {
        None => {
            return None;
        },
        Some(e) => e,
    };
    let mut cands = level0_all(&enc, code);
    let mut l: usize = 0;
    while l < level
        invariant
            enc.wf(),
            0 <= l <= level,
            forall|q: Seq<DirectionalCommand>|
                #[trigger] paths_view(cands@).contains(q) <==> level_set(
                    code@,
                    l as nat,
                ).contains(q),
        decreases level - l,
    {
        let next = union_reencode(&enc, &cands);
        proof {
            let d0 = ((((l + 1) as nat)) - 1) as nat;
            assert(d0 == l as nat);
            assert forall|q: Seq<DirectionalCommand>| #[trigger] paths_view(
                next@,
            ).contains(q) implies level_set(code@, (l + 1) as nat).contains(q) by {
                let ci = choose|ci: int|
                    0 <= ci < cands@.len() && reencode_set(
                        #[trigger] paths_view(cands@)[ci],
                    ).contains(q);
                assert(paths_view(cands@).contains(paths_view(cands@)[ci]));
                assert(level_set(code@, d0).contains(paths_view(cands@)[ci]));
                assert(exists|c2: Seq<DirectionalCommand>|
                    #![trigger level_set(code@, d0).contains(c2)]
                    level_set(code@, d0).contains(c2) && reencode_set(c2).contains(q));
            }
            assert forall|q: Seq<DirectionalCommand>| #[trigger] level_set(
                code@,
                (l + 1) as nat,
            ).contains(q) implies paths_view(next@).contains(q) by {
                let c2 = choose|c2: Seq<DirectionalCommand>|
                    #![trigger level_set(code@, d0).contains(c2)]
                    level_set(code@, d0).contains(c2) && reencode_set(c2).contains(q);
                assert(paths_view(cands@).contains(c2));
                let ci = choose|ci: int|
                    0 <= ci < paths_view(cands@).len() && #[trigger] paths_view(cands@)[ci] == c2;
                assert(reencode_set(paths_view(cands@)[ci]).contains(q));
                assert(exists|ci2: int|
                    0 <= ci2 < cands@.len() && reencode_set(
                        #[trigger] paths_view(cands@)[ci2],
                    ).contains(q));
            }
        }
        cands = next;
        l = l + 1;
    }
    Some(cands)
}

/// Parse a code such as a digit string followed by A into keys; None on
/// any other character.
pub fn parse_code(text: &Vec<char>) -> (r: Option<Vec<Key>>)
    ensures
        r is Some <==> (forall|i: int|
            0 <= i < text@.len() ==> key_of_char(#[trigger] text@[i]) is Some),
        r matches Some(code) ==> code@.len() == text@.len() && (forall|i: int|
            0 <= i < text@.len() ==> Some(code@[i]) == key_of_char(#[trigger] text@[i])),
{
    let mut code: Vec<Key> = Vec::new();
    let mut i: usize = 0;
    while i < text.len()
        invariant
            0 <= i <= text@.len(),
            code@.len() == i,
            forall|j: int| 0 <= j < i ==> Some(code@[j]) == key_of_char(#[trigger] text@[j]),
        decreases text@.len() - i,
    {
        let c = text[i];
        let k = match c {
            '0' => Key::Zero,
            '1' => Key::One,
            '2' => Key::Two,
            '3' => Key::Three,
            '4' => Key::Four,
            '5' => Key::Five,
            '6' => Key::Six,
            '7' => Key::Seven,
            '8' => Key::Eight,
            '9' => Key::Nine,
            'A' => Key::Activate,
            _ => {
                return None;
            },
        };
        code.push(k);
        i = i + 1;
    }
    Some(code)
}

/// The key a character denotes, if any.
pub open spec fn key_of_char(c: char) -> Option<Key> {
    if c == '0' {
        Some(Key::Zero)
    } else if c == '1' {
        Some(Key::One)
    } else if c == '2' {
        Some(Key::Two)
    } else if c == '3' {
        Some(Key::Three)
    } else if c == '4' {
        Some(Key::Four)
    } else if c == '5' {
        Some(Key::Five)
    } else if c == '6' {
        Some(Key::Six)
    } else if c == '7' {
        Some(Key::Seven)
    } else if c == '8' {
        Some(Key::Eight)
    } else if c == '9' {
        Some(Key::Nine)
    } else if c == 'A' {
        Some(Key::Activate)
    } else {
        None
    }
}

} // verus!
