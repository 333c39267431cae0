//! Walking a generated contract: whichever branch the player commits to, the
//! route keeps going until it reaches the final boss, one column per
//! completed encounter, and each boss beaten opens the zone after it.

use vstd::prelude::*;
use crate::contract_map::{
    ContractShape, ContractView, EncounterType, NodeId, NodeView, bosses_before, column_width, completed_count,
    counts_as_completed, depth_of, generated_type_fits, has_node, in_column, index_of_id, is_boss_column, is_greatest_depth,
    is_boss_depth, is_rolled, laid_out, law_generated_depth_is_column, law_generated_length,
    law_generated_nothing_stranded, lemma_one_column, lemma_some_column, numbered_forward, rolled_type,
    shape_length, zone_of,
};

verus! {

/// The boss columns before column `column`.
pub open spec fn boss_columns_below(shape: ContractShape, column: int) -> Set<int> {
    Set::new(|b: int| 0 <= b < column && is_boss_column(shape, b))
}

/// How many zones a node in column `column` is past: the boss columns before
/// it.
pub open spec fn zones_before(shape: ContractShape, column: int) -> nat {
    boss_columns_below(shape, column).len()
}

/// Where a walk through a generated contract can stand, with the player in
/// column `column` at the end of `path`, one node per column from the entry:
/// nothing locked past the next column, some way on still open while there
/// is a next column, every boss passed counted as a zone opened, an
/// encounter under way only on an open way on, and the nodes of the path
/// completed once the player has left the entry.
pub open spec fn walk_state(v: ContractView, shape: ContractShape, first: Seq<int>, column: int, path: Seq<NodeId>) -> bool {
    let next = v.nodes[v.current as int].next;
    &&& laid_out(v.nodes, shape, first)
    &&& numbered_forward(v.nodes)
    &&& v.start == 0
    &&& in_column(first, column, v.current as int)
    &&& path.len() == column + 1
    &&& path[0] == 0
    &&& path[column] == v.current
    &&& forall|c: int| 0 <= c <= column ==> in_column(first, c, #[trigger] path[c] as int)
    &&& forall|id: NodeId| #[trigger] v.completed.contains(id) <==> (column >= 1 && path.contains(id))
    &&& column + 2 < first.len() ==> forall|l: NodeId| #[trigger] v.locked.contains(l) ==> (l as int) < first[column + 2]
    &&& column + 2 < first.len() ==> exists|y: NodeId| #[trigger] next.contains(y) && !v.locked.contains(y)
    &&& v.unlocked_zones == zones_before(shape, column + 1)
    &&& v.active matches Some(a) ==> next.contains(a) && !v.locked.contains(a)
}

/// In a graph numbered in order, the node with id `i` stands at index `i`.
proof fn lemma_index_is_id(g: Seq<NodeView>, i: int)
    requires
        numbered_forward(g),
        0 <= i < g.len(),
    ensures
        index_of_id(g, i as NodeId) == i,
{
    assert(g[i].id == i);
    let j = index_of_id(g, i as NodeId);
    assert(g[j].id == j);
}

proof fn lemma_boss_columns_step(shape: ContractShape, column: int)
    requires
        column >= 0,
    ensures
        boss_columns_below(shape, column).finite(),
        boss_columns_below(shape, column + 1).finite(),
        zones_before(shape, column + 1) == zones_before(shape, column) + (if is_boss_column(shape, column) {
            1nat
        } else {
            0nat
        }),
{
    let below = boss_columns_below(shape, column);
    let upto = boss_columns_below(shape, column + 1);
    assert(below.subset_of(vstd::set_lib::set_int_range(0, column)));
    vstd::set_lib::lemma_int_range(0, column);
    vstd::set_lib::lemma_len_subset(below, vstd::set_lib::set_int_range(0, column));
    if is_boss_column(shape, column) {
        assert(upto =~= below.insert(column));
    } else {
        assert(upto =~= below);
    }
}

/// In a generated contract, a boss sits at depth `depth` exactly when that
/// depth is one of the shape's boss columns.
proof fn lemma_boss_depth(g: Seq<NodeView>, shape: ContractShape, first: Seq<int>, depth: int)
    requires
        numbered_forward(g),
        laid_out(g, shape, first),
        0 <= depth < first.len() - 1,
    ensures
        is_boss_depth(g, 0, depth) <==> is_boss_column(shape, depth),
{
    if is_boss_column(shape, depth) {
        assert(column_width(first, depth) == 1);
        let i = first[depth];
        assert(in_column(first, depth, i));
        assert(0 <= i < g.len()) by {
            if depth > 0 {
                assert(first[0] < first[depth]);
            }
            if depth + 1 < first.len() - 1 {
                assert(first[depth + 1] < first[first.len() - 1]);
            }
        }
        assert(generated_type_fits(shape, depth, g[i]));
        law_generated_depth_is_column(g, shape, first, depth, i);
        assert(g[i].id == i);
        assert(g[i].encounter_type is Boss && depth_of(g, 0, g[i].id) == depth);
    }
    if is_boss_depth(g, 0, depth) {
        let i = choose|i: int| 0 <= i < g.len() && (#[trigger] g[i]).encounter_type is Boss && depth_of(g, 0, g[i].id) == depth;
        let c = lemma_some_column(first, i);
        law_generated_depth_is_column(g, shape, first, c, i);
        assert(g[i].id == i);
        assert(c == depth);
        assert(generated_type_fits(shape, c, g[i]));
        if !is_boss_column(shape, c) {
            if c != 0 && g[i].next.len() != 0 {
                assert(is_rolled(g[i].encounter_type));
                let roll = choose|roll: u8| roll < 100 && g[i].encounter_type == rolled_type(roll);
                assert(false);
            }
        }
    }
}

/// A node of a generated contract is past as many zones as there are boss
/// columns before its own.
pub proof fn lemma_zone_of_column(g: Seq<NodeView>, shape: ContractShape, first: Seq<int>, column: int, i: int)
    requires
        numbered_forward(g),
        laid_out(g, shape, first),
        in_column(first, column, i),
    ensures
        zone_of(g, 0, i as NodeId) == zones_before(shape, column),
{
    law_generated_depth_is_column(g, shape, first, column, i);
    assert forall|d: int| #[trigger] bosses_before(g, 0, i as NodeId).contains(d) <==> boss_columns_below(shape, column).contains(d) by {
        if 0 <= d < column {
            lemma_boss_depth(g, shape, first, d);
        }
    }
    assert(bosses_before(g, 0, i as NodeId) =~= boss_columns_below(shape, column));
}

/// A fresh generated contract is the start of a walk, in the entry column.
pub proof fn law_a_fresh_contract_starts_the_walk(v: ContractView, shape: ContractShape, first: Seq<int>)
    requires
        laid_out(v.nodes, shape, first),
        numbered_forward(v.nodes),
        v.start == 0,
        v.current == 0,
        v.locked.len() == 0,
        v.active is None,
        v.completed.len() == 0,
        v.unlocked_zones == 0,
    ensures
        walk_state(v, shape, first, 0, seq![0]),
{
    let g = v.nodes;
    assert(column_width(first, 0) == 1);
    assert(in_column(first, 0, 0));
    assert(first[0] < first[first.len() - 1]);
    if 2 < first.len() {
        assert(g[0].next.len() >= 1);
        assert(g[0].next.contains(g[0].next[0]));
        assert(!v.locked.contains(g[0].next[0]));
    }
    assert(boss_columns_below(shape, 1) =~= Set::<int>::empty());
}

/// Committing to an offered encounter keeps the walk where it is, with the
/// chosen encounter under way.
pub proof fn law_selecting_keeps_the_walk(
    v: ContractView,
    after: ContractView,
    shape: ContractShape,
    first: Seq<int>,
    column: int,
    path: Seq<NodeId>,
    requested: NodeId,
)
    requires
        walk_state(v, shape, first, column, path),
        v.option_outcome(requested) is Ok,
        v.after_selecting(after, requested),
    ensures
        walk_state(after, shape, first, column, path),
        after.active == Some(requested),
{
    let g = v.nodes;
    let cur = v.current as int;
    lemma_index_is_id(g, cur);
    let next = g[cur].next;
    assert(v.node(v.current) == g[cur]);
    assert(next.contains(requested));
    assert(!after.locked.contains(requested));
    if column + 2 < first.len() {
        assert forall|l: NodeId| #[trigger] after.locked.contains(l) implies (l as int) < first[column + 2] by {
            if !v.locked.contains(l) {
                assert(next.contains(l));
                let k = next.index_of(l);
                assert(in_column(first, column, cur));
                assert(in_column(first, column + 1, next[k] as int));
            }
        }
        assert(next.contains(requested) && !after.locked.contains(requested));
    }
}

/// Completing the encounter under way moves the walk on one column, onto
/// that encounter. Beating a boss opens one more zone, but the boss closes
/// the zone it guards: the player stands in the next zone only once they
/// step on from the boss.
pub proof fn law_completing_moves_the_walk_on(
    v: ContractView,
    after: ContractView,
    shape: ContractShape,
    first: Seq<int>,
    column: int,
    path: Seq<NodeId>,
)
    requires
        walk_state(v, shape, first, column, path),
        v.active is Some,
        v.after_completing(after),
    ensures
        walk_state(after, shape, first, column + 1, path.push(v.active->0)),
        after.unlocked_zones == v.unlocked_zones + (if is_boss_column(shape, column + 1) { 1nat } else { 0nat }),
        after.zone(after.current) == v.zone(v.current) + (if is_boss_column(shape, column) { 1nat } else { 0nat }),
{
    let g = v.nodes;
    let cur = v.current as int;
    let done = v.active->0;
    let next = g[cur].next;
    assert(next.contains(done));
    let k = next.index_of(done);
    assert(in_column(first, column + 1, next[k] as int));
    let d = done as int;
    assert(in_column(first, column + 1, d));
    assert(0 <= d < g.len()) by {
        assert(first[0] <= first[column + 1]) by {
            if column + 1 > 0 {
                assert(first[0] < first[column + 1]);
            }
        }
        assert(first[column + 2] <= first[first.len() - 1]) by {
            if column + 2 < first.len() - 1 {
                assert(first[column + 2] < first[first.len() - 1]);
            }
        }
    }
    lemma_index_is_id(g, d);
    assert(v.node(done) == g[d]);
    lemma_zone_of_column(g, shape, first, column + 1, d);
    assert(v.zone(done) == zones_before(shape, column + 1));
    lemma_boss_columns_step(shape, column + 1);
    lemma_boss_columns_step(shape, column);
    assert(0 <= cur < g.len()) by {
        if column > 0 {
            assert(first[0] < first[column]);
        }
        assert(first[column + 1] < first[first.len() - 1]);
    }
    lemma_index_is_id(g, cur);
    lemma_zone_of_column(g, shape, first, column, cur);
    assert(v.zone(v.current) == zones_before(shape, column));
    assert(generated_type_fits(shape, column + 1, g[d]));
    lemma_boss_depth(g, shape, first, column + 1);
    if g[d].encounter_type is Boss {
        if !is_boss_column(shape, column + 1) {
            if g[d].next.len() != 0 {
                let roll = choose|roll: u8| roll < 100 && g[d].encounter_type == rolled_type(roll);
            }
        }
    } else {
        if is_boss_column(shape, column + 1) {
            assert(g[d].encounter_type == EncounterType::Boss);
        }
    }
    let next_after = g[d].next;
    if column + 3 < first.len() {
        assert forall|l: NodeId| #[trigger] after.locked.contains(l) implies (l as int) < first[column + 3] by {
            assert(first[column + 2] < first[column + 3]);
        }
        assert(next_after.len() >= 1);
        let y = next_after[0];
        assert(in_column(first, column + 2, y as int));
        assert(next_after.contains(y));
        if after.locked.contains(y) {
            assert((y as int) < first[column + 2]);
        }
    }
    let walked = path.push(done);
    assert(walked[column + 1] == done);
    assert forall|c: int| 0 <= c <= column + 1 implies in_column(first, c, #[trigger] walked[c] as int) by {
        if c <= column {
            assert(walked[c] == path[c]);
        }
    }
    assert forall|id: NodeId| #[trigger] after.completed.contains(id) <==> (column + 1 >= 1 && walked.contains(id)) by {
        if walked.contains(id) {
            let k = walked.index_of(id);
            if k <= column {
                assert(path[k] == id);
            }
        }
        if path.contains(id) {
            let k = path.index_of(id);
            assert(walked[k] == id);
        }
        if id == done {
            assert(walked[column + 1] == id);
        }
        if id == v.current {
            assert(path[column] == id);
        }
    }
}

/// Failing the encounter under way leaves the walk where it was, with the
/// same way on still open.
pub proof fn law_failing_keeps_the_walk(
    v: ContractView,
    shape: ContractShape,
    first: Seq<int>,
    column: int,
    path: Seq<NodeId>,
)
    requires
        walk_state(v, shape, first, column, path),
        v.active is Some,
    ensures
        walk_state(ContractView { active: None, ..v }, shape, first, column, path),
{
}

/// A walk never strands the player: with no encounter under way, something
/// is on offer exactly while the player is short of the last column, and
/// the last column holds only the final node.
pub proof fn law_the_walk_never_strands_the_player(
    v: ContractView,
    shape: ContractShape,
    first: Seq<int>,
    column: int,
    path: Seq<NodeId>,
)
    requires
        walk_state(v, shape, first, column, path),
        v.active is None,
    ensures
        v.selectable().len() > 0 <==> column + 2 < first.len(),
        column + 2 == first.len() <==> v.current == v.nodes.len() - 1,
{
    let g = v.nodes;
    let cur = v.current as int;
    let n = first.len() - 1;
    assert(first[n] == g.len());
    assert(0 <= cur < g.len()) by {
        if column > 0 {
            assert(first[0] < first[column]);
        }
        if column + 1 < n {
            assert(first[column + 1] < first[n]);
        }
    }
    lemma_index_is_id(g, cur);
    assert(v.node(v.current) == g[cur]);
    let next = g[cur].next;
    let is_open = |id: NodeId| v.is_open(id);
    assert(v.selectable() == next.filter(is_open));
    if column + 2 < first.len() {
        let y = choose|y: NodeId| #[trigger] next.contains(y) && !v.locked.contains(y);
        let k = next.index_of(y);
        assert(in_column(first, column + 1, next[k] as int));
        let yi = y as int;
        assert(0 <= yi < g.len()) by {
            if column + 2 < n {
                assert(first[column + 2] < first[n]);
            }
            if column + 1 > 0 {
                assert(first[0] < first[column + 1]);
            }
        }
        lemma_index_is_id(g, yi);
        lemma_zone_of_column(g, shape, first, column + 1, yi);
        assert(v.zone(y) == zones_before(shape, column + 1));
        assert(is_open(next[k]));
        next.filter_lemma(is_open);
        assert(next.filter(is_open).contains(next[k]));
        assert(cur < first[column + 1]);
        assert(first[column + 1] < first[n]) by {
            if column + 1 < n {
                assert(first[column + 1] < first[n]);
            }
        }
    } else {
        assert(column == n - 1);
        if next.len() > 0 {
            assert(in_column(first, column + 1, next[0] as int));
        }
        assert(next.filter(is_open) =~= Seq::<NodeId>::empty()) by {
            next.filter_lemma(is_open);
        }
    }
    law_generated_nothing_stranded(g, shape, first, cur);
}

/// Keeping only some items of a sequence with no repeats leaves none.
proof fn lemma_filter_keeps_distinct(s: Seq<NodeId>, p: spec_fn(NodeId) -> bool)
    requires
        s.no_duplicates(),
    ensures
        s.filter(p).no_duplicates(),
    decreases s.len(),
{
    if s.len() > 0 {
        let t = s.drop_last();
        let x = s.last();
        assert(s =~= t.push(x));
        lemma_filter_keeps_distinct(t, p);
        t.lemma_filter_push(x, p);
        if p(x) {
            let f = t.filter(p);
            if f.contains(x) {
                t.lemma_filter_contains_rev(p, x);
                let k = t.index_of(x);
                assert(s[k] == s[s.len() - 1]);
            }
            assert forall|i: int, j: int| 0 <= i < j < f.push(x).len() implies f.push(x)[i] != f.push(x)[j] by {
                if j == f.len() {
                    assert(f.contains(f[i]));
                }
            }
        }
    }
}

/// A walk has completed one encounter per column it has moved on, the
/// entry not counting. So a walk that has reached the last column has
/// completed as many encounters as `progress` counts in all: every one.
#[verifier::spinoff_prover]
#[verifier::rlimit(40)]
pub proof fn law_a_finished_walk_completes_the_contract(
    v: ContractView,
    shape: ContractShape,
    first: Seq<int>,
    column: int,
    path: Seq<NodeId>,
)
    requires
        v.wf(),
        walk_state(v, shape, first, column, path),
    ensures
        completed_count(v) == column,
        column + 2 == first.len() ==> forall|total: nat| #[trigger] is_greatest_depth(v, total) ==> completed_count(v)
            == total,
{
    let g = v.nodes;
    let pred = |id: NodeId| counts_as_completed(v, id);
    let f = v.completed.filter(pred);
    let rest = path.drop_first();
    let n = first.len() - 1;
    assert(v.completed.no_duplicates()) by {
        assert forall|i: int, j: int| 0 <= i < v.completed.len() && 0 <= j < v.completed.len() && i != j implies
            v.completed[i] != v.completed[j] by {
            if i < j {
                assert(v.completed[i] < v.completed[j]);
            } else {
                assert(v.completed[j] < v.completed[i]);
            }
        }
    }
    lemma_filter_keeps_distinct(v.completed, pred);
    f.unique_seq_to_set();
    assert(rest.no_duplicates()) by {
        assert forall|i: int, j: int| 0 <= i < rest.len() && 0 <= j < rest.len() && i != j implies rest[i] != rest[j] by {
            assert(rest[i] == path[i + 1] && rest[j] == path[j + 1]);
            assert(in_column(first, i + 1, path[i + 1] as int));
            assert(in_column(first, j + 1, path[j + 1] as int));
            if rest[i] == rest[j] {
                lemma_one_column(first, i + 1, j + 1, path[i + 1] as int);
            }
        }
    }
    rest.unique_seq_to_set();
    assert forall|id: NodeId| #[trigger] f.contains(id) <==> rest.contains(id) by {
        if f.contains(id) {
            v.completed.lemma_filter_contains_rev(pred, id);
            let q = f.index_of(id);
            v.completed.lemma_filter_pred(pred, q);
            let k = path.index_of(id);
            if k == 0 {
                assert(path[0] == v.start);
            }
            assert(rest[k - 1] == id);
        }
        if rest.contains(id) {
            let k = rest.index_of(id) + 1;
            assert(path[k] == id);
            let i = id as int;
            assert(in_column(first, k, i));
            assert(0 < i < g.len()) by {
                assert(first[0] < first[k]);
                if k + 1 < n {
                    assert(first[k + 1] < first[n]);
                }
            }
            lemma_index_is_id(g, i);
            assert(g[i].id == id);
            assert(has_node(g, id));
            assert(generated_type_fits(shape, k, g[i]));
            if is_rolled(g[i].encounter_type) {
                let roll = choose|roll: u8| roll < 100 && g[i].encounter_type == rolled_type(roll);
            }
            assert(pred(id));
            assert(path.contains(id));
            assert(v.completed.contains(id));
            let q = v.completed.index_of(id);
            v.completed.lemma_filter_contains(pred, q);
        }
    }
    assert(f.to_set() =~= rest.to_set());
    assert(completed_count(v) == f.len());
    if column + 2 == first.len() {
        law_generated_length(g, shape, first);
        assert forall|total: nat| #[trigger] is_greatest_depth(v, total) implies completed_count(v) == total by {
            let i = choose|i: int| 0 <= i < v.nodes.len() && total == v.depth(#[trigger] v.nodes[i].id);
            let last = g.len() - 1;
            assert(g[last].id == last);
            assert(v.depth(g[last].id) <= total);
        }
    }
}

} // verus!
