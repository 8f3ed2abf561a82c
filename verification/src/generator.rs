//! The generator: builds a default "select any level" adventure that lays
//! every successfully loaded level out on one horizontal line, a road between
//! each pair of consecutive nodes.

use vstd::prelude::*;

use crate::adventure::Adventure;
use crate::adventure::AdventureNode;
use crate::adventure::DetailsModel;
use crate::adventure::ElemModel;
use crate::adventure::MapElement;
use crate::adventure::NodeDetails;
use crate::adventure::entries_map;
use crate::adventure::keys_distinct;
use crate::adventure::lemma_entries_map_dom;
use crate::adventure::lemma_entries_map_index;
use crate::pos::Pos;

verus! {

/// Entry count of the line layout: none for no levels, else one node per
/// level and one road between each consecutive pair.
pub open spec fn layout_len(n: nat) -> nat {
    if n == 0 {
        0
    } else {
        (2 * n - 1) as nat
    }
}

/// The element standing at x-coordinate `j` of the line: even coordinates
/// hold the nodes, odd coordinates the roads between them.
pub open spec fn layout_elem(names: Seq<Seq<char>>, j: int) -> ElemModel {
    if j % 2 == 0 {
        ElemModel::Node { name: names[j / 2], details: DetailsModel::Level(names[j / 2]) }
    } else {
        ElemModel::Road
    }
}

/// The whole line, in generation order: node 0, road, node 1, road, node 2…
/// all on row zero.
pub open spec fn layout_seq(names: Seq<Seq<char>>) -> Seq<(Pos, ElemModel)> {
    Seq::new(
        layout_len(names.len()),
        |j: int| (Pos { x: j as i32, y: 0 }, layout_elem(names, j)),
    )
}

/// The names that survive loading, in their original order.
pub open spec fn survivors(names: Seq<Seq<char>>, ok: Seq<bool>) -> Seq<Seq<char>>
    recommends
        names.len() == ok.len(),
    decreases names.len(),
{
    if names.len() == 0 || ok.len() == 0 {
        Seq::empty()
    } else {
        survivors(names.drop_last(), ok.drop_last()) + (if ok.last() {
            seq![names.last()]
        } else {
            Seq::empty()
        })
    }
}

/// How many load outcomes succeeded.
pub open spec fn count_true(ok: Seq<bool>) -> nat
    decreases ok.len(),
{
    if ok.len() == 0 {
        0
    } else {
        count_true(ok.drop_last()) + (if ok.last() {
            1nat
        } else {
            0nat
        })
    }
}

/// How many entries hold a node.
pub open spec fn count_nodes(es: Seq<(Pos, ElemModel)>) -> nat
    decreases es.len(),
{
    if es.len() == 0 {
        0
    } else {
        count_nodes(es.drop_last()) + (if es.last().1 is Node {
            1nat
        } else {
            0nat
        })
    }
}

/// How many entries hold a road.
pub open spec fn count_roads(es: Seq<(Pos, ElemModel)>) -> nat
    decreases es.len(),
{
    if es.len() == 0 {
        0
    } else {
        count_roads(es.drop_last()) + (if es.last().1 is Road {
            1nat
        } else {
            0nat
        })
    }
}

/// The line over `n` names holds exactly `n` nodes and `max(n − 1, 0)` roads.
pub proof fn lemma_layout_counts(names: Seq<Seq<char>>)
    ensures
        count_nodes(layout_seq(names)) == names.len(),
        count_roads(layout_seq(names)) == if names.len() == 0 {
            0nat
        } else {
            (names.len() - 1) as nat
        },
    decreases names.len(),
{
    reveal_with_fuel(count_nodes, 3);
    reveal_with_fuel(count_roads, 3);
    let l = layout_seq(names);
    if names.len() == 0 {
        assert(l =~= Seq::<(Pos, ElemModel)>::empty());
    } else if names.len() == 1 {
        assert(l.drop_last() =~= Seq::<(Pos, ElemModel)>::empty());
        assert(l.last().1 is Node);
    } else {
        lemma_layout_counts(names.drop_last());
        let lp = layout_seq(names.drop_last());
        assert(l.drop_last().drop_last() =~= lp);
        assert(l.last().1 is Node) by {
            assert((2 * names.len() - 2) % 2 == 0);
        }
        assert(l.drop_last().last().1 is Road) by {
            assert(l.drop_last().last() == l[l.len() - 2]);
            assert((2 * names.len() - 3) % 2 == 1);
        }
    }
}

/// Keep the names whose load succeeded, in order: a failed name is excluded
/// before any index is assigned, never skipped in place.
#[verifier::loop_isolation(false)]
pub fn surviving_levels(level_names: &Vec<String>, loaded: &Vec<bool>) -> (r: Vec<String>)
    requires
        level_names.len() == loaded.len(),
    ensures
        r.deep_view() == survivors(level_names.deep_view(), loaded@),
        r.len() <= level_names.len(),
{
    let n = level_names.len();
    let mut r: Vec<String> = Vec::new();
    let mut i: usize = 0;
    while i < n
        invariant
            n == level_names.len(),
            n == loaded.len(),
            i <= n,
            r.len() <= i,
            r.deep_view() == survivors(
                level_names.deep_view().take(i as int),
                loaded@.take(i as int),
            ),
        decreases n - i,
    {
        let ghost r0 = r.deep_view();
        if loaded[i] {
            r.push(level_names[i].clone());
            proof {
                assert(r.deep_view() =~= r0 + seq![level_names.deep_view()[i as int]]);
            }
        }
        proof {
            let nv = level_names.deep_view();
            assert(nv.take(i + 1).drop_last() =~= nv.take(i as int));
            assert(loaded@.take(i + 1).drop_last() =~= loaded@.take(i as int));
            assert(nv.take(i + 1).last() == nv[i as int]);
            assert(loaded@.take(i + 1).last() == loaded@[i as int]);
            if !loaded@[i as int] {
                assert(r.deep_view() =~= r0 + Seq::<Seq<char>>::empty());
            }
            assert(r.deep_view() == survivors(nv.take(i + 1), loaded@.take(i + 1)));
        }
        i += 1;
    }
    proof {
        assert(level_names.deep_view().take(n as int) =~= level_names.deep_view());
        assert(loaded@.take(n as int) =~= loaded@);
    }
    r
}

/// Lay the given level names out on one line: the node for level `i` at
/// position `(2·i, 0)`, named after the level and opening it, and a road at
/// `(2·i − 1, 0)` between each pair of consecutive nodes.
#[verifier::loop_isolation(false)]
pub fn build_level_line(names: &Vec<String>) -> (a: Adventure)
    requires
        names.len() <= 0x3fffffff,
    ensures
        a.wf(),
        a.entry_seq() == layout_seq(names.deep_view()),
        a@ == entries_map(layout_seq(names.deep_view())),
{
    let ghost model = names.deep_view();
    let n = names.len();
    let mut a = Adventure::new();
    let mut i: usize = 0;
    while i < n
        invariant
            n == names.len(),
            i <= n,
            a.wf(),
            model == names.deep_view(),
            model.len() == n,
            a.entry_seq() == layout_seq(model.take(i as int)),
        decreases n - i,
    {
        proof {
            lemma_entries_map_dom(a.entry_seq());
            assert forall|k: int| 0 <= k < a.entry_seq().len() implies (
            #[trigger] a.entry_seq()[k]).0.x == k as i32 && a.entry_seq()[k].0.y == 0 by {
                assert(a.entry_seq()[k] == layout_seq(model.take(i as int))[k]);
            }
        }
        let ghost a0 = a;
        if i > 0 {
            let road_pos = Pos::new((2 * i - 1) as i32, 0);
            proof {
                if a@.dom().contains(road_pos) {
                    let k = choose|k: int|
                        0 <= k < a.entry_seq().len() && (#[trigger] a.entry_seq()[k]).0 == road_pos;
                    assert(a.entry_seq()[k].0.x == k as i32);
                }
            }
            a.insert(road_pos, MapElement::Road);
        }
        let ghost a1 = a;
        let name = names[i].clone();
        let node = MapElement::Node(
            AdventureNode { name: name.clone(), details: NodeDetails::Level(name) },
        );
        let node_pos = Pos::new((2 * i) as i32, 0);
        proof {
            lemma_entries_map_dom(a1.entry_seq());
            if a1@.dom().contains(node_pos) {
                let k = choose|k: int|
                    0 <= k < a1.entry_seq().len() && (#[trigger] a1.entry_seq()[k]).0 == node_pos;
                if i > 0 && k == a1.entry_seq().len() - 1 {
                    assert(a1.entry_seq()[k].0.x == (2 * i - 1) as i32);
                } else {
                    assert(a1.entry_seq()[k] == a0.entry_seq()[k]);
                    assert(a1.entry_seq()[k].0.x == k as i32);
                }
            }
        }
        a.insert(node_pos, node);
        proof {
            assert(model.take(i + 1)[i as int] == model[i as int]);
            assert(a.entry_seq() =~= layout_seq(model.take(i + 1)));
        }
        i += 1;
    }
    proof {
        assert(model.take(n as int) =~= model);
    }
    a
}

/// Build the default adventure from the discovered level names and their
/// load outcomes: a level whose load failed is excluded — logged and skipped
/// by the caller, never fatal — and the survivors are laid out on one line.
pub fn create_default_adventure(level_names: &Vec<String>, loaded: &Vec<bool>) -> (a: Adventure)
    requires
        level_names.len() == loaded.len(),
        level_names.len() <= 0x3fffffff,
    ensures
        a.wf(),
        a.entry_seq() == layout_seq(survivors(level_names.deep_view(), loaded@)),
        a@ == entries_map(layout_seq(survivors(level_names.deep_view(), loaded@))),
{
    let sv = surviving_levels(level_names, loaded);
    build_level_line(&sv)
}

/// Stride law: the line over `n` names has `2·n − 1` entries for `n ≥ 1` and
/// none for `n = 0`; entry `j` sits at position `(j, 0)`, holding the node
/// for name `j / 2` when `j` is even and a road when `j` is odd — so the
/// nodes stand at `(0,0), (2,0), …, (2(n−1), 0)` and the roads between them
/// at `(1,0), (3,0), …, (2n−3, 0)`. With `n` bounded so the coordinates fit,
/// the positions are distinct and the mapping holds exactly `2·n − 1` keys.
pub proof fn lemma_generator_stride(names: Seq<Seq<char>>)
    requires
        names.len() <= 0x3fffffff,
    ensures
        layout_seq(names).len() == layout_len(names.len()),
        names.len() == 0 ==> layout_seq(names).len() == 0,
        names.len() >= 1 ==> layout_seq(names).len() == 2 * names.len() - 1,
        forall|j: int|
            0 <= j < layout_seq(names).len() ==> (#[trigger] layout_seq(names)[j]) == (
            Pos { x: j as i32, y: 0 },
            if j % 2 == 0 {
                ElemModel::Node {
                    name: names[j / 2],
                    details: DetailsModel::Level(names[j / 2]),
                }
            } else {
                ElemModel::Road
            },
        ),
        keys_distinct(layout_seq(names)),
        entries_map(layout_seq(names)).dom().len() == layout_len(names.len()),
        count_nodes(layout_seq(names)) == names.len(),
        count_roads(layout_seq(names)) == if names.len() == 0 {
            0nat
        } else {
            (names.len() - 1) as nat
        },
{
    lemma_layout_counts(names);
    let l = layout_seq(names);
    assert(keys_distinct(l)) by {
        assert forall|i: int, j: int| 0 <= i < j < l.len() implies (#[trigger] l[i]).0 != (
        #[trigger] l[j]).0 by {
            assert(l[i].0.x == i as i32 && l[j].0.x == j as i32);
        }
    }
    lemma_entries_map_index(l);
}

/// Whether `v` is one of the given names whose load succeeded.
pub open spec fn is_survivor(names: Seq<Seq<char>>, ok: Seq<bool>, v: Seq<char>) -> bool {
    exists|i: int| 0 <= i < names.len() && #[trigger] ok[i] && names[i] == v
}

/// Resilience law: however many loads fail, the line holds exactly one node
/// per successful load — the survivors are renumbered contiguously, and each
/// surviving name is one of the given names whose load succeeded.
pub proof fn lemma_generator_resilience(names: Seq<Seq<char>>, ok: Seq<bool>)
    requires
        names.len() == ok.len(),
    ensures
        survivors(names, ok).len() == count_true(ok),
        count_true(ok) <= names.len(),
        layout_seq(survivors(names, ok)).len() == layout_len(count_true(ok)),
        count_nodes(layout_seq(survivors(names, ok))) == count_true(ok),
        forall|j: int|
            0 <= j < survivors(names, ok).len() ==> is_survivor(
                names,
                ok,
                #[trigger] survivors(names, ok)[j],
            ),
    decreases names.len(),
{
    lemma_layout_counts(survivors(names, ok));
    if names.len() == 0 {
    } else {
        lemma_generator_resilience(names.drop_last(), ok.drop_last());
        let pre = survivors(names.drop_last(), ok.drop_last());
        assert forall|j: int| 0 <= j < survivors(names, ok).len() implies is_survivor(
            names,
            ok,
            #[trigger] survivors(names, ok)[j],
        ) by {
            if j < pre.len() {
                assert(is_survivor(names.drop_last(), ok.drop_last(), pre[j]));
                let i = choose|i: int|
                    0 <= i < names.drop_last().len() && #[trigger] ok.drop_last()[i]
                        && names.drop_last()[i] == pre[j];
                assert(survivors(names, ok)[j] == pre[j]);
                assert(ok[i] && names[i] == survivors(names, ok)[j]);
            } else {
                assert(ok.last());
                assert(survivors(names, ok)[j] == names.last());
                let i = names.len() - 1;
                assert(0 <= i < names.len() && ok[i] && names[i] == survivors(names, ok)[j]);
            }
        }
    }
}

} // verus!
